//! Which local declaration a cursor refers to.

use vstd::prelude::*;
use vstd::utf8::encode_utf8;

use crate::chars::same_text;
use crate::facts::{
    CursorSyntax, FileSemanticIndex, LocalBinding, LocalBindingKind, LocalBindingNamespace,
    LookupDomain,
};
use crate::local_completion::{local_binding_visible_for_completion, visible_at};

verus! {

#[derive(Debug, Clone, PartialEq, Eq, Structural)]
pub struct LocalBindingRef {
    pub document_version: i32,
    pub binding_index: usize,
    pub declaration_byte: usize,
    pub scope_start_byte: usize,
    pub scope_end_byte: usize,
}

#[derive(Debug, Clone, Copy, PartialEq, Eq, Structural)]
pub enum BindingReason {
    NoLocalBinding,
    LocalKindMismatch,
    DedicatedDomain,
}

#[derive(Debug, Clone, PartialEq, Eq)]
pub enum BindingResolution<T> {
    Resolved(T),
    Ambiguous(Vec<T>),
    UnresolvedWithinDomain { domain: LookupDomain, reason: BindingReason },
    Unsupported { domain_hint: LookupDomain },
}

/// A resolution with its alternatives as a sequence.
pub enum Resolution<T> {
    Resolved(T),
    Ambiguous(Seq<T>),
    UnresolvedWithinDomain { domain: LookupDomain, reason: BindingReason },
    Unsupported { domain_hint: LookupDomain },
}

impl<T> View for BindingResolution<T> {
    type V = Resolution<T>;

    open spec fn view(&self) -> Resolution<T> {
        match *self {
            BindingResolution::Resolved(t) => Resolution::Resolved(t),
            BindingResolution::Ambiguous(v) => Resolution::Ambiguous(v@),
            BindingResolution::UnresolvedWithinDomain {
                domain,
                reason,
            } => Resolution::UnresolvedWithinDomain { domain, reason },
            BindingResolution::Unsupported { domain_hint } => Resolution::Unsupported {
                domain_hint,
            },
        }
    }
}

/// A place and a word at a cursor.
pub struct Cursor {
    pub word: Seq<char>,
    pub tag: bool,
    pub byte: int,
}

/// The byte stands on the declared name.
pub open spec fn on_declaration(b: LocalBinding, byte: int) -> bool {
    b.decl_start_byte <= byte && (byte <= b.decl_start_byte + encode_utf8(b.name@).len())
}

/// The binding is one that the cursor may refer to.
pub open spec fn in_view(b: LocalBinding, c: Cursor) -> bool {
    b.name@ == c.word && b.namespace == (if c.tag {
        LocalBindingNamespace::Tag
    } else {
        LocalBindingNamespace::Ordinary
    }) && (on_declaration(b, c.byte) || visible_at(b, c.byte))
}

/// The binding is in view, and no other in view is declared later.
pub open spec fn is_latest(bindings: Seq<LocalBinding>, c: Cursor, i: int) -> bool {
    in_view(bindings[i], c) && forall|j: int|
        0 <= j < bindings.len() && in_view(#[trigger] bindings[j], c)
            ==> bindings[j].decl_start_byte <= bindings[i].decl_start_byte
}

pub open spec fn declared_conditionally(index: FileSemanticIndex, b: LocalBinding) -> bool {
    match index.cursor.fact_from(b.decl_start_byte, 0) {
        Some(fact) => fact.conditional,
        None => false,
    }
}

/// A reference to binding `i`.
pub open spec fn ref_to(b: LocalBinding, i: int, version: i32) -> LocalBindingRef {
    LocalBindingRef {
        document_version: version,
        binding_index: i as usize,
        declaration_byte: b.decl_start_byte,
        scope_start_byte: b.scope_start_byte,
        scope_end_byte: b.scope_end_byte,
    }
}

/// References to the latest bindings among the first `n`.
pub open spec fn latest_refs(
    bindings: Seq<LocalBinding>,
    c: Cursor,
    version: i32,
    n: int,
) -> Seq<LocalBindingRef>
    decreases n,
{
    if n <= 0 {
        Seq::empty()
    } else if is_latest(bindings, c, n - 1) {
        latest_refs(bindings, c, version, n - 1).push(ref_to(bindings[n - 1], n - 1, version))
    } else {
        latest_refs(bindings, c, version, n - 1)
    }
}

pub open spec fn names_type(domain: LookupDomain) -> bool {
    domain == LookupDomain::Type || domain == LookupDomain::Tag
}

/// The resolution of a word in a domain that local bindings serve.
pub open spec fn bound(
    index: FileSemanticIndex,
    domain: LookupDomain,
    c: Cursor,
    version: i32,
) -> Resolution<LocalBindingRef> {
    let all = index.local_bindings@;
    if exists|i: int|
        0 <= i < all.len() && in_view(#[trigger] all[i], c) && declared_conditionally(
            index,
            all[i],
        ) {
        Resolution::Unsupported { domain_hint: domain }
    } else if forall|i: int| 0 <= i < all.len() ==> !in_view(#[trigger] all[i], c) {
        Resolution::UnresolvedWithinDomain { domain, reason: BindingReason::NoLocalBinding }
    } else if exists|i: int|
        0 <= i < all.len() && is_latest(all, c, i) && names_type(domain) != ((
        #[trigger] all[i]).kind == LocalBindingKind::LocalType) {
        Resolution::UnresolvedWithinDomain { domain, reason: BindingReason::LocalKindMismatch }
    } else {
        let refs = latest_refs(all, c, version, all.len() as int);
        if refs.len() == 1 {
            Resolution::Resolved(refs[0])
        } else {
            Resolution::Ambiguous(refs)
        }
    }
}

/// The local declaration that a word at a cursor refers to.
pub open spec fn local_resolution(
    index: FileSemanticIndex,
    domain: LookupDomain,
    word: Seq<char>,
    byte: int,
    version: i32,
) -> Resolution<LocalBindingRef> {
    match domain {
        LookupDomain::NonCode | LookupDomain::Unsupported => Resolution::Unsupported {
            domain_hint: domain,
        },
        LookupDomain::Member | LookupDomain::Label => Resolution::UnresolvedWithinDomain {
            domain,
            reason: BindingReason::DedicatedDomain,
        },
        LookupDomain::QualifiedValue | LookupDomain::QualifiedType =>
            Resolution::UnresolvedWithinDomain { domain, reason: BindingReason::NoLocalBinding },
        _ => bound(
            index,
            domain,
            Cursor { word, tag: domain == LookupDomain::Tag, byte },
            version,
        ),
    }
}

fn is_in_view(
    binding: &LocalBinding,
    word: &str,
    tag: bool,
    byte: usize,
) -> (r: bool)
    ensures
        r == in_view(*binding, Cursor { word: word@, tag, byte: byte as int }),
{
    let namespace = if tag {
        LocalBindingNamespace::Tag
    } else {
        LocalBindingNamespace::Ordinary
    };
    let at_declaration = binding.decl_start_byte <= byte && byte - binding.decl_start_byte
        <= binding.name.as_str().as_bytes().len();
    same_text(binding.name.as_str(), word) && binding.namespace == namespace && (at_declaration
        || local_binding_visible_for_completion(binding, byte))
}

/// What a word at a cursor refers to among the local bindings. A declaration
/// under conditional compilation proves nothing, so it is not resolved.
pub fn resolve_local_cursor(
    index: &FileSemanticIndex,
    syntax: &CursorSyntax,
    word: &str,
    byte: usize,
    version: i32,
) -> (r: BindingResolution<LocalBindingRef>)
    ensures
        r@ == local_resolution(*index, syntax.domain, word@, byte as int, version),
{
    let domain = syntax.domain;
    match domain {
        LookupDomain::NonCode | LookupDomain::Unsupported => {
            return BindingResolution::Unsupported { domain_hint: domain };
        },
        LookupDomain::Member | LookupDomain::Label => {
            return BindingResolution::UnresolvedWithinDomain {
                domain,
                reason: BindingReason::DedicatedDomain,
            };
        },
        LookupDomain::QualifiedValue | LookupDomain::QualifiedType => {
            return BindingResolution::UnresolvedWithinDomain {
                domain,
                reason: BindingReason::NoLocalBinding,
            };
        },
        _ => {},
    }
    let tag = domain == LookupDomain::Tag;
    let ghost c = Cursor { word: word@, tag, byte: byte as int };
    let ghost all = index.local_bindings@;
    let mut last: usize = 0;
    let mut any = false;
    let mut i: usize = 0;
    while i < index.local_bindings.len()
        invariant
            i <= all.len(),
            all == index.local_bindings@,
            domain == syntax.domain,
            c == (Cursor { word: word@, tag, byte: byte as int }),
            tag == (domain == LookupDomain::Tag),
            local_resolution(*index, domain, word@, byte as int, version) == bound(
                *index,
                domain,
                c,
                version,
            ),
            forall|k: int|
                0 <= k < i && in_view(#[trigger] all[k], c) ==> any && all[k].decl_start_byte
                    <= last && !declared_conditionally(*index, all[k]),
            any ==> exists|k: int|
                0 <= k < i && in_view(#[trigger] all[k], c) && all[k].decl_start_byte == last,
        decreases all.len() - i,
    {
        let binding = &index.local_bindings[i];
        if is_in_view(binding, word, tag, byte) {
            match index.cursor.at(binding.decl_start_byte) {
                Some(fact) => {
                    if fact.conditional {
                        assert(in_view(all[i as int], c) && declared_conditionally(
                            *index,
                            all[i as int],
                        ));
                        return BindingResolution::Unsupported { domain_hint: domain };
                    }
                },
                None => {},
            }
            if !any || binding.decl_start_byte > last {
                last = binding.decl_start_byte;
                assert(in_view(all[i as int], c) && all[i as int].decl_start_byte == last);
            }
            any = true;
        }
        i = i + 1;
    }
    if !any {
        return BindingResolution::UnresolvedWithinDomain {
            domain,
            reason: BindingReason::NoLocalBinding,
        };
    }
    let type_use = domain == LookupDomain::Type || domain == LookupDomain::Tag;
    let mut matching: Vec<LocalBindingRef> = Vec::new();
    i = 0;
    let ghost top = choose|k: int|
        0 <= k < all.len() && in_view(#[trigger] all[k], c) && all[k].decl_start_byte == last;
    assert(in_view(all[top], c));
    while i < index.local_bindings.len()
        invariant
            i <= all.len(),
            all == index.local_bindings@,
            domain == syntax.domain,
            c == (Cursor { word: word@, tag, byte: byte as int }),
            local_resolution(*index, domain, word@, byte as int, version) == bound(
                *index,
                domain,
                c,
                version,
            ),
            forall|k: int|
                0 <= k < all.len() && in_view(#[trigger] all[k], c) ==> all[k].decl_start_byte
                    <= last && !declared_conditionally(*index, all[k]),
            0 <= top < all.len(),
            in_view(all[top], c),
            all[top].decl_start_byte == last,
            type_use == names_type(domain),
            matching@ == latest_refs(all, c, version, i as int),
            forall|k: int|
                0 <= k < i && is_latest(all, c, k) ==> type_use == ((#[trigger] all[k]).kind
                    == LocalBindingKind::LocalType),
        decreases all.len() - i,
    {
        let binding = &index.local_bindings[i];
        let latest = is_in_view(binding, word, tag, byte) && binding.decl_start_byte == last;
        assert(latest == is_latest(all, c, i as int));
        if latest {
            if type_use != (binding.kind == LocalBindingKind::LocalType) {
                assert(names_type(domain) != (all[i as int].kind == LocalBindingKind::LocalType));
                return BindingResolution::UnresolvedWithinDomain {
                    domain,
                    reason: BindingReason::LocalKindMismatch,
                };
            }
            matching.push(
                LocalBindingRef {
                    document_version: version,
                    binding_index: i,
                    declaration_byte: binding.decl_start_byte,
                    scope_start_byte: binding.scope_start_byte,
                    scope_end_byte: binding.scope_end_byte,
                },
            );
        }
        i = i + 1;
    }
    if matching.len() == 1 {
        BindingResolution::Resolved(matching.remove(0))
    } else {
        BindingResolution::Ambiguous(matching)
    }
}

/// A resolved reference names a binding of the file that the cursor sees, with
/// no later one in view.
pub proof fn resolved_is_latest(
    index: FileSemanticIndex,
    domain: LookupDomain,
    word: Seq<char>,
    byte: int,
    version: i32,
)
    requires
        index.local_bindings@.len() <= usize::MAX,
        local_resolution(index, domain, word, byte, version) is Resolved,
    ensures
        ({
            let r = local_resolution(index, domain, word, byte, version)->Resolved_0;
            let c = Cursor { word, tag: domain == LookupDomain::Tag, byte };
            &&& r.binding_index < index.local_bindings@.len()
            &&& is_latest(index.local_bindings@, c, r.binding_index as int)
            &&& r.document_version == version
            &&& r.declaration_byte
                == index.local_bindings@[r.binding_index as int].decl_start_byte
        }),
{
    let c = Cursor { word, tag: domain == LookupDomain::Tag, byte };
    let all = index.local_bindings@;
    refs_are_latest(all, c, version, all.len() as int);
}

proof fn refs_are_latest(all: Seq<LocalBinding>, c: Cursor, version: i32, n: int)
    requires
        0 <= n <= all.len() <= usize::MAX,
    ensures
        forall|k: int|
            0 <= k < latest_refs(all, c, version, n).len() ==> {
                let r = #[trigger] latest_refs(all, c, version, n)[k];
                &&& r.binding_index < n
                &&& is_latest(all, c, r.binding_index as int)
                &&& r == ref_to(all[r.binding_index as int], r.binding_index as int, version)
            },
    decreases n,
{
    if n > 0 {
        refs_are_latest(all, c, version, n - 1);
        let short = latest_refs(all, c, version, n - 1);
        let whole = latest_refs(all, c, version, n);
        assert forall|k: int| 0 <= k < whole.len() implies ({
            let r = #[trigger] whole[k];
            &&& r.binding_index < n
            &&& is_latest(all, c, r.binding_index as int)
            &&& r == ref_to(all[r.binding_index as int], r.binding_index as int, version)
        }) by {
            if k < short.len() {
                assert(whole[k] == short[k]);
            } else {
                assert(whole[k] == ref_to(all[n - 1], n - 1, version));
            }
        }
    }
}

} // verus!
