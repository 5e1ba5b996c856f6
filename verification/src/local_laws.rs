//! What the bindings of a function mean at a cursor, told by where they stand.

use vstd::prelude::*;
use vstd::utf8::encode_utf8;

use crate::cursor_binding::{
    declared_conditionally, in_view, is_latest, latest_refs, local_resolution, ref_to,
    BindingReason, Cursor, LocalBindingRef, Resolution,
};
use crate::facts::{
    FileSemanticIndex, LocalBinding, LocalBindingKind, LocalBindingNamespace, LookupDomain,
};
use crate::local_completion::{
    first_of_name, hits_below, local_candidates, local_hit, name_taken, LocalHit, LocalOrder,
};
use crate::order::{stable_sort, stable_sort_is_permutation};
use crate::text::word_score;

verus! {

// ---------------------------------------------------------------------------
// Completion

proof fn hit_is_listed(
    bindings: Seq<LocalBinding>,
    prefix: Seq<char>,
    byte: int,
    k: int,
    n: int,
)
    requires
        0 <= k < n <= bindings.len(),
        local_hit(bindings[k], prefix, byte) is Some,
    ensures
        hits_below(bindings, prefix, byte, n).contains(local_hit(bindings[k], prefix, byte)->0),
        hits_below(bindings, prefix, byte, n).len() <= n,
    decreases n,
{
    let h = local_hit(bindings[k], prefix, byte)->0;
    let before = hits_below(bindings, prefix, byte, n - 1);
    let now = hits_below(bindings, prefix, byte, n);
    hits_are_few(bindings, prefix, byte, n);
    if k < n - 1 {
        hit_is_listed(bindings, prefix, byte, k, n - 1);
        let w = choose|w: int| 0 <= w < before.len() && before[w] == h;
        assert(now[w] == h);
    } else {
        assert(now[now.len() - 1] == h);
    }
}

proof fn hits_are_few(bindings: Seq<LocalBinding>, prefix: Seq<char>, byte: int, n: int)
    requires
        0 <= n,
    ensures
        hits_below(bindings, prefix, byte, n).len() <= n,
    decreases n,
{
    if n > 0 {
        hits_are_few(bindings, prefix, byte, n - 1);
    }
}

proof fn name_is_kept(s: Seq<LocalHit>, j: int, n: int)
    requires
        0 <= j < n <= s.len(),
    ensures
        name_taken(first_of_name(s, n), s[j].name),
        first_of_name(s, n).len() <= n,
    decreases n,
{
    let before = first_of_name(s, n - 1);
    let now = first_of_name(s, n);
    if n > 1 {
        name_is_kept(s, 0, n - 1);
    }
    if j < n - 1 {
        name_is_kept(s, j, n - 1);
        let w = choose|w: int| 0 <= w < before.len() && (#[trigger] before[w]).name == s[j].name;
        assert(now[w].name == s[j].name);
    } else if !name_taken(before, s[j].name) {
        assert(now[now.len() - 1].name == s[j].name);
    }
}

/// Every binding of the function around the cursor that is declared before it
/// and matches is offered by its name, where the limit allows for all.
pub proof fn every_local_name_is_offered(
    bindings: Seq<LocalBinding>,
    prefix: Seq<char>,
    byte: int,
    limit: int,
    k: int,
)
    requires
        0 <= k < bindings.len() <= limit,
        bindings[k].function_start_byte < byte <= bindings[k].function_end_byte,
        bindings[k].decl_start_byte < byte,
        word_score(encode_utf8(prefix), encode_utf8(bindings[k].name@)) is Some,
    ensures
        name_taken(local_candidates(bindings, prefix, byte, limit), bindings[k].name@),
{
    broadcast use vstd::seq_lib::group_to_multiset_ensures;

    let n = bindings.len() as int;
    let all = hits_below(bindings, prefix, byte, n);
    let sorted = stable_sort::<LocalHit, LocalOrder>(all);
    let h = local_hit(bindings[k], prefix, byte)->0;
    hit_is_listed(bindings, prefix, byte, k, n);
    stable_sort_is_permutation::<LocalHit, LocalOrder>(all);
    assert(all.to_multiset().count(h) > 0);
    assert(sorted.contains(h));
    let j = choose|j: int| 0 <= j < sorted.len() && sorted[j] == h;
    name_is_kept(sorted, j, sorted.len() as int);
}

// ---------------------------------------------------------------------------
// Resolution

/// The place where a binding is declared, or a place in its function and its
/// block behind the declaration.
pub open spec fn sees(b: LocalBinding, byte: int) -> bool {
    let end = b.decl_start_byte + encode_utf8(b.name@).len();
    (b.decl_start_byte <= byte && byte <= end) || (b.function_start_byte < byte
        <= b.function_end_byte && b.decl_start_byte < byte && b.scope_start_byte < byte
        <= b.scope_end_byte)
}

/// The binding could be meant by the word in the domain.
pub open spec fn could_be_meant(
    b: LocalBinding,
    domain: LookupDomain,
    word: Seq<char>,
    byte: int,
) -> bool {
    &&& b.name@ == word
    &&& b.namespace == if domain == LookupDomain::Tag {
        LocalBindingNamespace::Tag
    } else {
        LocalBindingNamespace::Ordinary
    }
    &&& sees(b, byte)
}

/// A domain that the bindings of a function serve.
pub open spec fn is_local_domain(domain: LookupDomain) -> bool {
    domain == LookupDomain::Value || domain == LookupDomain::Type || domain
        == LookupDomain::Tag
}

proof fn one_is_latest(all: Seq<LocalBinding>, c: Cursor, version: i32, i: int, n: int)
    requires
        0 <= n <= all.len(),
        0 <= i < all.len(),
        forall|j: int| 0 <= j < all.len() ==> (is_latest(all, c, j) <==> j == i),
    ensures
        latest_refs(all, c, version, n) == if i < n {
            seq![ref_to(all[i], i, version)]
        } else {
            Seq::empty()
        },
    decreases n,
{
    if n > 0 {
        one_is_latest(all, c, version, i, n - 1);
        assert(is_latest(all, c, n - 1) <==> n - 1 == i);
        assert(latest_refs(all, c, version, n) =~= if i < n {
            seq![ref_to(all[i], i, version)]
        } else {
            Seq::empty()
        });
    }
}

/// A word means the binding of its name that is declared last before it, in
/// its block, whatever else is declared: where none of those that could be
/// meant stands under a condition, and the binding is a type exactly where one
/// is asked for.
pub proof fn last_declaration_is_meant(
    index: FileSemanticIndex,
    domain: LookupDomain,
    word: Seq<char>,
    byte: int,
    version: i32,
    i: int,
)
    requires
        is_local_domain(domain),
        0 <= i < index.local_bindings@.len(),
        could_be_meant(index.local_bindings@[i], domain, word, byte),
        forall|j: int|
            0 <= j < index.local_bindings@.len() && could_be_meant(
                #[trigger] index.local_bindings@[j],
                domain,
                word,
                byte,
            ) ==> !declared_conditionally(index, index.local_bindings@[j]) && (j != i
                ==> index.local_bindings@[j].decl_start_byte
                < index.local_bindings@[i].decl_start_byte),
        (index.local_bindings@[i].kind == LocalBindingKind::LocalType) == (domain
            != LookupDomain::Value),
    ensures
        local_resolution(index, domain, word, byte, version) == Resolution::Resolved(
            ref_to(index.local_bindings@[i], i, version),
        ),
{
    let all = index.local_bindings@;
    let c = Cursor { word, tag: domain == LookupDomain::Tag, byte };
    assert forall|j: int| 0 <= j < all.len() implies in_view(#[trigger] all[j], c)
        == could_be_meant(all[j], domain, word, byte) by {}
    assert(in_view(all[i], c));
    assert forall|j: int| 0 <= j < all.len() implies (is_latest(all, c, j) <==> j == i) by {
        assert(in_view(all[j], c) == could_be_meant(all[j], domain, word, byte));
    }
    one_is_latest(all, c, version, i, all.len() as int);
}

/// A word that no binding could be meant by is not resolved here.
pub proof fn unbound_word_is_not_resolved(
    index: FileSemanticIndex,
    domain: LookupDomain,
    word: Seq<char>,
    byte: int,
    version: i32,
)
    requires
        is_local_domain(domain),
        forall|j: int|
            0 <= j < index.local_bindings@.len() ==> !could_be_meant(
                #[trigger] index.local_bindings@[j],
                domain,
                word,
                byte,
            ),
    ensures
        local_resolution(index, domain, word, byte, version)
            == (Resolution::<LocalBindingRef>::UnresolvedWithinDomain {
            domain,
            reason: BindingReason::NoLocalBinding,
        }),
{
    let all = index.local_bindings@;
    let c = Cursor { word, tag: domain == LookupDomain::Tag, byte };
    assert forall|j: int| 0 <= j < all.len() implies !in_view(#[trigger] all[j], c) by {
        assert(!could_be_meant(all[j], domain, word, byte));
    }
}

} // verus!
