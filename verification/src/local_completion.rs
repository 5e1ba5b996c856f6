//! Completion candidates from the bindings of the enclosing function.

use vstd::prelude::*;
use vstd::utf8::encode_utf8;

use crate::chars::same_text;
use crate::facts::{LocalBinding, LocalBindingKind};
use crate::model::ScopeTier;
use crate::order::{
    in_order, is_text_before, sort_stable, stable_sort, stable_sort_is_in_order,
    stable_sort_is_permutation, stable_sort_maps, stable_sort_takes_from, strict_weak, text_before,
    text_before_is_total, text_before_is_transitive, Order, Ordered,
};
use crate::resolver::{pack_score, packed};
use crate::text::{
    byte_offset_at, completion_word_score, position_index, utf8_offset, word_score,
};

verus! {

#[derive(Debug, Clone, PartialEq, Eq)]
pub struct LocalCompletionCandidate {
    pub name: String,
    pub kind: LocalBindingKind,
    pub detail: String,
    pub score: i32,
    pub match_score: i32,
    pub decl_start_byte: usize,
}

/// A candidate with its texts as sequences.
pub struct LocalHit {
    pub name: Seq<char>,
    pub kind: LocalBindingKind,
    pub detail: Seq<char>,
    pub score: int,
    pub match_score: int,
    pub decl: int,
}

impl View for LocalCompletionCandidate {
    type V = LocalHit;

    open spec fn view(&self) -> LocalHit {
        LocalHit {
            name: self.name@,
            kind: self.kind,
            detail: self.detail@,
            score: self.score as int,
            match_score: self.match_score as int,
            decl: self.decl_start_byte as int,
        }
    }
}

pub open spec fn local_hits(s: Seq<LocalCompletionCandidate>) -> Seq<LocalHit> {
    s.map_values(|c: LocalCompletionCandidate| c@)
}

/// A binding is offered at a byte: the byte is inside its function, behind the
/// declaration. Blocks play no part: what an inner block declared is offered
/// behind it too.
pub open spec fn offered_at(b: LocalBinding, byte: int) -> bool {
    b.function_start_byte < byte <= b.function_end_byte && b.decl_start_byte < byte
}

fn is_offered_at(binding: &LocalBinding, byte: usize) -> (r: bool)
    ensures
        r == offered_at(*binding, byte as int),
{
    binding.function_start_byte < byte && byte <= binding.function_end_byte
        && binding.decl_start_byte < byte
}

/// A name at a byte can mean a binding: the binding is offered there, and the
/// byte is inside its block.
pub open spec fn visible_at(b: LocalBinding, byte: int) -> bool {
    offered_at(b, byte) && b.scope_start_byte < byte <= b.scope_end_byte
}

/// Whether a name at a byte can mean a binding. This is for the word under a
/// cursor, which block scope decides; completion itself offers every binding
/// of the function that is declared before the cursor.
pub fn local_binding_visible_for_completion(binding: &LocalBinding, byte: usize) -> (r: bool)
    ensures
        r == visible_at(*binding, byte as int),
{
    is_offered_at(binding, byte) && binding.scope_start_byte < byte && byte
        <= binding.scope_end_byte
}

pub open spec fn role_label(kind: LocalBindingKind) -> Seq<char> {
    match kind {
        LocalBindingKind::Parameter => "parameter"@,
        LocalBindingKind::LocalVariable => "local"@,
        LocalBindingKind::LocalType => "type"@,
    }
}

/// The role of a binding, with its type where one is known.
pub open spec fn binding_detail(b: LocalBinding) -> Seq<char> {
    match b.type_text {
        Some(t) if t@.len() > 0 => role_label(b.kind) + ": "@ + t@,
        _ => role_label(b.kind),
    }
}

fn local_binding_detail(binding: &LocalBinding) -> (r: String)
    ensures
        r@ == binding_detail(*binding),
{
    let role = match binding.kind {
        LocalBindingKind::Parameter => "parameter",
        LocalBindingKind::LocalVariable => "local",
        LocalBindingKind::LocalType => "type",
    };
    let mut out = role.to_owned();
    match &binding.type_text {
        Some(type_text) => {
            if !same_text(type_text.as_str(), "") {
                out.append(": ");
                out.append(type_text.as_str());
            }
            proof {
                reveal_strlit("");
                assert((type_text@ =~= ""@) == (type_text@.len() == 0));
            }
        },
        None => {},
    }
    out
}

/// The candidate that a binding gives for a prefix.
pub open spec fn local_hit(b: LocalBinding, prefix: Seq<char>, byte: int) -> Option<LocalHit> {
    match word_score(encode_utf8(prefix), encode_utf8(b.name@)) {
        Some(score) if offered_at(b, byte) => Some(
            LocalHit {
                name: b.name@,
                kind: b.kind,
                detail: binding_detail(b),
                score: packed(ScopeTier::Current, score, 0),
                match_score: score,
                decl: b.decl_start_byte as int,
            },
        ),
        _ => None,
    }
}

/// The candidates of the first `n` bindings.
pub open spec fn hits_below(
    bindings: Seq<LocalBinding>,
    prefix: Seq<char>,
    byte: int,
    n: int,
) -> Seq<LocalHit>
    decreases n,
{
    if n <= 0 {
        Seq::empty()
    } else {
        match local_hit(bindings[n - 1], prefix, byte) {
            Some(hit) => hits_below(bindings, prefix, byte, n - 1).push(hit),
            None => hits_below(bindings, prefix, byte, n - 1),
        }
    }
}

/// Better matches first, then later declarations, then by name.
pub struct LocalOrder;

impl Order<LocalHit> for LocalOrder {
    open spec fn before(a: LocalHit, b: LocalHit) -> bool {
        if a.score != b.score {
            a.score > b.score
        } else if a.decl != b.decl {
            a.decl > b.decl
        } else {
            text_before(a.name, b.name)
        }
    }
}

impl Order<LocalCompletionCandidate> for LocalOrder {
    open spec fn before(a: LocalCompletionCandidate, b: LocalCompletionCandidate) -> bool {
        <LocalOrder as Order<LocalHit>>::before(a@, b@)
    }
}

impl Ordered<LocalCompletionCandidate> for LocalOrder {
    fn is_before(a: &LocalCompletionCandidate, b: &LocalCompletionCandidate) -> (r: bool) {
        if a.score != b.score {
            a.score > b.score
        } else if a.decl_start_byte != b.decl_start_byte {
            a.decl_start_byte > b.decl_start_byte
        } else {
            is_text_before(a.name.as_str(), b.name.as_str())
        }
    }
}

pub open spec fn name_taken(s: Seq<LocalHit>, name: Seq<char>) -> bool {
    exists|i: int| 0 <= i < s.len() && (#[trigger] s[i]).name == name
}

/// The first hit of each name among the first `n`.
pub open spec fn first_of_name(s: Seq<LocalHit>, n: int) -> Seq<LocalHit>
    decreases n,
{
    if n <= 0 {
        Seq::empty()
    } else if name_taken(first_of_name(s, n - 1), s[n - 1].name) {
        first_of_name(s, n - 1)
    } else {
        first_of_name(s, n - 1).push(s[n - 1])
    }
}

/// No more than `limit` hits.
pub open spec fn limited(s: Seq<LocalHit>, limit: int) -> Seq<LocalHit> {
    if s.len() > limit {
        s.subrange(0, limit)
    } else {
        s
    }
}

/// The candidates of a cursor at `byte`, best first, each name once.
pub open spec fn local_candidates(
    bindings: Seq<LocalBinding>,
    prefix: Seq<char>,
    byte: int,
    limit: int,
) -> Seq<LocalHit> {
    let sorted = stable_sort::<LocalHit, LocalOrder>(
        hits_below(bindings, prefix, byte, bindings.len() as int),
    );
    limited(first_of_name(sorted, sorted.len() as int), limit)
}

/// Parameters and earlier declarations of the enclosing function that a
/// prefix can complete to. A later declaration hides an earlier one of its
/// name that matches no better.
pub fn local_completion_candidates(
    bindings: &[LocalBinding],
    text: &str,
    line: u32,
    character: u32,
    prefix: &str,
    limit: usize,
) -> (r: Vec<LocalCompletionCandidate>)
    ensures
        local_hits(r@) == local_candidates(
            bindings@,
            prefix@,
            utf8_offset(text@, position_index(text@, line as int, character as int)) as int,
            limit as int,
        ),
{
    let byte: usize = byte_offset_at(text, line, character);
    let mut hits: Vec<LocalCompletionCandidate> = Vec::new();
    let mut i: usize = 0;
    assert(local_hits(hits@) =~= Seq::empty());
    while i < bindings.len()
        invariant
            i <= bindings@.len(),
            local_hits(hits@) == hits_below(bindings@, prefix@, byte as int, i as int),
        decreases bindings@.len() - i,
    {
        let binding = &bindings[i];
        if is_offered_at(binding, byte) {
            match completion_word_score(prefix, binding.name.as_str(), 0) {
                Some(base_match) => {
                    let ghost before = local_hits(hits@);
                    let hit = LocalCompletionCandidate {
                        name: binding.name.clone(),
                        kind: binding.kind,
                        detail: local_binding_detail(binding),
                        score: pack_score(ScopeTier::Current, base_match, 0),
                        match_score: base_match,
                        decl_start_byte: binding.decl_start_byte,
                    };
                    hits.push(hit);
                    assert(local_hits(hits@) =~= before.push(hit@));
                },
                None => {},
            }
        }
        i = i + 1;
    }
    proof {
        stable_sort_maps::<LocalCompletionCandidate, LocalHit, LocalOrder, LocalOrder>(
            hits@,
            |c: LocalCompletionCandidate| c@,
        );
    }
    sort_stable::<LocalCompletionCandidate, LocalOrder>(&mut hits);
    dedup_by_name_keep_first(&hits, limit)
}

fn dedup_by_name_keep_first(hits: &Vec<LocalCompletionCandidate>, limit: usize) -> (r: Vec<
    LocalCompletionCandidate,
>)
    ensures
        local_hits(r@) == limited(
            first_of_name(local_hits(hits@), hits@.len() as int),
            limit as int,
        ),
{
    let ghost all = local_hits(hits@);
    let mut out: Vec<LocalCompletionCandidate> = Vec::new();
    let mut i: usize = 0;
    assert(local_hits(out@) =~= Seq::empty());
    while i < hits.len()
        invariant
            i <= hits@.len(),
            all == local_hits(hits@),
            local_hits(out@) == first_of_name(all, i as int),
        decreases hits@.len() - i,
    {
        let hit = &hits[i];
        assert(all[i as int] == hit@);
        let mut taken = false;
        let mut j: usize = 0;
        while j < out.len() && !taken
            invariant
                j <= out@.len(),
                taken ==> name_taken(local_hits(out@), hit@.name),
                !taken ==> forall|k: int|
                    0 <= k < j ==> (#[trigger] local_hits(out@)[k]).name != hit@.name,
            decreases out@.len() - j + if taken {
                0int
            } else {
                1int
            },
        {
            assert(local_hits(out@)[j as int] == out@[j as int]@);
            if same_text(out[j].name.as_str(), hit.name.as_str()) {
                taken = true;
            } else {
                j = j + 1;
            }
        }
        if !taken {
            let ghost before = local_hits(out@);
            let copy = LocalCompletionCandidate {
                name: hit.name.clone(),
                kind: hit.kind,
                detail: hit.detail.clone(),
                score: hit.score,
                match_score: hit.match_score,
                decl_start_byte: hit.decl_start_byte,
            };
            out.push(copy);
            assert(local_hits(out@) =~= before.push(hit@));
        }
        i = i + 1;
    }
    let ghost whole = local_hits(out@);
    if out.len() > limit {
        out.truncate(limit);
        assert(local_hits(out@) =~= whole.subrange(0, limit as int));
    }
    out
}

// ---------------------------------------------------------------------------
// Laws

/// Each name stands for one candidate, and it is the first of its name in the
/// order of candidates.
pub proof fn local_names_are_unique(s: Seq<LocalHit>, n: int)
    requires
        0 <= n <= s.len(),
    ensures
        forall|i: int, j: int|
            0 <= i < j < first_of_name(s, n).len() ==> (#[trigger] first_of_name(s, n)[i]).name != (
            #[trigger] first_of_name(s, n)[j]).name,
        forall|k: int|
            0 <= k < n ==> name_taken(first_of_name(s, n), (#[trigger] s[k]).name),
    decreases n,
{
    if n > 0 {
        local_names_are_unique(s, n - 1);
        let before = first_of_name(s, n - 1);
        let now = first_of_name(s, n);
        assert forall|k: int| 0 <= k < n implies name_taken(now, (#[trigger] s[k]).name) by {
            if k < n - 1 {
                assert(name_taken(before, s[k].name));
                let i = choose|i: int| 0 <= i < before.len() && (#[trigger] before[i]).name
                    == s[k].name;
                assert(now[i] == before[i]);
            } else if !name_taken(before, s[n - 1].name) {
                assert(now[before.len() as int].name == s[n - 1].name);
            }
        }
        assert forall|i: int, j: int| 0 <= i < j < now.len() implies (#[trigger] now[i]).name != (
        #[trigger] now[j]).name by {
            assert(now[i] == before[i]);
            if j < before.len() {
                assert(now[j] == before[j]);
            }
        }
    }
}

/// Local completion offers each name once, and no more candidates than asked
/// for.
pub proof fn local_completion_offers_each_name_once(
    bindings: Seq<LocalBinding>,
    prefix: Seq<char>,
    byte: int,
    limit: int,
    i: int,
    j: int,
)
    requires
        0 <= limit,
        0 <= i < j < local_candidates(bindings, prefix, byte, limit).len(),
    ensures
        local_candidates(bindings, prefix, byte, limit).len() <= limit,
        local_candidates(bindings, prefix, byte, limit)[i].name != local_candidates(
            bindings,
            prefix,
            byte,
            limit,
        )[j].name,
{
    let sorted = stable_sort::<LocalHit, LocalOrder>(
        hits_below(bindings, prefix, byte, bindings.len() as int),
    );
    local_names_are_unique(sorted, sorted.len() as int);
    let unique = first_of_name(sorted, sorted.len() as int);
    assert(unique[i].name != unique[j].name);
}

/// The order of candidates is a strict weak order.
pub proof fn local_order_is_strict_weak()
    ensures
        strict_weak::<LocalHit, LocalOrder>(),
{
    assert forall|a: LocalHit, b: LocalHit| <LocalOrder as Order<LocalHit>>::before(
        a,
        b,
    ) implies !#[trigger] <LocalOrder as Order<LocalHit>>::before(b, a) by {
        text_before_is_total(a.name, b.name);
    }
    assert forall|a: LocalHit, b: LocalHit, c: LocalHit|
        !(#[trigger] <LocalOrder as Order<LocalHit>>::before(a, b)) && !(
        #[trigger] <LocalOrder as Order<LocalHit>>::before(
            b,
            c,
        )) implies !<LocalOrder as Order<LocalHit>>::before(a, c) by {
        let (x, y, z) = (a.name, b.name, c.name);
        text_before_is_total(x, y);
        text_before_is_total(y, z);
        text_before_is_total(x, z);
        if text_before(y, x) && text_before(z, y) {
            text_before_is_transitive(z, y, x);
        }
    }
}

/// The names of hits.
pub open spec fn names_of(s: Seq<LocalHit>) -> Set<Seq<char>> {
    s.map_values(|h: LocalHit| h.name).to_set()
}

/// `h` is the candidate of one of the bindings.
pub open spec fn comes_from_binding(
    bindings: Seq<LocalBinding>,
    prefix: Seq<char>,
    byte: int,
    h: LocalHit,
) -> bool {
    exists|k: int|
        0 <= k < bindings.len() && local_hit(#[trigger] bindings[k], prefix, byte) == Some(h)
}

proof fn hits_facts(bindings: Seq<LocalBinding>, prefix: Seq<char>, byte: int, n: int)
    requires
        0 <= n <= bindings.len(),
    ensures
        forall|i: int|
            0 <= i < hits_below(bindings, prefix, byte, n).len() ==> comes_from_binding(
                bindings,
                prefix,
                byte,
                #[trigger] hits_below(bindings, prefix, byte, n)[i],
            ),
        forall|k: int|
            0 <= k < n && local_hit(#[trigger] bindings[k], prefix, byte) is Some ==> hits_below(
                bindings,
                prefix,
                byte,
                n,
            ).contains(local_hit(bindings[k], prefix, byte)->0),
    decreases n,
{
    if n > 0 {
        hits_facts(bindings, prefix, byte, n - 1);
        let before = hits_below(bindings, prefix, byte, n - 1);
        let now = hits_below(bindings, prefix, byte, n);
        assert forall|i: int| 0 <= i < now.len() implies comes_from_binding(
            bindings,
            prefix,
            byte,
            #[trigger] now[i],
        ) by {
            if i < before.len() {
                assert(now[i] == before[i]);
            } else {
                assert(local_hit(bindings[n - 1], prefix, byte) == Some(now[i]));
            }
        }
        assert forall|k: int|
            0 <= k < n && local_hit(
                #[trigger] bindings[k],
                prefix,
                byte,
            ) is Some implies now.contains(local_hit(bindings[k], prefix, byte)->0) by {
            let h = local_hit(bindings[k], prefix, byte)->0;
            if k < n - 1 {
                let i = choose|i: int| 0 <= i < before.len() && before[i] == h;
                assert(now[i] == h);
            } else {
                assert(now[before.len() as int] == h);
            }
        }
    }
}

/// The first hits of their names stand in the order of the hits, and before all
/// others of their name.
proof fn first_hits(s: Seq<LocalHit>, n: int)
    requires
        0 <= n <= s.len(),
        in_order::<LocalHit, LocalOrder>(s),
    ensures
        ({
            let f = first_of_name(s, n);
            &&& forall|i: int|
                0 <= i < f.len() ==> s.subrange(0, n).contains(#[trigger] f[i])
            &&& forall|i: int, j: int|
                0 <= i < j < f.len() ==> !<LocalOrder as Order<LocalHit>>::before(
                    #[trigger] f[j],
                    #[trigger] f[i],
                )
            &&& forall|i: int, k: int|
                0 <= i < f.len() && 0 <= k < n && (#[trigger] s[k]).name == (
                #[trigger] f[i]).name ==> s[k] == f[i] || !<LocalOrder as Order<
                    LocalHit,
                >>::before(s[k], f[i])
        }),
    decreases n,
{
    if n > 0 {
        first_hits(s, n - 1);
        let before = first_of_name(s, n - 1);
        let f = first_of_name(s, n);
        let x = s[n - 1];
        local_names_are_unique(s, n - 1);
        assert(s.subrange(0, n) =~= s.subrange(0, n - 1).push(x));
        assert forall|i: int| 0 <= i < before.len() implies (exists|p: int|
            0 <= p < n - 1 && s[p] == #[trigger] before[i]) by {
            assert(s.subrange(0, n - 1).contains(before[i]));
            let p = choose|p: int| 0 <= p < n - 1 && #[trigger] s.subrange(0, n - 1)[p] == before[i];
            assert(s[p] == before[i]);
        }
        assert forall|i: int| 0 <= i < f.len() implies s.subrange(0, n).contains(
            #[trigger] f[i],
        ) by {
            if i < before.len() {
                let p = choose|p: int| 0 <= p < n - 1 && s[p] == before[i];
                assert(s.subrange(0, n)[p] == f[i]);
            } else {
                assert(s.subrange(0, n)[n - 1] == f[i]);
            }
        }
        assert forall|i: int, j: int| 0 <= i < j < f.len() implies !<LocalOrder as Order<
            LocalHit,
        >>::before(#[trigger] f[j], #[trigger] f[i]) by {
            assert(f[i] == before[i]);
            if j < before.len() {
                assert(f[j] == before[j]);
            } else {
                let p = choose|p: int| 0 <= p < n - 1 && s[p] == before[i];
                assert(!<LocalOrder as Order<LocalHit>>::before(s[n - 1], s[p]));
            }
        }
        assert forall|i: int, k: int|
            0 <= i < f.len() && 0 <= k < n && (#[trigger] s[k]).name == (
            #[trigger] f[i]).name implies s[k] == f[i] || !<LocalOrder as Order<
            LocalHit,
        >>::before(s[k], f[i]) by {
            if i < before.len() {
                assert(f[i] == before[i]);
                if k == n - 1 {
                    let p = choose|p: int| 0 <= p < n - 1 && s[p] == before[i];
                    assert(!<LocalOrder as Order<LocalHit>>::before(s[n - 1], s[p]));
                }
            } else if k < n - 1 {
                assert(name_taken(before, s[k].name));
            }
        }
    }
}

/// Local completion offers of every name that it finds the latest declaration,
/// better matches first and later declarations before earlier ones, up to its
/// limit.
pub proof fn local_completion_keeps_the_latest(
    bindings: Seq<LocalBinding>,
    prefix: Seq<char>,
    byte: int,
    limit: int,
)
    requires
        0 <= limit,
    ensures
        ({
            let r = local_candidates(bindings, prefix, byte, limit);
            let found = names_of(hits_below(bindings, prefix, byte, bindings.len() as int)).len();
            &&& r.len() == if found < limit {
                found as int
            } else {
                limit
            }
            &&& forall|i: int|
                0 <= i < r.len() ==> comes_from_binding(bindings, prefix, byte, #[trigger] r[i])
            &&& forall|i: int, k: int|
                0 <= i < r.len() && 0 <= k < bindings.len() && (#[trigger] r[i]).name == (
                #[trigger] bindings[k]).name@ && local_hit(bindings[k], prefix, byte) is Some
                    ==> bindings[k].decl_start_byte <= r[i].decl
            &&& forall|i: int, j: int|
                0 <= i < j < r.len() ==> (#[trigger] r[i]).match_score >= (
                #[trigger] r[j]).match_score && (r[i].match_score == r[j].match_score
                    ==> r[i].decl >= r[j].decl)
        }),
{
    broadcast use vstd::seq_lib::group_to_multiset_ensures;

    let n = bindings.len() as int;
    let all = hits_below(bindings, prefix, byte, n);
    let sorted = stable_sort::<LocalHit, LocalOrder>(all);
    let len = sorted.len() as int;
    let f = first_of_name(sorted, len);
    let r = local_candidates(bindings, prefix, byte, limit);
    hits_facts(bindings, prefix, byte, n);
    local_order_is_strict_weak();
    stable_sort_is_in_order::<LocalHit, LocalOrder>(all);
    stable_sort_is_permutation::<LocalHit, LocalOrder>(all);
    first_hits(sorted, len);
    local_names_are_unique(sorted, len);
    assert(sorted.subrange(0, len) =~= sorted);
    assert forall|i: int| 0 <= i < f.len() implies comes_from_binding(
        bindings,
        prefix,
        byte,
        #[trigger] f[i],
    ) by {
        let p = choose|p: int| 0 <= p < len && sorted[p] == f[i];
        stable_sort_takes_from::<LocalHit, LocalOrder>(all, p);
        let m = choose|m: int| 0 <= m < all.len() && all[m] == sorted[p];
        assert(comes_from_binding(bindings, prefix, byte, all[m]));
    }
    assert forall|i: int, k: int|
        0 <= i < f.len() && 0 <= k < bindings.len() && (#[trigger] f[i]).name == (
        #[trigger] bindings[k]).name@ && local_hit(
            bindings[k],
            prefix,
            byte,
        ) is Some implies bindings[k].decl_start_byte <= f[i].decl by {
        let h = local_hit(bindings[k], prefix, byte)->0;
        assert(all.contains(h));
        assert(all.to_multiset().count(h) > 0);
        assert(sorted.contains(h));
        let p = choose|p: int| 0 <= p < len && sorted[p] == h;
        assert(sorted[p].name == f[i].name);
        let m = choose|m: int|
            0 <= m < bindings.len() && local_hit(#[trigger] bindings[m], prefix, byte) == Some(
                f[i],
            );
        assert(h.score == f[i].score);
    }
    assert forall|i: int, j: int| 0 <= i < j < f.len() implies (#[trigger] f[i]).match_score >= (
    #[trigger] f[j]).match_score && (f[i].match_score == f[j].match_score ==> f[i].decl
        >= f[j].decl) by {
        assert(!<LocalOrder as Order<LocalHit>>::before(f[j], f[i]));
        assert(comes_from_binding(bindings, prefix, byte, f[i]));
        assert(comes_from_binding(bindings, prefix, byte, f[j]));
    }
    assert(f.len() == names_of(all).len()) by {
        let name = |h: LocalHit| h.name;
        let (a, b) = (all.map_values(name), f.map_values(name));
        assert(b.no_duplicates()) by {
            assert forall|i: int, j: int|
                0 <= i < b.len() && 0 <= j < b.len() && i != j implies b[i] != b[j] by {
                if i < j {
                    assert(f[i].name != f[j].name);
                } else {
                    assert(f[j].name != f[i].name);
                }
            }
        }
        b.unique_seq_to_set();
        assert(a.to_set() =~= b.to_set()) by {
            assert forall|x: Seq<char>| a.to_set().contains(x) implies b.to_set().contains(x) by {
                let m = choose|m: int| 0 <= m < a.len() && a[m] == x;
                assert(all.contains(all[m]));
                assert(all.to_multiset().count(all[m]) > 0);
                assert(sorted.contains(all[m]));
                let p = choose|p: int| 0 <= p < len && sorted[p] == all[m];
                assert(name_taken(f, sorted[p].name));
                let i = choose|i: int| 0 <= i < f.len() && (#[trigger] f[i]).name == x;
                assert(b[i] == x);
            }
            assert forall|x: Seq<char>| b.to_set().contains(x) implies a.to_set().contains(x) by {
                let i = choose|i: int| 0 <= i < b.len() && b[i] == x;
                assert(sorted.contains(f[i]));
                let p = choose|p: int| 0 <= p < len && sorted[p] == f[i];
                stable_sort_takes_from::<LocalHit, LocalOrder>(all, p);
                let m = choose|m: int| 0 <= m < all.len() && all[m] == sorted[p];
                assert(a[m] == x);
            }
        }
    }
    assert forall|i: int| 0 <= i < r.len() implies #[trigger] r[i] == f[i] by {}
}

} // verus!
