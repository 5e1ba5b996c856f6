//! What a table's history cannot change: searches see its active names alone.

use vstd::prelude::*;

use crate::chars::trim;
use crate::name_recall::active_count;
use crate::name_search::{
    all_slots, candidate, first, gate, hit_of, hits_of, looked_at, match_score, needle_of, placed,
    scored, scored_below, search_hits, top, unmatched_below, Context, Hit, Placed, ScoredCandidate,
    ScoredOrder,
};
use crate::name_segment::Name;
use crate::name_table::{count_true, fresh_table, updated, Table};
use crate::name_updates::{compaction_keeps_names, names_on, update_replaces_paths};
use crate::order::{
    stable_sort, stable_sort_agrees, stable_sort_is_permutation, stable_sort_maps,
    stable_sort_maps_permutation, stable_sort_takes_from, Order,
};
use crate::search_laws::{scopes_drop_nothing, slots_of};

verus! {

// ---------------------------------------------------------------------------
// Numbers of hits

proof fn unmatched_count(t: Table, ctx: Option<Context>, n: int)
    requires
        0 <= n,
    ensures
        unmatched_below(t, ctx, None, n).len() == count_true(t.active, n),
    decreases n,
{
    if n > 0 {
        unmatched_count(t, ctx, n - 1);
    }
}

/// A blank search finds every active name, up to its limit.
pub proof fn blank_search_finds_all(t: Table, ctx: Option<Context>, query: Seq<char>, limit: int)
    requires
        trim(query).len() == 0,
        0 <= limit,
    ensures
        search_hits(t, ctx, query, limit, None).len() == if limit < active_count(t) {
            limit
        } else {
            active_count(t)
        },
{
    let s = placed(t, scored(t, ctx, None, query, looked_at(t, None)));
    unmatched_count(t, ctx, t.slots.len() as int);
    stable_sort_is_permutation::<Placed, ScoredOrder>(s);
}

proof fn scored_count(t: Table, ctx: Option<Context>, needle: Seq<u8>, min: int, n: int)
    requires
        0 <= n <= t.slots.len() <= usize::MAX,
    ensures
        scored_below(t, ctx, None, needle, min, all_slots(t), n).len() <= count_true(t.active, n),
    decreases n,
{
    if n > 0 {
        scored_count(t, ctx, needle, min, n - 1);
        assert(all_slots(t)[n - 1] == (n - 1) as usize);
    }
}

/// The ids of hits.
pub open spec fn ids_of(s: Seq<Hit>) -> Seq<i64> {
    s.map_values(|h: Hit| h.id)
}

proof fn all_ids(t: Table, ctx: Option<Context>, query: Seq<char>, limit: int)
    requires
        t.slots.len() <= usize::MAX,
        active_count(t) <= limit,
    ensures
        ids_of(search_hits(t, ctx, query, limit, None)).to_multiset() == slots_of(
            scored(t, ctx, None, query, looked_at(t, None)),
        ).map_values(|i: usize| t.slots[i as int].id).to_multiset(),
{
    let c = scored(t, ctx, None, query, looked_at(t, None));
    let s = placed(t, c);
    let sorted = stable_sort::<Placed, ScoredOrder>(s);
    let f = |p: Placed| p.name.id;
    unmatched_count(t, ctx, t.slots.len() as int);
    scored_count(t, ctx, needle_of(query), gate(needle_of(query)), t.slots.len() as int);
    stable_sort_is_permutation::<Placed, ScoredOrder>(s);
    stable_sort_maps_permutation::<Placed, i64, ScoredOrder>(s, f);
    assert(top(s, limit) == sorted);
    assert(ids_of(hits_of(sorted)) =~= sorted.map_values(f));
    assert(s.map_values(f) =~= slots_of(c).map_values(|i: usize| t.slots[i as int].id));
}

/// A scope orders hits; where the limit covers the active names, it neither
/// adds nor drops any.
pub proof fn scopes_keep_every_id(
    t: Table,
    a: Option<Context>,
    b: Option<Context>,
    query: Seq<char>,
    limit: int,
)
    requires
        t.slots.len() <= usize::MAX,
        active_count(t) <= limit,
    ensures
        ids_of(search_hits(t, a, query, limit, None)).to_multiset() == ids_of(
            search_hits(t, b, query, limit, None),
        ).to_multiset(),
{
    all_ids(t, a, query, limit);
    all_ids(t, b, query, limit);
    scopes_drop_nothing(t, a, b, None, query, looked_at(t, None));
}

// ---------------------------------------------------------------------------
// Compaction

/// A name that a query finds, and how well.
pub open spec fn quality_of(query: Seq<char>, n: Name) -> Option<int> {
    if trim(query).len() == 0 {
        Some(0)
    } else {
        match match_score(needle_of(query), n.name) {
            Some(base) => if base >= gate(needle_of(query)) {
                Some(base)
            } else {
                None
            },
            None => None,
        }
    }
}

/// Slot `i` as a candidate of a search.
spec fn placed_at(t: Table, ctx: Option<Context>, query: Seq<char>, i: int) -> Placed {
    Placed {
        candidate: candidate(t, ctx, i, quality_of(query, t.slots[i])->0),
        name: t.slots[i],
    }
}

/// The candidates of the first `n` slots.
spec fn placed_below(t: Table, ctx: Option<Context>, query: Seq<char>, n: int) -> Seq<Placed>
    decreases n,
{
    if n <= 0 {
        Seq::empty()
    } else if t.active[n - 1] && quality_of(query, t.slots[n - 1]) is Some {
        placed_below(t, ctx, query, n - 1).push(placed_at(t, ctx, query, n - 1))
    } else {
        placed_below(t, ctx, query, n - 1)
    }
}

proof fn placed_below_is(t: Table, ctx: Option<Context>, query: Seq<char>, n: int)
    requires
        0 <= n <= t.slots.len() <= usize::MAX,
    ensures
        trim(query).len() == 0 ==> placed_below(t, ctx, query, n) == placed(
            t,
            unmatched_below(t, ctx, None, n),
        ),
        trim(query).len() > 0 ==> placed_below(t, ctx, query, n) == placed(
            t,
            scored_below(
                t,
                ctx,
                None,
                needle_of(query),
                gate(needle_of(query)),
                all_slots(t),
                n,
            ),
        ),
    decreases n,
{
    let needle = needle_of(query);
    if n > 0 {
        placed_below_is(t, ctx, query, n - 1);
        assert(all_slots(t)[n - 1] == (n - 1) as usize);
        let x = placed_at(t, ctx, query, n - 1);
        let a = unmatched_below(t, ctx, None, n - 1);
        let b = scored_below(t, ctx, None, needle, gate(needle), all_slots(t), n - 1);
        assert(placed(t, a.push(x.candidate)) =~= placed(t, a).push(x));
        assert(placed(t, b.push(x.candidate)) =~= placed(t, b).push(x));
    } else {
        assert(placed(t, Seq::<ScoredCandidate>::empty()) =~= Seq::<Placed>::empty());
    }
}

/// The candidates of the first `n` slots, each beside its candidate in the
/// compacted table.
spec fn beside(t: Table, ctx: Option<Context>, query: Seq<char>, n: int) -> Seq<(Placed, Placed)>
    decreases n,
{
    if n <= 0 {
        Seq::empty()
    } else if t.active[n - 1] && quality_of(query, t.slots[n - 1]) is Some {
        beside(t, ctx, query, n - 1).push(
            (
                placed_at(t, ctx, query, n - 1),
                placed_at(
                    fresh_table(t.names(), t.direct),
                    ctx,
                    query,
                    t.names_below(n - 1).len() as int,
                ),
            ),
        )
    } else {
        beside(t, ctx, query, n - 1)
    }
}

spec fn left() -> spec_fn((Placed, Placed)) -> Placed {
    |z: (Placed, Placed)| z.0
}

spec fn right() -> spec_fn((Placed, Placed)) -> Placed {
    |z: (Placed, Placed)| z.1
}

/// The active names of fewer slots come first among those of more.
pub proof fn names_grow(t: Table, n: int, m: int)
    requires
        0 <= n <= m,
    ensures
        t.names_below(n).len() <= t.names_below(m).len(),
        t.names_below(n).len() <= n,
        t.names_below(m).subrange(0, t.names_below(n).len() as int) == t.names_below(n),
    decreases m,
{
    if n < m {
        names_grow(t, n, m - 1);
        assert(t.names_below(m).subrange(0, t.names_below(n).len() as int) =~= t.names_below(
            n,
        ));
    } else {
        assert(t.names_below(m).subrange(0, t.names_below(m).len() as int) =~= t.names_below(m));
        if m > 0 {
            names_grow(t, m - 1, m - 1);
        }
    }
}

/// What stands beside each other differs only in its slot, and slots ascend on
/// both sides.
proof fn beside_facts(t: Table, ctx: Option<Context>, query: Seq<char>, n: int)
    requires
        0 <= n <= t.slots.len() <= usize::MAX,
    ensures
        ({
            let z = beside(t, ctx, query, n);
            let c = fresh_table(t.names(), t.direct);
            &&& z.map_values(left()) == placed_below(t, ctx, query, n)
            &&& z.map_values(right()) == placed_below(
                c,
                ctx,
                query,
                t.names_below(n).len() as int,
            )
            &&& forall|i: int|
                0 <= i < z.len() ==> (#[trigger] z[i]).0.name == z[i].1.name && z[i].0.candidate
                    == (ScoredCandidate {
                    index: z[i].0.candidate.index,
                    ..z[i].1.candidate
                }) && z[i].0.candidate.index < n && z[i].1.candidate.index < t.names_below(n).len()
            &&& forall|i: int, j: int|
                0 <= i < j < z.len() ==> (#[trigger] z[i]).0.candidate.index < (
                #[trigger] z[j]).0.candidate.index && z[i].1.candidate.index
                    < z[j].1.candidate.index
        }),
    decreases n,
{
    let c = fresh_table(t.names(), t.direct);
    let z = beside(t, ctx, query, n);
    if n > 0 {
        beside_facts(t, ctx, query, n - 1);
        names_grow(t, n, t.slots.len() as int);
        names_grow(t, n - 1, n);
        let before = beside(t, ctx, query, n - 1);
        let m = t.names_below(n - 1).len() as int;
        if t.active[n - 1] {
            assert(t.names_below(n)[m] == t.slots[n - 1]);
            assert(t.names().subrange(0, t.names_below(n).len() as int)[m] == t.names()[m]);
            assert(c.slots[m] == t.slots[n - 1]);
            assert(c.active[m]);
            if quality_of(query, t.slots[n - 1]) is Some {
                let pair = (placed_at(t, ctx, query, n - 1), placed_at(c, ctx, query, m));
                assert(z == before.push(pair));
                assert(z.map_values(left()) =~= before.map_values(left()).push(pair.0));
                assert(z.map_values(right()) =~= before.map_values(right()).push(pair.1));
            }
        }
    } else {
        assert(z.map_values(left()) =~= Seq::<Placed>::empty());
        assert(z.map_values(right()) =~= Seq::<Placed>::empty());
    }
}

/// The order of candidates, on the left.
struct LeftOrder;

impl Order<(Placed, Placed)> for LeftOrder {
    open spec fn before(a: (Placed, Placed), b: (Placed, Placed)) -> bool {
        <ScoredOrder as Order<Placed>>::before(a.0, b.0)
    }
}

/// The order of candidates, on the right.
struct RightOrder;

impl Order<(Placed, Placed)> for RightOrder {
    open spec fn before(a: (Placed, Placed), b: (Placed, Placed)) -> bool {
        <ScoredOrder as Order<Placed>>::before(a.1, b.1)
    }
}

/// Compaction keeps every search result: a search finds in the active names
/// alone what it finds in a table with replaced ones. It keeps the number of
/// names too, and leaves one segment.
pub proof fn compaction_keeps_hits(t: Table, ctx: Option<Context>, query: Seq<char>, limit: int)
    requires
        t.slots.len() <= usize::MAX,
        0 <= limit,
    ensures
        search_hits(fresh_table(t.names(), t.direct), ctx, query, limit, None) == search_hits(
            t,
            ctx,
            query,
            limit,
            None,
        ),
        active_count(fresh_table(t.names(), t.direct)) == active_count(t),
        fresh_table(t.names(), t.direct).starts.len() == 1,
{
    let n = t.slots.len() as int;
    let c = fresh_table(t.names(), t.direct);
    let z = beside(t, ctx, query, n);
    names_grow(t, n, n);
    beside_facts(t, ctx, query, n);
    placed_below_is(t, ctx, query, n);
    placed_below_is(c, ctx, query, c.slots.len() as int);
    assert forall|i: int, j: int| 0 <= i < j < z.len() implies LeftOrder::before(
        #[trigger] z[j],
        #[trigger] z[i],
    ) == RightOrder::before(z[j], z[i]) by {
        assert(z[i].0.name == z[i].1.name && z[j].0.name == z[j].1.name);
    }
    stable_sort_agrees::<(Placed, Placed), LeftOrder, RightOrder>(z);
    stable_sort_maps::<(Placed, Placed), Placed, LeftOrder, ScoredOrder>(z, left());
    stable_sort_maps::<(Placed, Placed), Placed, RightOrder, ScoredOrder>(z, right());
    let sorted = stable_sort::<(Placed, Placed), LeftOrder>(z);
    let (a, b) = (z.map_values(left()), z.map_values(right()));
    stable_sort_is_permutation::<(Placed, Placed), LeftOrder>(z);
    assert forall|i: int| 0 <= i < sorted.len() implies hit_of(#[trigger] sorted[i].0) == hit_of(
        sorted[i].1,
    ) by {
        stable_sort_takes_from::<(Placed, Placed), LeftOrder>(z, i);
        let m = choose|m: int| 0 <= m < z.len() && z[m] == sorted[i];
        assert(z[m].0.name == z[m].1.name);
    }
    assert(hits_of(top(a, limit)) =~= hits_of(top(b, limit))) by {
        assert forall|i: int| 0 <= i < top(a, limit).len() implies hit_of(top(a, limit)[i])
            == hit_of(top(b, limit)[i]) by {
            assert(stable_sort::<Placed, ScoredOrder>(a)[i] == sorted[i].0);
            assert(stable_sort::<Placed, ScoredOrder>(b)[i] == sorted[i].1);
        }
    }
    counts_are_names(t, n);
    counts_are_names(c, c.slots.len() as int);
    compaction_keeps_names(t);
}

/// There are as many active names as active slots.
pub proof fn counts_are_names(t: Table, n: int)
    ensures
        count_true(t.active, n) == t.names_below(n).len(),
    decreases n,
{
    if n > 0 {
        counts_are_names(t, n - 1);
    }
}

/// Fresh declarations on paths that an update does not name are neither
/// counted nor found.
pub proof fn unnamed_paths_are_never_found(
    t: Table,
    paths: Set<Seq<char>>,
    fresh: Seq<Name>,
    ctx: Option<Context>,
    query: Seq<char>,
    limit: int,
)
    requires
        t.active.len() == t.slots.len(),
        t.slots.len() + fresh.len() <= usize::MAX,
        0 <= limit,
    ensures
        ({
            let left = names_on(t.names(), paths, false) + names_on(fresh, paths, true);
            &&& active_count(updated(t, paths, fresh)) == left.len()
            &&& search_hits(updated(t, paths, fresh), ctx, query, limit, None) == search_hits(
                fresh_table(left, t.direct),
                ctx,
                query,
                limit,
                None,
            )
        }),
{
    let u = updated(t, paths, fresh);
    update_replaces_paths(t, paths, fresh);
    compaction_keeps_hits(u, ctx, query, limit);
    counts_are_names(u, u.slots.len() as int);
}

/// The candidates of a search stand in the order of their slots, each once,
/// and there are no more than active names.
pub proof fn candidates_ascend(t: Table, ctx: Option<Context>, query: Seq<char>)
    requires
        t.slots.len() <= usize::MAX,
    ensures
        ({
            let s = placed(t, scored(t, ctx, None, query, looked_at(t, None)));
            &&& s.len() <= active_count(t)
            &&& forall|i: int, j: int|
                0 <= i < j < s.len() ==> (#[trigger] s[i]).candidate.index < (
                #[trigger] s[j]).candidate.index
        }),
{
    let n = t.slots.len() as int;
    let z = beside(t, ctx, query, n);
    let s = placed_below(t, ctx, query, n);
    beside_facts(t, ctx, query, n);
    placed_below_is(t, ctx, query, n);
    unmatched_count(t, ctx, n);
    scored_count(t, ctx, needle_of(query), gate(needle_of(query)), n);
    assert forall|i: int, j: int| 0 <= i < j < s.len() implies (
    #[trigger] s[i]).candidate.index < (#[trigger] s[j]).candidate.index by {
        assert(s[i] == z[i].0 && s[j] == z[j].0);
    }
}

} // verus!
