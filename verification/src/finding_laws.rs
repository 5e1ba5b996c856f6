//! What a search finds, and what it may leave out.

use vstd::prelude::*;
use vstd::utf8::encode_utf8;

use crate::chars::{encode_injective, trim};
use crate::facts::SemanticFamily;
use crate::model::{tier_rank_is_injective, ScopeTier};
use crate::name_search::{
    all_slots, candidate, current_of, exact_below, exact_hits, first, gate, hit_of, hits_of,
    in_family, match_score, matched, needle_of, placed, prefix_slots, prefix_slots_facts, prefixed,
    scored_below, scored_order_is_strict_weak, search_hits, tier_in, top, Context, Hit, Placed,
    ScoredCandidate, ScoredOrder,
};
use crate::name_segment::folded;
use crate::name_table::Table;
use crate::order::{
    stable_sort, stable_sort_is_in_order, stable_sort_is_permutation, stable_sort_takes_from,
    Order,
};
use crate::resolver::{nearness, MAX_LOCALITY};
use crate::search_laws::{hit_outranks, is_quality};

verus! {

/// The hit that slot `i` makes.
pub open spec fn hit_at(t: Table, ctx: Option<Context>, i: int, base: int) -> Hit {
    hit_of(Placed { candidate: candidate(t, ctx, i, base), name: t.slots[i] })
}

/// The hit is among the hits, or they are as many as may be and none of them
/// is worse.
pub open spec fn is_found_or_outranked(hits: Seq<Hit>, limit: int, h: Hit) -> bool {
    hits.contains(h) || (hits.len() == limit && forall|k: int|
        0 <= k < hits.len() ==> hit_outranks(#[trigger] hits[k], h))
}

spec fn is_scored(t: Table, ctx: Option<Context>, c: ScoredCandidate) -> bool {
    &&& c.index < t.slots.len()
    &&& is_quality(c.base_match as int)
    &&& c == candidate(t, ctx, c.index as int, c.base_match as int)
}

proof fn order_is_by_tier_and_quality(
    t: Table,
    ctx: Option<Context>,
    a: Placed,
    b: Placed,
)
    requires
        is_scored(t, ctx, a.candidate),
        is_scored(t, ctx, b.candidate),
        !<ScoredOrder as Order<Placed>>::before(b, a),
    ensures
        hit_outranks(hit_of(a), hit_of(b)),
{
    tier_rank_is_injective(a.candidate.tier, b.candidate.tier);
    assert(0 <= nearness(t.slots[a.candidate.index as int].path, current_of(ctx)) <= MAX_LOCALITY);
    assert(0 <= nearness(t.slots[b.candidate.index as int].path, current_of(ctx)) <= MAX_LOCALITY);
}

proof fn best_are_kept(
    t: Table,
    ctx: Option<Context>,
    s: Seq<ScoredCandidate>,
    limit: int,
    x: int,
)
    requires
        0 <= limit,
        0 <= x < s.len(),
        forall|k: int| 0 <= k < s.len() ==> is_scored(t, ctx, #[trigger] s[k]),
    ensures
        is_found_or_outranked(
            hits_of(top(placed(t, s), limit)),
            limit,
            hit_of(placed(t, s)[x]),
        ),
{
    broadcast use vstd::seq_lib::group_to_multiset_ensures;

    let p = placed(t, s);
    let sorted = stable_sort::<Placed, ScoredOrder>(p);
    let best = top(p, limit);
    let hits = hits_of(best);
    let h = hit_of(p[x]);
    scored_order_is_strict_weak();
    stable_sort_is_in_order::<Placed, ScoredOrder>(p);
    stable_sort_is_permutation::<Placed, ScoredOrder>(p);
    assert(p.contains(p[x]));
    assert(p.to_multiset().count(p[x]) > 0);
    assert(sorted.contains(p[x]));
    let m = choose|m: int| 0 <= m < sorted.len() && sorted[m] == p[x];
    if m < best.len() {
        assert(best[m] == sorted[m]);
        assert(hits[m] == h);
    } else {
        assert(best.len() == limit);
        assert forall|k: int| 0 <= k < hits.len() implies hit_outranks(#[trigger] hits[k], h) by {
            assert(best[k] == sorted[k]);
            stable_sort_takes_from::<Placed, ScoredOrder>(p, k);
            let w = choose|w: int| 0 <= w < p.len() && p[w] == sorted[k];
            assert(is_scored(t, ctx, s[w]));
            assert(is_scored(t, ctx, s[x]));
            assert(!<ScoredOrder as Order<Placed>>::before(sorted[m], sorted[k]));
            order_is_by_tier_and_quality(t, ctx, sorted[k], sorted[m]);
        }
    }
}

proof fn scored_facts(
    t: Table,
    ctx: Option<Context>,
    family: Option<SemanticFamily>,
    needle: Seq<u8>,
    min: int,
    ids: Seq<usize>,
    n: int,
)
    requires
        0 <= n <= ids.len(),
    ensures
        forall|k: int|
            0 <= k < scored_below(t, ctx, family, needle, min, ids, n).len() ==> is_scored(
                t,
                ctx,
                #[trigger] scored_below(t, ctx, family, needle, min, ids, n)[k],
            ),
    decreases n,
{
    if n > 0 {
        scored_facts(t, ctx, family, needle, min, ids, n - 1);
        let before = scored_below(t, ctx, family, needle, min, ids, n - 1);
        let now = scored_below(t, ctx, family, needle, min, ids, n);
        assert forall|k: int| 0 <= k < now.len() implies is_scored(t, ctx, #[trigger] now[k]) by {
            if k < before.len() {
                assert(now[k] == before[k]);
            } else {
                assert(matched(t, family, needle, ids[n - 1] as int));
            }
        }
    }
}

proof fn scored_holds(
    t: Table,
    ctx: Option<Context>,
    family: Option<SemanticFamily>,
    needle: Seq<u8>,
    min: int,
    ids: Seq<usize>,
    n: int,
    j: int,
) -> (k: int)
    requires
        0 <= j < n <= ids.len(),
        matched(t, family, needle, ids[j] as int),
        match_score(needle, t.slots[ids[j] as int].name)->0 >= min,
    ensures
        0 <= k < scored_below(t, ctx, family, needle, min, ids, n).len(),
        scored_below(t, ctx, family, needle, min, ids, n)[k] == candidate(
            t,
            ctx,
            ids[j] as int,
            match_score(needle, t.slots[ids[j] as int].name)->0,
        ),
    decreases n,
{
    let before = scored_below(t, ctx, family, needle, min, ids, n - 1);
    if j < n - 1 {
        scored_holds(t, ctx, family, needle, min, ids, n - 1, j)
    } else {
        before.len() as int
    }
}

/// A search finds every active name that matches well enough for the length of
/// the query, unless as many are found as may be and none of them is worse, by
/// tier and then by match quality.
pub proof fn every_match_is_found_or_outranked(
    t: Table,
    ctx: Option<Context>,
    query: Seq<char>,
    limit: int,
    i: int,
    base: int,
)
    requires
        t.slots.len() <= usize::MAX,
        0 <= limit,
        t.is_active(i),
        trim(query).len() > 0,
        match_score(needle_of(query), t.slots[i].name) == Some(base),
        needle_of(query).len() >= 3 || base >= 650,
    ensures
        is_found_or_outranked(
            search_hits(t, ctx, query, limit, None),
            limit,
            hit_at(t, ctx, i, base),
        ),
        hit_at(t, ctx, i, base).id == t.slots[i].id,
        hit_at(t, ctx, i, base).name == t.slots[i].name,
        hit_at(t, ctx, i, base).base_match == base,
{
    let needle = needle_of(query);
    let ids = all_slots(t);
    let n = ids.len() as int;
    let s = scored_below(t, ctx, None, needle, gate(needle), ids, n);
    assert(ids[i] == i as usize);
    scored_facts(t, ctx, None, needle, gate(needle), ids, n);
    let k = scored_holds(t, ctx, None, needle, gate(needle), ids, n, i);
    assert(s[k].index == i);
    best_are_kept(t, ctx, s, limit, k);
}

proof fn exact_holds(
    t: Table,
    family: Option<SemanticFamily>,
    needle: Seq<u8>,
    ids: Seq<usize>,
    n: int,
    j: int,
)
    requires
        0 <= j < n <= ids.len(),
        folded(t.slots[ids[j] as int].name) == needle,
        in_family(t, family, ids[j] as int),
    ensures
        exact_below(t, family, needle, ids, n).contains(ids[j]),
    decreases n,
{
    let before = exact_below(t, family, needle, ids, n - 1);
    let now = exact_below(t, family, needle, ids, n);
    if j < n - 1 {
        exact_holds(t, family, needle, ids, n - 1, j);
        let w = choose|w: int| 0 <= w < before.len() && before[w] == ids[j];
        assert(now[w] == ids[j]);
    } else {
        assert(now[now.len() - 1] == ids[j]);
    }
}

/// A search for a name finds every active name that is spelled so, capitals
/// aside, unless as many are found as may be and none of them is of a weaker
/// tier.
pub proof fn every_name_is_found_or_outranked(
    t: Table,
    ctx: Option<Context>,
    family: Option<SemanticFamily>,
    name: Seq<char>,
    limit: int,
    i: int,
)
    requires
        t.slots.len() <= usize::MAX,
        0 < limit,
        name.len() > 0,
        t.is_active(i),
        family is None || family == Some(t.slots[i].family),
        folded(t.slots[i].name) == folded(name),
    ensures
        is_found_or_outranked(
            exact_hits(t, ctx, family, name, limit),
            limit,
            hit_at(t, ctx, i, 1000),
        ),
        hit_at(t, ctx, i, 1000).id == t.slots[i].id,
        hit_at(t, ctx, i, 1000).name == t.slots[i].name,
{
    let needle = folded(name);
    let low = folded(t.slots[i].name);
    encode_injective(name, Seq::empty());
    assert(encode_utf8(Seq::<char>::empty()).len() == 0);
    assert(needle.len() > 0) by {
        if needle.len() == 0 {
            assert(encode_utf8(name) =~= encode_utf8(Seq::empty()));
        }
    }
    assert(low.subrange(0, needle.len() as int) =~= needle);
    assert(prefixed(t, needle, i));
    prefix_slots_facts(t, needle);
    let slots = prefix_slots(t, needle);
    assert(slots.contains(i as usize));
    let j = choose|j: int| 0 <= j < slots.len() && slots[j] == i as usize;
    exact_holds(t, family, needle, slots, slots.len() as int, j);
    let ids = exact_below(t, family, needle, slots, slots.len() as int);
    let m = choose|m: int| 0 <= m < ids.len() && ids[m] == i as usize;
    let n = ids.len() as int;
    let s = scored_below(t, ctx, None, needle, 0, ids, n);
    scored_facts(t, ctx, None, needle, 0, ids, n);
    let k = scored_holds(t, ctx, None, needle, 0, ids, n, m);
    assert(s[k].index == i);
    best_are_kept(t, ctx, s, limit, k);
}

// ---------------------------------------------------------------------------
// Tiers

/// Scopes order files: the current file stands above those in reach, those
/// above first-layer external headers, those above files that open reach may
/// still hold, and all above the rest. A wider scope never puts a file lower.
pub proof fn wider_scopes_never_lower_a_file(
    c: Context,
    wider: Context,
    path: Seq<char>,
    external: bool,
    directly_included: bool,
)
    requires
        wider.current == c.current,
        c.files.subset_of(wider.files),
        c.open ==> wider.open,
        wider.direct == c.direct,
    ensures
        ({
            let tier = tier_in(Some(c), path, external, directly_included);
            &&& tier.spec_rank() <= tier_in(
                Some(wider),
                path,
                external,
                directly_included,
            ).spec_rank()
            &&& !external && c.current == Some(path) ==> tier == ScopeTier::Current
            &&& !external && c.files.contains(path) && c.current != Some(path) ==> tier
                == ScopeTier::Reachable
            &&& !external && !c.files.contains(path) && c.current != Some(path) ==> tier
                == if c.open {
                ScopeTier::Unknown
            } else {
                ScopeTier::Global
            }
            &&& external && c.direct is Some ==> (tier == ScopeTier::External
                <==> c.direct->0.contains(path))
            &&& tier_in(None, path, external, directly_included) == if external
                && directly_included {
                ScopeTier::External
            } else {
                ScopeTier::Global
            }
        }),
{
}

} // verus!
