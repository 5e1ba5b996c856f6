//! What a recall keeps of all that a search finds.

use vstd::prelude::*;

use crate::name_recall::{
    active_count, channel, filling, hits_in, is_selected, kept_by_quota, passes, passing,
    recall_slots, recalled, reserved, sat_sum, taking, with_best, CompletionRecallQuotas, Filter,
    ScopeChannel,
};
use crate::name_search::{
    first, hits_of, looked_at, placed, scored, scored_order_is_strict_weak, search_hits, top,
    Context, Placed, ScoredOrder,
};
use crate::name_table::{count_true_fits, Table};
use crate::order::{
    stable_sort, stable_sort_is_in_order, stable_sort_is_permutation, Order,
};
use crate::priority::ProbeLists;
use crate::recall_laws::{
    best_facts, channels_keep_their_share, covering_recall_sees_all, filling_facts, has_quota,
    slots_distinct, top_facts,
};
use crate::table_laws::candidates_ascend;

verus! {

// ---------------------------------------------------------------------------
// Selections

/// Every element of `a` is one of `s`.
pub open spec fn within(a: Seq<Placed>, s: Seq<Placed>) -> bool {
    forall|k: int| 0 <= k < a.len() ==> s.contains(#[trigger] a[k])
}

proof fn taking_within(
    sel: Seq<Placed>,
    list: Seq<Placed>,
    quota: int,
    i: int,
    taken: int,
    s: Seq<Placed>,
)
    requires
        within(sel, s),
        within(list, s),
    ensures
        within(taking(sel, list, quota, i, taken), s),
    decreases list.len() - i,
{
    if 0 <= i < list.len() && taken < quota {
        if is_selected(sel, list[i].candidate.index) {
            taking_within(sel, list, quota, i + 1, taken, s);
        } else {
            taking_within(sel.push(list[i]), list, quota, i + 1, taken + 1, s);
        }
    }
}

proof fn filling_within(sel: Seq<Placed>, list: Seq<Placed>, total: int, i: int, s: Seq<Placed>)
    requires
        within(sel, s),
        within(list, s),
    ensures
        within(filling(sel, list, total, i), s),
    decreases list.len() - i,
{
    if 0 <= i < list.len() && sel.len() < total {
        if is_selected(sel, list[i].candidate.index) {
            filling_within(sel, list, total, i + 1, s);
        } else {
            filling_within(sel.push(list[i]), list, total, i + 1, s);
        }
    }
}

/// A selection that was not filled up holds all of the list.
proof fn filling_covers(sel: Seq<Placed>, list: Seq<Placed>, total: int, i: int, k: int)
    requires
        0 <= i <= k < list.len(),
        filling(sel, list, total, i).len() < total,
        slots_distinct(sel),
    ensures
        is_selected(filling(sel, list, total, i), list[k].candidate.index),
    decreases list.len() - i,
{
    let x = list[i].candidate.index;
    filling_facts(sel, list, total, i);
    assert(sel.len() < total) by {
        if sel.len() >= total {
            assert(filling(sel, list, total, i) == sel);
        }
    }
    if is_selected(sel, x) {
        if k > i {
            filling_covers(sel, list, total, i + 1, k);
        }
    } else {
        let next = sel.push(list[i]);
        assert(slots_distinct(next)) by {
            assert forall|a: int, b: int| 0 <= a < b < next.len() implies (
            #[trigger] next[a]).candidate.index != (#[trigger] next[b]).candidate.index by {
                assert(next[a] == sel[a]);
                if b < sel.len() {
                    assert(next[b] == sel[b]);
                }
            }
        }
        if k > i {
            filling_covers(next, list, total, i + 1, k);
        } else {
            filling_facts(next, list, total, i + 1);
            assert(next[sel.len() as int].candidate.index == x);
            assert(is_selected(next, x));
        }
    }
}

proof fn passing_facts(s: Seq<Placed>, filter: Filter)
    ensures
        within(passing(s, filter), s),
        forall|k: int|
            0 <= k < passing(s, filter).len() ==> passes(filter, #[trigger] passing(s, filter)[k]),
        forall|k: int|
            0 <= k < s.len() && passes(filter, #[trigger] s[k]) ==> passing(s, filter).contains(
                s[k],
            ),
        slots_distinct(s) ==> slots_distinct(passing(s, filter)),
        filter is All ==> passing(s, filter) == s,
    decreases s.len(),
{
    if s.len() > 0 {
        let front = s.drop_last();
        passing_facts(front, filter);
        let before = passing(front, filter);
        let r = passing(s, filter);
        assert forall|k: int| 0 <= k < r.len() implies s.contains(#[trigger] r[k]) by {
            if k < before.len() {
                assert(r[k] == before[k]);
                let w = choose|w: int| 0 <= w < front.len() && front[w] == before[k];
                assert(s[w] == r[k]);
            } else {
                assert(s[s.len() - 1] == r[k]);
            }
        }
        assert forall|k: int| 0 <= k < r.len() implies passes(filter, #[trigger] r[k]) by {
            if k < before.len() {
                assert(r[k] == before[k]);
            }
        }
        assert forall|k: int| 0 <= k < s.len() && passes(filter, #[trigger] s[k]) implies r.contains(
            s[k],
        ) by {
            if k < front.len() {
                assert(front[k] == s[k]);
                let w = choose|w: int| 0 <= w < before.len() && before[w] == front[k];
                assert(r[w] == s[k]);
            } else {
                assert(r[before.len() as int] == s[k]);
            }
        }
        if slots_distinct(s) {
            assert(slots_distinct(front)) by {
                assert forall|a: int, b: int| 0 <= a < b < front.len() implies (
                #[trigger] front[a]).candidate.index != (#[trigger] front[b]).candidate.index by {
                    assert(front[a] == s[a] && front[b] == s[b]);
                }
            }
            assert forall|a: int, b: int| 0 <= a < b < r.len() implies (
            #[trigger] r[a]).candidate.index != (#[trigger] r[b]).candidate.index by {
                assert(r[a] == before[a]);
                if b < before.len() {
                    assert(r[b] == before[b]);
                } else {
                    let w = choose|w: int| 0 <= w < front.len() && front[w] == before[a];
                    assert(s[w].candidate.index != s[s.len() - 1].candidate.index);
                }
            }
        }
        if filter is All {
            assert(front.push(s.last()) =~= s);
        }
    }
}

proof fn sorted_within(s: Seq<Placed>)
    ensures
        within(stable_sort::<Placed, ScoredOrder>(s), s),
        within(s, stable_sort::<Placed, ScoredOrder>(s)),
        stable_sort::<Placed, ScoredOrder>(s).len() == s.len(),
{
    broadcast use vstd::seq_lib::group_to_multiset_ensures;

    let r = stable_sort::<Placed, ScoredOrder>(s);
    stable_sort_is_permutation::<Placed, ScoredOrder>(s);
    assert forall|k: int| 0 <= k < r.len() implies s.contains(#[trigger] r[k]) by {
        assert(r.to_multiset().count(r[k]) > 0);
    }
    assert forall|k: int| 0 <= k < s.len() implies r.contains(#[trigger] s[k]) by {
        assert(s.to_multiset().count(s[k]) > 0);
    }
}

proof fn top_within(s: Seq<Placed>, limit: int, whole: Seq<Placed>)
    requires
        within(s, whole),
        0 <= limit,
    ensures
        within(top(s, limit), whole),
        within(top(s, limit), s),
        top(s, limit).len() == if s.len() > limit {
            limit
        } else {
            s.len() as int
        },
{
    let sorted = stable_sort::<Placed, ScoredOrder>(s);
    sorted_within(s);
    assert forall|k: int| 0 <= k < top(s, limit).len() implies whole.contains(
        #[trigger] top(s, limit)[k],
    ) && s.contains(top(s, limit)[k]) by {
        assert(top(s, limit)[k] == sorted[k]);
        assert(s.contains(sorted[k]));
        let w = choose|w: int| 0 <= w < s.len() && s[w] == sorted[k];
        assert(whole.contains(s[w]));
    }
}

/// Distinct candidates whose slots are all selected are no more than the
/// selected.
proof fn distinct_fit(a: Seq<Placed>, b: Seq<Placed>)
    requires
        slots_distinct(a),
        forall|k: int| 0 <= k < a.len() ==> is_selected(b, (#[trigger] a[k]).candidate.index),
    ensures
        a.len() <= b.len(),
{
    let f = |p: Placed| p.candidate.index;
    let (x, y) = (a.map_values(f), b.map_values(f));
    assert(x.no_duplicates()) by {
        assert forall|i: int, j: int|
            0 <= i < x.len() && 0 <= j < x.len() && i != j implies x[i] != x[j] by {
            if i < j {
                assert(a[i].candidate.index != a[j].candidate.index);
            } else {
                assert(a[j].candidate.index != a[i].candidate.index);
            }
        }
    }
    x.unique_seq_to_set();
    y.lemma_cardinality_of_set();
    assert(x.to_set().subset_of(y.to_set())) by {
        assert forall|i: usize| x.to_set().contains(i) implies y.to_set().contains(i) by {
            let k = choose|k: int| 0 <= k < x.len() && x[k] == i;
            assert(is_selected(b, a[k].candidate.index));
            let m = choose|m: int| 0 <= m < b.len() && (#[trigger] b[m]).candidate.index == i;
            assert(y[m] == i);
        }
    }
    vstd::set_lib::lemma_len_subset(x.to_set(), y.to_set());
}

/// What is within is selected.
proof fn within_selected(a: Seq<Placed>, b: Seq<Placed>)
    requires
        within(a, b),
    ensures
        forall|k: int| 0 <= k < a.len() ==> is_selected(b, (#[trigger] a[k]).candidate.index),
{
    assert forall|k: int| 0 <= k < a.len() implies is_selected(
        b,
        (#[trigger] a[k]).candidate.index,
    ) by {
        assert(b.contains(a[k]));
        let m = choose|m: int| 0 <= m < b.len() && b[m] == a[k];
        assert(b[m].candidate.index == a[k].candidate.index);
    }
}

// ---------------------------------------------------------------------------
// Kept candidates

/// The quotas fit into the total.
pub open spec fn quotas_fit(q: CompletionRecallQuotas) -> bool {
    q.reachable + q.external + q.unknown + q.global + q.same_project <= q.total_indexed
}

proof fn best_within(sel: Seq<Placed>, s: Seq<Placed>, filter: Filter, quota: int)
    requires
        within(sel, s),
        slots_distinct(sel),
        0 <= quota,
    ensures
        within(with_best(sel, s, filter, quota), s),
        slots_distinct(with_best(sel, s, filter, quota)),
        with_best(sel, s, filter, quota).len() <= sel.len() + quota,
{
    passing_facts(s, filter);
    top_within(passing(s, filter), quota, s);
    taking_within(sel, top(passing(s, filter), quota), quota, 0, 0, s);
    best_facts(sel, s, filter, quota);
}

/// A recall without a project keeps as many candidates as its total allows, all
/// of them candidates, best first.
proof fn kept_facts(s: Seq<Placed>, q: CompletionRecallQuotas)
    requires
        slots_distinct(s),
        s.len() <= usize::MAX,
        quotas_fit(q),
    ensures
        ({
            let kept = kept_by_quota(s, q, None);
            &&& within(kept, s)
            &&& slots_distinct(kept)
            &&& kept.len() == if s.len() < q.total_indexed {
                s.len() as int
            } else {
                q.total_indexed as int
            }
            &&& forall|i: int, j: int|
                0 <= i < j < kept.len() ==> !<ScoredOrder as Order<Placed>>::before(
                    #[trigger] kept[j],
                    #[trigger] kept[i],
                )
        }),
{
    let total = q.total_indexed as int;
    let wide = sat_sum(total, reserved(q));
    let best = top(passing(s, Filter::All), wide);
    let f1 = Filter::Channel(ScopeChannel::Reachable);
    let f2 = Filter::Channel(ScopeChannel::External);
    let f3 = Filter::Channel(ScopeChannel::Unknown);
    let f4 = Filter::Channel(ScopeChannel::Global);
    let none = Seq::<Placed>::empty();
    let a = with_best(none, s, f1, q.reachable as int);
    let c = with_best(a, s, f2, q.external as int);
    let d = with_best(c, s, f3, q.unknown as int);
    let e = with_best(d, s, f4, q.global as int);
    best_within(none, s, f1, q.reachable as int);
    best_within(a, s, f2, q.external as int);
    best_within(c, s, f3, q.unknown as int);
    best_within(d, s, f4, q.global as int);
    passing_facts(s, Filter::All);
    assert(within(s, s));
    top_within(s, wide, s);
    top_facts(s, wide);
    filling_within(e, best, total, 0, s);
    filling_facts(e, best, total, 0);
    let filled = filling(e, best, total, 0);
    assert(filled.len() == if s.len() < total {
        s.len() as int
    } else {
        total
    }) by {
        within_selected(filled, s);
        distinct_fit(filled, s);
        if filled.len() < total {
            assert forall|k: int| 0 <= k < best.len() implies is_selected(
                filled,
                (#[trigger] best[k]).candidate.index,
            ) by {
                filling_covers(e, best, total, 0, k);
            }
            distinct_fit(best, filled);
        }
    }
    top_within(filled, total, s);
    top_facts(filled, total);
    scored_order_is_strict_weak();
    stable_sort_is_in_order::<Placed, ScoredOrder>(filled);
    let kept = kept_by_quota(s, q, None);
    let sorted = stable_sort::<Placed, ScoredOrder>(filled);
    sorted_within(filled);
    assert(kept == sorted);
}

proof fn channel_count(s: Seq<Placed>, c: ScopeChannel, n: int)
    requires
        0 <= n <= s.len(),
    ensures
        hits_in(hits_of(s), c, n) == passing(s.subrange(0, n), Filter::Channel(c)).len(),
    decreases n,
{
    let part = s.subrange(0, n);
    if n > 0 {
        channel_count(s, c, n - 1);
        assert(part.drop_last() =~= s.subrange(0, n - 1));
        assert(part.last() == s[n - 1]);
    }
}

/// Sorted candidates have the channels of the candidates.
proof fn sorted_channels(s: Seq<Placed>, c: ScopeChannel)
    requires
        slots_distinct(s),
    ensures
        passing(stable_sort::<Placed, ScoredOrder>(s), Filter::Channel(c)).len() == passing(
            s,
            Filter::Channel(c),
        ).len(),
{
    let f = Filter::Channel(c);
    let r = stable_sort::<Placed, ScoredOrder>(s);
    sorted_within(s);
    top_facts(s, s.len() as int);
    assert(top(s, s.len() as int) == r);
    passing_facts(s, f);
    passing_facts(r, f);
    passing_carries(r, s, f);
    passing_carries(s, r, f);
    within_selected(passing(s, f), passing(r, f));
    within_selected(passing(r, f), passing(s, f));
    distinct_fit(passing(s, f), passing(r, f));
    distinct_fit(passing(r, f), passing(s, f));
}

proof fn passing_carries(a: Seq<Placed>, b: Seq<Placed>, filter: Filter)
    requires
        within(a, b),
    ensures
        within(passing(a, filter), passing(b, filter)),
{
    passing_facts(a, filter);
    passing_facts(b, filter);
    let p = passing(a, filter);
    assert forall|k: int| 0 <= k < p.len() implies passing(b, filter).contains(#[trigger] p[k]) by {
        assert(a.contains(p[k]));
        let i = choose|i: int| 0 <= i < a.len() && a[i] == p[k];
        assert(b.contains(a[i]));
        let j = choose|j: int| 0 <= j < b.len() && b[j] == a[i];
        assert(passes(filter, b[j]));
    }
}

/// Each channel keeps its share.
proof fn kept_channels(s: Seq<Placed>, q: CompletionRecallQuotas, c: ScopeChannel, quota: int)
    requires
        slots_distinct(s),
        s.len() <= usize::MAX,
        quotas_fit(q),
        has_quota(q, None, Filter::Channel(c), quota),
    ensures
        ({
            let f = Filter::Channel(c);
            let kept = kept_by_quota(s, q, None);
            passing(kept, f).len() >= if passing(s, f).len() < quota {
                passing(s, f).len() as int
            } else {
                quota
            }
        }),
{
    let f = Filter::Channel(c);
    let kept = kept_by_quota(s, q, None);
    let share = top(passing(s, f), quota);
    kept_facts(s, q);
    passing_facts(s, f);
    passing_facts(kept, f);
    top_within(passing(s, f), quota, s);
    top_facts(passing(s, f), quota);
    assert forall|k: int| 0 <= k < share.len() implies is_selected(
        passing(kept, f),
        (#[trigger] share[k]).candidate.index,
    ) by {
        channels_keep_their_share(s, q, None, f, quota, k);
        let x = share[k].candidate.index;
        let m = choose|m: int| 0 <= m < kept.len() && (#[trigger] kept[m]).candidate.index == x;
        assert(s.contains(kept[m]));
        let i = choose|i: int| 0 <= i < s.len() && s[i] == kept[m];
        assert(s.contains(share[k]) && passing(s, f).contains(share[k]));
        let j = choose|j: int| 0 <= j < s.len() && s[j] == share[k];
        assert(i == j) by {
            if i < j {
                assert(s[i].candidate.index != s[j].candidate.index);
            } else if j < i {
                assert(s[j].candidate.index != s[i].candidate.index);
            }
        }
        let w = choose|w: int| 0 <= w < passing(s, f).len() && passing(s, f)[w] == share[k];
        assert(passes(f, passing(s, f)[w]));
        assert(passing(kept, f).contains(kept[m]));
        let v = choose|v: int| 0 <= v < passing(kept, f).len() && passing(kept, f)[v] == kept[m];
        assert(passing(kept, f)[v].candidate.index == x);
    }
    distinct_fit(share, passing(kept, f));
}

// ---------------------------------------------------------------------------
// Recall against search

/// A recall whose budget covers the active names and whose quotas fit into its
/// total, held against a search without a limit: it returns as many of the
/// search's hits as its total allows, best score first, and of every channel
/// at least its quota, or all that the search found.
pub proof fn recall_keeps_the_best_of_a_search(
    t: Table,
    ctx: Option<Context>,
    query: Seq<char>,
    q: CompletionRecallQuotas,
    lists: ProbeLists,
    budget: int,
    c: ScopeChannel,
    quota: int,
)
    requires
        t.slots.len() <= usize::MAX,
        t.active.len() == t.slots.len(),
        active_count(t) <= budget,
        quotas_fit(q),
        has_quota(q, None, Filter::Channel(c), quota),
    ensures
        ({
            let found = search_hits(t, ctx, query, active_count(t), None);
            let ids = recall_slots(t, None, query, lists, None, None, budget);
            let hits = recalled(t, ctx, None, query, q, None, ids);
            &&& hits.len() == if found.len() < q.total_indexed {
                found.len() as int
            } else {
                q.total_indexed as int
            }
            &&& forall|i: int| 0 <= i < hits.len() ==> found.contains(#[trigger] hits[i])
            &&& forall|i: int, j: int|
                0 <= i < j < hits.len() ==> (#[trigger] hits[i]).score >= (
                #[trigger] hits[j]).score
            &&& hits_in(hits, c, hits.len() as int) >= if hits_in(found, c, found.len() as int)
                < quota {
                hits_in(found, c, found.len() as int) as int
            } else {
                quota
            }
        }),
{
    let f = Filter::Channel(c);
    let s = placed(t, scored(t, ctx, None, query, looked_at(t, None)));
    let ids = recall_slots(t, None, query, lists, None, None, budget);
    let hits = recalled(t, ctx, None, query, q, None, ids);
    let found = search_hits(t, ctx, query, active_count(t), None);
    let kept = kept_by_quota(s, q, None);
    let sorted = stable_sort::<Placed, ScoredOrder>(s);
    covering_recall_sees_all(t, ctx, None, query, lists, None, budget);
    candidates_ascend(t, ctx, query);
    count_true_fits(t.active, t.slots.len() as int);
    assert(slots_distinct(s));
    kept_facts(s, q);
    sorted_within(s);
    assert(top(s, active_count(t)) == sorted);
    assert(hits == hits_of(kept) && found == hits_of(sorted));
    assert forall|i: int| 0 <= i < hits.len() implies found.contains(#[trigger] hits[i]) by {
        assert(s.contains(kept[i]));
        let m = choose|m: int| 0 <= m < s.len() && s[m] == kept[i];
        assert(sorted.contains(s[m]));
        let k = choose|k: int| 0 <= k < sorted.len() && sorted[k] == s[m];
        assert(found[k] == hits[i]);
    }
    assert forall|i: int, j: int| 0 <= i < j < hits.len() implies (#[trigger] hits[i]).score >= (
    #[trigger] hits[j]).score by {
        assert(!<ScoredOrder as Order<Placed>>::before(kept[j], kept[i]));
    }
    kept_channels(s, q, c, quota);
    sorted_channels(s, c);
    channel_count(kept, c, kept.len() as int);
    channel_count(sorted, c, sorted.len() as int);
    assert(kept.subrange(0, kept.len() as int) =~= kept);
    assert(sorted.subrange(0, sorted.len() as int) =~= sorted);
}

} // verus!
