//! What holds of every recall.

use vstd::prelude::*;

use crate::chars::trim;
use crate::facts::SemanticFamily;
use crate::name_recall::{
    active_count, any_ignores_needle, budgeted, counted, eligible, filling, hits_in, hits_of_project, is_selected,
    kept_by_quota, passing, recall_pool, recall_scored, recall_slots, recall_truncates, recalled,
    reserved, sat_sum, set_up, shares, shelved, slots_where, source_slots, source_test,
    static_sorted, taking, unmatched_ids, visible_names, visible_share, with_best, with_unseen,
    CompletionRecallMetrics, CompletionRecallQuotas, Filter, ScopeChannel, Setup, Shelved, Source,
    StaticOrder,
};
use crate::name_search::{
    all_slots, candidate, gate, looked_at, needle_of, pool_below, scored, scored_below, top,
    unmatched_below, Context, Hit, Placed, ScoredOrder,
};
use crate::name_table::{count_true, count_true_fits, Table};
use crate::order::{stable_sort, stable_sort_is_permutation, stable_sort_takes_from};
use crate::priority::{probed, probed_path, ProbeLists, Probing};
use crate::project_context::Key;
use crate::search_laws::narrowing_is_lossless;

verus! {

// ---------------------------------------------------------------------------
// Slots

/// `ids` are distinct eligible slots.
pub open spec fn proper(t: Table, family: Option<SemanticFamily>, ids: Seq<usize>) -> bool {
    &&& ids.no_duplicates()
    &&& forall|k: int| 0 <= k < ids.len() ==> eligible(t, family, #[trigger] ids[k] as int)
}

/// The slots that pass a test are distinct, pass it and lie below the bound.
pub proof fn where_is_proper(test: spec_fn(int) -> bool, n: int)
    requires
        0 <= n <= usize::MAX,
    ensures
        slots_where(test, n).no_duplicates(),
        forall|k: int|
            0 <= k < slots_where(test, n).len() ==> test(#[trigger] slots_where(test, n)[k] as int)
                && slots_where(test, n)[k] < n,
    decreases n,
{
    if n > 0 {
        where_is_proper(test, n - 1);
    }
}

proof fn source_is_proper(
    t: Table,
    family: Option<SemanticFamily>,
    source: Source,
    needle: Seq<u8>,
)
    requires
        t.slots.len() <= usize::MAX,
    ensures
        proper(t, family, source_slots(t, family, source, needle)),
{
    where_is_proper(source_test(t, family, source, needle), t.slots.len() as int);
}

proof fn sorted_is_proper(t: Table, family: Option<SemanticFamily>, ids: Seq<usize>)
    requires
        proper(t, family, ids),
    ensures
        proper(t, family, static_sorted(t, ids)),
{
    broadcast use vstd::seq_lib::group_to_multiset_ensures;

    let items = shelved(t, ids);
    let sorted = stable_sort::<Shelved, StaticOrder>(items);
    stable_sort_is_permutation::<Shelved, StaticOrder>(items);
    assert(items.no_duplicates()) by {
        assert forall|i: int, j: int|
            0 <= i < items.len() && 0 <= j < items.len() && i != j implies items[i] != items[j] by {
            assert(ids[i] != ids[j]);
        }
    }
    items.lemma_multiset_has_no_duplicates();
    sorted.lemma_multiset_has_no_duplicates_conv();
    let r = static_sorted(t, ids);
    assert forall|i: int, j: int| 0 <= i < r.len() && 0 <= j < r.len() && i != j implies r[i]
        != r[j] by {
        stable_sort_takes_from::<Shelved, StaticOrder>(items, i);
        stable_sort_takes_from::<Shelved, StaticOrder>(items, j);
        let m = choose|m: int| 0 <= m < items.len() && items[m] == sorted[i];
        let n = choose|n: int| 0 <= n < items.len() && items[n] == sorted[j];
        assert(sorted[i] != sorted[j]);
        assert(ids[m] != ids[n]);
    }
    assert forall|k: int| 0 <= k < r.len() implies eligible(t, family, #[trigger] r[k] as int) by {
        stable_sort_takes_from::<Shelved, StaticOrder>(items, k);
        let m = choose|m: int| 0 <= m < items.len() && items[m] == sorted[k];
        assert(r[k] == ids[m]);
    }
}

proof fn unseen_is_proper(
    t: Table,
    family: Option<SemanticFamily>,
    done: Seq<usize>,
    list: Seq<usize>,
    cap: int,
    i: int,
)
    requires
        proper(t, family, done),
        proper(t, family, list),
        0 <= i,
        done.len() <= cap,
    ensures
        proper(t, family, with_unseen(done, list, cap, i)),
        with_unseen(done, list, cap, i).len() <= cap,
    decreases list.len() - i,
{
    if i < list.len() && done.len() < cap {
        if done.contains(list[i]) {
            unseen_is_proper(t, family, done, list, cap, i + 1);
        } else {
            let next = done.push(list[i]);
            assert(proper(t, family, next)) by {
                assert forall|k: int| 0 <= k < next.len() implies eligible(
                    t,
                    family,
                    #[trigger] next[k] as int,
                ) by {
                    if k == done.len() {
                        assert(eligible(t, family, list[i] as int));
                    }
                }
            }
            unseen_is_proper(t, family, next, list, cap, i + 1);
        }
    }
}

proof fn shares_are_proper(
    t: Table,
    family: Option<SemanticFamily>,
    needle: Seq<u8>,
    setup: Setup,
    project: Option<Key>,
    budget: int,
)
    requires
        t.slots.len() <= usize::MAX,
        0 <= budget,
    ensures
        proper(t, family, shares(t, family, needle, setup, project, budget)),
        shares(t, family, needle, setup, project, budget).len() <= budget / 8,
        proper(t, family, visible_names(t, family, needle, setup)),
{
    let paths = setup.visible.open;
    let share = visible_share(project, budget);
    source_is_proper(t, family, Source::Opened(paths), needle);
    sorted_is_proper(t, family, source_slots(t, family, Source::Opened(paths), needle));
    let visible = visible_names(t, family, needle, setup);
    unseen_is_proper(t, family, Seq::empty(), visible, share, 0);
    let a = with_unseen(Seq::empty(), visible, share, 0);
    match project {
        Some(key) => {
            let source = Source::Owned(key, setup.whole.open);
            source_is_proper(t, family, source, needle);
            sorted_is_proper(t, family, source_slots(t, family, source, needle));
            unseen_is_proper(
                t,
                family,
                a,
                static_sorted(t, source_slots(t, family, source, needle)),
                a.len() + budget / 16,
                0,
            );
        },
        None => {},
    }
}

proof fn budgeted_is_proper(
    t: Table,
    family: Option<SemanticFamily>,
    needle: Seq<u8>,
    setup: Setup,
    project: Option<Key>,
    budget: int,
)
    requires
        t.slots.len() <= usize::MAX,
        0 <= budget,
    ensures
        proper(t, family, budgeted(t, family, needle, setup, project, budget)),
        budgeted(t, family, needle, setup, project, budget).len() <= budget,
        source_slots(t, family, Source::Any, needle).len() <= budget ==> forall|k: int|
            0 <= k < source_slots(t, family, Source::Any, needle).len() ==> budgeted(
                t,
                family,
                needle,
                setup,
                project,
                budget,
            ).contains(#[trigger] source_slots(t, family, Source::Any, needle)[k]),
{
    shares_are_proper(t, family, needle, setup, project, budget);
    let b = shares(t, family, needle, setup, project, budget);
    let visible = visible_names(t, family, needle, setup);
    unseen_is_proper(t, family, b, visible, budget / 2, 0);
    let more = with_unseen(b, visible, budget / 2, 0);
    let prefixed = source_slots(t, family, Source::Prefix, needle);
    source_is_proper(t, family, Source::Prefix, needle);
    sorted_is_proper(t, family, prefixed);
    unseen_is_proper(t, family, more, static_sorted(t, prefixed), budget, 0);
    let c = with_unseen(more, static_sorted(t, prefixed), budget, 0);
    let fuzzy = source_slots(t, family, Source::Token, needle);
    source_is_proper(t, family, Source::Token, needle);
    sorted_is_proper(t, family, fuzzy);
    unseen_is_proper(t, family, c, static_sorted(t, fuzzy), budget, 0);
    let d = with_unseen(c, static_sorted(t, fuzzy), budget, 0);
    let any = source_slots(t, family, Source::Any, needle);
    source_is_proper(t, family, Source::Any, needle);
    unseen_is_proper(t, family, d, any, budget, 0);
    let r = with_unseen(d, any, budget, 0);
    if any.len() <= budget {
        any_holds_eligible(t, family, needle);
        unseen_covers(d, any, budget, 0);
        assert forall|k: int| 0 <= k < any.len() implies r.contains(#[trigger] any[k]) by {
            if r.len() >= budget {
                full_cover(r, any, k);
            }
        }
    }
}

/// The slots of the source of all names are the eligible ones.
proof fn any_holds_eligible(t: Table, family: Option<SemanticFamily>, needle: Seq<u8>)
    requires
        t.slots.len() <= usize::MAX,
    ensures
        forall|i: int| #[trigger]
            eligible(t, family, i) ==> source_slots(t, family, Source::Any, needle).contains(
                i as usize,
            ),
{
    let test = source_test(t, family, Source::Any, needle);
    assert forall|i: int| #[trigger] eligible(t, family, i) implies source_slots(
        t,
        family,
        Source::Any,
        needle,
    ).contains(i as usize) by {
        where_holds(test, i, t.slots.len() as int);
    }
}

/// Every slot that passes a test is among those that do.
pub proof fn where_holds(test: spec_fn(int) -> bool, i: int, n: int)
    requires
        0 <= i < n,
        test(i),
    ensures
        slots_where(test, n).contains(i as usize),
    decreases n,
{
    let list = slots_where(test, n);
    if i == n - 1 {
        assert(list[list.len() - 1] == i as usize);
    } else {
        where_holds(test, i, n - 1);
        let before = slots_where(test, n - 1);
        let k = choose|k: int| 0 <= k < before.len() && before[k] == i as usize;
        assert(list[k] == i as usize);
    }
}

/// Adding a list leaves none of it out, unless the cap is reached.
proof fn unseen_covers(done: Seq<usize>, list: Seq<usize>, cap: int, i: int)
    requires
        0 <= i,
    ensures
        with_unseen(done, list, cap, i).len() >= cap || forall|k: int|
            i <= k < list.len() ==> with_unseen(done, list, cap, i).contains(#[trigger] list[k]),
        forall|x: usize| #[trigger]
            done.contains(x) ==> with_unseen(done, list, cap, i).contains(x),
    decreases list.len() - i,
{
    if i < list.len() && done.len() < cap {
        let r = with_unseen(done, list, cap, i);
        if done.contains(list[i]) {
            unseen_covers(done, list, cap, i + 1);
            assert(r.contains(list[i]));
        } else {
            let next = done.push(list[i]);
            unseen_covers(next, list, cap, i + 1);
            assert(next[done.len() as int] == list[i]);
            assert(next.contains(list[i]));
            assert forall|x: usize| #[trigger] done.contains(x) implies r.contains(x) by {
                let k = choose|k: int| 0 <= k < done.len() && done[k] == x;
                assert(next[k] == x);
                assert(next.contains(x));
            }
        }
    }
}

/// Distinct elements of a list that are as many as the list holds all of it.
proof fn full_cover(r: Seq<usize>, list: Seq<usize>, k: int)
    requires
        r.no_duplicates(),
        list.no_duplicates(),
        forall|m: int| 0 <= m < r.len() ==> list.contains(#[trigger] r[m]),
        r.len() >= list.len(),
        0 <= k < list.len(),
    ensures
        r.contains(list[k]),
{
    r.unique_seq_to_set();
    list.unique_seq_to_set();
    assert(r.to_set().subset_of(list.to_set())) by {
        assert forall|x: usize| r.to_set().contains(x) implies list.to_set().contains(x) by {
            let m = choose|m: int| 0 <= m < r.len() && r[m] == x;
            assert(list.contains(r[m]));
        }
    }
    vstd::set_lib::lemma_len_subset(r.to_set(), list.to_set());
    vstd::set_lib::lemma_subset_equality(r.to_set(), list.to_set());
    assert(list.contains(list[k]));
    assert(list.to_set().contains(list[k]));
    assert(r.to_set().contains(list[k]));
}

/// A recall looks at no more slots than its budget.
pub proof fn budget_is_kept(
    t: Table,
    family: Option<SemanticFamily>,
    query: Seq<char>,
    lists: ProbeLists,
    project: Option<Key>,
    prior: Option<Seq<usize>>,
    budget: int,
)
    requires
        t.slots.len() <= usize::MAX,
        0 <= budget,
    ensures
        recall_slots(t, family, query, lists, project, prior, budget).len() <= budget,
{
    let needle = needle_of(query);
    let setup = set_up(t, family, needle, lists, project, budget);
    budgeted_is_proper(t, family, needle, setup, project, budget);
    eligible_fit(t, family, needle, t.slots.len() as int);
}

/// There are no more eligible slots than active ones.
pub proof fn eligible_fit(t: Table, family: Option<SemanticFamily>, needle: Seq<u8>, n: int)
    requires
        0 <= n <= t.slots.len(),
    ensures
        slots_where(source_test(t, family, Source::Any, needle), n).len() <= count_true(
            t.active,
            n,
        ),
    decreases n,
{
    if n > 0 {
        eligible_fit(t, family, needle, n - 1);
    }
}

/// Probing keeps to its share as well: no more paths are looked up than the
/// budget counts, and no more than one in eight of it is tried.
pub proof fn probing_is_bounded(
    t: Table,
    family: Option<SemanticFamily>,
    needle: Seq<u8>,
    lists: ProbeLists,
    project: Option<Key>,
    budget: int,
)
    requires
        0 <= budget,
    ensures
        set_up(t, family, needle, lists, project, budget).whole.probes <= budget,
        set_up(t, family, needle, lists, project, budget).whole.tried <= budget / 8,
        set_up(t, family, needle, lists, project, budget).whole.opened <= set_up(
            t,
            family,
            needle,
            lists,
            project,
            budget,
        ).whole.tried,
{
    let share = visible_share(project, budget);
    let probes = if project is Some {
        budget / 2
    } else {
        budget
    };
    probed_within(t, family, needle, lists.visible, Probing::start(), probes, share);
    let v = probed(t, family, needle, lists.visible, Probing::start(), probes, share);
    probed_within(
        t,
        family,
        needle,
        lists.owned,
        Probing { next: 0, ..v },
        budget,
        budget / 8,
    );
}

proof fn probed_within(
    t: Table,
    family: Option<SemanticFamily>,
    needle: Seq<u8>,
    list: Seq<Seq<char>>,
    s: Probing,
    max_probes: int,
    max_tried: int,
)
    requires
        s.probes <= max_probes,
        s.tried <= max_tried,
        s.opened <= s.tried,
    ensures
        probed(t, family, needle, list, s, max_probes, max_tried).probes <= max_probes,
        probed(t, family, needle, list, s, max_probes, max_tried).tried <= max_tried,
        probed(t, family, needle, list, s, max_probes, max_tried).opened <= probed(
            t,
            family,
            needle,
            list,
            s,
            max_probes,
            max_tried,
        ).tried,
    decreases list.len() - s.next,
{
    if 0 <= s.next < list.len() && s.probes < max_probes && s.tried < max_tried {
        probed_within(
            t,
            family,
            needle,
            list,
            probed_path(t, family, needle, s, list[s.next]),
            max_probes,
            max_tried,
        );
    }
}

/// The slots that a recall without a pool from before looks at are distinct,
/// active and of the family.
pub proof fn recalled_slots_are_proper(
    t: Table,
    family: Option<SemanticFamily>,
    query: Seq<char>,
    lists: ProbeLists,
    project: Option<Key>,
    budget: int,
)
    requires
        t.slots.len() <= usize::MAX,
        0 <= budget,
    ensures
        proper(t, family, recall_slots(t, family, query, lists, project, None, budget)),
{
    let needle = needle_of(query);
    let setup = set_up(t, family, needle, lists, project, budget);
    budgeted_is_proper(t, family, needle, setup, project, budget);
    source_is_proper(t, family, Source::Any, needle);
}

// ---------------------------------------------------------------------------
// Completeness

proof fn eligible_scored(
    t: Table,
    ctx: Option<Context>,
    family: Option<SemanticFamily>,
    needle: Seq<u8>,
    min: int,
    n: int,
)
    requires
        0 <= n <= t.slots.len() <= usize::MAX,
    ensures
        ({
            let ids = slots_where(source_test(t, family, Source::Any, needle), n);
            scored_below(t, ctx, family, needle, min, ids, ids.len() as int) == scored_below(
                t,
                ctx,
                family,
                needle,
                min,
                all_slots(t),
                n,
            )
        }),
    decreases n,
{
    if n > 0 {
        eligible_scored(t, ctx, family, needle, min, n - 1);
        let test = source_test(t, family, Source::Any, needle);
        let before = slots_where(test, n - 1);
        let ids = slots_where(test, n);
        assert(all_slots(t)[n - 1] == n - 1);
        if test(n - 1) {
            scored_prefix(t, ctx, family, needle, min, before, ids, before.len() as int);
        }
    }
}

proof fn scored_prefix(
    t: Table,
    ctx: Option<Context>,
    family: Option<SemanticFamily>,
    needle: Seq<u8>,
    min: int,
    a: Seq<usize>,
    b: Seq<usize>,
    n: int,
)
    requires
        0 <= n <= a.len(),
        n <= b.len(),
        forall|k: int| 0 <= k < n ==> a[k] == b[k],
    ensures
        scored_below(t, ctx, family, needle, min, a, n) == scored_below(
            t,
            ctx,
            family,
            needle,
            min,
            b,
            n,
        ),
    decreases n,
{
    if n > 0 {
        scored_prefix(t, ctx, family, needle, min, a, b, n - 1);
    }
}

proof fn eligible_unmatched(
    t: Table,
    ctx: Option<Context>,
    family: Option<SemanticFamily>,
    needle: Seq<u8>,
    n: int,
)
    requires
        0 <= n <= t.slots.len() <= usize::MAX,
        t.active.len() == t.slots.len(),
    ensures
        unmatched_ids(t, ctx, slots_where(source_test(t, family, Source::Any, needle), n))
            == unmatched_below(t, ctx, family, n),
    decreases n,
{
    let test = source_test(t, family, Source::Any, needle);
    let ids = slots_where(test, n);
    if n > 0 {
        eligible_unmatched(t, ctx, family, needle, n - 1);
        let before = slots_where(test, n - 1);
        if test(n - 1) {
            assert(unmatched_ids(t, ctx, ids) =~= unmatched_ids(t, ctx, before).push(
                candidate(t, ctx, n - 1, 0),
            ));
        }
    } else {
        assert(unmatched_ids(t, ctx, ids) =~= unmatched_below(t, ctx, family, n));
    }
}

/// A recall that leaves nothing out looks at exactly the eligible slots.
pub proof fn untruncated_recall_looks_at_all(
    t: Table,
    family: Option<SemanticFamily>,
    query: Seq<char>,
    lists: ProbeLists,
    project: Option<Key>,
    budget: int,
    i: int,
)
    requires
        t.slots.len() <= usize::MAX,
        0 <= budget,
        0 <= i < t.slots.len(),
        !recall_truncates(t, family, query, lists, project, None, budget),
    ensures
        recall_slots(t, family, query, lists, project, None, budget).contains(i as usize)
            <==> eligible(t, family, i),
{
    let needle = needle_of(query);
    let setup = set_up(t, family, needle, lists, project, budget);
    let ids = recall_slots(t, family, query, lists, project, None, budget);
    let any = source_slots(t, family, Source::Any, needle);
    budgeted_is_proper(t, family, needle, setup, project, budget);
    recalled_slots_are_proper(t, family, query, lists, project, budget);
    any_holds_eligible(t, family, needle);
    if ids.contains(i as usize) {
        let k = choose|k: int| 0 <= k < ids.len() && ids[k] == i as usize;
        assert(eligible(t, family, ids[k] as int));
    }
    count_true_fits(t.active, t.slots.len() as int);
    if eligible(t, family, i) {
        assert(any.contains(i as usize));
        let k = choose|k: int| 0 <= k < any.len() && any[k] == i as usize;
        assert(any[k] == i as usize);
    }
}

/// A recall whose budget covers the active names considers exactly the candidates
/// that a search of the whole table finds.
pub proof fn covering_recall_sees_all(
    t: Table,
    ctx: Option<Context>,
    family: Option<SemanticFamily>,
    query: Seq<char>,
    lists: ProbeLists,
    project: Option<Key>,
    budget: int,
)
    requires
        t.slots.len() <= usize::MAX,
        t.active.len() == t.slots.len(),
        active_count(t) <= budget,
    ensures
        recall_scored(
            t,
            ctx,
            family,
            query,
            recall_slots(t, family, query, lists, project, None, budget),
        ) == scored(t, ctx, family, query, looked_at(t, None)),
{
    let needle = needle_of(query);
    eligible_fit(t, family, needle, t.slots.len() as int);
    if trim(query).len() == 0 {
        eligible_unmatched(t, ctx, family, needle, t.slots.len() as int);
    } else {
        eligible_scored(t, ctx, family, needle, gate(needle), t.slots.len() as int);
    }
}

/// A budget that covers the active names changes nothing: the recall looks at
/// the slots that it looks at under any other such budget, and, for all
/// languages, leaves nothing out.
pub proof fn covering_budget_changes_nothing(
    t: Table,
    family: Option<SemanticFamily>,
    query: Seq<char>,
    lists: ProbeLists,
    project: Option<Key>,
    budget: int,
    wider: int,
)
    requires
        active_count(t) <= budget,
        budget <= wider,
    ensures
        recall_slots(t, family, query, lists, project, None, budget) == recall_slots(
            t,
            family,
            query,
            lists,
            project,
            None,
            wider,
        ),
        family is None ==> !recall_truncates(t, family, query, lists, project, None, budget),
{
    eligible_fit(t, family, needle_of(query), t.slots.len() as int);
}

proof fn pool_fits(
    t: Table,
    family: Option<SemanticFamily>,
    needle: Seq<u8>,
    ids: Seq<usize>,
    n: int,
)
    requires
        0 <= n,
    ensures
        pool_below(t, family, needle, ids, n).len() <= n,
    decreases n,
{
    if n > 0 {
        pool_fits(t, family, needle, ids, n - 1);
    }
}

/// Typing on: where the budget covers the active names, a recall in the pool of a
/// query, for a query that extends it, gives what a recall anew gives, hits
/// and pool alike.
pub proof fn narrowed_recall_is_cold_recall(
    t: Table,
    ctx: Option<Context>,
    family: Option<SemanticFamily>,
    short: Seq<char>,
    long: Seq<char>,
    quotas: CompletionRecallQuotas,
    lists: ProbeLists,
    project: Option<Key>,
    selecting: Option<Key>,
    budget: int,
)
    requires
        active_count(t) <= budget,
        trim(short).len() > 0,
        trim(short).len() <= trim(long).len(),
        trim(long).subrange(0, trim(short).len() as int) == trim(short),
    ensures
        ({
            let wide = recall_slots(t, family, short, lists, project, None, budget);
            let last = recall_pool(t, family, short, wide);
            let narrow = recall_slots(t, family, long, lists, project, Some(last), budget);
            let cold = recall_slots(t, family, long, lists, project, None, budget);
            &&& recalled(t, ctx, family, long, quotas, selecting, narrow) == recalled(
                t,
                ctx,
                family,
                long,
                quotas,
                selecting,
                cold,
            )
            &&& recall_pool(t, family, long, narrow) == recall_pool(t, family, long, cold)
        }),
{
    let all = source_slots(t, family, Source::Any, needle_of(long));
    any_ignores_needle(t, family, needle_of(short), needle_of(long), t.slots.len() as int);
    eligible_fit(t, family, needle_of(long), t.slots.len() as int);
    pool_fits(t, family, needle_of(short), all, all.len() as int);
    narrowing_is_lossless(t, ctx, family, short, long, all);
}

/// Every hit of a recall is counted in exactly one channel.
pub proof fn channels_count_every_hit(
    m: CompletionRecallMetrics,
    hits: Seq<Hit>,
    project: Option<Key>,
)
    requires
        counted(m, hits, project),
    ensures
        m.reachable + m.external + m.unknown + m.global == m.indexed_returned,
        m.same_project <= m.indexed_returned,
{
    hits_add_up(hits, project, hits.len() as int);
}

proof fn hits_add_up(hits: Seq<Hit>, project: Option<Key>, n: int)
    requires
        0 <= n,
    ensures
        hits_in(hits, ScopeChannel::Reachable, n) + hits_in(hits, ScopeChannel::External, n)
            + hits_in(hits, ScopeChannel::Unknown, n) + hits_in(hits, ScopeChannel::Global, n) == n,
        hits_of_project(hits, project, n) <= n,
    decreases n,
{
    if n > 0 {
        hits_add_up(hits, project, n - 1);
    }
}

// ---------------------------------------------------------------------------
// Quotas

/// No slot is selected twice.
pub open spec fn slots_distinct(s: Seq<Placed>) -> bool {
    forall|i: int, j: int|
        0 <= i < j < s.len() ==> (#[trigger] s[i]).candidate.index != (
        #[trigger] s[j]).candidate.index
}

proof fn push_distinct(sel: Seq<Placed>, p: Placed)
    requires
        slots_distinct(sel),
        !is_selected(sel, p.candidate.index),
    ensures
        slots_distinct(sel.push(p)),
{
    let next = sel.push(p);
    assert forall|i: int, j: int| 0 <= i < j < next.len() implies (
    #[trigger] next[i]).candidate.index != (#[trigger] next[j]).candidate.index by {
        assert(next[i] == sel[i]);
        if j < sel.len() {
            assert(next[j] == sel[j]);
        }
    }
}

proof fn taking_facts(sel: Seq<Placed>, list: Seq<Placed>, quota: int, i: int, taken: int)
    requires
        slots_distinct(sel),
        0 <= i <= list.len() <= quota,
        0 <= taken <= i,
    ensures
        ({
            let r = taking(sel, list, quota, i, taken);
            &&& slots_distinct(r)
            &&& r.len() <= sel.len() + (list.len() - i)
            &&& forall|x: usize| is_selected(sel, x) ==> #[trigger] is_selected(r, x)
            &&& forall|k: int|
                i <= k < list.len() ==> is_selected(r, (#[trigger] list[k]).candidate.index)
        }),
    decreases list.len() - i,
{
    if i < list.len() {
        let r = taking(sel, list, quota, i, taken);
        if is_selected(sel, list[i].candidate.index) {
            taking_facts(sel, list, quota, i + 1, taken);
        } else {
            push_distinct(sel, list[i]);
            let next = sel.push(list[i]);
            taking_facts(next, list, quota, i + 1, taken + 1);
            assert(next[sel.len() as int] == list[i]);
            assert forall|x: usize| is_selected(sel, x) implies #[trigger] is_selected(r, x) by {
                let k = choose|k: int|
                    0 <= k < sel.len() && (#[trigger] sel[k]).candidate.index == x;
                assert(next[k] == sel[k]);
                assert(is_selected(next, x));
            }
            assert(is_selected(next, list[i].candidate.index));
        }
    }
}

/// Filling keeps what is selected and takes nothing twice.
pub proof fn filling_facts(sel: Seq<Placed>, list: Seq<Placed>, total: int, i: int)
    requires
        slots_distinct(sel),
        0 <= i,
    ensures
        ({
            let r = filling(sel, list, total, i);
            &&& slots_distinct(r)
            &&& sel.len() <= total ==> r.len() <= total
            &&& forall|x: usize| is_selected(sel, x) ==> #[trigger] is_selected(r, x)
        }),
    decreases list.len() - i,
{
    if i < list.len() && sel.len() < total {
        let r = filling(sel, list, total, i);
        if is_selected(sel, list[i].candidate.index) {
            filling_facts(sel, list, total, i + 1);
        } else {
            push_distinct(sel, list[i]);
            let next = sel.push(list[i]);
            filling_facts(next, list, total, i + 1);
            assert forall|x: usize| is_selected(sel, x) implies #[trigger] is_selected(r, x) by {
                let k = choose|k: int|
                    0 <= k < sel.len() && (#[trigger] sel[k]).candidate.index == x;
                assert(next[k] == sel[k]);
                assert(is_selected(next, x));
            }
        }
    }
}

/// The best of a kind are added up to their quota, none twice.
pub proof fn best_facts(sel: Seq<Placed>, s: Seq<Placed>, filter: Filter, quota: int)
    requires
        slots_distinct(sel),
        0 <= quota,
    ensures
        ({
            let r = with_best(sel, s, filter, quota);
            &&& slots_distinct(r)
            &&& r.len() <= sel.len() + quota
            &&& forall|x: usize| is_selected(sel, x) ==> #[trigger] is_selected(r, x)
            &&& forall|k: int|
                0 <= k < top(passing(s, filter), quota).len() ==> is_selected(
                    r,
                    (#[trigger] top(passing(s, filter), quota)[k]).candidate.index,
                )
        }),
{
    taking_facts(sel, top(passing(s, filter), quota), quota, 0, 0);
}

/// The best of distinct candidates are distinct, and no more than the limit.
pub proof fn top_facts(s: Seq<Placed>, limit: int)
    requires
        slots_distinct(s),
        0 <= limit,
    ensures
        slots_distinct(top(s, limit)),
        top(s, limit).len() <= limit,
        s.len() <= limit ==> forall|x: usize|
            is_selected(s, x) ==> #[trigger] is_selected(top(s, limit), x),
{
    broadcast use vstd::seq_lib::group_to_multiset_ensures;

    let sorted = stable_sort::<Placed, ScoredOrder>(s);
    stable_sort_is_permutation::<Placed, ScoredOrder>(s);
    assert(s.no_duplicates()) by {
        assert forall|i: int, j: int|
            0 <= i < s.len() && 0 <= j < s.len() && i != j implies s[i] != s[j] by {
            if i < j {
                assert(s[i].candidate.index != s[j].candidate.index);
            } else {
                assert(s[j].candidate.index != s[i].candidate.index);
            }
        }
    }
    s.lemma_multiset_has_no_duplicates();
    sorted.lemma_multiset_has_no_duplicates_conv();
    assert forall|i: int, j: int| 0 <= i < j < sorted.len() implies (
    #[trigger] sorted[i]).candidate.index != (#[trigger] sorted[j]).candidate.index by {
        stable_sort_takes_from::<Placed, ScoredOrder>(s, i);
        stable_sort_takes_from::<Placed, ScoredOrder>(s, j);
        let m = choose|m: int| 0 <= m < s.len() && s[m] == sorted[i];
        let n = choose|n: int| 0 <= n < s.len() && s[n] == sorted[j];
        assert(sorted[i] != sorted[j]);
        if m < n {
            assert(s[m].candidate.index != s[n].candidate.index);
        } else {
            assert(s[n].candidate.index != s[m].candidate.index);
        }
    }
    if s.len() <= limit {
        assert forall|x: usize| is_selected(s, x) implies #[trigger] is_selected(
            top(s, limit),
            x,
        ) by {
            let k = choose|k: int| 0 <= k < s.len() && (#[trigger] s[k]).candidate.index == x;
            assert(s.to_multiset().count(s[k]) > 0);
            assert(sorted.contains(s[k]));
            let m = choose|m: int| 0 <= m < sorted.len() && sorted[m] == s[k];
            assert(top(s, limit)[m].candidate.index == x);
        }
    } else {
        let cut = top(s, limit);
        assert forall|i: int, j: int| 0 <= i < j < cut.len() implies (
        #[trigger] cut[i]).candidate.index != (#[trigger] cut[j]).candidate.index by {
            assert(cut[i] == sorted[i] && cut[j] == sorted[j]);
        }
    }
}

/// The filters of a recall with their quotas.
pub open spec fn has_quota(
    q: CompletionRecallQuotas,
    project: Option<Key>,
    filter: Filter,
    quota: int,
) -> bool {
    match filter {
        Filter::Channel(ScopeChannel::Reachable) => quota == q.reachable,
        Filter::Channel(ScopeChannel::External) => quota == q.external,
        Filter::Channel(ScopeChannel::Unknown) => quota == q.unknown,
        Filter::Channel(ScopeChannel::Global) => quota == q.global,
        Filter::Project(key) => project == Some(key) && quota == q.same_project,
        Filter::All => false,
    }
}

/// A recall returns no slot twice and no more than its total.
pub proof fn recall_keeps_each_slot_once(
    s: Seq<Placed>,
    q: CompletionRecallQuotas,
    project: Option<Key>,
)
    ensures
        slots_distinct(kept_by_quota(s, q, project)),
        kept_by_quota(s, q, project).len() <= q.total_indexed,
{
    quota_facts(s, q, project, Filter::All, 0);
}

/// Where the quotas fit into the total, the best candidates of every channel,
/// and of the active project, are kept up to their quota, whatever else
/// matches.
pub proof fn channels_keep_their_share(
    s: Seq<Placed>,
    q: CompletionRecallQuotas,
    project: Option<Key>,
    filter: Filter,
    quota: int,
    k: int,
)
    requires
        q.reachable + q.external + q.unknown + q.global + q.same_project <= q.total_indexed,
        has_quota(q, project, filter, quota),
        0 <= k < top(passing(s, filter), quota).len(),
    ensures
        is_selected(
            kept_by_quota(s, q, project),
            top(passing(s, filter), quota)[k].candidate.index,
        ),
{
    quota_facts(s, q, project, filter, quota);
    let x = top(passing(s, filter), quota)[k].candidate.index;
    assert(is_selected(kept_by_quota(s, q, project), x));
}

proof fn quota_facts(
    s: Seq<Placed>,
    q: CompletionRecallQuotas,
    project: Option<Key>,
    filter: Filter,
    quota: int,
)
    ensures
        slots_distinct(kept_by_quota(s, q, project)),
        kept_by_quota(s, q, project).len() <= q.total_indexed,
        (q.reachable + q.external + q.unknown + q.global + q.same_project <= q.total_indexed
            && has_quota(q, project, filter, quota)) ==> forall|k: int|
            0 <= k < top(passing(s, filter), quota).len() ==> is_selected(
                kept_by_quota(s, q, project),
                (#[trigger] top(passing(s, filter), quota)[k]).candidate.index,
            ),
{
    let best = top(passing(s, Filter::All), sat_sum(q.total_indexed as int, reserved(q)));
    let f1 = Filter::Channel(ScopeChannel::Reachable);
    best_facts(Seq::empty(), s, f1, q.reachable as int);
    let a = with_best(Seq::empty(), s, f1, q.reachable as int);
    let b = match project {
        Some(key) => {
            best_facts(a, s, Filter::Project(key), q.same_project as int);
            with_best(a, s, Filter::Project(key), q.same_project as int)
        },
        None => a,
    };
    let f3 = Filter::Channel(ScopeChannel::External);
    best_facts(b, s, f3, q.external as int);
    let c = with_best(b, s, f3, q.external as int);
    let f4 = Filter::Channel(ScopeChannel::Unknown);
    best_facts(c, s, f4, q.unknown as int);
    let d = with_best(c, s, f4, q.unknown as int);
    let f5 = Filter::Channel(ScopeChannel::Global);
    best_facts(d, s, f5, q.global as int);
    let e = with_best(d, s, f5, q.global as int);
    filling_facts(e, best, q.total_indexed as int, 0);
    let filled = filling(e, best, q.total_indexed as int, 0);
    top_facts(filled, q.total_indexed as int);
    let kept = kept_by_quota(s, q, project);
    if q.reachable + q.external + q.unknown + q.global + q.same_project <= q.total_indexed
        && has_quota(q, project, filter, quota) {
        assert forall|k: int| 0 <= k < top(passing(s, filter), quota).len() implies is_selected(
            kept,
            (#[trigger] top(passing(s, filter), quota)[k]).candidate.index,
        ) by {
            let x = top(passing(s, filter), quota)[k].candidate.index;
            match filter {
                Filter::Channel(ScopeChannel::Reachable) => {
                    assert(is_selected(a, x));
                },
                Filter::Project(key) => {
                    assert(is_selected(b, x));
                },
                Filter::Channel(ScopeChannel::External) => {
                    assert(is_selected(c, x));
                },
                Filter::Channel(ScopeChannel::Unknown) => {
                    assert(is_selected(d, x));
                },
                _ => {
                    assert(is_selected(e, x));
                },
            }
            if is_selected(a, x) {
                assert(is_selected(b, x));
            }
            if is_selected(b, x) {
                assert(is_selected(c, x));
            }
            if is_selected(c, x) {
                assert(is_selected(d, x));
            }
            if is_selected(d, x) {
                assert(is_selected(e, x));
            }
            assert(is_selected(filled, x));
        }
    }
}

} // verus!
