//! Completion recall: which slots are looked at within a budget, and how many
//! of each kind are kept.

use vstd::prelude::*;
use vstd::utf8::encode_utf8;

use crate::chars::{matches_at, occurs_at, same_text, trim};
use crate::facts::{completion_role_recall_priority, role_priority, SemanticFamily};
use crate::model::ScopeTier;
use crate::name_search::{
    candidate, context_of, first, gate, gate_for, hit_views, hits_from, hits_of, in_family,
    match_score, needle_from, needle_of, opt_context, opt_ids, placed, pool_below, ranked_views,
    same_multiset_member, scored_below, top, top_ranked, valid_ids, CompletionScope, Context, Hit,
    Placed, Ranked, RankedNameHit, ScoredCandidate,
};
use crate::name_segment::{folded, Name, NameEntryRef};
use crate::name_table::{count_true, count_true_fits, NameTable, Table};
use crate::name_tokens::{
    fuzzy_tokens_for_name, is_boundary_query_token, is_continuous_query_token,
    is_name_token,
};
use crate::name_updates::project_slots;
use crate::order::{
    is_text_before, sort_merging, stable_sort, stable_sort_is_permutation, stable_sort_maps,
    strict_weak, text_before, text_before_is_total, text_before_is_transitive, Order, Ordered,
};
use crate::priority::{
    cut_short, probe_lists, probed, ProbeLists, Probing, ProbingState,
};
use crate::project_context::{same_project, Key, ProjectKey};
use crate::reach::PathSet;
use crate::recall_laws::eligible_fit;
use crate::recall_sources::where_grows;
use crate::resolver::ResolveContext;

verus! {

/// Entries processed between two checks for cancellation.
pub const COMPLETION_CANCELLATION_CHECK_INTERVAL: usize = 256;

/// Entries that one completion request may look at.
pub const COMPLETION_RECALL_CANDIDATE_BUDGET: usize = 16_384;

/// Metadata probes that a priority channel may make.
pub const COMPLETION_PRIORITY_METADATA_PROBE_LIMIT: usize = 4_096;

/// Cancellation that a request owns and recall observes.
pub trait CompletionQueryCancellation {
    fn is_cancelled(&self) -> bool;
}

/// A request that nothing cancels.
pub struct NotCancellable;

impl CompletionQueryCancellation for NotCancellable {
    fn is_cancelled(&self) -> (r: bool)
        ensures
            !r,
    {
        false
    }
}

// ---------------------------------------------------------------------------
// Quotas and metrics

#[derive(Debug, Clone, Copy, PartialEq, Eq, Structural)]
pub struct CompletionRecallQuotas {
    pub total_indexed: usize,
    pub reachable: usize,
    pub external: usize,
    pub unknown: usize,
    pub global: usize,
    pub same_project: usize,
}

/// `a + b`, or the largest number.
pub open spec fn sat_sum(a: int, b: int) -> int {
    if a + b > usize::MAX {
        usize::MAX as int
    } else {
        a + b
    }
}

/// `3 * limit`, or the largest number.
pub open spec fn triple(limit: usize) -> usize {
    sat_sum(sat_sum(limit as int, limit as int), limit as int) as usize
}

impl CompletionRecallQuotas {
    pub open spec fn spec_default(limit: usize) -> CompletionRecallQuotas {
        CompletionRecallQuotas {
            total_indexed: triple(limit),
            reachable: limit,
            external: limit / 2,
            unknown: limit / 2,
            global: limit,
            same_project: 0,
        }
    }

    pub fn default_for_completion_limit(limit: usize) -> (r: Self)
        ensures
            r == CompletionRecallQuotas::spec_default(limit),
    {
        CompletionRecallQuotas {
            total_indexed: limit.saturating_add(limit).saturating_add(limit),
            reachable: limit,
            external: limit / 2,
            unknown: limit / 2,
            global: limit,
            same_project: 0,
        }
    }

    pub fn with_project_context(limit: usize) -> (r: Self)
        ensures
            r == (CompletionRecallQuotas {
                same_project: limit / 2,
                total_indexed: sat_sum(triple(limit) as int, (limit / 2) as int) as usize,
                ..CompletionRecallQuotas::spec_default(limit)
            }),
    {
        let base = CompletionRecallQuotas::default_for_completion_limit(limit);
        CompletionRecallQuotas {
            total_indexed: base.total_indexed.saturating_add(limit / 2),
            reachable: base.reachable,
            external: base.external,
            unknown: base.unknown,
            global: base.global,
            same_project: limit / 2,
        }
    }
}

/// What one recall did.
#[derive(Debug, Clone, Copy, PartialEq, Eq, Structural)]
pub struct CompletionRecallMetrics {
    pub reachable: usize,
    pub external: usize,
    pub unknown: usize,
    pub global: usize,
    pub same_project: usize,
    pub pool_total: usize,
    pub indexed_returned: usize,
    pub entries_inspected: usize,
    pub prefix_entries_inspected: usize,
    pub fuzzy_entries_inspected: usize,
    pub fuzzy_posting_entries_inspected: usize,
    pub fuzzy_sample_entries_inspected: usize,
    pub priority_source_probes: usize,
    pub priority_source_attempts: usize,
    pub priority_sources_initialized: usize,
    pub priority_fuzzy_name_probes: usize,
    pub priority_fuzzy_declaration_probes: usize,
    pub selection_entries_inspected: usize,
    pub active_entries_total: usize,
    pub candidate_budget: usize,
    pub cancellation_checks: usize,
    pub cancelled: bool,
    pub truncated: bool,
}

impl CompletionRecallMetrics {
    pub open spec fn zero() -> CompletionRecallMetrics {
        CompletionRecallMetrics {
            reachable: 0,
            external: 0,
            unknown: 0,
            global: 0,
            same_project: 0,
            pool_total: 0,
            indexed_returned: 0,
            entries_inspected: 0,
            prefix_entries_inspected: 0,
            fuzzy_entries_inspected: 0,
            fuzzy_posting_entries_inspected: 0,
            fuzzy_sample_entries_inspected: 0,
            priority_source_probes: 0,
            priority_source_attempts: 0,
            priority_sources_initialized: 0,
            priority_fuzzy_name_probes: 0,
            priority_fuzzy_declaration_probes: 0,
            selection_entries_inspected: 0,
            active_entries_total: 0,
            candidate_budget: 0,
            cancellation_checks: 0,
            cancelled: false,
            truncated: false,
        }
    }

    /// Both sets of counters can be added up.
    pub open spec fn addable(self, o: CompletionRecallMetrics) -> bool {
        &&& self.reachable + o.reachable <= usize::MAX
        &&& self.external + o.external <= usize::MAX
        &&& self.unknown + o.unknown <= usize::MAX
        &&& self.global + o.global <= usize::MAX
        &&& self.same_project + o.same_project <= usize::MAX
        &&& self.pool_total + o.pool_total <= usize::MAX
        &&& self.indexed_returned + o.indexed_returned <= usize::MAX
        &&& self.entries_inspected + o.entries_inspected <= usize::MAX
        &&& self.prefix_entries_inspected + o.prefix_entries_inspected <= usize::MAX
        &&& self.fuzzy_entries_inspected + o.fuzzy_entries_inspected <= usize::MAX
        &&& self.fuzzy_posting_entries_inspected + o.fuzzy_posting_entries_inspected <= usize::MAX
        &&& self.fuzzy_sample_entries_inspected + o.fuzzy_sample_entries_inspected <= usize::MAX
        &&& self.priority_source_probes + o.priority_source_probes <= usize::MAX
        &&& self.priority_source_attempts + o.priority_source_attempts <= usize::MAX
        &&& self.priority_sources_initialized + o.priority_sources_initialized <= usize::MAX
        &&& self.priority_fuzzy_name_probes + o.priority_fuzzy_name_probes <= usize::MAX
        &&& self.priority_fuzzy_declaration_probes + o.priority_fuzzy_declaration_probes
            <= usize::MAX
        &&& self.selection_entries_inspected + o.selection_entries_inspected <= usize::MAX
        &&& self.active_entries_total + o.active_entries_total <= usize::MAX
        &&& self.candidate_budget + o.candidate_budget <= usize::MAX
        &&& self.cancellation_checks + o.cancellation_checks <= usize::MAX
    }

    pub open spec fn merged(self, o: CompletionRecallMetrics) -> CompletionRecallMetrics {
        CompletionRecallMetrics {
            reachable: (self.reachable + o.reachable) as usize,
            external: (self.external + o.external) as usize,
            unknown: (self.unknown + o.unknown) as usize,
            global: (self.global + o.global) as usize,
            same_project: (self.same_project + o.same_project) as usize,
            pool_total: (self.pool_total + o.pool_total) as usize,
            indexed_returned: (self.indexed_returned + o.indexed_returned) as usize,
            entries_inspected: (self.entries_inspected + o.entries_inspected) as usize,
            prefix_entries_inspected: (self.prefix_entries_inspected + o.prefix_entries_inspected)
                as usize,
            fuzzy_entries_inspected: (self.fuzzy_entries_inspected + o.fuzzy_entries_inspected)
                as usize,
            fuzzy_posting_entries_inspected: (self.fuzzy_posting_entries_inspected
                + o.fuzzy_posting_entries_inspected) as usize,
            fuzzy_sample_entries_inspected: (self.fuzzy_sample_entries_inspected
                + o.fuzzy_sample_entries_inspected) as usize,
            priority_source_probes: (self.priority_source_probes + o.priority_source_probes)
                as usize,
            priority_source_attempts: (self.priority_source_attempts + o.priority_source_attempts)
                as usize,
            priority_sources_initialized: (self.priority_sources_initialized
                + o.priority_sources_initialized) as usize,
            priority_fuzzy_name_probes: (self.priority_fuzzy_name_probes
                + o.priority_fuzzy_name_probes) as usize,
            priority_fuzzy_declaration_probes: (self.priority_fuzzy_declaration_probes
                + o.priority_fuzzy_declaration_probes) as usize,
            selection_entries_inspected: (self.selection_entries_inspected
                + o.selection_entries_inspected) as usize,
            active_entries_total: (self.active_entries_total + o.active_entries_total) as usize,
            candidate_budget: (self.candidate_budget + o.candidate_budget) as usize,
            cancellation_checks: (self.cancellation_checks + o.cancellation_checks) as usize,
            cancelled: self.cancelled || o.cancelled,
            truncated: self.truncated || o.truncated,
        }
    }

    /// Add the counters of another recall; a flag is set if either set it.
    pub fn merge_from(&mut self, other: CompletionRecallMetrics)
        requires
            old(self).addable(other),
        ensures
            *final(self) == old(self).merged(other),
    {
        self.reachable = self.reachable + other.reachable;
        self.external = self.external + other.external;
        self.unknown = self.unknown + other.unknown;
        self.global = self.global + other.global;
        self.same_project = self.same_project + other.same_project;
        self.pool_total = self.pool_total + other.pool_total;
        self.indexed_returned = self.indexed_returned + other.indexed_returned;
        self.entries_inspected = self.entries_inspected + other.entries_inspected;
        self.prefix_entries_inspected = self.prefix_entries_inspected
            + other.prefix_entries_inspected;
        self.fuzzy_entries_inspected = self.fuzzy_entries_inspected
            + other.fuzzy_entries_inspected;
        self.fuzzy_posting_entries_inspected = self.fuzzy_posting_entries_inspected
            + other.fuzzy_posting_entries_inspected;
        self.fuzzy_sample_entries_inspected = self.fuzzy_sample_entries_inspected
            + other.fuzzy_sample_entries_inspected;
        self.priority_source_probes = self.priority_source_probes + other.priority_source_probes;
        self.priority_source_attempts = self.priority_source_attempts
            + other.priority_source_attempts;
        self.priority_sources_initialized = self.priority_sources_initialized
            + other.priority_sources_initialized;
        self.priority_fuzzy_name_probes = self.priority_fuzzy_name_probes
            + other.priority_fuzzy_name_probes;
        self.priority_fuzzy_declaration_probes = self.priority_fuzzy_declaration_probes
            + other.priority_fuzzy_declaration_probes;
        self.selection_entries_inspected = self.selection_entries_inspected
            + other.selection_entries_inspected;
        self.active_entries_total = self.active_entries_total + other.active_entries_total;
        self.candidate_budget = self.candidate_budget + other.candidate_budget;
        self.cancellation_checks = self.cancellation_checks + other.cancellation_checks;
        self.cancelled = self.cancelled || other.cancelled;
        self.truncated = self.truncated || other.truncated;
    }
}

impl Default for CompletionRecallMetrics {
    fn default() -> (r: Self)
        ensures
            r == CompletionRecallMetrics::zero(),
    {
        CompletionRecallMetrics {
            reachable: 0,
            external: 0,
            unknown: 0,
            global: 0,
            same_project: 0,
            pool_total: 0,
            indexed_returned: 0,
            entries_inspected: 0,
            prefix_entries_inspected: 0,
            fuzzy_entries_inspected: 0,
            fuzzy_posting_entries_inspected: 0,
            fuzzy_sample_entries_inspected: 0,
            priority_source_probes: 0,
            priority_source_attempts: 0,
            priority_sources_initialized: 0,
            priority_fuzzy_name_probes: 0,
            priority_fuzzy_declaration_probes: 0,
            selection_entries_inspected: 0,
            active_entries_total: 0,
            candidate_budget: 0,
            cancellation_checks: 0,
            cancelled: false,
            truncated: false,
        }
    }
}

// ---------------------------------------------------------------------------
// Static order

/// A slot with its name.
pub struct Shelved {
    pub name: Name,
    pub index: usize,
}

pub struct ShelvedRef<'a> {
    pub entry: NameEntryRef<'a>,
    pub index: usize,
}

impl<'a> View for ShelvedRef<'a> {
    type V = Shelved;

    open spec fn view(&self) -> Shelved {
        Shelved { name: self.entry@, index: self.index }
    }
}

/// Slots by what does not depend on a query: shorter names, then name, role,
/// path, id and place.
pub struct StaticOrder;

impl Order<Shelved> for StaticOrder {
    open spec fn before(a: Shelved, b: Shelved) -> bool {
        let (la, lb) = (encode_utf8(a.name.name).len(), encode_utf8(b.name.name).len());
        if la != lb {
            la < lb
        } else if a.name.name != b.name.name {
            text_before(a.name.name, b.name.name)
        } else if role_priority(a.name.role) != role_priority(b.name.role) {
            role_priority(a.name.role) > role_priority(b.name.role)
        } else if a.name.path != b.name.path {
            text_before(a.name.path, b.name.path)
        } else if a.name.id != b.name.id {
            a.name.id < b.name.id
        } else {
            a.index < b.index
        }
    }
}

impl<'a> Order<ShelvedRef<'a>> for StaticOrder {
    open spec fn before(a: ShelvedRef<'a>, b: ShelvedRef<'a>) -> bool {
        <StaticOrder as Order<Shelved>>::before(a@, b@)
    }
}

impl<'a> Ordered<ShelvedRef<'a>> for StaticOrder {
    fn is_before(a: &ShelvedRef<'a>, b: &ShelvedRef<'a>) -> (r: bool) {
        let la: usize = a.entry.name.as_bytes().len();
        let lb: usize = b.entry.name.as_bytes().len();
        let role_a: u8 = completion_role_recall_priority(a.entry.role);
        let role_b: u8 = completion_role_recall_priority(b.entry.role);
        if la != lb {
            la < lb
        } else if !same_text(a.entry.name, b.entry.name) {
            is_text_before(a.entry.name, b.entry.name)
        } else if role_a != role_b {
            role_a > role_b
        } else if !same_text(a.entry.path, b.entry.path) {
            is_text_before(a.entry.path, b.entry.path)
        } else if a.entry.id != b.entry.id {
            a.entry.id < b.entry.id
        } else {
            a.index < b.index
        }
    }
}

/// The static order is a strict weak order.
pub proof fn static_order_is_strict_weak()
    ensures
        strict_weak::<Shelved, StaticOrder>(),
        strict_weak::<ShelvedRef, StaticOrder>(),
{
    assert forall|a: Shelved, b: Shelved|
        <StaticOrder as Order<Shelved>>::before(a, b) implies !#[trigger] <StaticOrder as Order<
        Shelved,
    >>::before(b, a) by {
        text_before_is_total(a.name.name, b.name.name);
        text_before_is_total(a.name.path, b.name.path);
    }
    assert forall|a: Shelved, b: Shelved, c: Shelved|
        !(#[trigger] <StaticOrder as Order<Shelved>>::before(a, b))
            && !(#[trigger] <StaticOrder as Order<Shelved>>::before(b, c)) implies !<StaticOrder as Order<
        Shelved,
    >>::before(a, c) by {
        text_before_is_total(a.name.name, b.name.name);
        text_before_is_total(b.name.name, c.name.name);
        text_before_is_total(a.name.name, c.name.name);
        text_before_is_total(a.name.path, b.name.path);
        text_before_is_total(b.name.path, c.name.path);
        text_before_is_total(a.name.path, c.name.path);
        if text_before(b.name.name, a.name.name) && text_before(c.name.name, b.name.name) {
            text_before_is_transitive(c.name.name, b.name.name, a.name.name);
        }
        if text_before(b.name.path, a.name.path) && text_before(c.name.path, b.name.path) {
            text_before_is_transitive(c.name.path, b.name.path, a.name.path);
        }
    }
    assert forall|a: ShelvedRef, b: ShelvedRef|
        <StaticOrder as Order<ShelvedRef>>::before(
            a,
            b,
        ) implies !#[trigger] <StaticOrder as Order<ShelvedRef>>::before(b, a) by {
        assert(!<StaticOrder as Order<Shelved>>::before(b@, a@));
    }
    assert forall|a: ShelvedRef, b: ShelvedRef, c: ShelvedRef|
        !(#[trigger] <StaticOrder as Order<ShelvedRef>>::before(a, b))
            && !(#[trigger] <StaticOrder as Order<ShelvedRef>>::before(
            b,
            c,
        )) implies !<StaticOrder as Order<ShelvedRef>>::before(a, c) by {
        assert(!<StaticOrder as Order<Shelved>>::before(a@, b@));
        assert(!<StaticOrder as Order<Shelved>>::before(b@, c@));
    }
}

pub open spec fn shelved(t: Table, ids: Seq<usize>) -> Seq<Shelved> {
    Seq::new(ids.len(), |i: int| Shelved { name: t.slots[ids[i] as int], index: ids[i] })
}

pub open spec fn shelf_indices(s: Seq<Shelved>) -> Seq<usize> {
    Seq::new(s.len(), |i: int| s[i].index)
}

/// Slots in static order.
pub open spec fn static_sorted(t: Table, ids: Seq<usize>) -> Seq<usize> {
    shelf_indices(stable_sort::<Shelved, StaticOrder>(shelved(t, ids)))
}

pub open spec fn shelved_views(s: Seq<ShelvedRef>) -> Seq<Shelved> {
    s.map_values(|r: ShelvedRef| r@)
}

impl NameTable {
    /// Slots in static order.
    pub fn sort_statically(&self, ids: &Vec<usize>) -> (r: Vec<usize>)
        requires
            self.wf(),
            valid_ids(self@, ids@),
        ensures
            r@ == static_sorted(self@, ids@),
            valid_ids(self@, r@),
    {
        let ghost want = shelved(self@, ids@);
        let mut items: Vec<ShelvedRef> = Vec::new();
        let mut i: usize = 0;
        assert(shelved_views(items@) =~= want.subrange(0, 0));
        while i < ids.len()
            invariant
                self.wf(),
                valid_ids(self@, ids@),
                i <= ids@.len(),
                want == shelved(self@, ids@),
                shelved_views(items@) == want.subrange(0, i as int),
                forall|k: int|
                    0 <= k < items@.len() ==> (#[trigger] items@[k]).index < self@.slots.len(),
            decreases ids@.len() - i,
        {
            let ghost before = shelved_views(items@);
            let item = ShelvedRef { entry: self.entry(ids[i]), index: ids[i] };
            let ghost v = item@;
            items.push(item);
            i = i + 1;
            assert(shelved_views(items@) =~= before.push(v));
            assert(shelved_views(items@) =~= want.subrange(0, i as int));
        }
        assert(shelved_views(items@) =~= want);
        let ghost unsorted = items@;
        proof {
            static_order_is_strict_weak();
            stable_sort_maps::<ShelvedRef, Shelved, StaticOrder, StaticOrder>(
                items@,
                |r: ShelvedRef| r@,
            );
            stable_sort_is_permutation::<ShelvedRef, StaticOrder>(unsorted);
        }
        let sorted = sort_merging::<ShelvedRef, StaticOrder>(items);
        let ghost order = shelved_views(sorted@);
        let mut out: Vec<usize> = Vec::new();
        let mut k: usize = 0;
        while k < sorted.len()
            invariant
                k <= sorted@.len(),
                order == shelved_views(sorted@),
                sorted@.to_multiset() == unsorted.to_multiset(),
                forall|j: int|
                    0 <= j < unsorted.len() ==> (#[trigger] unsorted[j]).index < self@.slots.len(),
                out@ == shelf_indices(order).subrange(0, k as int),
                valid_ids(self@, out@),
            decreases sorted@.len() - k,
        {
            proof {
                same_multiset_member(sorted@, unsorted, k as int);
                assert(order[k as int] == sorted@[k as int]@);
            }
            out.push(sorted[k].index);
            k = k + 1;
            assert(out@ =~= shelf_indices(order).subrange(0, k as int));
        }
        assert(out@ =~= static_sorted(self@, ids@));
        out
    }
}

// ---------------------------------------------------------------------------
// Which slots are looked at

/// An active slot of the family.
pub open spec fn eligible(t: Table, family: Option<SemanticFamily>, i: int) -> bool {
    t.is_active(i) && in_family(t, family, i)
}

/// The slots below `n` that pass a test.
pub open spec fn slots_where(test: spec_fn(int) -> bool, n: int) -> Seq<usize>
    decreases n,
{
    if n <= 0 {
        Seq::empty()
    } else if test(n - 1) {
        slots_where(test, n - 1).push((n - 1) as usize)
    } else {
        slots_where(test, n - 1)
    }
}

/// A name that the query is a prefix of.
pub open spec fn has_prefix(n: Name, needle: Seq<u8>) -> bool {
    occurs_at(folded(n.name), needle, 0)
}

/// A name that shares a token with the query.
pub open spec fn shares_token(n: Name, needle: Seq<u8>) -> bool {
    exists|token: u32| #[trigger]
        is_name_token(n.name, token) && (is_continuous_query_token(needle, token)
            || is_boundary_query_token(needle, token))
}

/// A source of slots to look at.
pub enum Source {
    /// Names of some paths that start with the query.
    Opened(Set<Seq<char>>),
    /// Names of one project, on some paths, that start with the query.
    Owned(Key, Set<Seq<char>>),
    /// Names that start with the query.
    Prefix,
    /// Names that share a token with the query.
    Token,
    /// All names.
    Any,
}

pub open spec fn comes_from(t: Table, source: Source, needle: Seq<u8>, i: int) -> bool {
    let n = t.slots[i];
    match source {
        Source::Opened(paths) => has_prefix(n, needle) && paths.contains(n.path),
        Source::Owned(key, paths) => has_prefix(n, needle) && n.project == Some(key)
            && paths.contains(n.path),
        Source::Prefix => has_prefix(n, needle),
        Source::Token => shares_token(n, needle),
        Source::Any => true,
    }
}

pub open spec fn source_test(
    t: Table,
    family: Option<SemanticFamily>,
    source: Source,
    needle: Seq<u8>,
) -> spec_fn(int) -> bool {
    |i: int| eligible(t, family, i) && comes_from(t, source, needle, i)
}

/// The eligible slots of a source, in slot order.
pub open spec fn source_slots(
    t: Table,
    family: Option<SemanticFamily>,
    source: Source,
    needle: Seq<u8>,
) -> Seq<usize> {
    slots_where(source_test(t, family, source, needle), t.slots.len() as int)
}

/// `done` and the first of `list` not in it yet, up to `cap` in all.
pub open spec fn with_unseen(done: Seq<usize>, list: Seq<usize>, cap: int, i: int) -> Seq<usize>
    decreases list.len() - i,
{
    if i < 0 || i >= list.len() || done.len() >= cap {
        done
    } else if done.contains(list[i]) {
        with_unseen(done, list, cap, i + 1)
    } else {
        with_unseen(done.push(list[i]), list, cap, i + 1)
    }
}

/// The share of a budget that visible names are sure of; an active project
/// takes half of it.
pub open spec fn visible_share(project: Option<Key>, budget: int) -> int {
    if project is Some {
        budget / 16
    } else {
        budget / 8
    }
}

/// What probing found before a bounded recall: the paths of the visible share,
/// those together with the paths of the project, and whether paths were left
/// unprobed.
pub struct Setup {
    pub visible: Probing,
    pub whole: Probing,
    pub cut: bool,
}

/// Probe paths for a bounded recall: no more than one in eight of the budget
/// is tried, and an active project keeps half of the probes.
pub open spec fn set_up(
    t: Table,
    family: Option<SemanticFamily>,
    needle: Seq<u8>,
    lists: ProbeLists,
    project: Option<Key>,
    budget: int,
) -> Setup {
    let share = visible_share(project, budget);
    let probes = if project is Some {
        budget / 2
    } else {
        budget
    };
    let visible = probed(t, family, needle, lists.visible, Probing::start(), probes, share);
    let cut = cut_short(lists.visible, visible, share);
    match project {
        Some(_) => {
            let whole = probed(
                t,
                family,
                needle,
                lists.owned,
                Probing { next: 0, ..visible },
                budget,
                budget / 8,
            );
            Setup { visible, whole, cut: cut || cut_short(lists.owned, whole, budget / 8) }
        },
        None => Setup { visible, whole: visible, cut },
    }
}

/// The visible names, shorter names first.
pub open spec fn visible_names(
    t: Table,
    family: Option<SemanticFamily>,
    needle: Seq<u8>,
    setup: Setup,
) -> Seq<usize> {
    static_sorted(t, source_slots(t, family, Source::Opened(setup.visible.open), needle))
}

/// The slots that the shares of a budget are spent on: visible names, then
/// names of the active project.
pub open spec fn shares(
    t: Table,
    family: Option<SemanticFamily>,
    needle: Seq<u8>,
    setup: Setup,
    project: Option<Key>,
    budget: int,
) -> Seq<usize> {
    let a = with_unseen(
        Seq::empty(),
        visible_names(t, family, needle, setup),
        visible_share(project, budget),
        0,
    );
    match project {
        Some(key) => with_unseen(
            a,
            static_sorted(t, source_slots(t, family, Source::Owned(key, setup.whole.open), needle)),
            a.len() + budget / 16,
            0,
        ),
        None => a,
    }
}

/// The slots that a request with a budget looks at: the shares of visible names
/// and of the project's, more visible names, then names that start with the
/// query, names that share a token with it, and any others; each once, shorter
/// names first.
pub open spec fn budgeted(
    t: Table,
    family: Option<SemanticFamily>,
    needle: Seq<u8>,
    setup: Setup,
    project: Option<Key>,
    budget: int,
) -> Seq<usize> {
    let b = shares(t, family, needle, setup, project, budget);
    let more = with_unseen(b, visible_names(t, family, needle, setup), budget / 2, 0);
    let prefixed = static_sorted(t, source_slots(t, family, Source::Prefix, needle));
    let c = with_unseen(more, prefixed, budget, 0);
    let fuzzy = static_sorted(t, source_slots(t, family, Source::Token, needle));
    let d = with_unseen(c, fuzzy, budget, 0);
    with_unseen(d, source_slots(t, family, Source::Any, needle), budget, 0)
}

/// Number of active slots.
pub open spec fn active_count(t: Table) -> int {
    count_true(t.active, t.slots.len() as int) as int
}

/// Whether a recall probes paths: a recall for all languages does so where the
/// active names do not fit its budget, a recall for one language also where
/// names that were replaced do not.
pub open spec fn is_bounded(
    t: Table,
    family: Option<SemanticFamily>,
    query: Seq<char>,
    prior: Option<Seq<usize>>,
    budget: int,
) -> bool {
    trim(query).len() > 0 && prior is None && budget < if family is Some {
        t.slots.len() as int
    } else {
        active_count(t)
    }
}

/// The slots that a recall looks at: all eligible slots for a blank query, a
/// pool from before for a longer query, all eligible slots if the budget covers
/// the active ones, else a choice of them.
pub open spec fn recall_slots(
    t: Table,
    family: Option<SemanticFamily>,
    query: Seq<char>,
    lists: ProbeLists,
    project: Option<Key>,
    prior: Option<Seq<usize>>,
    budget: int,
) -> Seq<usize> {
    let needle = needle_of(query);
    let all = source_slots(t, family, Source::Any, needle);
    if trim(query).len() == 0 {
        first(all, budget)
    } else {
        match prior {
            Some(ids) => first(ids, budget),
            None => if active_count(t) > budget {
                let setup = set_up(t, family, needle, lists, project, budget);
                budgeted(t, family, needle, setup, project, budget)
            } else {
                all
            },
        }
    }
}

/// Whether a recall leaves slots out, or paths unprobed.
pub open spec fn recall_truncates(
    t: Table,
    family: Option<SemanticFamily>,
    query: Seq<char>,
    lists: ProbeLists,
    project: Option<Key>,
    prior: Option<Seq<usize>>,
    budget: int,
) -> bool {
    let needle = needle_of(query);
    let all = source_slots(t, family, Source::Any, needle);
    if trim(query).len() == 0 {
        all.len() > budget
    } else {
        match prior {
            Some(ids) => ids.len() > budget,
            None => is_bounded(t, family, query, prior, budget) && (all.len() > budget || set_up(
                t,
                family,
                needle,
                lists,
                project,
                budget,
            ).cut),
        }
    }
}

/// Checks that choosing the slots of a recall makes: before every block of
/// probes and of slots in the shares, and before visible names are put off.
pub open spec fn setup_checks(
    t: Table,
    family: Option<SemanticFamily>,
    query: Seq<char>,
    lists: ProbeLists,
    project: Option<Key>,
    prior: Option<Seq<usize>>,
    budget: int,
) -> int {
    if is_bounded(t, family, query, prior, budget) {
        let needle = needle_of(query);
        let setup = set_up(t, family, needle, lists, project, budget);
        blocks(setup.whole.probes) + if active_count(t) > budget {
            blocks(shares(t, family, needle, setup, project, budget).len() as int) + if visible_names(
                t,
                family,
                needle,
                setup,
            ).len() > visible_share(project, budget) {
                1int
            } else {
                0int
            }
        } else {
            0
        }
    } else {
        0
    }
}

/// A source with what it takes to test it.
#[derive(Clone, Copy)]
pub enum SourceRef<'a> {
    Opened(&'a PathSet),
    Owned(&'a ProjectKey, &'a PathSet),
    Prefix,
    Token,
    Any,
}

impl<'a> View for SourceRef<'a> {
    type V = Source;

    open spec fn view(&self) -> Source {
        match self {
            SourceRef::Opened(paths) => Source::Opened(paths@),
            SourceRef::Owned(key, paths) => Source::Owned(key@, paths@),
            SourceRef::Prefix => Source::Prefix,
            SourceRef::Token => Source::Token,
            SourceRef::Any => Source::Any,
        }
    }
}

fn any_common(a: &Vec<u32>, b: &Vec<u32>) -> (r: bool)
    ensures
        r == (exists|t: u32| #[trigger] a@.contains(t) && b@.contains(t)),
{
    let mut i: usize = 0;
    while i < a.len()
        invariant
            i <= a@.len(),
            forall|k: int| 0 <= k < i ==> !b@.contains(#[trigger] a@[k]),
        decreases a@.len() - i,
    {
        let mut j: usize = 0;
        while j < b.len()
            invariant
                i < a@.len(),
                j <= b@.len(),
                forall|k: int| 0 <= k < j ==> b@[k] != a@[i as int],
            decreases b@.len() - j,
        {
            if a[i] == b[j] {
                assert(a@.contains(a@[i as int]) && b@.contains(b@[j as int]));
                return true;
            }
            j = j + 1;
        }
        i = i + 1;
    }
    assert forall|t: u32| #[trigger] a@.contains(t) implies !b@.contains(t) by {
        let k = choose|k: int| 0 <= k < a@.len() && a@[k] == t;
        assert(!b@.contains(a@[k]));
    }
    false
}

impl NameTable {
    /// Whether a source has an entry.
    pub fn entry_comes_from(
        &self,
        entry: &NameEntryRef,
        source: SourceRef,
        needle: &[u8],
        continuous: &Vec<u32>,
        boundary: &Vec<u32>,
    ) -> (r: bool)
        requires
            self.wf(),
            entry.wf(),
            forall|t: u32|
                #[trigger] continuous@.contains(t) <==> is_continuous_query_token(needle@, t),
            forall|t: u32| #[trigger] boundary@.contains(t) <==> is_boundary_query_token(needle@, t),
        ensures
            r == (match source@ {
                Source::Opened(paths) => has_prefix(entry@, needle@) && paths.contains(entry@.path),
                Source::Owned(key, paths) => has_prefix(entry@, needle@) && entry@.project == Some(
                    key,
                ) && paths.contains(entry@.path),
                Source::Prefix => has_prefix(entry@, needle@),
                Source::Token => shares_token(entry@, needle@),
                Source::Any => true,
            }),
    {
        match source {
            SourceRef::Opened(paths) => {
                matches_at(entry.lower, needle, 0) && paths.contains(entry.path)
            },
            SourceRef::Owned(key, paths) => {
                matches_at(entry.lower, needle, 0) && match entry.project_key {
                    Some(k) => same_project(k, key),
                    None => false,
                } && paths.contains(entry.path)
            },
            SourceRef::Prefix => matches_at(entry.lower, needle, 0),
            SourceRef::Token => {
                let tokens = fuzzy_tokens_for_name(entry.name);
                let a = any_common(&tokens, continuous);
                let b = any_common(&tokens, boundary);
                proof {
                    let n = entry@;
                    if a {
                        let t = choose|t: u32| #[trigger]
                            tokens@.contains(t) && continuous@.contains(t);
                        assert(is_name_token(n.name, t));
                    }
                    if b {
                        let t = choose|t: u32| #[trigger]
                            tokens@.contains(t) && boundary@.contains(t);
                        assert(is_name_token(n.name, t));
                    }
                    if shares_token(n, needle@) {
                        let t = choose|t: u32| #[trigger]
                            is_name_token(n.name, t) && (is_continuous_query_token(needle@, t)
                                || is_boundary_query_token(needle@, t));
                        assert(tokens@.contains(t));
                        assert(continuous@.contains(t) || boundary@.contains(t));
                    }
                }
                a || b
            },
            SourceRef::Any => true,
        }
    }
}

/// Marks of the slots that are done.
pub open spec fn marks(seen: Seq<bool>, done: Seq<usize>) -> bool {
    forall|k: int| 0 <= k < seen.len() ==> #[trigger] seen[k] == done.contains(k as usize)
}

fn add_unseen(done: &mut Vec<usize>, seen: &mut Vec<bool>, list: &Vec<usize>, cap: usize)
    requires
        marks(old(seen)@, old(done)@),
        forall|k: int| 0 <= k < list@.len() ==> (#[trigger] list@[k]) < old(seen)@.len(),
        forall|k: int| 0 <= k < old(done)@.len() ==> (#[trigger] old(done)@[k]) < old(seen)@.len(),
    ensures
        marks(final(seen)@, final(done)@),
        final(seen)@.len() == old(seen)@.len(),
        final(done)@ == with_unseen(old(done)@, list@, cap as int, 0),
        forall|k: int|
            0 <= k < final(done)@.len() ==> (#[trigger] final(done)@[k]) < final(seen)@.len(),
{
    let ghost start = done@;
    let len: usize = seen.len();
    let mut i: usize = 0;
    while i < list.len() && done.len() < cap
        invariant
            i <= list@.len(),
            seen@.len() == len,
            marks(seen@, done@),
            forall|k: int| 0 <= k < list@.len() ==> (#[trigger] list@[k]) < len,
            forall|k: int| 0 <= k < done@.len() ==> (#[trigger] done@[k]) < len,
            with_unseen(start, list@, cap as int, 0) == with_unseen(
                done@,
                list@,
                cap as int,
                i as int,
            ),
        decreases list@.len() - i,
    {
        let id: usize = list[i];
        if !seen[id] {
            let ghost before = done@;
            let ghost marked = seen@;
            done.push(id);
            seen.set(id, true);
            proof {
                assert forall|k: int| 0 <= k < seen@.len() implies #[trigger] seen@[k]
                    == done@.contains(k as usize) by {
                    if k == id {
                        assert(done@[before.len() as int] == id);
                    } else {
                        assert(marked[k] == before.contains(k as usize));
                        if before.contains(k as usize) {
                            let j = choose|j: int|
                                0 <= j < before.len() && before[j] == k as usize;
                            assert(done@[j] == k as usize);
                        }
                        if done@.contains(k as usize) {
                            let j = choose|j: int| 0 <= j < done@.len() && done@[j] == k as usize;
                            assert(before[j] == k as usize);
                        }
                    }
                }
            }
        }
        i = i + 1;
    }
}

/// Marks for `len` slots, none of them done.
pub fn unmarked(len: usize) -> (r: Vec<bool>)
    ensures
        r@.len() == len,
        marks(r@, Seq::empty()),
{
    let mut out: Vec<bool> = Vec::new();
    let mut i: usize = 0;
    while i < len
        invariant
            i <= len,
            out@.len() == i,
            forall|k: int| 0 <= k < i ==> !out@[k],
        decreases len - i,
    {
        out.push(false);
        i = i + 1;
    }
    out
}

/// A slot more is marked when it is done.
pub proof fn marks_one_more(seen: Seq<bool>, done: Seq<usize>, id: usize)
    requires
        marks(seen, done),
        id < seen.len() <= usize::MAX,
    ensures
        marks(seen.update(id as int, true), done.push(id)),
{
    let more = done.push(id);
    let marked = seen.update(id as int, true);
    assert forall|k: int| 0 <= k < marked.len() implies #[trigger] marked[k] == more.contains(
        k as usize,
    ) by {
        if k == id {
            assert(more[done.len() as int] == id);
        } else {
            assert(seen[k] == done.contains(k as usize));
            if done.contains(k as usize) {
                let j = choose|j: int| 0 <= j < done.len() && done[j] == k as usize;
                assert(more[j] == k as usize);
            }
            if more.contains(k as usize) {
                let j = choose|j: int| 0 <= j < more.len() && more[j] == k as usize;
                assert(done[j] == k as usize);
            }
        }
    }
}

/// One step of adding a list.
pub proof fn unseen_step(done: Seq<usize>, list: Seq<usize>, cap: int, i: int)
    requires
        0 <= i < list.len(),
        done.len() < cap,
    ensures
        with_unseen(done, list, cap, i) == with_unseen(
            if done.contains(list[i]) {
                done
            } else {
                done.push(list[i])
            },
            list,
            cap,
            i + 1,
        ),
{
}

proof fn blocks_step(n: int)
    requires
        0 <= n,
    ensures
        blocks(n + 1) == blocks(n) + if n % 256 == 0 {
            1int
        } else {
            0int
        },
        blocks(n) >= 0,
{
}

/// Spend a share: add the first of `list` not there yet, asking for
/// cancellation before every block of slots; `false` when the request was
/// cancelled.
fn draw_share<C: CompletionQueryCancellation>(
    done: &mut Vec<usize>,
    seen: &mut Vec<bool>,
    list: &Vec<usize>,
    cap: usize,
    cancellation: Option<&C>,
    metrics: &mut RecallScanMetrics,
) -> (ok: bool)
    requires
        marks(old(seen)@, old(done)@),
        forall|k: int| 0 <= k < list@.len() ==> (#[trigger] list@[k]) < old(seen)@.len(),
        forall|k: int| 0 <= k < old(done)@.len() ==> (#[trigger] old(done)@[k]) < old(seen)@.len(),
        !old(metrics).cancelled,
        old(metrics).heard(cancellation),
        old(metrics).paced_with(cancellation, old(done)@.len() as int),
    ensures
        final(metrics).heard(cancellation),
        final(metrics).same_sources(*old(metrics)),
        final(metrics).prefix_entries_inspected == old(metrics).prefix_entries_inspected,
        final(metrics).selection_entries_inspected == old(metrics).selection_entries_inspected,
        marks(final(seen)@, final(done)@),
        final(seen)@.len() == old(seen)@.len(),
        forall|k: int|
            0 <= k < final(done)@.len() ==> (#[trigger] final(done)@[k]) < final(seen)@.len(),
        !ok ==> final(metrics).stopped(cancellation),
        ok ==> !final(metrics).cancelled,
        ok ==> final(metrics).paced_with(cancellation, final(done)@.len() as int),
        ok ==> final(done)@ == with_unseen(old(done)@, list@, cap as int, 0),
        ok ==> final(done)@.len() >= old(done)@.len(),
        ok ==> final(metrics).answers@.len() == old(metrics).answers@.len() + checks_if(
                cancellation,
                blocks(final(done)@.len() as int) - blocks(old(done)@.len() as int),
            ),
{
    let ghost start = done@;
    let ghost asked = metrics.answers@.len() as int;
    let len: usize = seen.len();
    let mut i: usize = 0;
    while i < list.len() && done.len() < cap
        invariant
            i <= list@.len(),
            seen@.len() == len,
            marks(seen@, done@),
            forall|k: int| 0 <= k < list@.len() ==> (#[trigger] list@[k]) < len,
            forall|k: int| 0 <= k < done@.len() ==> (#[trigger] done@[k]) < len,
            metrics.prefix_entries_inspected == old(metrics).prefix_entries_inspected,
            metrics.selection_entries_inspected == old(metrics).selection_entries_inspected,
            !metrics.cancelled,
            metrics.heard(cancellation),
            metrics.same_sources(*old(metrics)),
            metrics.paced_with(cancellation, done@.len() as int),
            len == old(seen)@.len(),
            start.len() <= done@.len(),
            0 <= asked,
            metrics.answers@.len() == asked + checks_if(
                    cancellation,
                    blocks(done@.len() as int) - blocks(start.len() as int),
                ),
            with_unseen(start, list@, cap as int, 0) == with_unseen(
                done@,
                list@,
                cap as int,
                i as int,
            ),
        decreases list@.len() - i,
    {
        let id: usize = list[i];
        proof {
            unseen_step(done@, list@, cap as int, i as int);
            blocks_step(done@.len() as int);
        }
        if !seen[id] {
            if done.len() % COMPLETION_CANCELLATION_CHECK_INTERVAL == 0 {
                if metrics.check(cancellation) {
                    return false;
                }
            }
            let ghost before = done@;
            let ghost marked = seen@;
            done.push(id);
            seen.set(id, true);
            metrics.entries_inspected = done.len();
            proof {
                marks_one_more(marked, before, id);
            }
        }
        i = i + 1;
    }
    true
}

/// Slots to look at, all eligible ones where none are listed, and how they were
/// chosen.
pub struct Chosen {
    pub ids: Option<Vec<usize>>,
    pub truncated: bool,
    pub probes: usize,
    pub attempts: usize,
    pub opened: usize,
}

impl Chosen {
    /// The slots to look at.
    pub open spec fn slots(
        self,
        t: Table,
        family: Option<SemanticFamily>,
        needle: Seq<u8>,
    ) -> Seq<usize> {
        match self.ids {
            Some(ids) => ids@,
            None => source_slots(t, family, Source::Any, needle),
        }
    }
}

impl NameTable {
    fn probe_for_recall<C: CompletionQueryCancellation>(
        &self,
        family: Option<SemanticFamily>,
        needle: &[u8],
        scope: Option<&CompletionScope>,
        project: Option<&ProjectKey>,
        budget: usize,
        cancellation: Option<&C>,
        metrics: &mut RecallScanMetrics,
    ) -> (r: Option<(PathSet, ProbingState, bool)>)
        requires
            self.wf(),
            !old(metrics).cancelled,
            old(metrics).heard(cancellation),
            old(metrics).paced(cancellation),
            old(metrics).priority_source_probes == 0,
        ensures
            final(metrics).heard(cancellation),
            final(metrics).prefix_entries_inspected == old(metrics).prefix_entries_inspected,
            final(metrics).selection_entries_inspected == old(metrics).selection_entries_inspected,
            match r {
                Some((open, state, cut)) => {
                    let setup = set_up(
                        self@,
                        family,
                        needle@,
                        probe_lists(*self, scope, opt_project(project), family, needle@),
                        opt_project(project),
                        budget as int,
                    );
                    &&& open@ == setup.visible.open
                    &&& state@ == setup.whole
                    &&& cut == setup.cut
                    &&& !final(metrics).cancelled
                    &&& final(metrics).paced(cancellation)
                    &&& final(metrics).entries_inspected == old(metrics).entries_inspected
                    &&& final(metrics).answers@.len() == old(metrics).answers@.len() + checks_if(
                        cancellation,
                        blocks(setup.whole.probes),
                    )
                },
                None => final(metrics).stopped(cancellation),
            },
    {
        let share: usize = match project {
            Some(_) => budget / 16,
            None => budget / 8,
        };
        let max_probes: usize = match project {
            Some(_) => budget / 2,
            None => budget,
        };
        let list = self.visible_paths(scope, family, needle);
        let mut state = ProbingState::new();
        if !self.probe_all(
            family,
            needle,
            &list,
            &mut state,
            max_probes,
            share,
            cancellation,
            metrics,
        ) {
            metrics.note_probes(&state);
            return None;
        }
        let mut cut = state.next < list.len() && state.tried < share;
        let open = state.open.duplicate();
        match project {
            Some(key) => {
                let owned = self.owned_paths(key, family, needle);
                state.next = 0;
                if !self.probe_all(
                    family,
                    needle,
                    &owned,
                    &mut state,
                    budget,
                    budget / 8,
                    cancellation,
                    metrics,
                ) {
                    metrics.note_probes(&state);
                    return None;
                }
                cut = cut || (state.next < owned.len() && state.tried < budget / 8);
            },
            None => {},
        }
        metrics.note_probes(&state);
        Some((open, state, cut))
    }

    /// All slots, where the budget covers the active ones, with what probing
    /// found.
    fn probed_slots<C: CompletionQueryCancellation>(
        &self,
        family: Option<SemanticFamily>,
        needle: &[u8],
        scope: Option<&CompletionScope>,
        project: Option<&ProjectKey>,
        budget: usize,
        cancellation: Option<&C>,
        metrics: &mut RecallScanMetrics,
    ) -> (r: Option<Chosen>)
        requires
            self.wf(),
            active_count(self@) <= budget,
            !old(metrics).cancelled,
            old(metrics).heard(cancellation),
            old(metrics).paced(cancellation),
            old(metrics).priority_source_probes == 0,
            old(metrics).entries_inspected == 0,
        ensures
            final(metrics).heard(cancellation),
            final(metrics).prefix_entries_inspected == old(metrics).prefix_entries_inspected,
            final(metrics).selection_entries_inspected == old(metrics).selection_entries_inspected,
            match r {
                Some(chosen) => {
                    let key = opt_project(project);
                    let setup = set_up(
                        self@,
                        family,
                        needle@,
                        probe_lists(*self, scope, key, family, needle@),
                        key,
                        budget as int,
                    );
                    let all = source_slots(self@, family, Source::Any, needle@);
                    &&& chosen.ids is None
                    &&& chosen.truncated == (all.len() > budget || setup.cut)
                    &&& chosen.probes == setup.whole.probes
                    &&& chosen.attempts == setup.whole.tried
                    &&& chosen.opened == setup.whole.opened
                    &&& !final(metrics).cancelled
                    &&& final(metrics).paced(cancellation)
                    &&& final(metrics).entries_inspected == old(metrics).entries_inspected
                    &&& final(metrics).answers@.len() == old(metrics).answers@.len() + checks_if(
                        cancellation,
                        blocks(setup.whole.probes),
                    )
                },
                None => final(metrics).stopped(cancellation),
            },
    {
        match self.probe_for_recall(family, needle, scope, project, budget, cancellation, metrics) {
            Some((_, state, cut)) => {
                proof {
                    eligible_fit(self@, family, needle@, self.slot_len as int);
                }
                Some(
                    Chosen {
                        ids: None,
                        truncated: cut,
                        probes: state.probes,
                        attempts: state.tried,
                        opened: state.opened,
                    },
                )
            },
            None => None,
        }
    }

    #[verifier::rlimit(60)]
    fn budgeted_slots<C: CompletionQueryCancellation>(
        &self,
        family: Option<SemanticFamily>,
        needle: &[u8],
        scope: Option<&CompletionScope>,
        project: Option<&ProjectKey>,
        budget: usize,
        cancellation: Option<&C>,
        metrics: &mut RecallScanMetrics,
    ) -> (r: Option<Chosen>)
        requires
            self.wf(),
            needle@.len() > 0,
            !old(metrics).cancelled,
            old(metrics).heard(cancellation),
            old(metrics).paced(cancellation),
            old(metrics).priority_source_probes == 0,
            old(metrics).entries_inspected == 0,
        ensures
            final(metrics).heard(cancellation),
            final(metrics).prefix_entries_inspected == old(metrics).prefix_entries_inspected,
            final(metrics).selection_entries_inspected == old(metrics).selection_entries_inspected,
            match r {
                Some(chosen) => {
                    let key = opt_project(project);
                    let setup = set_up(
                        self@,
                        family,
                        needle@,
                        probe_lists(*self, scope, key, family, needle@),
                        key,
                        budget as int,
                    );
                    &&& chosen.ids is Some
                    &&& chosen.ids->0@ == budgeted(
                        self@,
                        family,
                        needle@,
                        setup,
                        key,
                        budget as int,
                    )
                    &&& valid_ids(self@, chosen.ids->0@)
                    &&& chosen.truncated == (source_slots(
                        self@,
                        family,
                        Source::Any,
                        needle@,
                    ).len() > budget || setup.cut)
                    &&& chosen.probes == setup.whole.probes
                    &&& chosen.attempts == setup.whole.tried
                    &&& chosen.opened == setup.whole.opened
                    &&& !final(metrics).cancelled
                    &&& final(metrics).paced(cancellation)
                    &&& final(metrics).answers@.len() == old(metrics).answers@.len() + checks_if(
                            cancellation,
                            blocks(setup.whole.probes) + blocks(
                                shares(
                                    self@,
                                    family,
                                    needle@,
                                    setup,
                                    key,
                                    budget as int,
                                ).len() as int,
                            ) + if visible_names(self@, family, needle@, setup).len()
                                > visible_share(key, budget as int) {
                                1int
                            } else {
                                0int
                            },
                        )
                },
                None => final(metrics).stopped(cancellation),
            },
    {
        let (open, state, cut) = match self.probe_for_recall(
            family,
            needle,
            scope,
            project,
            budget,
            cancellation,
            metrics,
        ) {
            Some(found) => found,
            None => {
                return None;
            },
        };
        let share: usize = match project {
            Some(_) => budget / 16,
            None => budget / 8,
        };
        let mut done: Vec<usize> = Vec::new();
        let mut seen = unmarked(self.slot_len);
        assert(done@ =~= Seq::empty());
        let visible = self.slots_by_prefix(SourceRef::Opened(&open), family, needle);
        if !draw_share(&mut done, &mut seen, &visible, share, cancellation, metrics) {
            return None;
        }
        if visible.len() > share {
            if metrics.check(cancellation) {
                return None;
            }
        }
        match project {
            Some(key) => {
                let owned = self.slots_by_prefix(
                    SourceRef::Owned(key, &state.open),
                    family,
                    needle,
                );
                let cap: usize = done.len().saturating_add(budget / 16);
                proof {
                    with_unseen_fits(Seq::empty(), visible@, share as int, 0);
                }
                if !draw_share(&mut done, &mut seen, &owned, cap, cancellation, metrics) {
                    return None;
                }
            },
            None => {},
        }
        add_unseen(&mut done, &mut seen, &visible, budget / 2);
        let prefixed = self.slots_by_prefix(SourceRef::Prefix, family, needle);
        add_unseen(&mut done, &mut seen, &prefixed, budget);
        let fuzzy = self.slots_by_token(family, needle);
        add_unseen(&mut done, &mut seen, &fuzzy, budget);
        self.fill_with_any(&mut done, &mut seen, family, Ghost(needle@), budget);
        Some(
            Chosen {
                ids: Some(done),
                truncated: cut || self.has_more_than(family, Ghost(needle@), budget),
                probes: state.probes,
                attempts: state.tried,
                opened: state.opened,
            },
        )
    }
}

proof fn with_unseen_fits(done: Seq<usize>, list: Seq<usize>, cap: int, i: int)
    requires
        done.len() <= cap,
    ensures
        with_unseen(done, list, cap, i).len() <= cap,
    decreases list.len() - i,
{
    if 0 <= i < list.len() && done.len() < cap {
        if done.contains(list[i]) {
            with_unseen_fits(done, list, cap, i + 1);
        } else {
            with_unseen_fits(done.push(list[i]), list, cap, i + 1);
        }
    }
}

fn copy_first(ids: &[usize], limit: usize) -> (r: Vec<usize>)
    ensures
        r@ == first(ids@, limit as int),
{
    let end: usize = if ids.len() > limit {
        limit
    } else {
        ids.len()
    };
    let mut out: Vec<usize> = Vec::new();
    let mut i: usize = 0;
    while i < end
        invariant
            i <= end <= ids@.len(),
            out@ == ids@.subrange(0, i as int),
        decreases end - i,
    {
        out.push(ids[i]);
        i = i + 1;
        assert(out@ =~= ids@.subrange(0, i as int));
    }
    assert(out@ =~= first(ids@, limit as int));
    out
}

// ---------------------------------------------------------------------------
// Scanning with cancellation

/// The cancellation was asked and gave this answer.
pub open spec fn says<C: CompletionQueryCancellation>(
    cancellation: Option<&C>,
    answer: bool,
) -> bool {
    cancellation is Some && call_ensures(C::is_cancelled, (cancellation->0,), answer)
}

/// `answers` are all that a cancellation said to a request: only the last can
/// be that it is cancelled, and then nothing is asked any more.
#[verifier::opaque]
pub open spec fn are_answers<C: CompletionQueryCancellation>(
    cancellation: Option<&C>,
    answers: Seq<bool>,
    cancelled: bool,
) -> bool {
    &&& forall|i: int| 0 <= i < answers.len() ==> says(cancellation, #[trigger] answers[i])
    &&& forall|i: int|
        0 <= i < answers.len() ==> #[trigger] answers[i] == (cancelled && i == answers.len() - 1)
    &&& cancelled ==> answers.len() > 0
}

/// Work done so far, and what the cancellation said.
#[derive(Clone, Copy)]
pub struct RecallScanMetrics {
    pub answers: Ghost<Seq<bool>>,
    pub entries_inspected: usize,
    pub prefix_entries_inspected: usize,
    pub selection_entries_inspected: usize,
    pub priority_source_probes: usize,
    pub priority_source_attempts: usize,
    pub priority_sources_initialized: usize,
    pub cancellation_checks: usize,
    pub cancelled: bool,
}

/// Checks that a pass over `n` entries makes.
pub open spec fn blocks(n: int) -> int {
    (n + 255) / 256
}

/// Checks made when a request can be cancelled.
pub open spec fn checks_if<C>(cancellation: Option<&C>, n: int) -> int {
    if cancellation is Some {
        n
    } else {
        0
    }
}

impl RecallScanMetrics {
    /// Every answer of the cancellation is known and counted.
    pub open spec fn heard<C: CompletionQueryCancellation>(
        self,
        cancellation: Option<&C>,
    ) -> bool {
        are_answers(cancellation, self.answers@, self.cancelled) && self.cancellation_checks
            == sat_sum(0, self.answers@.len() as int)
    }

    /// What was worked on: paths probed, entries inspected, and candidates read
    /// to select from.
    pub open spec fn work(self) -> int {
        self.priority_source_probes + self.entries_inspected + self.selection_entries_inspected
    }

    /// No more sources were tried than probed, nor opened than tried.
    pub open spec fn sources_fit(self) -> bool {
        self.priority_sources_initialized <= self.priority_source_attempts
            <= self.priority_source_probes
    }

    /// A cancellation was asked once for every block that was worked on.
    pub open spec fn paced<C>(self, cancellation: Option<&C>) -> bool {
        cancellation is Some ==> self.sources_fit() && self.work() <= 256 * self.answers@.len()
    }

    /// As `paced`, where the entries inspected are the `n` that were chosen.
    pub open spec fn paced_with<C>(self, cancellation: Option<&C>, n: int) -> bool {
        &&& self.entries_inspected == n
        &&& cancellation is Some ==> self.sources_fit() && self.priority_source_probes
            + self.selection_entries_inspected + 256 * blocks(n) <= 256 * self.answers@.len()
    }

    /// The cancellation said so, and nothing was worked on after its answer.
    pub open spec fn stopped<C>(self, cancellation: Option<&C>) -> bool {
        &&& self.cancelled
        &&& cancellation is Some
        &&& self.sources_fit()
        &&& self.work() <= 256 * (self.answers@.len() - 1)
    }

    /// The counters of probing are as they were.
    pub open spec fn same_sources(self, o: RecallScanMetrics) -> bool {
        &&& self.priority_source_probes == o.priority_source_probes
        &&& self.priority_source_attempts == o.priority_source_attempts
        &&& self.priority_sources_initialized == o.priority_sources_initialized
    }

    /// Nothing done, and nothing asked.
    pub fn new() -> (r: Self)
        ensures
            r == (RecallScanMetrics {
                entries_inspected: 0,
                prefix_entries_inspected: 0,
                selection_entries_inspected: 0,
                priority_source_probes: 0,
                priority_source_attempts: 0,
                priority_sources_initialized: 0,
                cancellation_checks: 0,
                cancelled: false,
                answers: Ghost(Seq::empty()),
            }),
    {
        RecallScanMetrics {
            answers: Ghost(Seq::empty()),
            entries_inspected: 0,
            prefix_entries_inspected: 0,
            selection_entries_inspected: 0,
            priority_source_probes: 0,
            priority_source_attempts: 0,
            priority_sources_initialized: 0,
            cancellation_checks: 0,
            cancelled: false,
        }
    }

    /// Keep the counters of probing.
    fn note_probes(&mut self, state: &ProbingState)
        ensures
            *final(self) == (RecallScanMetrics {
                priority_source_probes: state.probes,
                priority_source_attempts: state.tried,
                priority_sources_initialized: state.opened,
                ..*old(self)
            }),
    {
        self.priority_source_probes = state.probes;
        self.priority_source_attempts = state.tried;
        self.priority_sources_initialized = state.opened;
    }

    /// Take an answer: it counts, and decides whether the request goes on.
    pub fn answered(&mut self, answer: bool)
        ensures
            *final(self) == (RecallScanMetrics {
                cancellation_checks: sat_sum(old(self).cancellation_checks as int, 1) as usize,
                cancelled: answer,
                answers: Ghost(old(self).answers@.push(answer)),
                ..*old(self)
            }),
    {
        self.cancellation_checks = self.cancellation_checks.saturating_add(1);
        self.cancelled = answer;
        self.answers = Ghost(self.answers@.push(answer));
    }

    /// Ask whether the request is cancelled.
    pub fn check<C: CompletionQueryCancellation>(&mut self, cancellation: Option<&C>) -> (r: bool)
        requires
            !old(self).cancelled,
            old(self).heard(cancellation),
        ensures
            final(self).heard(cancellation),
            cancellation is None ==> !r && *final(self) == *old(self),
            cancellation is Some ==> says(cancellation, r) && *final(self) == (RecallScanMetrics {
                cancellation_checks: sat_sum(old(self).cancellation_checks as int, 1) as usize,
                cancelled: r,
                answers: Ghost(old(self).answers@.push(r)),
                ..*old(self)
            }),
    {
        reveal(are_answers);
        match cancellation {
            Some(c) => {
                let answer = c.is_cancelled();
                self.answered(answer);
                answer
            },
            None => false,
        }
    }
}

/// Every slot of `ids` as a candidate without a match.
pub open spec fn unmatched_ids(t: Table, ctx: Option<Context>, ids: Seq<usize>) -> Seq<
    ScoredCandidate,
> {
    Seq::new(ids.len(), |i: int| candidate(t, ctx, ids[i] as int, 0))
}

/// The candidates of a recall.
pub open spec fn recall_scored(
    t: Table,
    ctx: Option<Context>,
    family: Option<SemanticFamily>,
    query: Seq<char>,
    ids: Seq<usize>,
) -> Seq<ScoredCandidate> {
    if trim(query).len() == 0 {
        unmatched_ids(t, ctx, ids)
    } else {
        scored_below(
            t,
            ctx,
            family,
            needle_of(query),
            gate(needle_of(query)),
            ids,
            ids.len() as int,
        )
    }
}

/// The pool of a recall.
pub open spec fn recall_pool(
    t: Table,
    family: Option<SemanticFamily>,
    query: Seq<char>,
    ids: Seq<usize>,
) -> Seq<usize> {
    if trim(query).len() == 0 {
        Seq::empty()
    } else {
        pool_below(t, family, needle_of(query), ids, ids.len() as int)
    }
}

/// Number of the first `n` slots of `ids` that a query is a prefix of.
pub open spec fn prefix_count(t: Table, needle: Seq<u8>, ids: Seq<usize>, n: int) -> nat
    decreases n,
{
    if n <= 0 {
        0
    } else {
        prefix_count(t, needle, ids, n - 1) + if has_prefix(t.slots[ids[n - 1] as int], needle) {
            1nat
        } else {
            0nat
        }
    }
}

/// Number of the slots that a query is a prefix of; a blank query is none.
pub open spec fn prefixes_among(t: Table, query: Seq<char>, ids: Seq<usize>) -> int {
    if trim(query).len() == 0 {
        0
    } else {
        prefix_count(t, needle_of(query), ids, ids.len() as int) as int
    }
}

proof fn placed_one_more(t: Table, s: Seq<ScoredCandidate>, c: ScoredCandidate)
    ensures
        placed(t, s.push(c)) == placed(t, s).push(
            Placed { candidate: c, name: t.slots[c.index as int] },
        ),
{
    assert(placed(t, s.push(c)) =~= placed(t, s).push(
        Placed { candidate: c, name: t.slots[c.index as int] },
    ));
}

impl NameTable {
    /// Match the slots `ids`, asking for cancellation before every block of
    /// them.
    fn scan_matching<'a, C: CompletionQueryCancellation>(
        &'a self,
        needle: &[u8],
        family: Option<SemanticFamily>,
        ctx: Option<&ResolveContext>,
        ids: &Vec<usize>,
        cancellation: Option<&C>,
        metrics: &mut RecallScanMetrics,
    ) -> (r: Option<(Vec<Ranked<'a>>, Vec<usize>)>)
        requires
            self.wf(),
            valid_ids(self@, ids@),
            old(metrics).entries_inspected == 0,
            old(metrics).prefix_entries_inspected == 0,
            !old(metrics).cancelled,
            old(metrics).heard(cancellation),
            old(metrics).paced(cancellation),
        ensures
            final(metrics).heard(cancellation),
            final(metrics).same_sources(*old(metrics)),
            final(metrics).selection_entries_inspected == old(metrics).selection_entries_inspected,
            match r {
                Some((ranked, pool_out)) => {
                    &&& ranked_views(ranked@) == placed(
                        self@,
                        scored_below(
                            self@,
                            opt_context(ctx),
                            family,
                            needle@,
                            gate(needle@),
                            ids@,
                            ids@.len() as int,
                        ),
                    )
                    &&& pool_out@ == pool_below(self@, family, needle@, ids@, ids@.len() as int)
                    &&& final(metrics).entries_inspected == ids@.len()
                    &&& final(metrics).prefix_entries_inspected == prefix_count(
                        self@,
                        needle@,
                        ids@,
                        ids@.len() as int,
                    )
                    &&& !final(metrics).cancelled
                    &&& final(metrics).paced(cancellation)
                    &&& final(metrics).answers@.len() == old(metrics).answers@.len() + checks_if(
                        cancellation,
                        blocks(ids@.len() as int),
                    )
                },
                None => final(metrics).stopped(cancellation),
            },
    {
        let ghost c = opt_context(ctx);
        let ghost asked = metrics.answers@.len() as int;
        let min: i32 = gate_for(needle);
        let mut out: Vec<Ranked<'a>> = Vec::new();
        let mut pool_out: Vec<usize> = Vec::new();
        let mut i: usize = 0;
        assert(ranked_views(out@) =~= placed(self@, Seq::empty()));
        while i < ids.len()
            invariant
                self.wf(),
                valid_ids(self@, ids@),
                i <= ids@.len(),
                c == opt_context(ctx),
                min == gate(needle@),
                ranked_views(out@) == placed(
                    self@,
                    scored_below(self@, c, family, needle@, min as int, ids@, i as int),
                ),
                pool_out@ == pool_below(self@, family, needle@, ids@, i as int),
                metrics.entries_inspected == i,
                metrics.prefix_entries_inspected <= i,
                metrics.prefix_entries_inspected == prefix_count(self@, needle@, ids@, i as int),
                metrics.selection_entries_inspected == old(metrics).selection_entries_inspected,
                !metrics.cancelled,
                metrics.heard(cancellation),
                old(metrics).paced(cancellation),
                old(metrics).entries_inspected == 0,
                asked == old(metrics).answers@.len(),
                metrics.same_sources(*old(metrics)),
                0 <= asked,
                metrics.answers@.len() == asked + checks_if(cancellation, blocks(i as int)),
            decreases ids@.len() - i,
        {
            if i % COMPLETION_CANCELLATION_CHECK_INTERVAL == 0 {
                if metrics.check(cancellation) {
                    return None;
                }
            }
            let ghost before = scored_below(
                self@,
                c,
                family,
                needle@,
                min as int,
                ids@,
                i as int,
            );
            let index: usize = ids[i];
            self.consider(index, needle, family, min, ctx, &mut out, &mut pool_out);
            proof {
                placed_one_more(
                    self@,
                    before,
                    candidate(
                        self@,
                        c,
                        index as int,
                        match_score(
                            needle@,
                            self@.slots[index as int].name,
                        )->0,
                    ),
                );
            }
            let entry = self.entry(index);
            if matches_at(entry.lower, needle, 0) {
                metrics.prefix_entries_inspected = metrics.prefix_entries_inspected + 1;
            }
            i = i + 1;
            metrics.entries_inspected = i;
        }
        Some((out, pool_out))
    }

    /// Take the slots `ids` as they are, asking for cancellation before every
    /// block of them.
    fn scan_unmatched<'a, C: CompletionQueryCancellation>(
        &'a self,
        ctx: Option<&ResolveContext>,
        ids: &Vec<usize>,
        cancellation: Option<&C>,
        metrics: &mut RecallScanMetrics,
    ) -> (r: Option<Vec<Ranked<'a>>>)
        requires
            self.wf(),
            valid_ids(self@, ids@),
            old(metrics).entries_inspected == 0,
            !old(metrics).cancelled,
            old(metrics).heard(cancellation),
            old(metrics).paced(cancellation),
        ensures
            final(metrics).heard(cancellation),
            final(metrics).same_sources(*old(metrics)),
            final(metrics).selection_entries_inspected == old(metrics).selection_entries_inspected,
            final(metrics).prefix_entries_inspected == old(metrics).prefix_entries_inspected,
            match r {
                Some(ranked) => {
                    &&& ranked_views(ranked@) == placed(
                        self@,
                        unmatched_ids(self@, opt_context(ctx), ids@),
                    )
                    &&& final(metrics).entries_inspected == ids@.len()
                    &&& !final(metrics).cancelled
                    &&& final(metrics).paced(cancellation)
                    &&& final(metrics).answers@.len() == old(metrics).answers@.len() + checks_if(
                        cancellation,
                        blocks(ids@.len() as int),
                    )
                },
                None => final(metrics).stopped(cancellation),
            },
    {
        let ghost c = opt_context(ctx);
        let ghost asked = metrics.answers@.len() as int;
        let ghost all = unmatched_ids(self@, c, ids@);
        let mut out: Vec<Ranked<'a>> = Vec::new();
        let mut i: usize = 0;
        assert(ranked_views(out@) =~= placed(self@, all.subrange(0, 0)));
        while i < ids.len()
            invariant
                self.wf(),
                valid_ids(self@, ids@),
                i <= ids@.len(),
                c == opt_context(ctx),
                all == unmatched_ids(self@, c, ids@),
                ranked_views(out@) == placed(self@, all.subrange(0, i as int)),
                metrics.entries_inspected == i,
                metrics.prefix_entries_inspected == old(metrics).prefix_entries_inspected,
                metrics.selection_entries_inspected == old(metrics).selection_entries_inspected,
                !metrics.cancelled,
                metrics.heard(cancellation),
                old(metrics).paced(cancellation),
                old(metrics).entries_inspected == 0,
                asked == old(metrics).answers@.len(),
                metrics.same_sources(*old(metrics)),
                0 <= asked,
                metrics.answers@.len() == asked + checks_if(cancellation, blocks(i as int)),
            decreases ids@.len() - i,
        {
            if i % COMPLETION_CANCELLATION_CHECK_INTERVAL == 0 {
                if metrics.check(cancellation) {
                    return None;
                }
            }
            let ghost before = ranked_views(out@);
            let ranked = self.candidate_at(ids[i], 0, ctx);
            let ghost p = ranked@;
            out.push(ranked);
            i = i + 1;
            metrics.entries_inspected = i;
            proof {
                placed_one_more(self@, all.subrange(0, i - 1), all[i - 1]);
                assert(all.subrange(0, i as int) =~= all.subrange(0, i - 1).push(all[i - 1]));
                assert(ranked_views(out@) =~= before.push(p));
            }
        }
        assert(all.subrange(0, i as int) =~= all);
        Some(out)
    }

    /// Match all eligible slots, asking for cancellation before every block of
    /// them.
    fn scan_all_matching<'a, C: CompletionQueryCancellation>(
        &'a self,
        needle: &[u8],
        family: Option<SemanticFamily>,
        ctx: Option<&ResolveContext>,
        cancellation: Option<&C>,
        metrics: &mut RecallScanMetrics,
    ) -> (r: Option<(Vec<Ranked<'a>>, Vec<usize>)>)
        requires
            self.wf(),
            old(metrics).entries_inspected == 0,
            old(metrics).prefix_entries_inspected == 0,
            !old(metrics).cancelled,
            old(metrics).heard(cancellation),
            old(metrics).paced(cancellation),
        ensures
            final(metrics).heard(cancellation),
            final(metrics).same_sources(*old(metrics)),
            final(metrics).selection_entries_inspected == old(metrics).selection_entries_inspected,
            match r {
                Some((ranked, pool_out)) => {
                    let ids = source_slots(self@, family, Source::Any, needle@);
                    &&& ranked_views(ranked@) == placed(
                        self@,
                        scored_below(
                            self@,
                            opt_context(ctx),
                            family,
                            needle@,
                            gate(needle@),
                            ids,
                            ids.len() as int,
                        ),
                    )
                    &&& pool_out@ == pool_below(self@, family, needle@, ids, ids.len() as int)
                    &&& final(metrics).entries_inspected == ids.len()
                    &&& final(metrics).prefix_entries_inspected == prefix_count(
                        self@,
                        needle@,
                        ids,
                        ids.len() as int,
                    )
                    &&& !final(metrics).cancelled
                    &&& final(metrics).paced(cancellation)
                    &&& final(metrics).answers@.len() == old(metrics).answers@.len() + checks_if(
                        cancellation,
                        blocks(ids.len() as int),
                    )
                },
                None => final(metrics).stopped(cancellation),
            },
    {
        let ghost c = opt_context(ctx);
        let ghost test = source_test(self@, family, Source::Any, needle@);
        let ghost ids = source_slots(self@, family, Source::Any, needle@);
        let ghost asked = metrics.answers@.len() as int;
        let min: i32 = gate_for(needle);
        let mut out: Vec<Ranked<'a>> = Vec::new();
        let mut pool_out: Vec<usize> = Vec::new();
        let mut k: usize = 0;
        let mut i: usize = 0;
        assert(ranked_views(out@) =~= placed(self@, Seq::empty()));
        while i < self.slot_len
            invariant
                self.wf(),
                i <= self.slot_len,
                self.slot_len == self@.slots.len(),
                test == source_test(self@, family, Source::Any, needle@),
                ids == slots_where(test, self@.slots.len() as int),
                k <= i,
                k == slots_where(test, i as int).len(),
                c == opt_context(ctx),
                min == gate(needle@),
                ranked_views(out@) == placed(
                    self@,
                    scored_below(self@, c, family, needle@, min as int, ids, k as int),
                ),
                pool_out@ == pool_below(self@, family, needle@, ids, k as int),
                metrics.entries_inspected == k,
                metrics.prefix_entries_inspected <= k,
                metrics.prefix_entries_inspected == prefix_count(self@, needle@, ids, k as int),
                metrics.selection_entries_inspected == old(metrics).selection_entries_inspected,
                !metrics.cancelled,
                metrics.heard(cancellation),
                old(metrics).paced(cancellation),
                old(metrics).entries_inspected == 0,
                asked == old(metrics).answers@.len(),
                metrics.same_sources(*old(metrics)),
                0 <= asked,
                metrics.answers@.len() == asked + checks_if(cancellation, blocks(k as int)),
            decreases self.slot_len - i,
        {
            let wanted = self.is_eligible(family, i);
            assert(wanted == test(i as int));
            proof {
                where_grows(test, i as int, self@.slots.len() as int);
            }
            if wanted {
                if k % COMPLETION_CANCELLATION_CHECK_INTERVAL == 0 {
                    if metrics.check(cancellation) {
                        return None;
                    }
                }
                let ghost before = scored_below(
                    self@,
                    c,
                    family,
                    needle@,
                    min as int,
                    ids,
                    k as int,
                );
                self.consider(i, needle, family, min, ctx, &mut out, &mut pool_out);
                proof {
                    placed_one_more(
                        self@,
                        before,
                        candidate(
                            self@,
                            c,
                            i as int,
                            match_score(needle@, self@.slots[i as int].name)->0,
                        ),
                    );
                }
                let entry = self.entry(i);
                if matches_at(entry.lower, needle, 0) {
                    metrics.prefix_entries_inspected = metrics.prefix_entries_inspected + 1;
                }
                k = k + 1;
                metrics.entries_inspected = k;
            }
            i = i + 1;
        }
        Some((out, pool_out))
    }

    /// Take all eligible slots as they are, asking for cancellation before every
    /// block of them.
    fn scan_all_unmatched<'a, C: CompletionQueryCancellation>(
        &'a self,
        ctx: Option<&ResolveContext>,
        family: Option<SemanticFamily>,
        Ghost(needle): Ghost<Seq<u8>>,
        cancellation: Option<&C>,
        metrics: &mut RecallScanMetrics,
    ) -> (r: Option<Vec<Ranked<'a>>>)
        requires
            self.wf(),
            old(metrics).entries_inspected == 0,
            !old(metrics).cancelled,
            old(metrics).heard(cancellation),
            old(metrics).paced(cancellation),
        ensures
            final(metrics).heard(cancellation),
            final(metrics).same_sources(*old(metrics)),
            final(metrics).selection_entries_inspected == old(metrics).selection_entries_inspected,
            final(metrics).prefix_entries_inspected == old(metrics).prefix_entries_inspected,
            match r {
                Some(ranked) => {
                    let ids = source_slots(self@, family, Source::Any, needle);
                    &&& ranked_views(ranked@) == placed(
                        self@,
                        unmatched_ids(self@, opt_context(ctx), ids),
                    )
                    &&& final(metrics).entries_inspected == ids.len()
                    &&& !final(metrics).cancelled
                    &&& final(metrics).paced(cancellation)
                    &&& final(metrics).answers@.len() == old(metrics).answers@.len() + checks_if(
                        cancellation,
                        blocks(ids.len() as int),
                    )
                },
                None => final(metrics).stopped(cancellation),
            },
    {
        let ghost c = opt_context(ctx);
        let ghost test = source_test(self@, family, Source::Any, needle);
        let ghost ids = source_slots(self@, family, Source::Any, needle);
        let ghost asked = metrics.answers@.len() as int;
        let ghost all = unmatched_ids(self@, c, ids);
        let mut out: Vec<Ranked<'a>> = Vec::new();
        let mut k: usize = 0;
        let mut i: usize = 0;
        assert(ranked_views(out@) =~= placed(self@, all.subrange(0, 0)));
        while i < self.slot_len
            invariant
                self.wf(),
                i <= self.slot_len,
                self.slot_len == self@.slots.len(),
                test == source_test(self@, family, Source::Any, needle),
                ids == slots_where(test, self@.slots.len() as int),
                k <= i,
                k <= ids.len(),
                k == slots_where(test, i as int).len(),
                c == opt_context(ctx),
                all == unmatched_ids(self@, c, ids),
                ranked_views(out@) == placed(self@, all.subrange(0, k as int)),
                metrics.entries_inspected == k,
                metrics.prefix_entries_inspected == old(metrics).prefix_entries_inspected,
                metrics.selection_entries_inspected == old(metrics).selection_entries_inspected,
                !metrics.cancelled,
                metrics.heard(cancellation),
                old(metrics).paced(cancellation),
                old(metrics).entries_inspected == 0,
                asked == old(metrics).answers@.len(),
                metrics.same_sources(*old(metrics)),
                0 <= asked,
                metrics.answers@.len() == asked + checks_if(cancellation, blocks(k as int)),
            decreases self.slot_len - i,
        {
            let wanted = self.is_eligible(family, i);
            assert(wanted == test(i as int));
            proof {
                where_grows(test, i as int, self@.slots.len() as int);
            }
            if wanted {
                if k % COMPLETION_CANCELLATION_CHECK_INTERVAL == 0 {
                    if metrics.check(cancellation) {
                        return None;
                    }
                }
                let ghost before = ranked_views(out@);
                let ranked = self.candidate_at(i, 0, ctx);
                let ghost p = ranked@;
                out.push(ranked);
                k = k + 1;
                metrics.entries_inspected = k;
                proof {
                    placed_one_more(self@, all.subrange(0, k - 1), all[k - 1]);
                    assert(all.subrange(0, k as int) =~= all.subrange(0, k - 1).push(all[k - 1]));
                    assert(ranked_views(out@) =~= before.push(p));
                }
            }
            i = i + 1;
        }
        assert(all.subrange(0, k as int) =~= all);
        Some(out)
    }
}

// ---------------------------------------------------------------------------
// Selecting by channel

#[derive(Debug, Clone, Copy, PartialEq, Eq, Structural)]
pub enum ScopeChannel {
    Reachable,
    External,
    Unknown,
    Global,
}

pub open spec fn channel(tier: ScopeTier) -> ScopeChannel {
    match tier {
        ScopeTier::Current | ScopeTier::Reachable => ScopeChannel::Reachable,
        ScopeTier::External => ScopeChannel::External,
        ScopeTier::Unknown => ScopeChannel::Unknown,
        ScopeTier::Global => ScopeChannel::Global,
    }
}

fn channel_for_tier(tier: ScopeTier) -> (r: ScopeChannel)
    ensures
        r == channel(tier),
{
    match tier {
        ScopeTier::Current | ScopeTier::Reachable => ScopeChannel::Reachable,
        ScopeTier::External => ScopeChannel::External,
        ScopeTier::Unknown => ScopeChannel::Unknown,
        ScopeTier::Global => ScopeChannel::Global,
    }
}

/// Which candidates a selection takes from.
pub enum Filter {
    All,
    Channel(ScopeChannel),
    Project(Key),
}

pub open spec fn passes(filter: Filter, p: Placed) -> bool {
    match filter {
        Filter::All => true,
        Filter::Channel(c) => channel(p.candidate.tier) == c,
        Filter::Project(key) => p.name.project == Some(key),
    }
}

/// The candidates that pass, in order.
pub open spec fn passing(s: Seq<Placed>, filter: Filter) -> Seq<Placed>
    decreases s.len(),
{
    if s.len() == 0 {
        s
    } else if passes(filter, s.last()) {
        passing(s.drop_last(), filter).push(s.last())
    } else {
        passing(s.drop_last(), filter)
    }
}

#[derive(Clone, Copy)]
enum FilterRef<'a> {
    All,
    Channel(ScopeChannel),
    Project(&'a ProjectKey),
}

impl<'a> View for FilterRef<'a> {
    type V = Filter;

    closed spec fn view(&self) -> Filter {
        match self {
            FilterRef::All => Filter::All,
            FilterRef::Channel(c) => Filter::Channel(*c),
            FilterRef::Project(key) => Filter::Project(key@),
        }
    }
}

fn is_passing(filter: FilterRef, r: &Ranked) -> (b: bool)
    ensures
        b == passes(filter@, r@),
{
    match filter {
        FilterRef::All => true,
        FilterRef::Channel(c) => channel_for_tier(r.candidate.tier) == c,
        FilterRef::Project(key) => match r.entry.project_key {
            Some(k) => same_project(k, key),
            None => false,
        },
    }
}

fn copy_ranked<'a>(r: &Ranked<'a>) -> (c: Ranked<'a>)
    ensures
        c == *r,
{
    Ranked { candidate: r.candidate, entry: r.entry }
}

/// The best `limit` candidates that pass a filter. Every candidate read counts,
/// and cancellation is asked for at the start and after every block.
fn top_scored_controlled<'a, C: CompletionQueryCancellation>(
    all: &Vec<Ranked<'a>>,
    filter: FilterRef,
    limit: usize,
    cancellation: Option<&C>,
    metrics: &mut RecallScanMetrics,
) -> (r: Option<Vec<Ranked<'a>>>)
    requires
        !old(metrics).cancelled,
        old(metrics).heard(cancellation),
        old(metrics).paced(cancellation),
    ensures
        final(metrics).heard(cancellation),
        final(metrics).same_sources(*old(metrics)),
        final(metrics).entries_inspected == old(metrics).entries_inspected,
        final(metrics).prefix_entries_inspected == old(metrics).prefix_entries_inspected,
        match r {
            Some(best) => {
                &&& ranked_views(best@) == top(
                    passing(ranked_views(all@), filter@),
                    limit as int,
                )
                &&& !final(metrics).cancelled
                &&& final(metrics).paced(cancellation)
                &&& final(metrics).selection_entries_inspected == sat_sum(
                    old(metrics).selection_entries_inspected as int,
                    if limit == 0 {
                        0
                    } else {
                        all@.len() as int
                    },
                )
                &&& final(metrics).answers@.len() == old(metrics).answers@.len() + checks_if(
                        cancellation,
                        if limit == 0 {
                            0
                        } else {
                            1 + blocks(all@.len() as int)
                        },
                    )
            },
            None => final(metrics).stopped(cancellation),
        },
{
    let ghost views = ranked_views(all@);
    let mut kept: Vec<Ranked<'a>> = Vec::new();
    if limit == 0 {
        assert(ranked_views(kept@) =~= top(passing(views, filter@), 0));
        return Some(kept);
    }
    let ghost asked = metrics.answers@.len() as int;
    let ghost counted = metrics.selection_entries_inspected as int;
    if metrics.check(cancellation) {
        return None;
    }
    let mut i: usize = 0;
    assert(ranked_views(kept@) =~= passing(views.subrange(0, 0), filter@));
    while i < all.len()
        invariant
            i <= all@.len(),
            views == ranked_views(all@),
            ranked_views(kept@) == passing(views.subrange(0, i as int), filter@),
            metrics.entries_inspected == old(metrics).entries_inspected,
            metrics.prefix_entries_inspected == old(metrics).prefix_entries_inspected,
            !metrics.cancelled,
            metrics.heard(cancellation),
            old(metrics).paced(cancellation),
            asked == old(metrics).answers@.len(),
            counted == old(metrics).selection_entries_inspected,
            metrics.same_sources(*old(metrics)),
            0 <= asked,
            0 <= counted,
            metrics.selection_entries_inspected == sat_sum(counted, i as int),
            metrics.answers@.len() == asked + checks_if(cancellation, 1 + i as int / 256),
        decreases all@.len() - i,
    {
        proof {
            let next = views.subrange(0, i + 1);
            assert(next.drop_last() =~= views.subrange(0, i as int));
            assert(next.last() == all@[i as int]@);
        }
        if is_passing(filter, &all[i]) {
            let ghost before = ranked_views(kept@);
            kept.push(copy_ranked(&all[i]));
            assert(ranked_views(kept@) =~= before.push(all@[i as int]@));
        }
        metrics.selection_entries_inspected = metrics.selection_entries_inspected.saturating_add(1);
        i = i + 1;
        if i % COMPLETION_CANCELLATION_CHECK_INTERVAL == 0 {
            if metrics.check(cancellation) {
                return None;
            }
        }
    }
    if i % COMPLETION_CANCELLATION_CHECK_INTERVAL != 0 {
        if metrics.check(cancellation) {
            return None;
        }
    }
    assert(views.subrange(0, i as int) =~= views);
    Some(top_ranked(kept, limit))
}

/// Slot `index` is among the selected.
pub open spec fn is_selected(s: Seq<Placed>, index: usize) -> bool {
    exists|i: int| 0 <= i < s.len() && (#[trigger] s[i]).candidate.index == index
}

/// Add up to `quota` candidates of `list`, from `i` on, that are not selected
/// yet.
pub open spec fn taking(
    sel: Seq<Placed>,
    list: Seq<Placed>,
    quota: int,
    i: int,
    taken: int,
) -> Seq<Placed>
    decreases list.len() - i,
{
    if i < 0 || i >= list.len() || taken >= quota {
        sel
    } else if is_selected(sel, list[i].candidate.index) {
        taking(sel, list, quota, i + 1, taken)
    } else {
        taking(sel.push(list[i]), list, quota, i + 1, taken + 1)
    }
}

/// Fill the selection from `list`, from `i` on, up to `total` in all.
pub open spec fn filling(sel: Seq<Placed>, list: Seq<Placed>, total: int, i: int) -> Seq<Placed>
    decreases list.len() - i,
{
    if i < 0 || i >= list.len() || sel.len() >= total {
        sel
    } else if is_selected(sel, list[i].candidate.index) {
        filling(sel, list, total, i + 1)
    } else {
        filling(sel.push(list[i]), list, total, i + 1)
    }
}

fn has_index(sel: &Vec<Ranked>, index: usize) -> (r: bool)
    ensures
        r == is_selected(ranked_views(sel@), index),
{
    let ghost views = ranked_views(sel@);
    let mut i: usize = 0;
    while i < sel.len()
        invariant
            i <= sel@.len(),
            views == ranked_views(sel@),
            forall|k: int| 0 <= k < i ==> (#[trigger] views[k]).candidate.index != index,
        decreases sel@.len() - i,
    {
        assert(views[i as int] == sel@[i as int]@);
        if sel[i].candidate.index == index {
            return true;
        }
        i = i + 1;
    }
    false
}

fn take_channel<'a>(sel: &mut Vec<Ranked<'a>>, list: &Vec<Ranked<'a>>, quota: usize)
    ensures
        ranked_views(final(sel)@) == taking(
            ranked_views(old(sel)@),
            ranked_views(list@),
            quota as int,
            0,
            0,
        ),
{
    let ghost start = ranked_views(sel@);
    let ghost views = ranked_views(list@);
    let mut taken: usize = 0;
    let mut i: usize = 0;
    while i < list.len() && taken < quota
        invariant
            i <= list@.len(),
            taken <= quota,
            views == ranked_views(list@),
            taking(start, views, quota as int, 0, 0) == taking(
                ranked_views(sel@),
                views,
                quota as int,
                i as int,
                taken as int,
            ),
        decreases list@.len() - i,
    {
        assert(views[i as int] == list@[i as int]@);
        if !has_index(sel, list[i].candidate.index) {
            let ghost before = ranked_views(sel@);
            sel.push(copy_ranked(&list[i]));
            assert(ranked_views(sel@) =~= before.push(views[i as int]));
            taken = taken + 1;
        }
        i = i + 1;
    }
}

fn fill_from<'a>(sel: &mut Vec<Ranked<'a>>, list: &Vec<Ranked<'a>>, total: usize)
    ensures
        ranked_views(final(sel)@) == filling(
            ranked_views(old(sel)@),
            ranked_views(list@),
            total as int,
            0,
        ),
{
    let ghost start = ranked_views(sel@);
    let ghost views = ranked_views(list@);
    let mut i: usize = 0;
    while i < list.len() && sel.len() < total
        invariant
            i <= list@.len(),
            views == ranked_views(list@),
            filling(start, views, total as int, 0) == filling(
                ranked_views(sel@),
                views,
                total as int,
                i as int,
            ),
        decreases list@.len() - i,
    {
        assert(views[i as int] == list@[i as int]@);
        assert(ranked_views(sel@).len() == sel@.len());
        if !has_index(sel, list[i].candidate.index) {
            let ghost before = ranked_views(sel@);
            sel.push(copy_ranked(&list[i]));
            assert(ranked_views(sel@) =~= before.push(views[i as int]));
        }
        i = i + 1;
    }
    assert(ranked_views(sel@).len() == sel@.len());
}

/// The best candidates of one kind that are not selected yet.
pub open spec fn with_best(sel: Seq<Placed>, s: Seq<Placed>, filter: Filter, quota: int) -> Seq<
    Placed,
> {
    taking(sel, top(passing(s, filter), quota), quota, 0, 0)
}

pub open spec fn reserved(q: CompletionRecallQuotas) -> int {
    sat_sum(
        sat_sum(
            sat_sum(sat_sum(q.reachable as int, q.external as int), q.unknown as int),
            q.global as int,
        ),
        q.same_project as int,
    )
}

/// The candidates that a recall keeps: each channel its share, then the best
/// of what is left, best first.
pub open spec fn kept_by_quota(
    s: Seq<Placed>,
    q: CompletionRecallQuotas,
    project: Option<Key>,
) -> Seq<Placed> {
    let best = top(passing(s, Filter::All), sat_sum(q.total_indexed as int, reserved(q)));
    let a = with_best(
        Seq::empty(),
        s,
        Filter::Channel(ScopeChannel::Reachable),
        q.reachable as int,
    );
    let b = match project {
        Some(key) => with_best(a, s, Filter::Project(key), q.same_project as int),
        None => a,
    };
    let c = with_best(b, s, Filter::Channel(ScopeChannel::External), q.external as int);
    let d = with_best(c, s, Filter::Channel(ScopeChannel::Unknown), q.unknown as int);
    let e = with_best(d, s, Filter::Channel(ScopeChannel::Global), q.global as int);
    top(filling(e, best, q.total_indexed as int, 0), q.total_indexed as int)
}

/// What one selection pass costs; nothing is read for an empty quota.
pub open spec fn pass_cost(quota: int, each: int) -> int {
    if quota == 0 {
        0
    } else {
        each
    }
}

/// What the selection passes of a recall cost together, at `each` per pass.
pub open spec fn selection_cost(q: CompletionRecallQuotas, project: Option<Key>, each: int) -> int {
    pass_cost(sat_sum(q.total_indexed as int, reserved(q)), each) + pass_cost(
        q.reachable as int,
        each,
    ) + (match project {
        Some(_) => pass_cost(q.same_project as int, each),
        None => 0,
    }) + pass_cost(q.external as int, each) + pass_cost(q.unknown as int, each) + pass_cost(
        q.global as int,
        each,
    )
}

// ---------------------------------------------------------------------------
// Recall

/// A recall request.
pub struct CompletionRecallQuery<'a, C> {
    pub query: &'a str,
    pub quotas: CompletionRecallQuotas,
    pub scope: Option<&'a CompletionScope>,
    pub active_project: Option<&'a ProjectKey>,
    pub prior_pool: Option<&'a [usize]>,
    pub semantic_family: Option<SemanticFamily>,
    pub cancellation: Option<&'a C>,
    pub candidate_budget: usize,
}

pub open spec fn opt_project(p: Option<&ProjectKey>) -> Option<Key> {
    match p {
        Some(key) => Some(key@),
        None => None,
    }
}

/// A project that owns an active slot.
pub open spec fn present_project(t: Table, project: Option<Key>) -> Option<Key> {
    match project {
        Some(key) => if project_slots(t, key).len() > 0 {
            Some(key)
        } else {
            None
        },
        None => None,
    }
}

/// Number of the first `n` hits in a channel.
pub open spec fn hits_in(s: Seq<Hit>, c: ScopeChannel, n: int) -> nat
    decreases n,
{
    if n <= 0 {
        0
    } else {
        hits_in(s, c, n - 1) + if channel(s[n - 1].tier) == c {
            1nat
        } else {
            0nat
        }
    }
}

/// Number of the first `n` hits of a project.
pub open spec fn hits_of_project(s: Seq<Hit>, key: Option<Key>, n: int) -> nat
    decreases n,
{
    if n <= 0 {
        0
    } else {
        hits_of_project(s, key, n - 1) + if key is Some && s[n - 1].project == key {
            1nat
        } else {
            0nat
        }
    }
}

/// The hits of a recall that was not cancelled.
pub open spec fn recalled(
    t: Table,
    ctx: Option<Context>,
    family: Option<SemanticFamily>,
    query: Seq<char>,
    q: CompletionRecallQuotas,
    project: Option<Key>,
    ids: Seq<usize>,
) -> Seq<Hit> {
    hits_of(kept_by_quota(placed(t, recall_scored(t, ctx, family, query, ids)), q, project))
}

/// Counters of the hits.
pub open spec fn counted(m: CompletionRecallMetrics, hits: Seq<Hit>, project: Option<Key>) -> bool {
    &&& m.indexed_returned == hits.len()
    &&& m.reachable == hits_in(hits, ScopeChannel::Reachable, hits.len() as int)
    &&& m.external == hits_in(hits, ScopeChannel::External, hits.len() as int)
    &&& m.unknown == hits_in(hits, ScopeChannel::Unknown, hits.len() as int)
    &&& m.global == hits_in(hits, ScopeChannel::Global, hits.len() as int)
    &&& m.same_project == hits_of_project(hits, project, hits.len() as int)
}

fn recall_metrics(hits: &Vec<RankedNameHit>, active_project: Option<&ProjectKey>) -> (r:
    CompletionRecallMetrics)
    ensures
        counted(r, hit_views(hits@), opt_project(active_project)),
        r == (CompletionRecallMetrics {
            reachable: r.reachable,
            external: r.external,
            unknown: r.unknown,
            global: r.global,
            same_project: r.same_project,
            indexed_returned: r.indexed_returned,
            ..CompletionRecallMetrics::zero()
        }),
{
    let ghost views = hit_views(hits@);
    let ghost key = opt_project(active_project);
    let mut reachable: usize = 0;
    let mut external: usize = 0;
    let mut unknown: usize = 0;
    let mut global: usize = 0;
    let mut owned: usize = 0;
    let mut i: usize = 0;
    while i < hits.len()
        invariant
            i <= hits@.len(),
            views == hit_views(hits@),
            key == opt_project(active_project),
            reachable <= i,
            external <= i,
            unknown <= i,
            global <= i,
            owned <= i,
            reachable == hits_in(views, ScopeChannel::Reachable, i as int),
            external == hits_in(views, ScopeChannel::External, i as int),
            unknown == hits_in(views, ScopeChannel::Unknown, i as int),
            global == hits_in(views, ScopeChannel::Global, i as int),
            owned == hits_of_project(views, key, i as int),
        decreases hits@.len() - i,
    {
        assert(views[i as int] == hits@[i as int]@);
        match channel_for_tier(hits[i].tier) {
            ScopeChannel::Reachable => {
                reachable = reachable + 1;
            },
            ScopeChannel::External => {
                external = external + 1;
            },
            ScopeChannel::Unknown => {
                unknown = unknown + 1;
            },
            ScopeChannel::Global => {
                global = global + 1;
            },
        }
        let mine = match (active_project, &hits[i].project_key) {
            (Some(a), Some(b)) => same_project(a, b),
            _ => false,
        };
        if mine {
            owned = owned + 1;
        }
        i = i + 1;
    }
    let mut m = CompletionRecallMetrics::default();
    m.reachable = reachable;
    m.external = external;
    m.unknown = unknown;
    m.global = global;
    m.same_project = owned;
    m.indexed_returned = hits.len();
    m
}

fn cancelled_recall<C: CompletionQueryCancellation>(
    scan: RecallScanMetrics,
    cancellation: Option<&C>,
) -> (r: (
    Vec<RankedNameHit>,
    Vec<usize>,
    CompletionRecallMetrics,
))
    requires
        scan.stopped(cancellation),
        scan.heard(cancellation),
    ensures
        r.0@.len() == 0,
        r.1@.len() == 0,
        told(cancellation, r.2),
        stopped_in_time(r.2),
        cancellation is Some,
        r.2 == (CompletionRecallMetrics {
            entries_inspected: scan.entries_inspected,
            selection_entries_inspected: scan.selection_entries_inspected,
            priority_source_probes: scan.priority_source_probes,
            priority_source_attempts: scan.priority_source_attempts,
            priority_sources_initialized: scan.priority_sources_initialized,
            cancellation_checks: scan.cancellation_checks,
            cancelled: true,
            ..CompletionRecallMetrics::zero()
        }),
{
    let mut m = CompletionRecallMetrics::default();
    m.entries_inspected = scan.entries_inspected;
    m.selection_entries_inspected = scan.selection_entries_inspected;
    m.priority_source_probes = scan.priority_source_probes;
    m.priority_source_attempts = scan.priority_source_attempts;
    m.priority_sources_initialized = scan.priority_sources_initialized;
    m.cancellation_checks = scan.cancellation_checks;
    m.cancelled = true;
    proof {
        reveal(are_answers);
        let last = scan.answers@.len() - 1;
        assert(says(cancellation, scan.answers@[last]));
        assert(are_answers(cancellation, scan.answers@, m.cancelled));
    }
    (Vec::new(), Vec::new(), m)
}

/// The counters moved on by the cost of some passes.
pub open spec fn spent(
    before: RecallScanMetrics,
    after: RecallScanMetrics,
    read: int,
    asked: int,
) -> bool {
    &&& after.entries_inspected == before.entries_inspected
    &&& after.prefix_entries_inspected == before.prefix_entries_inspected
    &&& after.selection_entries_inspected == sat_sum(
        before.selection_entries_inspected as int,
        read,
    )
    &&& after.answers@.len() == before.answers@.len() + asked
    &&& after.same_sources(before)
    &&& !after.cancelled
}

proof fn spent_twice(
    a: RecallScanMetrics,
    b: RecallScanMetrics,
    c: RecallScanMetrics,
    read1: int,
    asked1: int,
    read2: int,
    asked2: int,
)
    requires
        spent(a, b, read1, asked1),
        spent(b, c, read2, asked2),
        read1 >= 0,
        asked1 >= 0,
        read2 >= 0,
        asked2 >= 0,
    ensures
        spent(a, c, read1 + read2, asked1 + asked2),
{
}

/// Add the best candidates of one kind; `false` when the request was
/// cancelled.
fn add_best<'a, C: CompletionQueryCancellation>(
    sel: &mut Vec<Ranked<'a>>,
    all: &Vec<Ranked<'a>>,
    filter: FilterRef,
    quota: usize,
    cancellation: Option<&C>,
    metrics: &mut RecallScanMetrics,
) -> (ok: bool)
    requires
        !old(metrics).cancelled,
        old(metrics).heard(cancellation),
        old(metrics).paced(cancellation),
    ensures
        final(metrics).heard(cancellation),
        final(metrics).entries_inspected == old(metrics).entries_inspected,
        !ok ==> final(metrics).stopped(cancellation),
        ok ==> final(metrics).paced(cancellation),
        ok ==> spent(
            *old(metrics),
            *final(metrics),
            pass_cost(quota as int, all@.len() as int),
            checks_if(cancellation, pass_cost(quota as int, 1 + blocks(all@.len() as int))),
        ),
        ok ==> ranked_views(final(sel)@) == with_best(
            ranked_views(old(sel)@),
            ranked_views(all@),
            filter@,
            quota as int,
        ),
{
    match top_scored_controlled(all, filter, quota, cancellation, metrics) {
        Some(list) => {
            take_channel(sel, &list, quota);
            true
        },
        None => false,
    }
}

/// The candidates that a recall keeps, or nothing when the request was
/// cancelled.
fn select_by_quota<'a, C: CompletionQueryCancellation>(
    all: &Vec<Ranked<'a>>,
    quotas: CompletionRecallQuotas,
    project: Option<&ProjectKey>,
    cancellation: Option<&C>,
    metrics: &mut RecallScanMetrics,
) -> (r: Option<Vec<Ranked<'a>>>)
    requires
        !old(metrics).cancelled,
        old(metrics).heard(cancellation),
        old(metrics).paced(cancellation),
    ensures
        final(metrics).heard(cancellation),
        final(metrics).entries_inspected == old(metrics).entries_inspected,
        match r {
            Some(kept) => {
                &&& ranked_views(kept@) == kept_by_quota(
                    ranked_views(all@),
                    quotas,
                    opt_project(project),
                )
                &&& final(metrics).paced(cancellation)
                &&& spent(
                    *old(metrics),
                    *final(metrics),
                    selection_cost(quotas, opt_project(project), all@.len() as int),
                    checks_if(
                        cancellation,
                        selection_cost(
                            quotas,
                            opt_project(project),
                            1 + blocks(all@.len() as int),
                        ),
                    ),
                )
            },
            None => final(metrics).stopped(cancellation),
        },
{
    let ghost start = *metrics;
    let ghost n = all@.len() as int;
    let ghost b = 1 + blocks(n);
    let room: usize = quotas.reachable.saturating_add(quotas.external).saturating_add(
        quotas.unknown,
    ).saturating_add(quotas.global).saturating_add(quotas.same_project);
    let wide: usize = quotas.total_indexed.saturating_add(room);
    let best = match top_scored_controlled(all, FilterRef::All, wide, cancellation, metrics) {
        Some(best) => best,
        None => {
            return None;
        },
    };
    let ghost m0 = *metrics;
    let ghost mut read: int = pass_cost(wide as int, n);
    let ghost mut asked: int = checks_if(cancellation, pass_cost(wide as int, b));
    assert(spent(start, m0, read, asked));
    let mut sel: Vec<Ranked<'a>> = Vec::new();
    assert(ranked_views(sel@) =~= Seq::empty());
    if !add_best(
        &mut sel,
        all,
        FilterRef::Channel(ScopeChannel::Reachable),
        quotas.reachable,
        cancellation,
        metrics,
    ) {
        return None;
    }
    let ghost m1 = *metrics;
    proof {
        let r = pass_cost(quotas.reachable as int, n);
        let c = checks_if(cancellation, pass_cost(quotas.reachable as int, b));
        spent_twice(start, m0, m1, read, asked, r, c);
        read = read + r;
        asked = asked + c;
    }
    match project {
        Some(key) => {
            if !add_best(
                &mut sel,
                all,
                FilterRef::Project(key),
                quotas.same_project,
                cancellation,
                metrics,
            ) {
                return None;
            }
            proof {
                let r = pass_cost(quotas.same_project as int, n);
                let c = checks_if(cancellation, pass_cost(quotas.same_project as int, b));
                spent_twice(start, m1, *metrics, read, asked, r, c);
                read = read + r;
                asked = asked + c;
            }
        },
        None => {},
    }
    let ghost m2 = *metrics;
    if !add_best(
        &mut sel,
        all,
        FilterRef::Channel(ScopeChannel::External),
        quotas.external,
        cancellation,
        metrics,
    ) {
        return None;
    }
    let ghost m3 = *metrics;
    proof {
        let r = pass_cost(quotas.external as int, n);
        let c = checks_if(cancellation, pass_cost(quotas.external as int, b));
        spent_twice(start, m2, m3, read, asked, r, c);
        read = read + r;
        asked = asked + c;
    }
    if !add_best(
        &mut sel,
        all,
        FilterRef::Channel(ScopeChannel::Unknown),
        quotas.unknown,
        cancellation,
        metrics,
    ) {
        return None;
    }
    let ghost m4 = *metrics;
    proof {
        let r = pass_cost(quotas.unknown as int, n);
        let c = checks_if(cancellation, pass_cost(quotas.unknown as int, b));
        spent_twice(start, m3, m4, read, asked, r, c);
        read = read + r;
        asked = asked + c;
    }
    if !add_best(
        &mut sel,
        all,
        FilterRef::Channel(ScopeChannel::Global),
        quotas.global,
        cancellation,
        metrics,
    ) {
        return None;
    }
    proof {
        let r = pass_cost(quotas.global as int, n);
        let c = checks_if(cancellation, pass_cost(quotas.global as int, b));
        spent_twice(start, m4, *metrics, read, asked, r, c);
        read = read + r;
        asked = asked + c;
    }
    fill_from(&mut sel, &best, quotas.total_indexed);
    Some(top_ranked(sel, quotas.total_indexed))
}

impl NameTable {
    fn slots_to_recall<C: CompletionQueryCancellation>(
        &self,
        query: &CompletionRecallQuery<C>,
        needle: &Option<Vec<u8>>,
        metrics: &mut RecallScanMetrics,
    ) -> (r: Option<Chosen>)
        requires
            self.wf(),
            query.prior_pool is Some ==> valid_ids(self@, query.prior_pool->0@),
            match needle {
                Some(n) => trim(query.query@).len() > 0 && n@ == needle_of(query.query@),
                None => trim(query.query@).len() == 0,
            },
            !old(metrics).cancelled,
            old(metrics).heard(query.cancellation),
            old(metrics).entries_inspected == 0,
            old(metrics).priority_source_probes == 0,
            old(metrics).paced(query.cancellation),
            old(metrics).answers@.len() == 0,
        ensures
            final(metrics).heard(query.cancellation),
            final(metrics).prefix_entries_inspected == old(metrics).prefix_entries_inspected,
            final(metrics).selection_entries_inspected == old(metrics).selection_entries_inspected,
            match r {
                Some(chosen) => self.chooses(*query, chosen) && !final(metrics).cancelled
                    && final(metrics).paced(query.cancellation)
                    && final(metrics).entries_inspected == 0 && final(metrics).answers@.len()
                    == checks_if(query.cancellation, self.choosing_checks(*query)),
                None => final(metrics).stopped(query.cancellation),
            },
    {
        let budget: usize = query.candidate_budget;
        let family = query.semantic_family;
        match needle {
            None => {
                let ghost blank = needle_of(query.query@);
                if self.active_len <= budget {
                    proof {
                        eligible_fit(self@, family, blank, self.slot_len as int);
                    }
                    return Some(
                        Chosen { ids: None, truncated: false, probes: 0, attempts: 0, opened: 0 },
                    );
                }
                Some(
                    Chosen {
                        ids: Some(self.first_eligible(family, Ghost(blank), budget)),
                        truncated: self.has_more_than(family, Ghost(blank), budget),
                        probes: 0,
                        attempts: 0,
                        opened: 0,
                    },
                )
            },
            Some(needle) => {
                match query.prior_pool {
                    Some(ids) => Some(
                        Chosen {
                            ids: Some(copy_first(ids, budget)),
                            truncated: ids.len() > budget,
                            probes: 0,
                            attempts: 0,
                            opened: 0,
                        },
                    ),
                    None => {
                        let size: usize = match family {
                            Some(_) => self.slot_len,
                            None => self.active_len,
                        };
                        proof {
                            count_true_fits(self@.active, self.slot_len as int);
                        }
                        if size <= budget {
                            return Some(
                                Chosen {
                                    ids: None,
                                    truncated: false,
                                    probes: 0,
                                    attempts: 0,
                                    opened: 0,
                                },
                            );
                        }
                        if self.active_len <= budget {
                            return self.probed_slots(
                                family,
                                needle,
                                query.scope,
                                query.active_project,
                                budget,
                                query.cancellation,
                                metrics,
                            );
                        }
                        let chosen = self.budgeted_slots(
                            family,
                            needle,
                            query.scope,
                            query.active_project,
                            budget,
                            query.cancellation,
                            metrics,
                        );
                        if chosen.is_some() {
                            metrics.entries_inspected = 0;
                        }
                        chosen
                    },
                }
            },
        }
    }

    /// The paths that a query probes.
    pub open spec fn lists_for<C>(self, query: CompletionRecallQuery<C>) -> ProbeLists {
        probe_lists(
            self,
            query.scope,
            opt_project(query.active_project),
            query.semantic_family,
            needle_of(query.query@),
        )
    }

    /// What a recall in this table gives back.
    pub open spec fn recalls<C: CompletionQueryCancellation>(
        self,
        query: CompletionRecallQuery<C>,
        hits: Seq<Hit>,
        pool_out: Seq<usize>,
        m: CompletionRecallMetrics,
    ) -> bool {
        recall_outcome(self@, self.lists_for(query), query, hits, pool_out, m)
    }

    /// The slots that a query looks at were chosen.
    pub open spec fn chooses<C>(self, query: CompletionRecallQuery<C>, chosen: Chosen) -> bool {
        let project = opt_project(query.active_project);
        let lists = self.lists_for(query);
        let budget = query.candidate_budget as int;
        let prior = opt_ids(query.prior_pool);
        let whole = if is_bounded(self@, query.semantic_family, query.query@, prior, budget) {
            set_up(
                self@,
                query.semantic_family,
                needle_of(query.query@),
                lists,
                project,
                budget,
            ).whole
        } else {
            Probing::start()
        };
        &&& chosen.slots(self@, query.semantic_family, needle_of(query.query@)) == recall_slots(
            self@,
            query.semantic_family,
            query.query@,
            lists,
            project,
            prior,
            budget,
        )
        &&& chosen.ids is Some ==> valid_ids(self@, chosen.ids->0@)
        &&& chosen.truncated == recall_truncates(
            self@,
            query.semantic_family,
            query.query@,
            lists,
            project,
            prior,
            budget,
        )
        &&& chosen.probes == whole.probes
        &&& chosen.attempts == whole.tried
        &&& chosen.opened == whole.opened
    }

    pub open spec fn choosing_checks<C>(self, query: CompletionRecallQuery<C>) -> int {
        setup_checks(
            self@,
            query.semantic_family,
            query.query@,
            self.lists_for(query),
            opt_project(query.active_project),
            opt_ids(query.prior_pool),
            query.candidate_budget as int,
        )
    }

    /// Scan the slots that were chosen, all eligible ones where none are listed.
    fn scan_chosen<'a, C: CompletionQueryCancellation>(
        &'a self,
        query: &CompletionRecallQuery<C>,
        needle: &Option<Vec<u8>>,
        ctx: Option<&ResolveContext>,
        chosen: &Chosen,
        metrics: &mut RecallScanMetrics,
    ) -> (r: Option<(Vec<Ranked<'a>>, Vec<usize>)>)
        requires
            self.wf(),
            match needle {
                Some(n) => trim(query.query@).len() > 0 && n@ == needle_of(query.query@),
                None => trim(query.query@).len() == 0,
            },
            chosen.ids is Some ==> valid_ids(self@, chosen.ids->0@),
            old(metrics).entries_inspected == 0,
            old(metrics).prefix_entries_inspected == 0,
            !old(metrics).cancelled,
            old(metrics).heard(query.cancellation),
            old(metrics).paced(query.cancellation),
        ensures
            final(metrics).heard(query.cancellation),
            final(metrics).same_sources(*old(metrics)),
            final(metrics).selection_entries_inspected == old(metrics).selection_entries_inspected,
            match r {
                Some((ranked, pool_out)) => {
                    let ids = chosen.slots(
                        self@,
                        query.semantic_family,
                        needle_of(query.query@),
                    );
                    &&& ranked_views(ranked@) == placed(
                        self@,
                        recall_scored(
                            self@,
                            opt_context(ctx),
                            query.semantic_family,
                            query.query@,
                            ids,
                        ),
                    )
                    &&& pool_out@ == recall_pool(self@, query.semantic_family, query.query@, ids)
                    &&& final(metrics).entries_inspected == ids.len()
                    &&& final(metrics).prefix_entries_inspected == prefixes_among(
                        self@,
                        query.query@,
                        ids,
                    )
                    &&& !final(metrics).cancelled
                    &&& final(metrics).paced(query.cancellation)
                    &&& final(metrics).answers@.len() == old(metrics).answers@.len() + checks_if(
                        query.cancellation,
                        blocks(ids.len() as int),
                    )
                },
                None => final(metrics).stopped(query.cancellation),
            },
    {
        match needle {
            None => {
                let scanned = match &chosen.ids {
                    Some(list) => self.scan_unmatched(ctx, list, query.cancellation, metrics),
                    None => self.scan_all_unmatched(
                        ctx,
                        query.semantic_family,
                        Ghost(needle_of(query.query@)),
                        query.cancellation,
                        metrics,
                    ),
                };
                match scanned {
                    Some(ranked) => {
                        let pool_out: Vec<usize> = Vec::new();
                        assert(pool_out@ =~= Seq::empty());
                        Some((ranked, pool_out))
                    },
                    None => None,
                }
            },
            Some(n) => match &chosen.ids {
                Some(list) => self.scan_matching(
                    n,
                    query.semantic_family,
                    ctx,
                    list,
                    query.cancellation,
                    metrics,
                ),
                None => self.scan_all_matching(
                    n,
                    query.semantic_family,
                    ctx,
                    query.cancellation,
                    metrics,
                ),
            },
        }
    }

    fn search_completion_recall_pooled_with_project_filtered<C: CompletionQueryCancellation>(
        &self,
        query: CompletionRecallQuery<C>,
    ) -> (r: (Vec<RankedNameHit>, Vec<usize>, CompletionRecallMetrics))
        requires
            self.wf(),
            query.prior_pool is Some ==> valid_ids(self@, query.prior_pool->0@),
        ensures
            self.recalls(query, hit_views(r.0@), r.1@, r.2),
    {
        let owned = match query.scope {
            Some(s) => Some(s.resolve_context()),
            None => None,
        };
        let ctx: Option<&ResolveContext> = match &owned {
            Some(c) => Some(c),
            None => None,
        };
        assert(opt_context(ctx) == context_of(query.scope));
        let mut metrics = RecallScanMetrics::new();
        assert(metrics.heard(query.cancellation)) by {
            reveal(are_answers);
        }
        let needle = needle_from(query.query);
        let chosen = match self.slots_to_recall(&query, &needle, &mut metrics) {
            Some(chosen) => chosen,
            None => {
                return cancelled_recall(metrics, query.cancellation);
            },
        };
        let (ranked, pool_out) = match self.scan_chosen(
            &query,
            &needle,
            ctx,
            &chosen,
            &mut metrics,
        ) {
            Some(found) => found,
            None => {
                return cancelled_recall(metrics, query.cancellation);
            },
        };
        let project = query.active_project;
        let selecting: Option<&ProjectKey> = match project {
            Some(key) => match self.project_indices(key) {
                Some(_) => Some(key),
                None => None,
            },
            None => None,
        };
        let kept = match select_kept(
            &ranked,
            query.quotas,
            selecting,
            query.cancellation,
            &mut metrics,
        ) {
            Some(kept) => kept,
            None => {
                return cancelled_recall(metrics, query.cancellation);
            },
        };
        let hits = hits_from(&kept);
        proof {
            let ids = chosen.slots(self@, query.semantic_family, needle_of(query.query@));
            prefix_count_bounded(self@, needle_of(query.query@), ids, ids.len() as int);
        }
        let mut m = recall_metrics(&hits, project);
        m.pool_total = pool_out.len();
        m.active_entries_total = self.active_len;
        m.candidate_budget = query.candidate_budget;
        m.truncated = chosen.truncated;
        note_work(&mut m, &metrics, &chosen);
        assert(told(query.cancellation, m)) by {
            reveal(are_answers);
            assert(are_answers(query.cancellation, metrics.answers@, m.cancelled));
            if query.cancellation is Some {
                assert(says(query.cancellation, metrics.answers@[0]));
            }
        }
        (hits, pool_out, m)
    }
}

/// Take over the counters of a recall that was not cancelled.
fn note_work(m: &mut CompletionRecallMetrics, scan: &RecallScanMetrics, chosen: &Chosen)
    requires
        scan.prefix_entries_inspected <= scan.entries_inspected,
    ensures
        *final(m) == (CompletionRecallMetrics {
            entries_inspected: scan.entries_inspected,
            prefix_entries_inspected: scan.prefix_entries_inspected,
            fuzzy_entries_inspected: (scan.entries_inspected
                - scan.prefix_entries_inspected) as usize,
            selection_entries_inspected: scan.selection_entries_inspected,
            cancellation_checks: scan.cancellation_checks,
            priority_source_probes: chosen.probes,
            priority_source_attempts: chosen.attempts,
            priority_sources_initialized: chosen.opened,
            ..*old(m)
        }),
{
    m.entries_inspected = scan.entries_inspected;
    m.prefix_entries_inspected = scan.prefix_entries_inspected;
    m.fuzzy_entries_inspected = scan.entries_inspected - scan.prefix_entries_inspected;
    m.selection_entries_inspected = scan.selection_entries_inspected;
    m.cancellation_checks = scan.cancellation_checks;
    m.priority_source_probes = chosen.probes;
    m.priority_source_attempts = chosen.attempts;
    m.priority_sources_initialized = chosen.opened;
}

/// The candidates that a recall keeps, asking for cancellation three times
/// before they are selected and once behind; nothing when the request was
/// cancelled.
fn select_kept<'a, C: CompletionQueryCancellation>(
    all: &Vec<Ranked<'a>>,
    quotas: CompletionRecallQuotas,
    project: Option<&ProjectKey>,
    cancellation: Option<&C>,
    metrics: &mut RecallScanMetrics,
) -> (r: Option<Vec<Ranked<'a>>>)
    requires
        !old(metrics).cancelled,
        old(metrics).heard(cancellation),
        old(metrics).paced(cancellation),
    ensures
        final(metrics).heard(cancellation),
        match r {
            Some(kept) => {
                &&& ranked_views(kept@) == kept_by_quota(
                    ranked_views(all@),
                    quotas,
                    opt_project(project),
                )
                &&& spent(
                    *old(metrics),
                    *final(metrics),
                    selection_cost(quotas, opt_project(project), all@.len() as int),
                    checks_if(
                        cancellation,
                        4 + selection_cost(
                            quotas,
                            opt_project(project),
                            1 + blocks(all@.len() as int),
                        ),
                    ),
                )
            },
            None => final(metrics).stopped(cancellation),
        },
{
    if metrics.check(cancellation) {
        return None;
    }
    if metrics.check(cancellation) {
        return None;
    }
    if metrics.check(cancellation) {
        return None;
    }
    match select_by_quota(all, quotas, project, cancellation, metrics) {
        Some(kept) => {
            if metrics.check(cancellation) {
                return None;
            }
            Some(kept)
        },
        None => None,
    }
}

proof fn prefix_count_bounded(t: Table, needle: Seq<u8>, ids: Seq<usize>, n: int)
    requires
        0 <= n,
    ensures
        prefix_count(t, needle, ids, n) <= n,
    decreases n,
{
    if n > 0 {
        prefix_count_bounded(t, needle, ids, n - 1);
    }
}

/// A source of all names does not depend on the query.
pub proof fn any_ignores_needle(
    t: Table,
    family: Option<SemanticFamily>,
    a: Seq<u8>,
    b: Seq<u8>,
    n: int,
)
    requires
        n <= t.slots.len(),
    ensures
        slots_where(source_test(t, family, Source::Any, a), n) == slots_where(
            source_test(t, family, Source::Any, b),
            n,
        ),
    decreases n,
{
    if n > 0 {
        any_ignores_needle(t, family, a, b, n - 1);
    }
}

/// A recall is cancelled exactly where the cancellation said so, asks nothing
/// after that, and counts every answer.
pub open spec fn told<C: CompletionQueryCancellation>(
    cancellation: Option<&C>,
    m: CompletionRecallMetrics,
) -> bool {
    &&& m.cancelled ==> says(cancellation, true)
    &&& !m.cancelled && cancellation is Some ==> says(cancellation, false)
    &&& exists|answers: Seq<bool>| #[trigger]
        are_answers(cancellation, answers, m.cancelled) && m.cancellation_checks == sat_sum(
            0,
            answers.len() as int,
        )
}

/// A cancelled recall stopped at the answer: for every check before it at most
/// a block of paths, entries and candidates was worked on, and no more sources
/// were tried than probed, nor opened than tried.
pub open spec fn stopped_in_time(m: CompletionRecallMetrics) -> bool {
    &&& m.priority_source_probes + m.entries_inspected + m.selection_entries_inspected <= 256 * (
    m.cancellation_checks - 1)
    &&& m.priority_sources_initialized <= m.priority_source_attempts <= m.priority_source_probes
}

/// What a recall gives back. A cancelled one gives back nothing but counters;
/// any other the kept hits, the pool, and what it took.
pub open spec fn recall_outcome<C: CompletionQueryCancellation>(
    t: Table,
    lists: ProbeLists,
    query: CompletionRecallQuery<C>,
    hits: Seq<Hit>,
    pool_out: Seq<usize>,
    m: CompletionRecallMetrics,
) -> bool {
    let ctx = context_of(query.scope);
    let project = opt_project(query.active_project);
    let prior = opt_ids(query.prior_pool);
    let budget = query.candidate_budget as int;
    let ids = recall_slots(
        t,
        query.semantic_family,
        query.query@,
        lists,
        project,
        prior,
        budget,
    );
    let whole = if is_bounded(t, query.semantic_family, query.query@, prior, budget) {
        set_up(
            t,
            query.semantic_family,
            needle_of(query.query@),
            lists,
            project,
            budget,
        ).whole
    } else {
        Probing::start()
    };
    let found = recall_scored(t, ctx, query.semantic_family, query.query@, ids).len() as int;
    let selecting = present_project(t, project);
    told(query.cancellation, m) && if m.cancelled {
        query.cancellation is Some && hits.len() == 0 && pool_out.len() == 0 && stopped_in_time(
            m,
        ) && m == (
        CompletionRecallMetrics {
            entries_inspected: m.entries_inspected,
            selection_entries_inspected: m.selection_entries_inspected,
            priority_source_probes: m.priority_source_probes,
            priority_source_attempts: m.priority_source_attempts,
            priority_sources_initialized: m.priority_sources_initialized,
            cancellation_checks: m.cancellation_checks,
            cancelled: true,
            ..CompletionRecallMetrics::zero()
        })
    } else {
        &&& hits == recalled(
            t,
            ctx,
            query.semantic_family,
            query.query@,
            query.quotas,
            selecting,
            ids,
        )
        &&& pool_out == recall_pool(t, query.semantic_family, query.query@, ids)
        &&& counted(m, hits, project)
        &&& m.pool_total == pool_out.len()
        &&& m.entries_inspected == ids.len()
        &&& m.prefix_entries_inspected == prefixes_among(t, query.query@, ids)
        &&& m.fuzzy_entries_inspected == m.entries_inspected - m.prefix_entries_inspected
        &&& m.selection_entries_inspected == sat_sum(
            0,
            selection_cost(query.quotas, selecting, found),
        )
        &&& m.cancellation_checks == sat_sum(
            0,
            checks_if(
                query.cancellation,
                setup_checks(
                    t,
                    query.semantic_family,
                    query.query@,
                    lists,
                    project,
                    prior,
                    budget,
                ) + blocks(ids.len() as int) + 4 + selection_cost(
                    query.quotas,
                    selecting,
                    1 + blocks(found),
                ),
            ),
        )
        &&& m.active_entries_total == count_true(t.active, t.slots.len() as int)
        &&& m.candidate_budget == query.candidate_budget
        &&& m.truncated == recall_truncates(
            t,
            query.semantic_family,
            query.query@,
            lists,
            project,
            prior,
            budget,
        )
        &&& m.priority_source_probes == whole.probes
        &&& m.priority_source_attempts == whole.tried
        &&& m.priority_sources_initialized == whole.opened
        &&& m == (CompletionRecallMetrics {
            fuzzy_posting_entries_inspected: 0,
            fuzzy_sample_entries_inspected: 0,
            priority_fuzzy_name_probes: 0,
            priority_fuzzy_declaration_probes: 0,
            ..m
        })
    }
}

/// The request that the plain recall functions make.
pub open spec fn plain_query<'a>(
    query: &'a str,
    quotas: CompletionRecallQuotas,
    scope: Option<&'a CompletionScope>,
    active_project: Option<&'a ProjectKey>,
    prior_pool: Option<&'a [usize]>,
    semantic_family: Option<SemanticFamily>,
) -> CompletionRecallQuery<'a, NotCancellable> {
    CompletionRecallQuery {
        query,
        quotas,
        scope,
        active_project,
        prior_pool,
        semantic_family,
        cancellation: None,
        candidate_budget: usize::MAX,
    }
}

impl NameTable {
    pub fn search_completion_recall_pooled(
        &self,
        query: &str,
        quotas: CompletionRecallQuotas,
        scope: Option<&CompletionScope>,
        prior_pool: Option<&[usize]>,
    ) -> (r: (Vec<RankedNameHit>, Vec<usize>, CompletionRecallMetrics))
        requires
            self.wf(),
            prior_pool is Some ==> valid_ids(self@, prior_pool->0@),
        ensures
            self.recalls(
                plain_query(query, quotas, scope, None, prior_pool, None),
                hit_views(r.0@),
                r.1@,
                r.2,
            ),
    {
        self.search_completion_recall_pooled_with_project(query, quotas, scope, None, prior_pool)
    }

    pub fn search_completion_recall_pooled_with_project(
        &self,
        query: &str,
        quotas: CompletionRecallQuotas,
        scope: Option<&CompletionScope>,
        active_project: Option<&ProjectKey>,
        prior_pool: Option<&[usize]>,
    ) -> (r: (Vec<RankedNameHit>, Vec<usize>, CompletionRecallMetrics))
        requires
            self.wf(),
            prior_pool is Some ==> valid_ids(self@, prior_pool->0@),
        ensures
            self.recalls(
                plain_query(query, quotas, scope, active_project, prior_pool, None),
                hit_views(r.0@),
                r.1@,
                r.2,
            ),
    {
        let cancellation: Option<&NotCancellable> = None;
        self.search_completion_recall_pooled_with_project_filtered(
            CompletionRecallQuery {
                query,
                quotas,
                scope,
                active_project,
                prior_pool,
                semantic_family: None,
                cancellation,
                candidate_budget: usize::MAX,
            },
        )
    }

    pub fn search_completion_recall_pooled_with_project_for_family(
        &self,
        query: &str,
        quotas: CompletionRecallQuotas,
        scope: Option<&CompletionScope>,
        active_project: Option<&ProjectKey>,
        prior_pool: Option<&[usize]>,
        semantic_family: SemanticFamily,
    ) -> (r: (Vec<RankedNameHit>, Vec<usize>, CompletionRecallMetrics))
        requires
            self.wf(),
            prior_pool is Some ==> valid_ids(self@, prior_pool->0@),
        ensures
            self.recalls(
                plain_query(
                    query,
                    quotas,
                    scope,
                    active_project,
                    prior_pool,
                    Some(semantic_family),
                ),
                hit_views(r.0@),
                r.1@,
                r.2,
            ),
    {
        let cancellation: Option<&NotCancellable> = None;
        self.search_completion_recall_pooled_with_project_filtered(
            CompletionRecallQuery {
                query,
                quotas,
                scope,
                active_project,
                prior_pool,
                semantic_family: Some(semantic_family),
                cancellation,
                candidate_budget: usize::MAX,
            },
        )
    }

    /// Recall within a budget, under a cancellation that the request owns.
    pub fn search_completion_recall_pooled_controlled<C: CompletionQueryCancellation>(
        &self,
        query: CompletionRecallQuery<C>,
    ) -> (r: (Vec<RankedNameHit>, Vec<usize>, CompletionRecallMetrics))
        requires
            self.wf(),
            query.prior_pool is Some ==> valid_ids(self@, query.prior_pool->0@),
        ensures
            self.recalls(query, hit_views(r.0@), r.1@, r.2),
    {
        self.search_completion_recall_pooled_with_project_filtered(query)
    }
}

} // verus!
