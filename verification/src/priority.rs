//! Paths that a bounded recall looks at first: files that the scope knows,
//! files left active in changed segments, and files of the active project.

use vstd::prelude::*;

use crate::chars::{matches_at, texts};
use crate::facts::SemanticFamily;
use crate::name_recall::{
    blocks, checks_if, eligible, has_prefix, CompletionQueryCancellation, RecallScanMetrics,
    COMPLETION_CANCELLATION_CHECK_INTERVAL,
};
use crate::name_search::{by_spelling_facts, CompletionScope};
use crate::name_segment::{project_from, Name, NameSegment};
use crate::name_table::{slot_in_segment, NameTable, Table};
use crate::name_tokens::head_token;
use crate::postings::{key_test, picked, picked_passes};
use crate::prefix_paths::{declares, reaching, CompactPrefixPathPair};
use crate::project_context::{Key, ProjectKey};
use crate::reach::PathSet;
use crate::segment_index::{by_spelling, path_keys, prefix_rows, FamilyIndex, IndexedSegment};

verus! {

// ---------------------------------------------------------------------------
// Probing

/// What probing paths has found: how many paths were looked up, which of them
/// were tried, and which of those have a name with the prefix.
pub struct Probing {
    pub probes: int,
    pub tried: int,
    pub opened: int,
    pub attempts: Set<Seq<char>>,
    pub open: Set<Seq<char>>,
    pub next: int,
}

impl Probing {
    pub open spec fn start() -> Probing {
        Probing {
            probes: 0,
            tried: 0,
            opened: 0,
            attempts: Set::empty(),
            open: Set::empty(),
            next: 0,
        }
    }
}

/// A path with an active declaration of the family.
pub open spec fn path_known(t: Table, family: Option<SemanticFamily>, path: Seq<char>) -> bool {
    exists|i: int| #[trigger] eligible(t, family, i) && t.slots[i].path == path
}

/// A path with an active declaration of the family that starts with the query.
pub open spec fn path_opens(
    t: Table,
    family: Option<SemanticFamily>,
    needle: Seq<u8>,
    path: Seq<char>,
) -> bool {
    exists|i: int| #[trigger]
        eligible(t, family, i) && t.slots[i].path == path && has_prefix(t.slots[i], needle)
}

/// What one path adds.
pub open spec fn probed_path(
    t: Table,
    family: Option<SemanticFamily>,
    needle: Seq<u8>,
    s: Probing,
    path: Seq<char>,
) -> Probing {
    let seen = Probing { probes: s.probes + 1, next: s.next + 1, ..s };
    if s.attempts.contains(path) || !path_known(t, family, path) {
        seen
    } else if path_opens(t, family, needle, path) {
        Probing {
            tried: s.tried + 1,
            opened: s.opened + 1,
            attempts: s.attempts.insert(path),
            open: s.open.insert(path),
            ..seen
        }
    } else {
        Probing { tried: s.tried + 1, attempts: s.attempts.insert(path), ..seen }
    }
}

/// The paths of `list` probed in order, until there were enough probes or
/// enough were tried.
pub open spec fn probed(
    t: Table,
    family: Option<SemanticFamily>,
    needle: Seq<u8>,
    list: Seq<Seq<char>>,
    s: Probing,
    max_probes: int,
    max_tried: int,
) -> Probing
    decreases list.len() - s.next,
{
    if s.next < 0 || s.next >= list.len() || s.probes >= max_probes || s.tried >= max_tried {
        s
    } else {
        probed(
            t,
            family,
            needle,
            list,
            probed_path(t, family, needle, s, list[s.next]),
            max_probes,
            max_tried,
        )
    }
}

/// Probing ended because of its number of probes, with paths left.
pub open spec fn cut_short(list: Seq<Seq<char>>, s: Probing, max_tried: int) -> bool {
    s.next < list.len() && s.tried < max_tried
}

pub struct ProbingState {
    pub probes: usize,
    pub tried: usize,
    pub opened: usize,
    pub attempts: PathSet,
    pub open: PathSet,
    pub next: usize,
}

impl View for ProbingState {
    type V = Probing;

    open spec fn view(&self) -> Probing {
        Probing {
            probes: self.probes as int,
            tried: self.tried as int,
            opened: self.opened as int,
            attempts: self.attempts@,
            open: self.open@,
            next: self.next as int,
        }
    }
}

impl ProbingState {
    pub fn new() -> (r: ProbingState)
        ensures
            r@ == Probing::start(),
    {
        ProbingState {
            probes: 0,
            tried: 0,
            opened: 0,
            attempts: PathSet::new(),
            open: PathSet::new(),
            next: 0,
        }
    }
}

// ---------------------------------------------------------------------------
// Looking up a path

pub open spec fn in_list(list: Seq<u32>, x: int) -> bool {
    exists|k: int| 0 <= k < list.len() && #[trigger] list[k] == x
}

/// What a list of picked elements holds.
pub proof fn picked_holds(ids: Seq<usize>, test: spec_fn(int) -> bool, x: int)
    requires
        0 <= x <= u32::MAX,
        forall|i: int| 0 <= i < ids.len() ==> (#[trigger] ids[i]) <= u32::MAX,
    ensures
        in_list(picked(ids, test), x) <==> ids.contains(x as usize) && test(x),
    decreases ids.len(),
{
    let list = picked(ids, test);
    if ids.len() > 0 {
        let short = ids.drop_last();
        let last = ids.last();
        assert(last == ids[ids.len() - 1]);
        picked_holds(short, test, x);
        let before = picked(short, test);
        if in_list(before, x) {
            let k = choose|k: int| 0 <= k < before.len() && #[trigger] before[k] == x;
            assert(list[k] == x);
        }
        if ids.contains(x as usize) {
            let i = choose|i: int| 0 <= i < ids.len() && ids[i] == x as usize;
            if i < short.len() {
                assert(short[i] == x as usize);
            } else if test(x) {
                assert(list[before.len() as int] == x);
            }
        }
        if short.contains(x as usize) {
            let i = choose|i: int| 0 <= i < short.len() && short[i] == x as usize;
            assert(ids[i] == x as usize);
        }
        if in_list(list, x) {
            let k = choose|k: int| 0 <= k < list.len() && #[trigger] list[k] == x;
            if k < before.len() {
                assert(before[k] == x);
                assert(in_list(before, x));
            }
        }
    }
}

/// The posting of a path holds the entries of the family on it.
proof fn posting_holds(
    index: FamilyIndex,
    seg: NameSegment,
    family: SemanticFamily,
    p: int,
    j: int,
)
    requires
        seg.wf(),
        index.describes(seg, family),
        0 <= p < seg.paths@.len(),
        0 <= j < seg.entries@.len(),
    ensures
        in_list(index.paths.list(p), j) <==> seg@[j].family == family && seg@[j].path
            == seg.paths@[p],
{
    by_spelling_facts(seg@, family);
    let ids = by_spelling(seg@, family);
    picked_holds(ids, key_test(path_keys(seg.entries@), p), j);
    assert(index.paths.list(p) == picked(ids, key_test(path_keys(seg.entries@), p)));
    let e = seg.entries@[j];
    assert(seg.entry_wf(e));
    if ids.contains(j as usize) {
        let k = choose|k: int| 0 <= k < ids.len() && ids[k] == j as usize;
        assert(seg@[ids[k] as int].family == family);
    }
    assert(seg@[j].path == seg.paths@[e.path_id as int]);
}

proof fn posting_in_range(
    index: FamilyIndex,
    seg: NameSegment,
    family: SemanticFamily,
    p: int,
    k: int,
)
    requires
        seg.wf(),
        index.describes(seg, family),
        0 <= p < seg.paths@.len(),
        0 <= k < index.paths.list(p).len(),
    ensures
        index.paths.list(p)[k] < seg.entries@.len(),
{
    by_spelling_facts(seg@, family);
    let ids = by_spelling(seg@, family);
    picked_passes(ids, key_test(path_keys(seg.entries@), p), k);
    let i = choose|i: int|
        0 <= i < ids.len() && ids[i] == picked(ids, key_test(path_keys(seg.entries@), p))[k];
    assert(ids[i] < seg@.len());
}

/// Every slot lies in a segment.
pub proof fn slot_has_segment(t: NameTable, i: int, n: int) -> (r: (int, int))
    requires
        0 <= i < t.slots_below(n).len(),
        0 <= n,
    ensures
        0 <= r.0 < n,
        0 <= r.1 < t.segment(r.0)@.len(),
        i == t.slots_below(r.0).len() + r.1,
    decreases n,
{
    if n == 0 {
        (0, 0)
    } else {
        let before = t.slots_below(n - 1);
        if i < before.len() {
            slot_has_segment(t, i, n - 1)
        } else {
            (n - 1, i - before.len())
        }
    }
}

/// The entry at place `j` of segment `k` is an eligible slot on `path`.
proof fn slot_of_entry(
    t: NameTable,
    family: Option<SemanticFamily>,
    k: int,
    j: int,
)
    requires
        t.wf(),
        0 <= k < t.segments(),
        0 <= j < t.segment(k)@.len(),
        t.counts(k, t.segment(k)@[j].path),
        family is None || family == Some(t.segment(k)@[j].family),
    ensures
        eligible(t@, family, t.slots_below(k).len() + j),
        t@.slots[t.slots_below(k).len() + j] == t.segment(k)@[j],
{
    slot_in_segment(t, k, j, t.segments());
}

impl NameTable {
    /// Look up one family of a path in a segment: whether it declares
    /// anything, and anything with the prefix.
    fn probe_family(&self, k: usize, p: usize, family: SemanticFamily, needle: &[u8]) -> (r: (
        bool,
        bool,
    ))
        requires
            self.wf(),
            k < self.segments(),
            p < self.segment(k as int).paths@.len(),
        ensures
            r.0 == exists|j: int|
                0 <= j < self.segment(k as int)@.len() && on_path(
                    #[trigger] self.segment(k as int)@[j],
                    family,
                    self.segment(k as int).paths@[p as int],
                ),
            r.1 == exists|j: int|
                0 <= j < self.segment(k as int)@.len() && on_path(
                    #[trigger] self.segment(k as int)@[j],
                    family,
                    self.segment(k as int).paths@[p as int],
                ) && has_prefix(self.segment(k as int)@[j], needle@),
    {
        let part: &IndexedSegment = if k == 0 {
            &self.base
        } else {
            &self.deltas[k - 1]
        };
        assert(*part == self.indexed(k as int));
        assert(self.indexed(k as int).index.describes(self.indexed(k as int).names));
        assert(self.segment(k as int).wf());
        let ghost seg = part.names;
        let ghost path = seg.paths@[p as int];
        let index = part.index.family(family);
        let list = index.paths.posting(p as u32);
        let mut opens = false;
        let mut i: usize = 0;
        while i < list.len() && !opens
            invariant
                i <= list@.len(),
                seg == part.names,
                seg.wf(),
                index.describes(seg, family),
                p < seg.paths@.len(),
                list@ == index.paths.list(p as int),
                path == seg.paths@[p as int],
                !opens ==> forall|m: int|
                    0 <= m < i ==> !has_prefix(seg@[(#[trigger] list@[m]) as int], needle@),
                opens ==> exists|j: int|
                    0 <= j < seg@.len() && on_path(#[trigger] seg@[j], family, path) && has_prefix(
                        seg@[j],
                        needle@,
                    ),
            decreases list@.len() - i + if opens {
                0int
            } else {
                1int
            },
        {
            proof {
                posting_in_range(*index, seg, family, p as int, i as int);
                posting_holds(*index, seg, family, p as int, list@[i as int] as int);
                assert(in_list(list@, list@[i as int] as int));
            }
            let entry = part.names.entry(list[i] as usize);
            if matches_at(entry.lower, needle, 0) {
                assert(on_path(seg@[list@[i as int] as int], family, path));
                opens = true;
            } else {
                i = i + 1;
            }
        }
        proof {
            if list@.len() > 0 {
                posting_in_range(*index, seg, family, p as int, 0);
                posting_holds(*index, seg, family, p as int, list@[0] as int);
                assert(in_list(list@, list@[0] as int));
                assert(on_path(seg@[list@[0] as int], family, path));
            }
            assert forall|j: int|
                0 <= j < seg@.len() && on_path(#[trigger] seg@[j], family, path) implies in_list(
                list@,
                j,
            ) by {
                posting_holds(*index, seg, family, p as int, j);
            }
            if exists|j: int|
                0 <= j < seg@.len() && on_path(#[trigger] seg@[j], family, path) && has_prefix(
                    seg@[j],
                    needle@,
                ) {
                let j = choose|j: int|
                    0 <= j < seg@.len() && on_path(#[trigger] seg@[j], family, path)
                        && has_prefix(seg@[j], needle@);
                let m = choose|m: int| 0 <= m < list@.len() && #[trigger] list@[m] == j;
                assert(has_prefix(seg@[list@[m] as int], needle@));
            }
            if exists|j: int| 0 <= j < seg@.len() && on_path(#[trigger] seg@[j], family, path) {
                let j = choose|j: int| 0 <= j < seg@.len() && on_path(#[trigger] seg@[j], family, path);
                let m = choose|m: int| 0 <= m < list@.len() && #[trigger] list@[m] == j;
                assert(list@.len() > 0);
            }
        }
        (list.len() > 0, opens)
    }

    /// Look up a path: whether it has active declarations of the family, and
    /// any that start with the query.
    fn probe(&self, path: &str, family: Option<SemanticFamily>, needle: &[u8]) -> (r: (bool, bool))
        requires
            self.wf(),
        ensures
            r.0 == path_known(self@, family, path@),
            r.1 == path_opens(self@, family, needle@, path@),
    {
        let k: usize = match self.path_overrides.get(path) {
            None => 0,
            Some(Some(d)) => {
                assert(self.path_overrides@[path@]->0 < self.deltas@.len());
                let last: usize = self.deltas.len();
                d + 1
            },
            Some(None) => {
                proof {
                    self.elsewhere(family, path@, -1);
                }
                return (false, false);
            },
        };
        proof {
            self.elsewhere(family, path@, k as int);
        }
        let part: &IndexedSegment = if k == 0 {
            &self.base
        } else {
            &self.deltas[k - 1]
        };
        assert(*part == self.indexed(k as int));
        assert(self.segment(k as int).wf());
        let ghost seg = part.names;
        let p: usize = match part.names.paths.find(path) {
            Some(p) => p,
            None => {
                proof {
                    assert forall|i: int| #[trigger] eligible(self@, family, i) implies self@.slots[i].path
                        != path@ by {
                        if self@.slots[i].path == path@ {
                            let (m, j) = slot_has_segment(*self, i, self.segments());
                            slot_in_segment(*self, m, j, self.segments());
                            assert(seg.entry_wf(seg.entries@[j]));
                            assert(seg@[j].path == seg.paths@[seg.entries@[j].path_id as int]);
                        }
                    }
                }
                return (false, false);
            },
        };
        let (c, g) = match family {
            Some(SemanticFamily::CFamily) => (
                self.probe_family(k, p, SemanticFamily::CFamily, needle),
                (false, false),
            ),
            Some(SemanticFamily::Go) => (
                (false, false),
                self.probe_family(k, p, SemanticFamily::Go, needle),
            ),
            None => (
                self.probe_family(k, p, SemanticFamily::CFamily, needle),
                self.probe_family(k, p, SemanticFamily::Go, needle),
            ),
        };
        proof {
            self.probe_is_exact(family, needle@, path@, k as int, p as int);
        }
        (c.0 || g.0, c.1 || g.1)
    }

    /// Slots of a path are active only in the segment that counts.
    proof fn elsewhere(self, family: Option<SemanticFamily>, path: Seq<char>, k: int)
        requires
            self.wf(),
            self.path_overrides@.contains_key(path) ==> match self.path_overrides@[path] {
                Some(d) => k == d + 1,
                None => k == -1,
            },
            !self.path_overrides@.contains_key(path) ==> k == 0,
        ensures
            forall|i: int| #[trigger]
                eligible(self@, family, i) && self@.slots[i].path == path ==> exists|j: int|
                    0 <= j < self.segment(k)@.len() && 0 <= k < self.segments() && i
                        == self.slots_below(k).len() + j && #[trigger] self.segment(k)@[j]
                        == self@.slots[i],
    {
        assert forall|i: int| #[trigger]
            eligible(self@, family, i) && self@.slots[i].path == path implies exists|j: int|
                0 <= j < self.segment(k)@.len() && 0 <= k < self.segments() && i
                    == self.slots_below(k).len() + j && #[trigger] self.segment(k)@[j]
                    == self@.slots[i] by {
            let (m, j) = slot_has_segment(self, i, self.segments());
            slot_in_segment(self, m, j, self.segments());
            assert(m == k);
            assert(self.segment(k)@[j] == self@.slots[i]);
        }
    }

    proof fn probe_is_exact(
        self,
        family: Option<SemanticFamily>,
        needle: Seq<u8>,
        path: Seq<char>,
        k: int,
        p: int,
    )
        requires
            self.wf(),
            0 <= k < self.segments(),
            self.counts(k, path),
            0 <= p < self.segment(k).paths@.len(),
            self.segment(k).paths@[p] == path,
            forall|i: int| #[trigger]
                eligible(self@, family, i) && self@.slots[i].path == path ==> exists|j: int|
                    0 <= j < self.segment(k)@.len() && 0 <= k < self.segments() && i
                        == self.slots_below(k).len() + j && #[trigger] self.segment(k)@[j]
                        == self@.slots[i],
        ensures
            path_known(self@, family, path) == exists|j: int|
                0 <= j < self.segment(k)@.len() && wanted_on_path(
                    #[trigger] self.segment(k)@[j],
                    family,
                    path,
                ),
            path_opens(self@, family, needle, path) == exists|j: int|
                0 <= j < self.segment(k)@.len() && wanted_on_path(
                    #[trigger] self.segment(k)@[j],
                    family,
                    path,
                ) && has_prefix(self.segment(k)@[j], needle),
    {
        let seg = self.segment(k)@;
        assert forall|j: int|
            0 <= j < seg.len() && wanted_on_path(#[trigger] seg[j], family, path) implies eligible(
            self@,
            family,
            self.slots_below(k).len() + j,
        ) && self@.slots[self.slots_below(k).len() + j] == seg[j] by {
            slot_of_entry(self, family, k, j);
        }
        if path_known(self@, family, path) {
            let i = choose|i: int| #[trigger]
                eligible(self@, family, i) && self@.slots[i].path == path;
            let j = choose|j: int|
                0 <= j < seg.len() && i == self.slots_below(k).len() + j && #[trigger] seg[j]
                    == self@.slots[i];
            assert(wanted_on_path(seg[j], family, path));
        }
        if path_opens(self@, family, needle, path) {
            let i = choose|i: int| #[trigger]
                eligible(self@, family, i) && self@.slots[i].path == path && has_prefix(
                    self@.slots[i],
                    needle,
                );
            let j = choose|j: int|
                0 <= j < seg.len() && i == self.slots_below(k).len() + j && #[trigger] seg[j]
                    == self@.slots[i];
            assert(wanted_on_path(seg[j], family, path));
        }
        if exists|j: int| 0 <= j < seg.len() && wanted_on_path(#[trigger] seg[j], family, path) {
            let j = choose|j: int|
                0 <= j < seg.len() && wanted_on_path(#[trigger] seg[j], family, path);
            assert(eligible(self@, family, self.slots_below(k).len() + j));
        }
        if exists|j: int|
            0 <= j < seg.len() && wanted_on_path(#[trigger] seg[j], family, path) && has_prefix(
                seg[j],
                needle,
            ) {
            let j = choose|j: int|
                0 <= j < seg.len() && wanted_on_path(#[trigger] seg[j], family, path)
                    && has_prefix(seg[j], needle);
            assert(eligible(self@, family, self.slots_below(k).len() + j));
        }
    }

    /// Probe the paths of `list`, asking for cancellation before every block of
    /// probes; `false` when the request was cancelled.
    pub fn probe_all<C: CompletionQueryCancellation>(
        &self,
        family: Option<SemanticFamily>,
        needle: &[u8],
        list: &Vec<String>,
        state: &mut ProbingState,
        max_probes: usize,
        max_tried: usize,
        cancellation: Option<&C>,
        metrics: &mut RecallScanMetrics,
    ) -> (ok: bool)
        requires
            self.wf(),
            old(state).next == 0,
            old(state).tried <= old(state).probes,
            old(state).opened <= old(state).tried,
            !old(metrics).cancelled,
            old(metrics).heard(cancellation),
        ensures
            final(metrics).heard(cancellation),
            final(metrics).same_sources(*old(metrics)),
            final(metrics).entries_inspected == old(metrics).entries_inspected,
            final(metrics).prefix_entries_inspected == old(metrics).prefix_entries_inspected,
            final(metrics).selection_entries_inspected == old(metrics).selection_entries_inspected,
            final(state).tried <= final(state).probes,
            final(state).opened <= final(state).tried,
            !ok ==> final(metrics).cancelled && cancellation is Some && final(metrics).answers@.len()
                == old(metrics).answers@.len() + blocks(final(state).probes as int) - blocks(
                old(state).probes as int,
            ) + 1,
            final(state).probes >= old(state).probes,
            ok ==> !final(metrics).cancelled,
            ok ==> final(state)@ == probed(
                self@,
                family,
                needle@,
                texts(list@),
                old(state)@,
                max_probes as int,
                max_tried as int,
            ),
            ok ==> final(metrics).answers@.len() == old(metrics).answers@.len() + checks_if(
                    cancellation,
                    blocks(final(state).probes as int) - blocks(old(state).probes as int),
                ),
    {
        let ghost all = texts(list@);
        let ghost asked = metrics.answers@.len() as int;
        let ghost first = state.probes as int;
        while state.next < list.len() && state.probes < max_probes && state.tried < max_tried
            invariant
                self.wf(),
                all == texts(list@),
                state.next <= list@.len(),
                state.tried <= state.probes,
                state.opened <= state.tried,
                metrics.entries_inspected == old(metrics).entries_inspected,
                metrics.prefix_entries_inspected == old(metrics).prefix_entries_inspected,
                metrics.selection_entries_inspected == old(metrics).selection_entries_inspected,
                !metrics.cancelled,
                metrics.heard(cancellation),
                metrics.same_sources(*old(metrics)),
                asked == old(metrics).answers@.len(),
                first == old(state).probes,
                first <= state.probes,
                0 <= first,
                0 <= asked,
                metrics.answers@.len() == asked + checks_if(
                    cancellation,
                    blocks(state.probes as int) - blocks(first),
                ),
                probed(
                    self@,
                    family,
                    needle@,
                    all,
                    old(state)@,
                    max_probes as int,
                    max_tried as int,
                ) == probed(
                    self@,
                    family,
                    needle@,
                    all,
                    state@,
                    max_probes as int,
                    max_tried as int,
                ),
            decreases list@.len() - state.next,
        {
            if state.probes % COMPLETION_CANCELLATION_CHECK_INTERVAL == 0 {
                if metrics.check(cancellation) {
                    return false;
                }
            }
            let ghost before = state@;
            let path = list[state.next].as_str();
            assert(all[state.next as int] == path@);
            let fresh = !state.attempts.contains(path);
            state.probes = state.probes + 1;
            state.next = state.next + 1;
            if fresh {
                let (known, opens) = self.probe(path, family, needle);
                if known {
                    state.tried = state.tried + 1;
                    insert_path(&mut state.attempts, path);
                    if opens {
                        state.opened = state.opened + 1;
                        insert_path(&mut state.open, path);
                    } else {
                        assert(state.open@ == before.open);
                    }
                }
                proof {
                    if opens {
                        opens_is_known(self@, family, needle@, path@);
                    }
                }
            }
            assert(state@ == probed_path(self@, family, needle@, before, path@));
        }
        true
    }
}

fn insert_path(set: &mut PathSet, path: &str)
    ensures
        final(set)@ == old(set)@.insert(path@),
{
    set.insert(path);
}

proof fn opens_is_known(
    t: Table,
    family: Option<SemanticFamily>,
    needle: Seq<u8>,
    path: Seq<char>,
)
    requires
        path_opens(t, family, needle, path),
    ensures
        path_known(t, family, path),
{
    let i = choose|i: int| #[trigger]
        eligible(t, family, i) && t.slots[i].path == path && has_prefix(t.slots[i], needle);
    assert(eligible(t, family, i));
}

/// A declaration of a family on a path.
pub open spec fn on_path(
    n: Name,
    family: SemanticFamily,
    path: Seq<char>,
) -> bool {
    n.family == family && n.path == path
}

/// A declaration of the wanted family on a path.
pub open spec fn wanted_on_path(
    n: Name,
    family: Option<SemanticFamily>,
    path: Seq<char>,
) -> bool {
    (family is None || family == Some(n.family)) && n.path == path
}

// ---------------------------------------------------------------------------
// Paths to probe

/// The files that a scope knows: the current one, those it reaches, and the
/// external headers it names.
pub open spec fn scope_list(scope: Option<&CompletionScope>) -> Seq<Seq<char>> {
    match scope {
        Some(s) => (match s.current_path {
            Some(path) => seq![path@],
            None => Seq::empty(),
        }) + s.reach.files.listed() + s.direct_external_files.listed(),
        None => Seq::empty(),
    }
}

/// The paths of pairs.
pub open spec fn pair_texts(seg: NameSegment, pairs: Seq<CompactPrefixPathPair>) -> Seq<Seq<char>> {
    Seq::new(pairs.len(), |i: int| seg.paths@[pairs[i].path_id as int])
}

/// The paths of one family of a segment whose names can start with a prefix.
pub open spec fn prefix_texts(
    part: IndexedSegment,
    family: SemanticFamily,
    needle: Seq<u8>,
) -> Seq<Seq<char>> {
    pair_texts(part.names, part.index.spec_family(family).prefix_paths.spec_paths(needle))
}

pub open spec fn wanted_prefix_texts(
    part: IndexedSegment,
    family: Option<SemanticFamily>,
    needle: Seq<u8>,
) -> Seq<Seq<char>> {
    match family {
        Some(f) => prefix_texts(part, f, needle),
        None => prefix_texts(part, SemanticFamily::CFamily, needle) + prefix_texts(
            part,
            SemanticFamily::Go,
            needle,
        ),
    }
}

/// The paths of the first `k` segments whose names can start with a prefix.
pub open spec fn recovery_below(
    t: NameTable,
    family: Option<SemanticFamily>,
    needle: Seq<u8>,
    k: int,
) -> Seq<Seq<char>>
    decreases k,
{
    if k <= 0 {
        Seq::empty()
    } else {
        recovery_below(t, family, needle, k - 1) + wanted_prefix_texts(
            t.indexed(k - 1),
            family,
            needle,
        )
    }
}

/// Where paths were replaced, the paths that may still declare a name with a
/// prefix.
pub open spec fn recovery_list(
    t: NameTable,
    family: Option<SemanticFamily>,
    needle: Seq<u8>,
) -> Seq<Seq<char>> {
    if t.path_overrides.keys@.len() == 0 {
        Seq::empty()
    } else {
        recovery_below(t, family, needle, t.segments())
    }
}

/// The paths of a project in one family of a segment whose names can start with
/// a prefix.
pub open spec fn owned_texts(
    part: IndexedSegment,
    family: SemanticFamily,
    key: Key,
    needle: Seq<u8>,
) -> Seq<Seq<char>> {
    match project_from(part.names.projects@, key, 0) {
        Some(id) => {
            let postings = part.index.spec_family(family).prefix_paths;
            let positions = postings.spec_project_positions(id as u32, needle);
            Seq::new(
                positions.len(),
                |i: int| part.names.paths@[postings.pairs@[positions[i] as int].path_id as int],
            )
        },
        None => Seq::empty(),
    }
}

pub open spec fn wanted_owned_texts(
    part: IndexedSegment,
    family: Option<SemanticFamily>,
    key: Key,
    needle: Seq<u8>,
) -> Seq<Seq<char>> {
    match family {
        Some(f) => owned_texts(part, f, key, needle),
        None => owned_texts(part, SemanticFamily::CFamily, key, needle) + owned_texts(
            part,
            SemanticFamily::Go,
            key,
            needle,
        ),
    }
}

/// The paths of a project in the first `k` segments.
pub open spec fn owned_below(
    t: NameTable,
    family: Option<SemanticFamily>,
    key: Key,
    needle: Seq<u8>,
    k: int,
) -> Seq<Seq<char>>
    decreases k,
{
    if k <= 0 {
        Seq::empty()
    } else {
        owned_below(t, family, key, needle, k - 1) + wanted_owned_texts(
            t.indexed(k - 1),
            family,
            key,
            needle,
        )
    }
}

/// The paths that a bounded recall probes: for its visible share and for the
/// share of the active project.
pub struct ProbeLists {
    pub visible: Seq<Seq<char>>,
    pub owned: Seq<Seq<char>>,
}

pub open spec fn probe_lists(
    t: NameTable,
    scope: Option<&CompletionScope>,
    project: Option<Key>,
    family: Option<SemanticFamily>,
    needle: Seq<u8>,
) -> ProbeLists {
    ProbeLists {
        visible: scope_list(scope) + recovery_list(t, family, needle),
        owned: match project {
            Some(key) => owned_below(t, family, key, needle, t.segments()),
            None => Seq::empty(),
        },
    }
}

fn push_copy(out: &mut Vec<String>, path: &str)
    ensures
        texts(final(out)@) == texts(old(out)@).push(path@),
{
    let ghost before = texts(out@);
    out.push(path.to_owned());
    assert(texts(out@) =~= before.push(path@));
}

fn push_listed(out: &mut Vec<String>, set: &PathSet)
    ensures
        texts(final(out)@) == texts(old(out)@) + set.listed(),
{
    let ghost before = texts(out@);
    let mut i: usize = 0;
    assert(before + set.listed().subrange(0, 0) =~= before);
    while i < set.len()
        invariant
            i <= set.listed().len(),
            texts(out@) == before + set.listed().subrange(0, i as int),
        decreases set.listed().len() - i,
    {
        push_copy(out, set.path_at(i));
        i = i + 1;
        assert(texts(out@) =~= before + set.listed().subrange(0, i as int));
    }
    assert(set.listed().subrange(0, i as int) =~= set.listed());
}

fn push_scope(out: &mut Vec<String>, scope: Option<&CompletionScope>)
    ensures
        texts(final(out)@) == texts(old(out)@) + scope_list(scope),
{
    let ghost before = texts(out@);
    match scope {
        Some(s) => {
            match &s.current_path {
                Some(path) => {
                    push_copy(out, path.as_str());
                },
                None => {},
            }
            push_listed(out, &s.reach.files);
            push_listed(out, &s.direct_external_files);
            assert(texts(out@) =~= before + scope_list(scope));
        },
        None => {
            assert(texts(out@) =~= before + scope_list(scope));
        },
    }
}

proof fn rows_in_range(seg: NameSegment, family: SemanticFamily, n: int, k: int)
    requires
        seg.wf(),
        0 <= n <= seg.entries@.len(),
        0 <= k < prefix_rows(seg, family, n).len(),
    ensures
        prefix_rows(seg, family, n)[k].path_id < seg.paths@.len(),
    decreases n,
{
    if n > 0 {
        let before = prefix_rows(seg, family, n - 1);
        assert(seg.entry_wf(seg.entries@[n - 1]));
        if k < before.len() {
            rows_in_range(seg, family, n - 1, k);
        }
    }
}

proof fn pairs_in_range(part: IndexedSegment, family: SemanticFamily, i: int)
    requires
        part.names.wf(),
        part.index.describes(part.names),
        0 <= i < part.index.spec_family(family).prefix_paths.pairs@.len(),
    ensures
        part.index.spec_family(family).prefix_paths.pairs@[i].path_id < part.names.paths@.len(),
{
    let postings = part.index.spec_family(family).prefix_paths;
    let seg = part.names;
    let rows = prefix_rows(seg, family, seg.entries@.len() as int);
    assert(part.index.spec_family(family).describes(seg, family));
    let pair = postings.pairs@[i];
    assert(postings.pairs@.contains(pair));
    assert(declares(rows, rows.len() as int, pair));
    let k = choose|k: int| 0 <= k < rows.len() && (#[trigger] rows[k]).pair() == pair;
    rows_in_range(seg, family, seg.entries@.len() as int, k);
}

fn push_prefix_texts(
    out: &mut Vec<String>,
    part: &IndexedSegment,
    family: SemanticFamily,
    needle: &[u8],
)
    requires
        part.names.wf(),
        part.index.describes(part.names),
    ensures
        texts(final(out)@) == texts(old(out)@) + prefix_texts(
            *part,
            family,
            needle@,
        ),
{
    let ghost before = texts(out@);
    let ghost want = prefix_texts(*part, family, needle@);
    let index = part.index.family(family);
    assert(index.describes(part.names, family));
    let pairs = index.prefix_paths.paths_for_prefix(needle);
    let mut i: usize = 0;
    assert(before + want.subrange(0, 0) =~= before);
    while i < pairs.len()
        invariant
            i <= pairs@.len(),
            part.names.wf(),
            part.index.describes(part.names),
            *index == part.index.spec_family(family),
            index.prefix_paths.wf(),
            pairs@ == index.prefix_paths.spec_paths(needle@),
            want == prefix_texts(*part, family, needle@),
            texts(out@) == before + want.subrange(0, i as int),
        decreases pairs@.len() - i,
    {
        proof {
            paths_are_pairs(*index, needle@, i as int);
            let at = choose|at: int|
                0 <= at < index.prefix_paths.pairs@.len() && index.prefix_paths.pairs@[at]
                    == pairs@[i as int];
            pairs_in_range(*part, family, at);
        }
        push_copy(out, part.names.paths.get(pairs[i].path_id as usize));
        i = i + 1;
        assert(texts(out@) =~= before + want.subrange(0, i as int));
    }
    assert(want.subrange(0, i as int) =~= want);
}

proof fn paths_are_pairs(index: FamilyIndex, needle: Seq<u8>, i: int)
    requires
        index.prefix_paths.wf(),
        0 <= i < index.prefix_paths.spec_paths(needle).len(),
    ensures
        exists|at: int|
            0 <= at < index.prefix_paths.pairs@.len() && index.prefix_paths.pairs@[at]
                == index.prefix_paths.spec_paths(needle)[i],
{
    index.prefix_paths.paths_in_range(needle);
    let low = reaching(
        index.prefix_paths.pairs@,
        head_token(needle)->0 as int,
        0,
    );
    assert(index.prefix_paths.pairs@[low + i] == index.prefix_paths.spec_paths(needle)[i]);
}

fn push_owned_texts(
    out: &mut Vec<String>,
    part: &IndexedSegment,
    family: SemanticFamily,
    key: &ProjectKey,
    needle: &[u8],
)
    requires
        part.names.wf(),
        part.index.describes(part.names),
    ensures
        texts(final(out)@) == texts(old(out)@) + owned_texts(
            *part,
            family,
            key@,
            needle@,
        ),
{
    let ghost before = texts(out@);
    let ghost want = owned_texts(*part, family, key@, needle@);
    let id: u32 = match part.names.project_id(key) {
        Some(id) => id,
        None => {
            assert(texts(out@) =~= before + want);
            return;
        },
    };
    let index = part.index.family(family);
    assert(index.describes(part.names, family));
    let positions = index.prefix_paths.project_positions_for_prefix(id, needle);
    let mut i: usize = 0;
    assert(before + want.subrange(0, 0) =~= before);
    while i < positions.len()
        invariant
            i <= positions@.len(),
            part.names.wf(),
            part.index.describes(part.names),
            *index == part.index.spec_family(family),
            index.prefix_paths.wf(),
            positions@ == index.prefix_paths.spec_project_positions(id, needle@),
            project_from(part.names.projects@, key@, 0) == Some(id as int),
            want == owned_texts(*part, family, key@, needle@),
            want.len() == positions@.len(),
            texts(out@) == before + want.subrange(0, i as int),
        decreases positions@.len() - i,
    {
        proof {
            index.prefix_paths.project_positions_in_range(id, needle@, i as int);
            pairs_in_range(*part, family, positions@[i as int] as int);
        }
        let pair = index.prefix_paths.pairs[positions[i] as usize];
        push_copy(out, part.names.paths.get(pair.path_id as usize));
        i = i + 1;
        assert(texts(out@) =~= before + want.subrange(0, i as int));
    }
    assert(want.subrange(0, i as int) =~= want);
}

impl NameTable {
    fn indexed_at(&self, k: usize) -> (r: &IndexedSegment)
        requires
            self.wf(),
            k < self.segments(),
        ensures
            *r == self.indexed(k as int),
            r.names.wf(),
            r.index.describes(r.names),
    {
        assert(self.segment(k as int).wf());
        assert(self.indexed(k as int).index.describes(self.indexed(k as int).names));
        if k == 0 {
            &self.base
        } else {
            &self.deltas[k - 1]
        }
    }

    /// The paths to probe for the visible share.
    pub fn visible_paths(
        &self,
        scope: Option<&CompletionScope>,
        family: Option<SemanticFamily>,
        needle: &[u8],
    ) -> (r: Vec<String>)
        requires
            self.wf(),
        ensures
            texts(r@) == scope_list(scope) + recovery_list(*self, family, needle@),
    {
        let mut out: Vec<String> = Vec::new();
        push_scope(&mut out, scope);
        let ghost scoped = scope_list(scope);
        assert(texts(out@) =~= scoped);
        if self.path_overrides.is_empty() {
            assert(texts(out@) =~= scoped + recovery_list(*self, family, needle@));
            return out;
        }
        let last: usize = self.deltas.len();
        let mut k: usize = 0;
        let mut more = true;
        assert(scoped + recovery_below(*self, family, needle@, 0) =~= scoped);
        while more
            invariant
                self.wf(),
                last == self.deltas@.len(),
                k <= last,
                !more ==> k == last,
                texts(out@) == scoped + recovery_below(
                    *self,
                    family,
                    needle@,
                    if more {
                        k as int
                    } else {
                        k + 1
                    },
                ),
            decreases last - k + if more {
                1int
            } else {
                0int
            },
        {
            let part = self.indexed_at(k);
            let ghost before = texts(out@);
            match family {
                Some(f) => {
                    push_prefix_texts(&mut out, part, f, needle);
                },
                None => {
                    push_prefix_texts(&mut out, part, SemanticFamily::CFamily, needle);
                    push_prefix_texts(&mut out, part, SemanticFamily::Go, needle);
                },
            }
            proof {
                let step = wanted_prefix_texts(self.indexed(k as int), family, needle@);
                assert(texts(out@) =~= before + step);
                assert(scoped + recovery_below(*self, family, needle@, k + 1) =~= scoped
                    + recovery_below(*self, family, needle@, k as int) + step);
            }
            if k == last {
                more = false;
            } else {
                k = k + 1;
            }
        }
        out
    }

    /// The paths to probe for the share of a project.
    pub fn owned_paths(
        &self,
        key: &ProjectKey,
        family: Option<SemanticFamily>,
        needle: &[u8],
    ) -> (r: Vec<String>)
        requires
            self.wf(),
        ensures
            texts(r@) == owned_below(
                *self,
                family,
                key@,
                needle@,
                self.segments(),
            ),
    {
        let mut out: Vec<String> = Vec::new();
        let last: usize = self.deltas.len();
        let mut k: usize = 0;
        let mut more = true;
        assert(texts(out@) =~= owned_below(*self, family, key@, needle@, 0));
        while more
            invariant
                self.wf(),
                last == self.deltas@.len(),
                k <= last,
                !more ==> k == last,
                texts(out@) == owned_below(
                    *self,
                    family,
                    key@,
                    needle@,
                    if more {
                        k as int
                    } else {
                        k + 1
                    },
                ),
            decreases last - k + if more {
                1int
            } else {
                0int
            },
        {
            let part = self.indexed_at(k);
            let ghost before = texts(out@);
            match family {
                Some(f) => {
                    push_owned_texts(&mut out, part, f, key, needle);
                },
                None => {
                    push_owned_texts(&mut out, part, SemanticFamily::CFamily, key, needle);
                    push_owned_texts(&mut out, part, SemanticFamily::Go, key, needle);
                },
            }
            proof {
                let step = wanted_owned_texts(self.indexed(k as int), family, key@, needle@);
                assert(texts(out@) =~= before + step);
            }
            if k == last {
                more = false;
            } else {
                k = k + 1;
            }
        }
        out
    }
}

} // verus!
