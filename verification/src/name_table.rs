//! The segmented name table: an immutable base, small changed-file segments on
//! top of it, and for each changed path the segment that counts.

use std::sync::Arc;

use vstd::prelude::*;

use crate::facts::{
    kind_named, kind_of_declaration, parser_kind_from_declaration_kind, parser_kind_from_str,
    role_of_declaration, symbol_role_from_declaration_role, SemanticDeclarationKind,
    SemanticDeclarationRole, SemanticFamily, SymbolRole,
};
use crate::name_segment::{
    entry_views, external_on_path, Name, NameEntry, NameEntryRef, NameSegment, NO_PROJECT_ID,
};
use crate::path_map::PathMap;
use crate::project_context::{opt_key, ProjectContextIndex, ProjectKey};
use crate::reach::{PathSet, ReachScope};
use crate::segment_index::IndexedSegment;

verus! {

/// `Arc::clone`: another pointer to the same value.
#[verifier::external_body]
pub(crate) fn share<T>(value: &Arc<T>) -> (r: Arc<T>)
    ensures
        r == *value,
{
    Arc::clone(value)
}

/// The table of a workspace.
pub struct NameTable {
    pub base: Arc<IndexedSegment>,
    pub deltas: Vec<Arc<IndexedSegment>>,
    /// For each changed path the delta that holds it, `None` where its
    /// declarations are gone.
    pub path_overrides: PathMap<Option<usize>>,
    pub delta_offsets: Vec<usize>,
    pub active_len: usize,
    pub slot_len: usize,
    /// Request-local evidence on first-layer external headers.
    pub direct_include_overrides: PathMap<bool>,
    /// A closed scope that reaches every workspace file.
    pub all_workspace_reach: Arc<ReachScope>,
}

/// A table as sequences: all slots, which of them are active, where segments
/// start, and the evidence on paths.
pub struct Table {
    pub slots: Seq<Name>,
    pub active: Seq<bool>,
    pub starts: Seq<int>,
    pub direct: Map<Seq<char>, bool>,
    pub workspace: Set<Seq<char>>,
}

/// Number of true values among the first `n`.
pub open spec fn count_true(s: Seq<bool>, n: int) -> nat
    decreases n,
{
    if n <= 0 {
        0
    } else {
        count_true(s, n - 1) + if s[n - 1] {
            1nat
        } else {
            0nat
        }
    }
}

pub proof fn count_true_fits(s: Seq<bool>, n: int)
    requires
        0 <= n,
    ensures
        count_true(s, n) <= n,
    decreases n,
{
    if n > 0 {
        count_true_fits(s, n - 1);
    }
}

impl Table {
    pub open spec fn is_active(self, i: int) -> bool {
        0 <= i < self.slots.len() && self.active[i]
    }

    /// Whether a name stands in a first-layer external header.
    pub open spec fn direct_for(self, n: Name) -> bool {
        n.external && if self.direct.contains_key(n.path) {
            self.direct[n.path]
        } else {
            n.directly_included
        }
    }

    /// The active names among the first `n` slots.
    pub open spec fn names_below(self, n: int) -> Seq<Name>
        decreases n,
    {
        if n <= 0 {
            Seq::empty()
        } else if self.active[n - 1] {
            self.names_below(n - 1).push(self.slots[n - 1])
        } else {
            self.names_below(n - 1)
        }
    }

    /// The active names.
    pub open spec fn names(self) -> Seq<Name> {
        self.names_below(self.slots.len() as int)
    }
}

/// Paths with a workspace declaration.
pub open spec fn workspace_paths(names: Seq<Name>) -> Set<Seq<char>> {
    Set::new(|p: Seq<char>| exists|i: int| 0 <= i < names.len() && has_workspace(#[trigger] names[i], p))
}

pub open spec fn has_workspace(n: Name, p: Seq<char>) -> bool {
    n.path == p && !n.external
}

/// A table of one segment, all of it active.
pub open spec fn fresh_table(names: Seq<Name>, direct: Map<Seq<char>, bool>) -> Table {
    Table {
        slots: names,
        active: Seq::new(names.len(), |i: int| true),
        starts: seq![0int],
        direct,
        workspace: workspace_paths(names),
    }
}

/// The table after the declarations of `paths` were replaced by `fresh`. Fresh
/// declarations of other paths stay inactive.
pub open spec fn updated(t: Table, paths: Set<Seq<char>>, fresh: Seq<Name>) -> Table {
    Table {
        slots: t.slots + fresh,
        active: Seq::new(
            (t.slots.len() + fresh.len()) as nat,
            |i: int|
                if i < t.slots.len() {
                    t.active[i] && !paths.contains(t.slots[i].path)
                } else {
                    paths.contains(fresh[i - t.slots.len()].path)
                },
        ),
        starts: t.starts.push(t.slots.len() as int),
        direct: t.direct,
        workspace: t.workspace.difference(paths).union(workspace_paths(fresh)),
    }
}

impl NameTable {
    pub open spec fn indexed(self, k: int) -> IndexedSegment {
        if k == 0 {
            *self.base
        } else {
            *self.deltas@[k - 1]
        }
    }

    pub open spec fn segment(self, k: int) -> NameSegment {
        self.indexed(k).names
    }

    /// The slots of the first `k` segments.
    pub open spec fn slots_below(self, k: int) -> Seq<Name>
        decreases k,
    {
        if k <= 0 {
            Seq::empty()
        } else {
            self.slots_below(k - 1) + self.segment(k - 1)@
        }
    }

    /// Whether the declarations of `path` in segment `k` count.
    pub open spec fn counts(self, k: int, path: Seq<char>) -> bool {
        if self.path_overrides@.contains_key(path) {
            match self.path_overrides@[path] {
                Some(d) => k == d + 1,
                None => false,
            }
        } else {
            k == 0
        }
    }

    pub open spec fn actives_of(self, k: int) -> Seq<bool> {
        Seq::new(self.segment(k)@.len(), |j: int| self.counts(k, self.segment(k)@[j].path))
    }

    pub open spec fn actives_below(self, k: int) -> Seq<bool>
        decreases k,
    {
        if k <= 0 {
            Seq::empty()
        } else {
            self.actives_below(k - 1) + self.actives_of(k - 1)
        }
    }

    pub open spec fn segments(self) -> int {
        self.deltas@.len() as int + 1
    }

    /// Segments, offsets and overrides fit together.
    pub open spec fn laid_out(self) -> bool {
        &&& forall|k: int| 0 <= k < self.segments() ==> (#[trigger] self.segment(k)).wf()
        &&& forall|k: int|
            0 <= k < self.segments() ==> (#[trigger] self.indexed(k)).index.describes(
                self.indexed(k).names,
            )
        &&& self.delta_offsets@.len() == self.deltas@.len()
        &&& forall|k: int|
            0 <= k < self.deltas@.len() ==> #[trigger] self.delta_offsets@[k] == self.slots_below(
                k + 1,
            ).len()
        &&& self.slot_len == self.slots_below(self.segments()).len()
        &&& self.path_overrides.wf()
        &&& self.direct_include_overrides.wf()
        &&& forall|p: Seq<char>|
            self.path_overrides@.contains_key(p) && self.path_overrides@[p] is Some
                ==> (#[trigger] self.path_overrides@[p])->0 < self.deltas@.len()
        &&& !self.all_workspace_reach.open
        &&& self.all_workspace_reach.heuristic_files@ == Set::<Seq<char>>::empty()
    }

    pub open spec fn wf(self) -> bool {
        self.laid_out() && self.active_len == count_true(self@.active, self.slot_len as int)
    }
}

impl View for NameTable {
    type V = Table;

    open spec fn view(&self) -> Table {
        Table {
            slots: self.slots_below(self.segments()),
            active: self.actives_below(self.segments()),
            starts: Seq::new(self.segments() as nat, |k: int| self.slots_below(k).len() as int),
            direct: self.direct_include_overrides@,
            workspace: self.all_workspace_reach.files@,
        }
    }
}

pub proof fn slots_monotone(t: NameTable, a: int, b: int)
    requires
        0 <= a <= b,
    ensures
        t.slots_below(a).len() <= t.slots_below(b).len(),
        t.actives_below(b).len() == t.slots_below(b).len(),
    decreases b,
{
    if b > 0 {
        if a < b {
            slots_monotone(t, a, b - 1);
        } else {
            slots_monotone(t, b - 1, b - 1);
        }
    }
}

pub proof fn base_slots(t: NameTable)
    ensures
        t.slots_below(0) == Seq::<Name>::empty(),
        t.slots_below(1) == t.segment(0)@,
{
    assert(t.slots_below(0) =~= Seq::<Name>::empty());
    assert(t.slots_below(1) =~= t.segment(0)@);
}

pub proof fn slot_in_segment(t: NameTable, k: int, j: int, n: int)
    requires
        0 <= k < n,
        0 <= j < t.segment(k)@.len(),
    ensures
        t.slots_below(k).len() + j < t.slots_below(n).len(),
        t.slots_below(n)[t.slots_below(k).len() + j] == t.segment(k)@[j],
        t.actives_below(n)[t.slots_below(k).len() + j] == t.counts(k, t.segment(k)@[j].path),
    decreases n,
{
    slots_monotone(t, k, n - 1);
    slots_monotone(t, k, k);
    if k < n - 1 {
        slot_in_segment(t, k, j, n - 1);
    } else {
        assert(t.actives_of(k)[j] == t.counts(k, t.segment(k)@[j].path));
    }
}

impl NameTable {
    /// The segment and the place within it that a slot stands for.
    fn locate(&self, index: usize) -> (r: (usize, usize))
        requires
            self.laid_out(),
            index < self@.slots.len(),
        ensures
            r.0 < self.segments(),
            r.1 < self.segment(r.0 as int)@.len(),
            self.segment(r.0 as int).wf(),
            index == self.slots_below(r.0 as int).len() + r.1,
            self@.slots[index as int] == self.segment(r.0 as int)@[r.1 as int],
            self@.active[index as int] == self.counts(
                r.0 as int,
                self@.slots[index as int].path,
            ),
    {
        proof {
            assert(self.segment(0).wf());
            base_slots(*self);
        }
        if index < self.base.names.entries.len() {
            proof {
                slot_in_segment(*self, 0, index as int, self.segments());
            }
            return (0, index);
        }
        let mut d: usize = self.deltas.len();
        while d > 0 && self.delta_offsets[d - 1] > index
            invariant
                self.laid_out(),
                d <= self.deltas@.len(),
                index < self.slots_below(d + 1).len(),
                self.slots_below(1).len() <= index,
            decreases d,
        {
            assert(self.delta_offsets@[d - 1] == self.slots_below(d as int).len());
            d = d - 1;
        }
        assert(d > 0);
        let local: usize = index - self.delta_offsets[d - 1];
        proof {
            assert(self.delta_offsets@[d - 1] == self.slots_below(d as int).len());
            assert(self.slots_below(d + 1) == self.slots_below(d as int) + self.segment(
                d as int,
            )@);
            assert(self.segment(d as int).wf());
            slot_in_segment(*self, d as int, local as int, self.segments());
        }
        (d, local)
    }

    pub fn entry<'a>(&'a self, index: usize) -> (r: NameEntryRef<'a>)
        requires
            self.laid_out(),
            index < self@.slots.len(),
        ensures
            r@ == self@.slots[index as int],
            r.wf(),
    {
        let (k, local) = self.locate(index);
        if k == 0 {
            self.base.names.entry(local)
        } else {
            self.deltas[k - 1].names.entry(local)
        }
    }

    /// The segment of a slot, counted from the base.
    pub fn segment_for_index(&self, index: usize) -> (r: usize)
        requires
            self.laid_out(),
            index < self@.slots.len(),
        ensures
            r < self@.starts.len(),
            self@.starts[r as int] <= index,
            r + 1 < self@.starts.len() ==> index < self@.starts[r + 1],
    {
        let (k, _) = self.locate(index);
        assert(self.slots_below(k + 1) == self.slots_below(k as int) + self.segment(k as int)@);
        k
    }

    pub fn is_active_index(&self, index: usize) -> (r: bool)
        requires
            self.laid_out(),
            index < self@.slots.len(),
        ensures
            r == self@.active[index as int],
    {
        let (k, local) = self.locate(index);
        let path = if k == 0 {
            self.base.names.entry(local).path
        } else {
            self.deltas[k - 1].names.entry(local).path
        };
        match self.path_overrides.get(path) {
            None => k == 0,
            Some(Some(d)) => k > 0 && k - 1 == d,
            Some(None) => false,
        }
    }

    pub fn len(&self) -> (r: usize)
        requires
            self.wf(),
        ensures
            r == count_true(self@.active, self@.slots.len() as int),
    {
        self.active_len
    }

    pub fn delta_segment_count(&self) -> (r: usize)
        ensures
            r == self@.starts.len() - 1,
    {
        self.deltas.len()
    }

    /// Whether so much has changed that the table should be rebuilt.
    pub open spec fn spec_needs_compaction(self) -> bool {
        self@.starts.len() > 64 || self@.slots.len() - self.segment(0)@.len() > self.segment(
            0,
        )@.len() / 4
    }

    pub fn needs_compaction(&self) -> (r: bool)
        requires
            self.wf(),
        ensures
            r == self.spec_needs_compaction(),
    {
        proof {
            base_slots(*self);
            slots_monotone(*self, 1, self.segments());
        }
        self.deltas.len() >= 64 || self.slot_len - self.base.names.entries.len()
            > self.base.names.entries.len() / 4
    }

    pub fn directly_included_for(&self, entry: &NameEntryRef) -> (r: bool)
        requires
            self.wf(),
        ensures
            r == self@.direct_for(entry@),
    {
        if !entry.external {
            return false;
        }
        match self.direct_include_overrides.get(entry.path) {
            Some(included) => included,
            None => entry.directly_included,
        }
    }
}

// ---------------------------------------------------------------------------
// Building

pub fn workspace_reach(segment: &NameSegment) -> (r: PathSet)
    requires
        segment.wf(),
    ensures
        r@ == workspace_paths(segment@),
{
    let mut files = PathSet::new();
    let mut p: usize = 0;
    while p < segment.paths.len()
        invariant
            segment.wf(),
            p <= segment.paths@.len(),
            forall|q: Seq<char>|
                files@.contains(q) <==> exists|k: int|
                    0 <= k < p && #[trigger] segment.paths@[k] == q
                        && !segment.path_is_external@[k],
        decreases segment.paths@.len() - p,
    {
        let ghost before = files@;
        if !segment.path_is_external[p] {
            files.insert(segment.paths.get(p));
        }
        proof {
            let now = files@;
            assert forall|q: Seq<char>| now.contains(q) <==> exists|k: int|
                0 <= k < p + 1 && #[trigger] segment.paths@[k] == q && !segment.path_is_external@[k] by {
                if now.contains(q) {
                    if before.contains(q) {
                        let k = choose|k: int|
                            0 <= k < p && #[trigger] segment.paths@[k] == q
                                && !segment.path_is_external@[k];
                        assert(segment.paths@[k] == q);
                    } else {
                        assert(segment.paths@[p as int] == q);
                    }
                }
                if exists|k: int|
                    0 <= k < p + 1 && #[trigger] segment.paths@[k] == q
                        && !segment.path_is_external@[k] {
                    let k = choose|k: int|
                        0 <= k < p + 1 && #[trigger] segment.paths@[k] == q
                            && !segment.path_is_external@[k];
                    if k < p {
                        assert(segment.paths@[k] == q);
                        assert(before.contains(q));
                    }
                }
            }
        }
        p = p + 1;
    }
    proof {
        let names = segment@;
        assert forall|q: Seq<char>| files@.contains(q) <==> workspace_paths(names).contains(q) by {
            if files@.contains(q) {
                let k = choose|k: int|
                    0 <= k < p && #[trigger] segment.paths@[k] == q && !segment.path_is_external@[k];
                assert(segment.path_is_external@[k] == external_on_path(
                    segment.entries@,
                    k,
                    segment.entries@.len() as int,
                ));
                let i = choose|i: int|
                    0 <= i < segment.entries@.len() && (#[trigger] segment.entries@[i]).path_id == k
                        && !segment.entries@[i].flags.is_external();
                assert(has_workspace(names[i], q));
            }
            if workspace_paths(names).contains(q) {
                let i = choose|i: int| 0 <= i < names.len() && has_workspace(#[trigger] names[i], q);
                let e = segment.entries@[i];
                assert(segment.entry_wf(e));
                let k = e.path_id as int;
                assert(segment.paths@[k] == q);
                assert(segment.path_is_external@[k] == external_on_path(
                    segment.entries@,
                    k,
                    segment.entries@.len() as int,
                ));
            }
        }
        assert(files@ =~= workspace_paths(names));
    }
    files
}

pub proof fn all_true(s: Seq<bool>, n: int)
    requires
        0 <= n <= s.len(),
        forall|i: int| 0 <= i < n ==> s[i],
    ensures
        count_true(s, n) == n,
    decreases n,
{
    if n > 0 {
        all_true(s, n - 1);
    }
}

impl NameTable {
    pub fn from_base_segment(base: NameSegment) -> (r: NameTable)
        requires
            base.wf(),
        ensures
            r.wf(),
            r@ == fresh_table(base@, Map::empty()),
    {
        let files = workspace_reach(&base);
        let len: usize = base.entries.len();
        let r = NameTable {
            base: Arc::new(IndexedSegment::new(base)),
            deltas: Vec::new(),
            path_overrides: PathMap::new(),
            delta_offsets: Vec::new(),
            active_len: len,
            slot_len: len,
            direct_include_overrides: PathMap::new(),
            all_workspace_reach: Arc::new(
                ReachScope {
                    files,
                    heuristic_files: PathSet::new(),
                    open: false,
                    reason: None,
                },
            ),
        };
        proof {
            assert(r.segment(0) == base);
            assert(r.slots_below(0) =~= Seq::empty());
            assert(r.slots_below(1) =~= base@);
            assert(r.actives_below(0) =~= Seq::empty());
            assert(r.actives_below(1) =~= r.actives_of(0));
            assert(r@.active =~= fresh_table(base@, Map::empty()).active);
            assert(r@.starts =~= seq![0int]);
            all_true(r@.active, len as int);
        }
        r
    }

    pub fn from_entries(entries: &Vec<NameEntry>) -> (r: NameTable)
        requires
            entries@.len() < NO_PROJECT_ID,
        ensures
            r.wf(),
            r@ == fresh_table(entry_views(entries@), Map::empty()),
    {
        NameTable::from_base_segment(NameSegment::from_entries(entries))
    }
}

/// A declaration of a C-family definition, as tests and simple callers give
/// it.
pub open spec fn plain_name(
    id: i64,
    name: Seq<char>,
    external: bool,
    path: Seq<char>,
    kind: Seq<char>,
    directly_included: bool,
) -> Name {
    Name {
        id,
        name,
        external,
        directly_included: external && directly_included,
        path,
        kind: kind_named(kind),
        role: SymbolRole::Definition,
        family: SemanticFamily::CFamily,
        project: None,
    }
}

pub open spec fn plain_names(s: Seq<(i64, String, bool, String, String, bool)>) -> Seq<Name> {
    Seq::new(s.len(), |i: int| plain_name(s[i].0, s[i].1@, s[i].2, s[i].3@, s[i].4@, s[i].5))
}

pub open spec fn bare_names(s: Seq<(i64, String, bool)>) -> Seq<Name> {
    Seq::new(s.len(), |i: int| plain_name(s[i].0, s[i].1@, s[i].2, ""@, ""@, false))
}

fn name_entry(row: &(i64, String, bool, String, String, bool)) -> (r: NameEntry)
    ensures
        r@ == plain_name(row.0, row.1@, row.2, row.3@, row.4@, row.5),
        r.path@ == row.3@,
        r.external == row.2,
        r.project_key is None,
{
    NameEntry {
        id: row.0,
        name: row.1.clone(),
        external: row.2,
        directly_included: row.5,
        path: row.3.clone(),
        kind: parser_kind_from_str(row.4.as_str()),
        role: SymbolRole::Definition,
        semantic_family: SemanticFamily::CFamily,
        project_key: None,
    }
}

pub fn name_entries(names: &Vec<(i64, String, bool, String, String, bool)>) -> (r: Vec<NameEntry>)
    ensures
        r@.len() == names@.len(),
        entry_views(r@) == plain_names(names@),
{
    let ghost want = plain_names(names@);
    let mut out: Vec<NameEntry> = Vec::new();
    let mut i: usize = 0;
    while i < names.len()
        invariant
            i <= names@.len(),
            want == plain_names(names@),
            entry_views(out@) == want.subrange(0, i as int),
        decreases names@.len() - i,
    {
        let ghost before = entry_views(out@);
        out.push(name_entry(&names[i]));
        i = i + 1;
        assert(entry_views(out@) =~= before.push(want[i - 1]));
        assert(entry_views(out@) =~= want.subrange(0, i as int));
    }
    assert(entry_views(out@) =~= want);
    out
}

/// Names with the project that owns their file; external names have none.
pub open spec fn with_projects(names: Seq<Name>, projects: Option<&ProjectContextIndex>) -> Seq<
    Name,
> {
    Seq::new(
        names.len(),
        |i: int|
            Name {
                project: if names[i].external {
                    None
                } else {
                    match projects {
                        Some(index) => index.nearest(names[i].path),
                        None => None,
                    }
                },
                ..names[i]
            },
    )
}

pub fn project_of(external: bool, path: &str, projects: Option<&ProjectContextIndex>) -> (r: Option<
    ProjectKey,
>)
    ensures
        opt_key(r) == (if external {
            None
        } else {
            match projects {
                Some(index) => index.nearest(path@),
                None => None,
            }
        }),
{
    if external {
        return None;
    }
    match projects {
        Some(index) => index.nearest_for_file(path),
        None => None,
    }
}

/// One declaration row of the index.
#[derive(Debug, Clone, PartialEq, Eq)]
pub struct DeclarationNameRow {
    pub id: i64,
    pub name: String,
    pub declaration_kind: SemanticDeclarationKind,
    pub role: SemanticDeclarationRole,
    pub path: String,
    pub external: bool,
    pub directly_included: bool,
    pub semantic_family: SemanticFamily,
}

impl View for DeclarationNameRow {
    type V = Name;

    open spec fn view(&self) -> Name {
        Name {
            id: self.id,
            name: self.name@,
            external: self.external,
            directly_included: self.external && self.directly_included,
            path: self.path@,
            kind: kind_of_declaration(self.declaration_kind),
            role: role_of_declaration(self.role),
            family: self.semantic_family,
            project: None,
        }
    }
}

pub open spec fn row_views(s: Seq<DeclarationNameRow>) -> Seq<Name> {
    Seq::new(s.len(), |i: int| s[i]@)
}

pub fn declaration_name_entries(
    rows: &Vec<DeclarationNameRow>,
    projects: Option<&ProjectContextIndex>,
) -> (r: Vec<NameEntry>)
    ensures
        r@.len() == rows@.len(),
        entry_views(r@) == with_projects(row_views(rows@), projects),
{
    let ghost want = with_projects(row_views(rows@), projects);
    let mut out: Vec<NameEntry> = Vec::new();
    let mut i: usize = 0;
    while i < rows.len()
        invariant
            i <= rows@.len(),
            want == with_projects(row_views(rows@), projects),
            entry_views(out@) == want.subrange(0, i as int),
        decreases rows@.len() - i,
    {
        let ghost before = entry_views(out@);
        let row = &rows[i];
        out.push(
            NameEntry {
                id: row.id,
                name: row.name.clone(),
                external: row.external,
                directly_included: row.directly_included,
                path: row.path.clone(),
                kind: parser_kind_from_declaration_kind(row.declaration_kind),
                role: symbol_role_from_declaration_role(row.role),
                semantic_family: row.semantic_family,
                project_key: project_of(row.external, row.path.as_str(), projects),
            },
        );
        i = i + 1;
        assert(entry_views(out@) =~= before.push(want[i - 1]));
        assert(entry_views(out@) =~= want.subrange(0, i as int));
    }
    assert(entry_views(out@) =~= want);
    out
}

impl NameTable {
    pub fn build(names: Vec<(i64, String, bool)>) -> (r: NameTable)
        requires
            names@.len() < NO_PROJECT_ID,
        ensures
            r.wf(),
            r@ == fresh_table(bare_names(names@), Map::empty()),
    {
        let ghost want = bare_names(names@);
        let mut out: Vec<NameEntry> = Vec::new();
        let mut i: usize = 0;
        while i < names.len()
            invariant
                i <= names@.len(),
                want == bare_names(names@),
                entry_views(out@) == want.subrange(0, i as int),
            decreases names@.len() - i,
        {
            let ghost before = entry_views(out@);
            let row = &names[i];
            out.push(
                NameEntry {
                    id: row.0,
                    name: row.1.clone(),
                    external: row.2,
                    directly_included: false,
                    path: "".to_owned(),
                    kind: parser_kind_from_str(""),
                    role: SymbolRole::Definition,
                    semantic_family: SemanticFamily::CFamily,
                    project_key: None,
                },
            );
            i = i + 1;
            assert(entry_views(out@) =~= before.push(want[i - 1]));
            assert(entry_views(out@) =~= want.subrange(0, i as int));
        }
        assert(entry_views(out@) =~= want);
        NameTable::from_entries(&out)
    }

    pub fn build_with_paths(names: Vec<(i64, String, bool, String, String, bool)>) -> (r: NameTable)
        requires
            names@.len() < NO_PROJECT_ID,
        ensures
            r.wf(),
            r@ == fresh_table(plain_names(names@), Map::empty()),
    {
        NameTable::from_entries(&name_entries(&names))
    }

    pub fn build_with_paths_and_project_context(
        names: Vec<(i64, String, bool, String, String, bool)>,
        project_context: &ProjectContextIndex,
    ) -> (r: NameTable)
        requires
            names@.len() < NO_PROJECT_ID,
        ensures
            r.wf(),
            r@ == fresh_table(
                with_projects(plain_names(names@), Some(project_context)),
                Map::empty(),
            ),
    {
        let mut entries = name_entries(&names);
        let ghost plain = entries@;
        let ghost want = with_projects(plain_names(names@), Some(project_context));
        let len: usize = entries.len();
        let mut i: usize = 0;
        while i < len
            invariant
                i <= len,
                len == entries@.len(),
                len == plain.len(),
                plain_names(names@) == entry_views(plain),
                want == with_projects(plain_names(names@), Some(project_context)),
                forall|k: int| 0 <= k < i ==> (#[trigger] entries@[k])@ == want[k],
                forall|k: int| i <= k < len ==> #[trigger] entries@[k] == plain[k],
            decreases len - i,
        {
            assert(entries@[i as int] == plain[i as int]);
            assert(entry_views(plain)[i as int] == plain[i as int]@);
            let key = project_of(
                entries[i].external,
                entries[i].path.as_str(),
                Some(project_context),
            );
            entries[i].project_key = key;
            i = i + 1;
        }
        assert(entry_views(entries@) =~= want);
        NameTable::from_entries(&entries)
    }

    pub fn build_from_declaration_name_rows_with_project_context(
        rows: Vec<DeclarationNameRow>,
        project_context: Option<&ProjectContextIndex>,
    ) -> (r: NameTable)
        requires
            rows@.len() < NO_PROJECT_ID,
        ensures
            r.wf(),
            r@ == fresh_table(with_projects(row_views(rows@), project_context), Map::empty()),
    {
        NameTable::from_entries(&declaration_name_entries(&rows, project_context))
    }
}

} // verus!
