//! New tables from old ones: replaced paths, compaction, project ownership
//! and inclusion evidence.

use std::sync::Arc;

use vstd::prelude::*;

use crate::chars::{char_is_digit, chars_lower, chars_of, is_digit, lower_chars, string_of};
use crate::facts::{parser_kind_from_str, SemanticFamily, SymbolRole};
use crate::name_recall::active_count;
use crate::name_segment::{
    count_path, entry_views, Name, NameEntry, NameEntryRef, NameIndexBuilder, NameSegment,
    NO_PROJECT_ID,
};
use crate::name_table::{
    base_slots, count_true, declaration_name_entries, fresh_table, name_entries, plain_name,
    plain_names, project_of, row_views, share, slots_monotone, updated, with_projects,
    workspace_reach, DeclarationNameRow, NameTable, Table,
};
use crate::path_map::PathMap;
use crate::project_context::{same_project, Key, ProjectContextIndex, ProjectKey};
use crate::reach::{listed_paths, PathSet, ReachScope};
use crate::segment_index::IndexedSegment;
use crate::table_laws::{counts_are_names, names_grow};

verus! {

// ---------------------------------------------------------------------------
// Counting

impl NameTable {
    /// Count the active slots.
    fn count_active(&self) -> (r: usize)
        requires
            self.laid_out(),
        ensures
            r == count_true(self@.active, self@.slots.len() as int),
    {
        let mut count: usize = 0;
        let mut i: usize = 0;
        while i < self.slot_len
            invariant
                self.laid_out(),
                i <= self.slot_len,
                count <= i,
                count == count_true(self@.active, i as int),
            decreases self.slot_len - i,
        {
            if self.is_active_index(i) {
                count = count + 1;
            }
            i = i + 1;
        }
        count
    }
}

// ---------------------------------------------------------------------------
// Replaced paths

/// The segment that counts for a path after it was replaced.
pub open spec fn override_for(fresh: Seq<Name>, path: Seq<char>, delta: usize) -> Option<usize> {
    if count_path(fresh, path, fresh.len() as int) > 0 {
        Some(delta)
    } else {
        None
    }
}

proof fn counted_path(fresh: Seq<Name>, j: int, n: int)
    requires
        0 <= j < n <= fresh.len(),
    ensures
        count_path(fresh, fresh[j].path, n) > 0,
    decreases n,
{
    if j < n - 1 {
        counted_path(fresh, j, n - 1);
    }
}

proof fn same_segments(old_table: NameTable, new_table: NameTable, k: int)
    requires
        0 <= k <= old_table.segments(),
        forall|m: int|
            0 <= m < old_table.segments() ==> new_table.segment(m) == #[trigger] old_table.segment(
                m,
            ),
    ensures
        new_table.slots_below(k) == old_table.slots_below(k),
    decreases k,
{
    if k > 0 {
        same_segments(old_table, new_table, k - 1);
        assert(new_table.segment(k - 1) == old_table.segment(k - 1));
    }
}

proof fn same_layout(a: NameTable, b: NameTable, k: int)
    requires
        0 <= k <= a.segments(),
        a.base == b.base,
        a.deltas == b.deltas,
        a.path_overrides == b.path_overrides,
    ensures
        a.slots_below(k) == b.slots_below(k),
        a.actives_below(k) == b.actives_below(k),
    decreases k,
{
    if k > 0 {
        same_layout(a, b, k - 1);
        assert(a.segment(k - 1) == b.segment(k - 1));
        assert(a.actives_of(k - 1) =~= b.actives_of(k - 1));
    }
}

/// Tables with the same segments and evidence are the same, whatever their
/// counters.
proof fn same_view(a: NameTable, b: NameTable)
    requires
        a.base == b.base,
        a.deltas == b.deltas,
        a.path_overrides == b.path_overrides,
        a.direct_include_overrides == b.direct_include_overrides,
        a.all_workspace_reach == b.all_workspace_reach,
        a.delta_offsets == b.delta_offsets,
        a.slot_len == b.slot_len,
        a.laid_out(),
    ensures
        a@ == b@,
        b.laid_out(),
{
    same_layout(a, b, a.segments());
    assert(a@.starts =~= b@.starts) by {
        assert forall|k: int| 0 <= k < a.segments() implies #[trigger] a@.starts[k]
            == b@.starts[k] by {
            same_layout(a, b, k);
        }
    }
    assert forall|k: int| 0 <= k < b.segments() implies (#[trigger] b.segment(k)).wf() by {
        assert(a.segment(k).wf());
    }
    assert forall|k: int| 0 <= k < b.segments() implies (
    #[trigger] b.indexed(k)).index.describes(b.indexed(k).names) by {
        assert(a.indexed(k).index.describes(a.indexed(k).names));
    }
    assert forall|k: int| 0 <= k < b.deltas@.len() implies #[trigger] b.delta_offsets@[k]
        == b.slots_below(k + 1).len() by {
        same_layout(a, b, k + 1);
        assert(a.delta_offsets@[k] == a.slots_below(k + 1).len());
    }
}

proof fn shadowed_actives(
    old_table: NameTable,
    new_table: NameTable,
    paths: Set<Seq<char>>,
    fresh: Seq<Name>,
    k: int,
)
    requires
        0 <= k <= old_table.segments(),
        old_table.laid_out(),
        forall|m: int|
            0 <= m < old_table.segments() ==> new_table.segment(m) == #[trigger] old_table.segment(
                m,
            ),
        forall|p: Seq<char>|
            #[trigger] new_table.path_overrides@.contains_key(p) <==> (
            old_table.path_overrides@.contains_key(p) || paths.contains(p)),
        forall|p: Seq<char>| #[trigger]
            paths.contains(p) ==> new_table.path_overrides@[p] == override_for(
                fresh,
                p,
                old_table.deltas@.len() as usize,
            ),
        forall|p: Seq<char>|
            !paths.contains(p) && #[trigger] old_table.path_overrides@.contains_key(p)
                ==> new_table.path_overrides@[p] == old_table.path_overrides@[p],
        old_table.deltas@.len() <= usize::MAX,
    ensures
        new_table.actives_below(k).len() == old_table.slots_below(k).len(),
        old_table.actives_below(k).len() == old_table.slots_below(k).len(),
        forall|i: int|
            0 <= i < old_table.slots_below(k).len() ==> #[trigger] new_table.actives_below(k)[i]
                == (old_table.actives_below(k)[i] && !paths.contains(
                old_table.slots_below(k)[i].path,
            )),
    decreases k,
{
    if k > 0 {
        shadowed_actives(old_table, new_table, paths, fresh, k - 1);
        let head = old_table.slots_below(k - 1).len();
        let seg = old_table.segment(k - 1)@;
        assert(new_table.segment(k - 1) == old_table.segment(k - 1));
        assert forall|i: int| 0 <= i < old_table.slots_below(k).len() implies #[trigger] new_table.actives_below(
            k,
        )[i] == (old_table.actives_below(k)[i] && !paths.contains(
            old_table.slots_below(k)[i].path,
        )) by {
            if i < head {
                assert(new_table.actives_below(k)[i] == new_table.actives_below(k - 1)[i]);
            } else {
                let p = seg[i - head].path;
                assert(old_table.slots_below(k)[i] == seg[i - head]);
                assert(new_table.actives_below(k)[i] == new_table.counts(k - 1, p));
                assert(old_table.actives_below(k)[i] == old_table.counts(k - 1, p));
                assert(new_table.path_overrides@.contains_key(p) <==> (
                old_table.path_overrides@.contains_key(p) || paths.contains(p)));
                if old_table.path_overrides@.contains_key(p) {
                    assert(old_table.path_overrides@[p] is Some ==> (
                    old_table.path_overrides@[p])->0 < old_table.deltas@.len());
                }
            }
        }
    }
}

fn share_all(deltas: &Vec<Arc<IndexedSegment>>) -> (r: Vec<Arc<IndexedSegment>>)
    ensures
        r@ == deltas@,
{
    let mut out: Vec<Arc<IndexedSegment>> = Vec::new();
    let mut i: usize = 0;
    while i < deltas.len()
        invariant
            i <= deltas@.len(),
            out@ == deltas@.subrange(0, i as int),
        decreases deltas@.len() - i,
    {
        out.push(share(&deltas[i]));
        i = i + 1;
        assert(out@ =~= deltas@.subrange(0, i as int));
    }
    assert(out@ =~= deltas@);
    out
}

fn copy_offsets(offsets: &Vec<usize>) -> (r: Vec<usize>)
    ensures
        r@ == offsets@,
{
    let mut out: Vec<usize> = Vec::new();
    let mut i: usize = 0;
    while i < offsets.len()
        invariant
            i <= offsets@.len(),
            out@ == offsets@.subrange(0, i as int),
        decreases offsets@.len() - i,
    {
        out.push(offsets[i]);
        i = i + 1;
        assert(out@ =~= offsets@.subrange(0, i as int));
    }
    assert(out@ =~= offsets@);
    out
}

/// The files of `old_files` outside `paths`, and those of `added`.
fn replaced_files(old_files: &PathSet, paths: &PathSet, added: PathSet) -> (r: PathSet)
    ensures
        r@ == old_files@.difference(paths@).union(added@),
{
    let mut r = added;
    let ghost listed = old_files.listed();
    let mut i: usize = 0;
    while i < old_files.len()
        invariant
            i <= listed.len(),
            listed == old_files.listed(),
            forall|q: Seq<char>|
                r@.contains(q) <==> added@.contains(q) || (!paths@.contains(q) && exists|k: int|
                    0 <= k < i && #[trigger] listed[k] == q),
        decreases listed.len() - i,
    {
        let ghost before = r@;
        let path = old_files.path_at(i);
        if !paths.contains(path) {
            r.insert(path);
        }
        proof {
            let now = r@;
            assert forall|q: Seq<char>| now.contains(q) <==> added@.contains(q) || (
            !paths@.contains(q) && exists|k: int| 0 <= k < i + 1 && #[trigger] listed[k] == q) by {
                if now.contains(q) && !before.contains(q) {
                    assert(listed[i as int] == q);
                }
                if before.contains(q) && !added@.contains(q) {
                    let k = choose|k: int| 0 <= k < i && #[trigger] listed[k] == q;
                    assert(listed[k] == q);
                }
                if !paths@.contains(q) && exists|k: int|
                    0 <= k < i + 1 && #[trigger] listed[k] == q {
                    let k = choose|k: int| 0 <= k < i + 1 && #[trigger] listed[k] == q;
                    if k < i {
                        assert(listed[k] == q);
                        assert(before.contains(q));
                    }
                }
            }
        }
        i = i + 1;
    }
    proof {
        listed_paths(*old_files);
        assert forall|q: Seq<char>| r@.contains(q) <==> old_files@.difference(paths@).union(
            added@,
        ).contains(q) by {
            if old_files@.contains(q) {
                assert(listed.contains(q));
                let k = choose|k: int| 0 <= k < listed.len() && listed[k] == q;
                assert(listed[k] == q);
            }
            if exists|k: int| 0 <= k < listed.len() && #[trigger] listed[k] == q {
                let k = choose|k: int| 0 <= k < listed.len() && #[trigger] listed[k] == q;
                assert(listed.contains(listed[k]));
            }
        }
        assert(r@ =~= old_files@.difference(paths@).union(added@));
    }
    r
}

impl NameTable {
    /// Replace the declarations of `paths` by those of `fresh`.
    #[verifier::rlimit(80)]
    pub fn with_updated_entries(&self, paths: &PathSet, fresh: &Vec<NameEntry>) -> (r: NameTable)
        requires
            self.wf(),
            fresh@.len() < NO_PROJECT_ID,
            self@.slots.len() + fresh@.len() <= usize::MAX,
        ensures
            r.wf(),
            r@ == updated(self@, paths@, entry_views(fresh@)),
    {
        let segment = NameSegment::from_entries(fresh);
        let ghost names = segment@;
        let delta: usize = self.deltas.len();
        let mut overrides = self.path_overrides.duplicate();
        let ghost listed = paths.listed();
        let mut i: usize = 0;
        while i < paths.len()
            invariant
                self.wf(),
                segment.wf(),
                names == segment@,
                overrides.wf(),
                i <= listed.len(),
                listed == paths.listed(),
                forall|p: Seq<char>|
                    #[trigger] overrides@.contains_key(p) <==> self.path_overrides@.contains_key(p)
                        || exists|k: int| 0 <= k < i && #[trigger] listed[k] == p,
                forall|k: int|
                    0 <= k < i ==> overrides@[#[trigger] listed[k]] == override_for(
                        names,
                        listed[k],
                        delta,
                    ),
                forall|p: Seq<char>|
                    #[trigger] self.path_overrides@.contains_key(p) && (forall|k: int|
                        0 <= k < i ==> #[trigger] listed[k] != p) ==> overrides@[p]
                        == self.path_overrides@[p],
            decreases listed.len() - i,
        {
            let path = paths.path_at(i);
            let ghost before = overrides@;
            let value: Option<usize> = if segment.path_count(path) > 0 {
                Some(delta)
            } else {
                None
            };
            overrides.set(path, value);
            proof {
                let now = overrides@;
                assert forall|p: Seq<char>| #[trigger] now.contains_key(p) <==> (
                self.path_overrides@.contains_key(p) || exists|k: int|
                    0 <= k < i + 1 && #[trigger] listed[k] == p) by {
                    if p == path@ {
                        assert(listed[i as int] == p);
                    } else {
                        assert(now.contains_key(p) == before.contains_key(p));
                        if exists|k: int| 0 <= k < i + 1 && #[trigger] listed[k] == p {
                            let k = choose|k: int| 0 <= k < i + 1 && #[trigger] listed[k] == p;
                            assert(k < i && listed[k] == p);
                        }
                        if exists|k: int| 0 <= k < i && #[trigger] listed[k] == p {
                            let k = choose|k: int| 0 <= k < i && #[trigger] listed[k] == p;
                            assert(k < i + 1 && listed[k] == p);
                        }
                    }
                }
                assert forall|k: int| 0 <= k < i + 1 implies now[#[trigger] listed[k]]
                    == override_for(names, listed[k], delta) by {
                    if listed[k] != path@ {
                        assert(k < i);
                    }
                }
                assert forall|p: Seq<char>|
                    #[trigger] self.path_overrides@.contains_key(p) && (forall|k: int|
                        0 <= k < i + 1 ==> #[trigger] listed[k] != p) implies now[p]
                    == self.path_overrides@[p] by {
                    assert(listed[i as int] != p);
                }
            }
            i = i + 1;
        }
        proof {
            listed_paths(*paths);
        }
        let files = replaced_files(
            &self.all_workspace_reach.files,
            paths,
            workspace_reach(&segment),
        );
        let fresh_slots: usize = segment.entries.len();
        let mut deltas = share_all(&self.deltas);
        let mut delta_offsets = copy_offsets(&self.delta_offsets);
        delta_offsets.push(self.slot_len);
        deltas.push(Arc::new(IndexedSegment::new(segment)));
        let mut r = NameTable {
            base: share(&self.base),
            deltas,
            path_overrides: overrides,
            delta_offsets,
            active_len: 0,
            slot_len: self.slot_len + fresh_slots,
            direct_include_overrides: self.direct_include_overrides.duplicate(),
            all_workspace_reach: Arc::new(
                ReachScope {
                    files,
                    heuristic_files: PathSet::new(),
                    open: false,
                    reason: None,
                },
            ),
        };
        proof {
            let n = self.segments();
            assert(r.segments() == n + 1);
            assert forall|m: int| 0 <= m < n implies r.segment(m) == #[trigger] self.segment(m) by {
                if m > 0 {
                    assert(r.deltas@[m - 1] == self.deltas@[m - 1]);
                }
            }
            assert(r.segment(n) == segment);
            assert forall|k: int| 0 <= k < r.segments() implies (#[trigger] r.segment(k)).wf() by {
                if k < n {
                    assert(self.segment(k).wf());
                }
            }
            assert forall|k: int| 0 <= k < r.segments() implies (
            #[trigger] r.indexed(k)).index.describes(r.indexed(k).names) by {
                if k < n {
                    if k > 0 {
                        assert(r.deltas@[k - 1] == self.deltas@[k - 1]);
                    }
                    assert(self.indexed(k).index.describes(self.indexed(k).names));
                }
            }
            assert forall|k: int| 0 <= k < r.deltas@.len() implies #[trigger] r.delta_offsets@[k]
                == r.slots_below(k + 1).len() by {
                same_segments(*self, r, k + 1);
                if k < self.deltas@.len() {
                    assert(self.delta_offsets@[k] == self.slots_below(k + 1).len());
                }
            }
            same_segments(*self, r, n);
            assert(r.slots_below(n + 1) == self.slots_below(n) + names);
            assert forall|p: Seq<char>| #[trigger] r.path_overrides@.contains_key(p) <==> (
            self.path_overrides@.contains_key(p) || paths@.contains(p)) by {
                if paths@.contains(p) {
                    assert(listed.contains(p));
                    let k = choose|k: int| 0 <= k < listed.len() && listed[k] == p;
                    assert(listed[k] == p);
                }
                if exists|k: int| 0 <= k < listed.len() && #[trigger] listed[k] == p {
                    let k = choose|k: int| 0 <= k < listed.len() && #[trigger] listed[k] == p;
                    assert(listed.contains(listed[k]));
                }
            }
            assert forall|p: Seq<char>| #[trigger]
                paths@.contains(p) implies r.path_overrides@[p] == override_for(names, p, delta) by {
                assert(listed.contains(p));
                let k = choose|k: int| 0 <= k < listed.len() && listed[k] == p;
                assert(listed[k] == p);
            }
            assert forall|p: Seq<char>|
                !paths@.contains(p) && #[trigger] self.path_overrides@.contains_key(
                    p,
                ) implies r.path_overrides@[p] == self.path_overrides@[p] by {
                assert forall|k: int| 0 <= k < listed.len() implies #[trigger] listed[k] != p by {
                    assert(listed.contains(listed[k]));
                }
            }
            assert forall|p: Seq<char>|
                r.path_overrides@.contains_key(p) && r.path_overrides@[p] is Some implies (
            #[trigger] r.path_overrides@[p])->0 < r.deltas@.len() by {
                if !paths@.contains(p) {
                    assert(self.path_overrides@[p]->0 < self.deltas@.len());
                }
            }
            shadowed_actives(*self, r, paths@, names, n);
            slots_monotone(*self, n, n);
            let want = updated(self@, paths@, names);
            let last = r.actives_of(n);
            assert forall|j: int| 0 <= j < names.len() implies last[j] == paths@.contains(
                (#[trigger] names[j]).path,
            ) by {
                let p = names[j].path;
                counted_path(names, j, names.len() as int);
                assert(r.path_overrides@.contains_key(p) <==> (self.path_overrides@.contains_key(p)
                    || paths@.contains(p)));
                if !paths@.contains(p) && self.path_overrides@.contains_key(p) {
                    assert(self.path_overrides@[p] is Some ==> self.path_overrides@[p]->0
                        < self.deltas@.len());
                }
            }
            assert(r@.active =~= want.active) by {
                assert forall|x: int| 0 <= x < want.active.len() implies r@.active[x]
                    == #[trigger] want.active[x] by {
                    if x < self@.slots.len() {
                        assert(r.actives_below(n + 1)[x] == r.actives_below(n)[x]);
                    } else {
                        let j = x - self@.slots.len();
                        assert(r.actives_below(n + 1)[x] == last[j]);
                        assert(names[j] == names[j]);
                    }
                }
            }
            assert(r@.starts =~= want.starts) by {
                assert forall|k: int| 0 <= k < want.starts.len() implies r@.starts[k]
                    == #[trigger] want.starts[k] by {
                    same_segments(*self, r, k);
                }
            }
        }
        let count: usize = r.count_active();
        let ghost uncounted = r;
        r.active_len = count;
        proof {
            same_view(uncounted, r);
        }
        r
    }

    /// Replace the declarations of `paths` by plain rows.
    pub fn with_updated_paths(
        &self,
        paths: &PathSet,
        names: Vec<(i64, String, bool, String, String, bool)>,
    ) -> (r: NameTable)
        requires
            self.wf(),
            names@.len() < NO_PROJECT_ID,
            self@.slots.len() + names@.len() <= usize::MAX,
        ensures
            r.wf(),
            r@ == updated(self@, paths@, plain_names(names@)),
    {
        self.with_updated_entries(paths, &name_entries(&names))
    }

    /// Replace the declarations of `paths` by declaration rows.
    pub fn with_updated_declaration_name_rows_with_project_context(
        &self,
        paths: &PathSet,
        rows: Vec<DeclarationNameRow>,
        project_context: Option<&ProjectContextIndex>,
    ) -> (r: NameTable)
        requires
            self.wf(),
            rows@.len() < NO_PROJECT_ID,
            self@.slots.len() + rows@.len() <= usize::MAX,
        ensures
            r.wf(),
            r@ == updated(self@, paths@, with_projects(row_views(rows@), project_context)),
    {
        self.with_updated_entries(paths, &declaration_name_entries(&rows, project_context))
    }
}

pub open spec fn family_names(
    s: Seq<(i64, String, bool, String, String, bool, SemanticFamily)>,
) -> Seq<Name> {
    Seq::new(
        s.len(),
        |i: int|
            Name {
                family: s[i].6,
                ..plain_name(s[i].0, s[i].1@, s[i].2, s[i].3@, s[i].4@, s[i].5)
            },
    )
}

impl NameTable {
    /// Replace the declarations of `paths` by plain rows with a language
    /// family.
    pub fn with_updated_family_paths(
        &self,
        paths: &PathSet,
        names: Vec<(i64, String, bool, String, String, bool, SemanticFamily)>,
    ) -> (r: NameTable)
        requires
            self.wf(),
            names@.len() < NO_PROJECT_ID,
            self@.slots.len() + names@.len() <= usize::MAX,
        ensures
            r.wf(),
            r@ == updated(self@, paths@, family_names(names@)),
    {
        let ghost want = family_names(names@);
        let mut entries: Vec<NameEntry> = Vec::new();
        let mut i: usize = 0;
        while i < names.len()
            invariant
                i <= names@.len(),
                want == family_names(names@),
                entries@.len() == i,
                entry_views(entries@) == want.subrange(0, i as int),
            decreases names@.len() - i,
        {
            let ghost before = entry_views(entries@);
            let row = &names[i];
            entries.push(
                NameEntry {
                    id: row.0,
                    name: row.1.clone(),
                    external: row.2,
                    directly_included: row.5,
                    path: row.3.clone(),
                    kind: parser_kind_from_str(row.4.as_str()),
                    role: SymbolRole::Definition,
                    semantic_family: row.6,
                    project_key: None,
                },
            );
            i = i + 1;
            assert(entry_views(entries@) =~= before.push(want[i - 1]));
            assert(entry_views(entries@) =~= want.subrange(0, i as int));
        }
        assert(entry_views(entries@) =~= want);
        self.with_updated_entries(paths, &entries)
    }
}

// ---------------------------------------------------------------------------
// Rebuilt tables

proof fn one_segment_is_compact(t: NameTable)
    requires
        t@.starts.len() == 1,
    ensures
        !t.spec_needs_compaction(),
{
    base_slots(t);
}

proof fn view_sizes(t: NameTable)
    requires
        t.laid_out(),
    ensures
        t@.active.len() == t@.slots.len(),
        t@.slots.len() == t.slot_len,
{
    slots_monotone(t, t.segments(), t.segments());
}

impl NameTable {
    /// A table with other inclusion evidence.
    fn with_direct(self, direct: PathMap<bool>) -> (r: NameTable)
        requires
            self.wf(),
            direct.wf(),
        ensures
            r.wf(),
            r@ == (Table { direct: direct@, ..self@ }),
    {
        let r = NameTable {
            base: self.base,
            deltas: self.deltas,
            path_overrides: self.path_overrides,
            delta_offsets: self.delta_offsets,
            active_len: self.active_len,
            slot_len: self.slot_len,
            direct_include_overrides: direct,
            all_workspace_reach: self.all_workspace_reach,
        };
        proof {
            same_layout(self, r, self.segments());
            assert(self@.starts =~= r@.starts) by {
                assert forall|k: int| 0 <= k < self.segments() implies #[trigger] self@.starts[k]
                    == r@.starts[k] by {
                    same_layout(self, r, k);
                }
            }
            assert forall|k: int| 0 <= k < r.segments() implies (#[trigger] r.segment(k)).wf() by {
                assert(self.segment(k).wf());
            }
            assert forall|k: int| 0 <= k < r.segments() implies (
            #[trigger] r.indexed(k)).index.describes(r.indexed(k).names) by {
                assert(self.indexed(k).index.describes(self.indexed(k).names));
            }
            assert forall|k: int| 0 <= k < r.deltas@.len() implies #[trigger] r.delta_offsets@[k]
                == r.slots_below(k + 1).len() by {
                same_layout(self, r, k + 1);
                assert(self.delta_offsets@[k] == self.slots_below(k + 1).len());
            }
        }
        r
    }

    /// The same declarations in one segment.
    pub fn compacted(&self) -> (r: NameTable)
        requires
            self.wf(),
            active_count(self@) < NO_PROJECT_ID,
        ensures
            r.wf(),
            r@ == fresh_table(self@.names(), self@.direct),
            !r.spec_needs_compaction(),
    {
        let mut builder = NameIndexBuilder::new();
        let mut i: usize = 0;
        proof {
            view_sizes(*self);
        }
        while i < self.slot_len
            invariant
                self.wf(),
                i <= self.slot_len,
                self.slot_len == self@.slots.len(),
                active_count(self@) < NO_PROJECT_ID,
                self@.active.len() == self@.slots.len(),
                builder.segment.wf(),
                builder.segment@ == self@.names_below(i as int),
            decreases self.slot_len - i,
        {
            proof {
                names_grow(self@, i + 1, self@.slots.len() as int);
                names_grow(self@, i as int, i + 1);
                counts_are_names(self@, self@.slots.len() as int);
            }
            if self.is_active_index(i) {
                builder.push_ref(self.entry(i));
            }
            i = i + 1;
        }
        let flat = NameTable::from_base_segment(builder.finish_segment());
        let r = flat.with_direct(self.direct_include_overrides.duplicate());
        proof {
            one_segment_is_compact(r);
        }
        r
    }

    /// The same declarations with project ownership derived anew.
    pub fn with_project_context(&self, project_context: Option<&ProjectContextIndex>) -> (r:
        NameTable)
        requires
            self.wf(),
            active_count(self@) < NO_PROJECT_ID,
        ensures
            r.wf(),
            r@ == fresh_table(with_projects(self@.names(), project_context), self@.direct),
    {
        let mut builder = NameIndexBuilder::new();
        let mut i: usize = 0;
        proof {
            view_sizes(*self);
            assert(with_projects(Seq::empty(), project_context) =~= Seq::<Name>::empty());
        }
        while i < self.slot_len
            invariant
                self.wf(),
                i <= self.slot_len,
                self.slot_len == self@.slots.len(),
                active_count(self@) < NO_PROJECT_ID,
                self@.active.len() == self@.slots.len(),
                builder.segment.wf(),
                builder.segment@ == with_projects(self@.names_below(i as int), project_context),
            decreases self.slot_len - i,
        {
            proof {
                names_grow(self@, i + 1, self@.slots.len() as int);
                names_grow(self@, i as int, i + 1);
                counts_are_names(self@, self@.slots.len() as int);
            }
            if self.is_active_index(i) {
                let ghost before = self@.names_below(i as int);
                let entry = self.entry(i);
                let key = project_of(entry.external, entry.path, project_context);
                let project_key: Option<&ProjectKey> = match &key {
                    Some(k) => Some(k),
                    None => None,
                };
                let owned = NameEntryRef { project_key, ..entry };
                builder.push_ref(owned);
                assert(with_projects(before.push(self@.slots[i as int]), project_context)
                    =~= with_projects(before, project_context).push(owned@));
            }
            i = i + 1;
        }
        let r = NameTable::from_base_segment(builder.finish_segment());
        r.with_direct(self.direct_include_overrides.duplicate())
    }

    /// The same table with request-local evidence on first-layer external
    /// headers laid over what it had.
    pub fn with_direct_include_overrides(&self, overrides: &PathMap<bool>) -> (r: NameTable)
        requires
            self.wf(),
            overrides.wf(),
        ensures
            r.wf(),
            r@ == (Table { direct: self@.direct.union_prefer_right(overrides@), ..self@ }),
    {
        let mut merged = self.direct_include_overrides.duplicate();
        let ghost keys = overrides.keys@;
        let mut i: usize = 0;
        while i < overrides.keys.len()
            invariant
                self.wf(),
                overrides.wf(),
                merged.wf(),
                keys == overrides.keys@,
                i <= keys.len(),
                forall|p: Seq<char>|
                    #[trigger] merged@.contains_key(p) <==> self@.direct.contains_key(p)
                        || exists|k: int| 0 <= k < i && #[trigger] keys[k] == p,
                forall|k: int| 0 <= k < i ==> merged@[#[trigger] keys[k]] == overrides@[keys[k]],
                forall|p: Seq<char>|
                    #[trigger] self@.direct.contains_key(p) && (forall|k: int|
                        0 <= k < i ==> #[trigger] keys[k] != p) ==> merged@[p] == self@.direct[p],
            decreases keys.len() - i,
        {
            let path = overrides.keys.get(i);
            let value = overrides.values[i];
            proof {
                assert(keys.contains(path@));
                let j = keys.index_of(path@);
                assert(keys[j] == keys[i as int]);
                assert(overrides@[path@] == value);
            }
            let ghost before = merged@;
            merged.set(path, value);
            proof {
                let now = merged@;
                assert forall|p: Seq<char>| #[trigger] now.contains_key(p) <==> (
                self@.direct.contains_key(p) || exists|k: int|
                    0 <= k < i + 1 && #[trigger] keys[k] == p) by {
                    if p == path@ {
                        assert(keys[i as int] == p);
                    } else {
                        assert(now.contains_key(p) == before.contains_key(p));
                        if exists|k: int| 0 <= k < i + 1 && #[trigger] keys[k] == p {
                            let k = choose|k: int| 0 <= k < i + 1 && #[trigger] keys[k] == p;
                            assert(k < i && keys[k] == p);
                        }
                        if exists|k: int| 0 <= k < i && #[trigger] keys[k] == p {
                            let k = choose|k: int| 0 <= k < i && #[trigger] keys[k] == p;
                            assert(k < i + 1 && keys[k] == p);
                        }
                    }
                }
                assert forall|k: int| 0 <= k < i + 1 implies now[#[trigger] keys[k]]
                    == overrides@[keys[k]] by {
                    if keys[k] != path@ {
                        assert(k < i);
                    }
                }
                assert forall|p: Seq<char>|
                    #[trigger] self@.direct.contains_key(p) && (forall|k: int|
                        0 <= k < i + 1 ==> #[trigger] keys[k] != p) implies now[p]
                    == self@.direct[p] by {
                    assert(keys[i as int] != p);
                }
            }
            i = i + 1;
        }
        proof {
            let want = self@.direct.union_prefer_right(overrides@);
            assert forall|p: Seq<char>| #[trigger] merged@.contains_key(p) <==> want.contains_key(
                p,
            ) by {
                if overrides@.contains_key(p) {
                    assert(keys.contains(p));
                    let k = choose|k: int| 0 <= k < keys.len() && keys[k] == p;
                    assert(keys[k] == p);
                }
                if exists|k: int| 0 <= k < keys.len() && #[trigger] keys[k] == p {
                    let k = choose|k: int| 0 <= k < keys.len() && #[trigger] keys[k] == p;
                    assert(keys.contains(keys[k]));
                }
            }
            assert forall|p: Seq<char>| want.contains_key(p) implies #[trigger] merged@[p]
                == want[p] by {
                if overrides@.contains_key(p) {
                    assert(keys.contains(p));
                    let k = choose|k: int| 0 <= k < keys.len() && keys[k] == p;
                    assert(keys[k] == p);
                } else {
                    assert forall|k: int| 0 <= k < keys.len() implies #[trigger] keys[k] != p by {
                        assert(keys.contains(keys[k]));
                    }
                    assert(self@.direct.contains_key(p));
                }
            }
            assert(merged@ =~= want);
        }
        let copy = NameTable {
            base: share(&self.base),
            deltas: share_all(&self.deltas),
            path_overrides: self.path_overrides.duplicate(),
            delta_offsets: copy_offsets(&self.delta_offsets),
            active_len: self.active_len,
            slot_len: self.slot_len,
            direct_include_overrides: merged,
            all_workspace_reach: share(&self.all_workspace_reach),
        };
        proof {
            copied_layout(*self, copy, self.segments());
            assert(self@.starts =~= copy@.starts) by {
                assert forall|k: int| 0 <= k < self.segments() implies #[trigger] self@.starts[k]
                    == copy@.starts[k] by {
                    copied_layout(*self, copy, k);
                }
            }
            assert forall|k: int| 0 <= k < copy.segments() implies (
            #[trigger] copy.segment(k)).wf() by {
                assert(self.segment(k).wf());
            }
            assert forall|k: int| 0 <= k < copy.segments() implies (
            #[trigger] copy.indexed(k)).index.describes(copy.indexed(k).names) by {
                assert(self.indexed(k).index.describes(self.indexed(k).names));
            }
            assert forall|k: int| 0 <= k < copy.deltas@.len() implies #[trigger] copy.delta_offsets@[k]
                == copy.slots_below(k + 1).len() by {
                copied_layout(*self, copy, k + 1);
                assert(self.delta_offsets@[k] == self.slots_below(k + 1).len());
            }
        }
        copy
    }
}

proof fn copied_layout(a: NameTable, b: NameTable, k: int)
    requires
        0 <= k <= a.segments(),
        a.base == b.base,
        a.deltas@ == b.deltas@,
        a.path_overrides@ == b.path_overrides@,
    ensures
        a.slots_below(k) == b.slots_below(k),
        a.actives_below(k) == b.actives_below(k),
    decreases k,
{
    if k > 0 {
        copied_layout(a, b, k - 1);
        assert(a.segment(k - 1) == b.segment(k - 1));
        assert(a.actives_of(k - 1) =~= b.actives_of(k - 1));
    }
}

// ---------------------------------------------------------------------------
// Projects

/// The active slots below `n` that a project owns.
pub open spec fn project_slots_below(t: Table, key: Key, n: int) -> Seq<usize>
    decreases n,
{
    if n <= 0 {
        Seq::empty()
    } else if t.active[n - 1] && t.slots[n - 1].project == Some(key) {
        project_slots_below(t, key, n - 1).push((n - 1) as usize)
    } else {
        project_slots_below(t, key, n - 1)
    }
}

pub open spec fn project_slots(t: Table, key: Key) -> Seq<usize> {
    project_slots_below(t, key, t.slots.len() as int)
}

/// Number of active slots below `n` of one project and family.
pub open spec fn project_family_below(t: Table, key: Key, family: SemanticFamily, n: int) -> nat
    decreases n,
{
    if n <= 0 {
        0
    } else {
        project_family_below(t, key, family, n - 1) + if t.active[n - 1] && t.slots[n - 1].project
            == Some(key) && t.slots[n - 1].family == family {
            1nat
        } else {
            0nat
        }
    }
}

fn owned_by(entry: &NameEntryRef, key: &ProjectKey) -> (r: bool)
    ensures
        r == (entry@.project == Some(key@)),
{
    match entry.project_key {
        Some(k) => same_project(k, key),
        None => false,
    }
}

impl NameTable {
    /// The active slots of a project, in order.
    pub fn project_indices(&self, key: &ProjectKey) -> (r: Option<Vec<usize>>)
        requires
            self.wf(),
        ensures
            match r {
                Some(v) => v@ == project_slots(self@, key@) && v@.len() > 0,
                None => project_slots(self@, key@).len() == 0,
            },
    {
        let mut out: Vec<usize> = Vec::new();
        let mut i: usize = 0;
        while i < self.slot_len
            invariant
                self.wf(),
                i <= self.slot_len,
                out@ == project_slots_below(self@, key@, i as int),
            decreases self.slot_len - i,
        {
            if self.is_active_index(i) && owned_by(&self.entry(i), key) {
                out.push(i);
            }
            i = i + 1;
        }
        if out.len() > 0 {
            Some(out)
        } else {
            None
        }
    }

    /// Number of active declarations of a project in one language family.
    pub fn active_project_family_count(&self, key: &ProjectKey, family: SemanticFamily) -> (r:
        usize)
        requires
            self.wf(),
        ensures
            r == project_family_below(self@, key@, family, self@.slots.len() as int),
    {
        let mut count: usize = 0;
        let mut i: usize = 0;
        while i < self.slot_len
            invariant
                self.wf(),
                i <= self.slot_len,
                count <= i,
                count == project_family_below(self@, key@, family, i as int),
            decreases self.slot_len - i,
        {
            if self.is_active_index(i) {
                let entry = self.entry(i);
                if owned_by(&entry, key) && entry.semantic_family == family {
                    count = count + 1;
                }
            }
            i = i + 1;
        }
        count
    }

    pub fn has_project_for_family(&self, key: &ProjectKey, family: SemanticFamily) -> (r: bool)
        requires
            self.wf(),
        ensures
            r == (project_family_below(self@, key@, family, self@.slots.len() as int) > 0),
    {
        self.active_project_family_count(key, family) > 0
    }
}

// ---------------------------------------------------------------------------
// Laws

/// Names of `s` whose path is, or is not, among `paths`.
pub open spec fn names_on(s: Seq<Name>, paths: Set<Seq<char>>, on: bool) -> Seq<Name>
    decreases s.len(),
{
    if s.len() == 0 {
        s
    } else if paths.contains(s.last().path) == on {
        names_on(s.drop_last(), paths, on).push(s.last())
    } else {
        names_on(s.drop_last(), paths, on)
    }
}

proof fn updated_head(t: Table, paths: Set<Seq<char>>, fresh: Seq<Name>, n: int)
    requires
        t.active.len() == t.slots.len(),
        0 <= n <= t.slots.len(),
    ensures
        updated(t, paths, fresh).names_below(n) == names_on(t.names_below(n), paths, false),
    decreases n,
{
    if n > 0 {
        updated_head(t, paths, fresh, n - 1);
        let before = t.names_below(n - 1);
        let name = t.slots[n - 1];
        assert(updated(t, paths, fresh).slots[n - 1] == name);
        if t.active[n - 1] {
            assert(before.push(name).drop_last() =~= before);
        }
    }
}

proof fn updated_tail(t: Table, paths: Set<Seq<char>>, fresh: Seq<Name>, n: int)
    requires
        t.active.len() == t.slots.len(),
        0 <= n <= fresh.len(),
    ensures
        updated(t, paths, fresh).names_below(t.slots.len() + n) == names_on(
            t.names(),
            paths,
            false,
        ) + names_on(fresh.subrange(0, n), paths, true),
    decreases n,
{
    let u = updated(t, paths, fresh);
    if n == 0 {
        updated_head(t, paths, fresh, t.slots.len() as int);
        assert(names_on(fresh.subrange(0, 0), paths, true) =~= Seq::<Name>::empty());
        assert(u.names_below(t.slots.len() as int) =~= names_on(t.names(), paths, false)
            + names_on(fresh.subrange(0, 0), paths, true));
    } else {
        updated_tail(t, paths, fresh, n - 1);
        let part = fresh.subrange(0, n);
        assert(part.drop_last() =~= fresh.subrange(0, n - 1));
        assert(part.last() == fresh[n - 1]);
        assert(u.slots[t.slots.len() + n - 1] == fresh[n - 1]);
        assert(u.active[t.slots.len() + n - 1] == paths.contains(fresh[n - 1].path));
        assert(u.names_below(t.slots.len() + n) =~= names_on(t.names(), paths, false) + names_on(
            part,
            paths,
            true,
        ));
    }
}

/// After an update the active names are the old ones on other paths, followed
/// by the fresh ones on the replaced paths.
pub proof fn update_replaces_paths(t: Table, paths: Set<Seq<char>>, fresh: Seq<Name>)
    requires
        t.active.len() == t.slots.len(),
    ensures
        updated(t, paths, fresh).names() == names_on(t.names(), paths, false) + names_on(
            fresh,
            paths,
            true,
        ),
{
    updated_tail(t, paths, fresh, fresh.len() as int);
    assert(fresh.subrange(0, fresh.len() as int) =~= fresh);
}

proof fn fresh_names_below(names: Seq<Name>, direct: Map<Seq<char>, bool>, n: int)
    requires
        0 <= n <= names.len(),
    ensures
        fresh_table(names, direct).names_below(n) == names.subrange(0, n),
    decreases n,
{
    if n > 0 {
        fresh_names_below(names, direct, n - 1);
        assert(names.subrange(0, n) =~= names.subrange(0, n - 1).push(names[n - 1]));
    } else {
        assert(names.subrange(0, 0) =~= Seq::<Name>::empty());
    }
}

/// Compaction keeps exactly the active names, in their order, and leaves
/// nothing inactive.
pub proof fn compaction_keeps_names(t: Table)
    ensures
        fresh_table(t.names(), t.direct).names() == t.names(),
        fresh_table(t.names(), t.direct).starts.len() == 1,
        forall|i: int|
            0 <= i < t.names().len() ==> #[trigger] fresh_table(t.names(), t.direct).active[i],
{
    fresh_names_below(t.names(), t.direct, t.names().len() as int);
    assert(t.names().subrange(0, t.names().len() as int) =~= t.names());
}

/// An update of no path changes no active name.
pub proof fn empty_update_keeps_names(t: Table, fresh: Seq<Name>)
    requires
        t.active.len() == t.slots.len(),
    ensures
        updated(t, Set::empty(), fresh).names() == t.names(),
{
    update_replaces_paths(t, Set::empty(), fresh);
    names_on_nothing(t.names(), false);
    names_on_nothing(fresh, true);
    assert(t.names() + Seq::<Name>::empty() =~= t.names());
}

proof fn names_on_nothing(s: Seq<Name>, on: bool)
    ensures
        names_on(s, Set::empty(), on) == (if on {
            Seq::<Name>::empty()
        } else {
            s
        }),
    decreases s.len(),
{
    if s.len() > 0 {
        names_on_nothing(s.drop_last(), on);
        assert(s.drop_last().push(s.last()) =~= s);
    } else {
        assert(s =~= Seq::<Name>::empty());
    }
}

/// Replacing a path again leaves only the last replacement of it.
pub proof fn last_update_wins(
    t: Table,
    paths: Set<Seq<char>>,
    first: Seq<Name>,
    second: Seq<Name>,
)
    requires
        t.active.len() == t.slots.len(),
    ensures
        updated(updated(t, paths, first), paths, second).names() == updated(
            t,
            paths,
            second,
        ).names(),
{
    let once = updated(t, paths, first);
    update_replaces_paths(t, paths, first);
    update_replaces_paths(once, paths, second);
    update_replaces_paths(t, paths, second);
    let kept = names_on(t.names(), paths, false);
    let added = names_on(first, paths, true);
    names_on_concat(kept, added, paths, false);
    names_on_again(t.names(), paths);
    names_on_opposite(first, paths);
    assert(kept + Seq::<Name>::empty() =~= kept);
}

proof fn names_on_concat(a: Seq<Name>, b: Seq<Name>, paths: Set<Seq<char>>, on: bool)
    ensures
        names_on(a + b, paths, on) == names_on(a, paths, on) + names_on(b, paths, on),
    decreases b.len(),
{
    if b.len() == 0 {
        assert(a + b =~= a);
        assert(names_on(a, paths, on) + names_on(b, paths, on) =~= names_on(a, paths, on));
    } else {
        names_on_concat(a, b.drop_last(), paths, on);
        assert((a + b).drop_last() =~= a + b.drop_last());
        assert((a + b).last() == b.last());
        assert(names_on(a + b, paths, on) =~= names_on(a, paths, on) + names_on(b, paths, on));
    }
}

proof fn names_on_again(s: Seq<Name>, paths: Set<Seq<char>>)
    ensures
        names_on(names_on(s, paths, false), paths, false) == names_on(s, paths, false),
    decreases s.len(),
{
    if s.len() > 0 {
        names_on_again(s.drop_last(), paths);
        if !paths.contains(s.last().path) {
            let head = names_on(s.drop_last(), paths, false);
            assert(head.push(s.last()).drop_last() =~= head);
        }
    }
}

proof fn names_on_opposite(s: Seq<Name>, paths: Set<Seq<char>>)
    ensures
        names_on(names_on(s, paths, true), paths, false) == Seq::<Name>::empty(),
    decreases s.len(),
{
    if s.len() > 0 {
        names_on_opposite(s.drop_last(), paths);
        if paths.contains(s.last().path) {
            let head = names_on(s.drop_last(), paths, true);
            assert(head.push(s.last()).drop_last() =~= head);
        }
    } else {
        assert(names_on(s, paths, true) =~= Seq::<Name>::empty());
    }
}

// ---------------------------------------------------------------------------
// Receiver hints

/// Position after the underscores and digits at `i`.
pub open spec fn decoration_end(s: Seq<char>, i: int) -> int
    decreases s.len() - i,
{
    if 0 <= i < s.len() && (s[i] == '_' || char_is_digit(s[i])) {
        decoration_end(s, i + 1)
    } else {
        i
    }
}

/// A receiver name as a hint at its record: without leading underscores and
/// digits, in lower case.
pub fn normalized_receiver_record_hint(receiver_name: &str) -> (r: String)
    ensures
        r@ == chars_lower(
            receiver_name@.subrange(decoration_end(receiver_name@, 0), receiver_name@.len() as int),
        ),
{
    let chars = chars_of(receiver_name);
    let mut i: usize = 0;
    while i < chars.len() && (chars[i] == '_' || is_digit(chars[i]))
        invariant
            i <= chars@.len(),
            decoration_end(chars@, 0) == decoration_end(chars@, i as int),
        decreases chars@.len() - i,
    {
        i = i + 1;
    }
    string_of(&lower_chars(vstd::slice::slice_subrange(chars.as_slice(), i, chars.len())))
}

} // verus!
