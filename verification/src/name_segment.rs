//! Compact name segments: declarations with interned names, paths and
//! projects.

use vstd::prelude::*;
use vstd::utf8::encode_utf8;

use crate::chars::{bytes_lower, lower_bytes};
use crate::facts::{SemanticFamily, SymbolKind, SymbolRole};
use crate::project_context::{opt_key, same_project, Key, ProjectKey};
use crate::text_index::TextIndex;

verus! {

/// A declared name, before it is packed into a segment.
#[derive(Debug, Clone, PartialEq, Eq)]
pub struct NameEntry {
    pub id: i64,
    pub name: String,
    pub external: bool,
    /// The external header of the declaration is included by a workspace file
    /// itself.
    pub directly_included: bool,
    pub path: String,
    pub kind: SymbolKind,
    pub role: SymbolRole,
    pub semantic_family: SemanticFamily,
    pub project_key: Option<ProjectKey>,
}

/// A declared name with its texts as sequences. Only external names can be
/// directly included.
pub struct Name {
    pub id: i64,
    pub name: Seq<char>,
    pub external: bool,
    pub directly_included: bool,
    pub path: Seq<char>,
    pub kind: SymbolKind,
    pub role: SymbolRole,
    pub family: SemanticFamily,
    pub project: Option<Key>,
}

impl View for NameEntry {
    type V = Name;

    open spec fn view(&self) -> Name {
        Name {
            id: self.id,
            name: self.name@,
            external: self.external,
            directly_included: self.external && self.directly_included,
            path: self.path@,
            kind: self.kind,
            role: self.role,
            family: self.semantic_family,
            project: opt_key(self.project_key),
        }
    }
}

pub open spec fn entry_views(s: Seq<NameEntry>) -> Seq<Name> {
    Seq::new(s.len(), |i: int| s[i]@)
}

/// The ASCII-folded bytes of a name.
pub open spec fn folded(name: Seq<char>) -> Seq<u8> {
    bytes_lower(encode_utf8(name))
}

/// A name borrowed from a segment.
#[derive(Clone, Copy)]
pub struct NameEntryRef<'a> {
    pub id: i64,
    pub name: &'a str,
    pub lower: &'a [u8],
    pub external: bool,
    pub directly_included: bool,
    pub path: &'a str,
    pub kind: SymbolKind,
    pub role: SymbolRole,
    pub semantic_family: SemanticFamily,
    pub project_key: Option<&'a ProjectKey>,
}

pub open spec fn opt_key_ref(k: Option<&ProjectKey>) -> Option<Key> {
    match k {
        Some(key) => Some(key@),
        None => None,
    }
}

impl<'a> View for NameEntryRef<'a> {
    type V = Name;

    open spec fn view(&self) -> Name {
        Name {
            id: self.id,
            name: self.name@,
            external: self.external,
            directly_included: self.directly_included,
            path: self.path@,
            kind: self.kind,
            role: self.role,
            family: self.semantic_family,
            project: opt_key_ref(self.project_key),
        }
    }
}

impl<'a> NameEntryRef<'a> {
    pub open spec fn wf(self) -> bool {
        self.lower@ == folded(self.name@) && (self.directly_included ==> self.external)
    }
}

// ---------------------------------------------------------------------------
// Packed evidence

/// Family and externality of a declaration in one byte: bit 0 external, bit 1
/// directly included, bit 2 the Go family.
#[derive(Debug, Clone, Copy, PartialEq, Eq, Structural)]
pub struct CompactNameFlags {
    pub bits: u8,
}

impl CompactNameFlags {
    pub open spec fn is_external(self) -> bool {
        self.bits & 1 != 0
    }

    pub open spec fn is_direct(self) -> bool {
        self.bits & 2 != 0
    }

    pub open spec fn family(self) -> SemanticFamily {
        if self.bits & 4 != 0 {
            SemanticFamily::Go
        } else {
            SemanticFamily::CFamily
        }
    }

    pub fn new(family: SemanticFamily, external: bool, directly_included: bool) -> (r: Self)
        ensures
            r.family() == family,
            r.is_external() == external,
            r.is_direct() == (external && directly_included),
    {
        let mut bits: u8 = match family {
            SemanticFamily::CFamily => 0,
            SemanticFamily::Go => 4,
        };
        proof {
            assert(0u8 & 1 == 0 && 0u8 & 2 == 0 && 0u8 & 4 == 0) by (bit_vector);
            assert(4u8 & 1 == 0 && 4u8 & 2 == 0 && 4u8 & 4 != 0) by (bit_vector);
            let b = bits;
            assert((b | 1) & 1 != 0 && (b | 1) & 2 == b & 2 && (b | 1) & 4 == b & 4)
                by (bit_vector);
        }
        if external {
            bits = bits | 1;
        }
        proof {
            let b = bits;
            assert((b | 2) & 2 != 0 && (b | 2) & 1 == b & 1 && (b | 2) & 4 == b & 4)
                by (bit_vector);
        }
        if external && directly_included {
            bits = bits | 2;
        }
        CompactNameFlags { bits }
    }

    pub fn semantic_family(self) -> (r: SemanticFamily)
        ensures
            r == self.family(),
    {
        if self.bits & 4 == 0 {
            SemanticFamily::CFamily
        } else {
            SemanticFamily::Go
        }
    }

    pub fn external(self) -> (r: bool)
        ensures
            r == self.is_external(),
    {
        self.bits & 1 != 0
    }

    pub fn directly_included(self) -> (r: bool)
        ensures
            r == self.is_direct(),
    {
        self.bits & 2 != 0
    }
}

pub const NO_PROJECT_ID: u32 = 0xFFFF_FFFF;

#[derive(Debug, Clone, Copy, PartialEq, Eq, Structural)]
pub struct CompactNameEntry {
    pub id: i64,
    pub name_id: u32,
    pub path_id: u32,
    pub project_id: u32,
    pub kind: SymbolKind,
    pub role: SymbolRole,
    pub flags: CompactNameFlags,
}

// ---------------------------------------------------------------------------
// Segments

/// An immutable set of declarations.
pub struct NameSegment {
    pub entries: Vec<CompactNameEntry>,
    pub names: TextIndex,
    /// Folded spelling of each name.
    pub lowers: Vec<Vec<u8>>,
    pub paths: TextIndex,
    /// Number of declarations on each path.
    pub path_counts: Vec<usize>,
    /// Whether all declarations on a path are external.
    pub path_is_external: Vec<bool>,
    pub projects: Vec<ProjectKey>,
}

/// Number of the first `n` entries on a path.
pub open spec fn count_on_path(entries: Seq<CompactNameEntry>, path_id: int, n: int) -> nat
    decreases n,
{
    if n <= 0 {
        0
    } else {
        count_on_path(entries, path_id, n - 1) + if entries[n - 1].path_id == path_id {
            1nat
        } else {
            0nat
        }
    }
}

/// Whether all of the first `n` entries on a path are external.
pub open spec fn external_on_path(entries: Seq<CompactNameEntry>, path_id: int, n: int) -> bool {
    forall|i: int|
        0 <= i < n && (#[trigger] entries[i]).path_id == path_id ==> entries[i].flags.is_external()
}

impl NameSegment {
    pub open spec fn entry_wf(self, e: CompactNameEntry) -> bool {
        &&& e.name_id < self.names@.len()
        &&& e.path_id < self.paths@.len()
        &&& e.project_id == NO_PROJECT_ID || e.project_id < self.projects@.len()
        &&& e.flags.is_direct() ==> e.flags.is_external()
    }

    pub open spec fn wf(self) -> bool {
        &&& self.names.wf()
        &&& self.paths.wf()
        &&& self.entries@.len() < NO_PROJECT_ID
        &&& self.names@.len() <= self.entries@.len()
        &&& self.paths@.len() <= self.entries@.len()
        &&& self.projects@.len() <= self.entries@.len()
        &&& self.lowers@.len() == self.names@.len()
        &&& forall|i: int|
            0 <= i < self.names@.len() ==> (#[trigger] self.lowers@[i])@ == folded(self.names@[i])
        &&& forall|i: int|
            0 <= i < self.entries@.len() ==> self.entry_wf(#[trigger] self.entries@[i])
        &&& self.path_counts@.len() == self.paths@.len()
        &&& self.path_is_external@.len() == self.paths@.len()
        &&& forall|p: int|
            0 <= p < self.paths@.len() ==> #[trigger] self.path_counts@[p] == count_on_path(
                self.entries@,
                p,
                self.entries@.len() as int,
            )
        &&& forall|p: int|
            0 <= p < self.paths@.len() ==> #[trigger] self.path_is_external@[p]
                == external_on_path(self.entries@, p, self.entries@.len() as int)
    }

    /// The declaration that a packed entry stands for.
    pub open spec fn unpacked(self, e: CompactNameEntry) -> Name {
        Name {
            id: e.id,
            name: self.names@[e.name_id as int],
            external: e.flags.is_external(),
            directly_included: e.flags.is_direct(),
            path: self.paths@[e.path_id as int],
            kind: e.kind,
            role: e.role,
            family: e.flags.family(),
            project: if e.project_id == NO_PROJECT_ID {
                None
            } else {
                Some(self.projects@[e.project_id as int]@)
            },
        }
    }
}

impl View for NameSegment {
    type V = Seq<Name>;

    open spec fn view(&self) -> Seq<Name> {
        Seq::new(self.entries@.len(), |i: int| self.unpacked(self.entries@[i]))
    }
}

impl NameSegment {
    pub fn new() -> (r: NameSegment)
        ensures
            r.wf(),
            r@ == Seq::<Name>::empty(),
    {
        let r = NameSegment {
            entries: Vec::new(),
            names: TextIndex::new(),
            lowers: Vec::new(),
            paths: TextIndex::new(),
            path_counts: Vec::new(),
            path_is_external: Vec::new(),
            projects: Vec::new(),
        };
        assert(r@ =~= Seq::<Name>::empty());
        r
    }

    pub fn entry<'a>(&'a self, index: usize) -> (r: NameEntryRef<'a>)
        requires
            self.wf(),
            index < self@.len(),
        ensures
            r@ == self@[index as int],
            r.wf(),
    {
        let e = self.entries[index];
        assert(self.entry_wf(self.entries@[index as int]));
        assert(self.lowers@[e.name_id as int]@ == folded(self.names@[e.name_id as int]));
        let project_key: Option<&'a ProjectKey> = if e.project_id != NO_PROJECT_ID {
            Some(&self.projects[e.project_id as usize])
        } else {
            None
        };
        NameEntryRef {
            id: e.id,
            name: self.names.get(e.name_id as usize),
            lower: self.lowers[e.name_id as usize].as_slice(),
            external: e.flags.external(),
            directly_included: e.flags.directly_included(),
            path: self.paths.get(e.path_id as usize),
            kind: e.kind,
            role: e.role,
            semantic_family: e.flags.semantic_family(),
            project_key,
        }
    }

    /// The number of a project in the segment.
    pub fn project_id(&self, key: &ProjectKey) -> (r: Option<u32>)
        requires
            self.wf(),
        ensures
            match r {
                Some(i) => project_from(self.projects@, key@, 0) == Some(i as int) && i
                    < self.projects@.len() && self.projects@[i as int]@ == key@,
                None => project_from(self.projects@, key@, 0) is None,
            },
    {
        match project_position(&self.projects, key) {
            Some(i) => Some(i as u32),
            None => None,
        }
    }

    /// Number of declarations on a path.
    pub open spec fn spec_path_count(self, path: Seq<char>) -> nat {
        count_path(self@, path, self@.len() as int)
    }

    pub fn path_count(&self, path: &str) -> (r: usize)
        requires
            self.wf(),
        ensures
            r == self.spec_path_count(path@),
    {
        match self.paths.find(path) {
            Some(p) => {
                proof {
                    count_path_is_count(*self, p as int, self.entries@.len() as int);
                    assert(self.path_counts@[p as int] == count_on_path(
                        self.entries@,
                        p as int,
                        self.entries@.len() as int,
                    ));
                }
                self.path_counts[p]
            },
            None => {
                proof {
                    count_path_missing(*self, path@, self.entries@.len() as int);
                }
                0
            },
        }
    }
}

/// Number of the first `n` names on a path.
pub open spec fn count_path(names: Seq<Name>, path: Seq<char>, n: int) -> nat
    decreases n,
{
    if n <= 0 {
        0
    } else {
        count_path(names, path, n - 1) + if names[n - 1].path == path {
            1nat
        } else {
            0nat
        }
    }
}

proof fn count_path_is_count(s: NameSegment, p: int, n: int)
    requires
        s.wf(),
        0 <= p < s.paths@.len(),
        0 <= n <= s.entries@.len(),
    ensures
        count_path(s@, s.paths@[p], n) == count_on_path(s.entries@, p, n),
    decreases n,
{
    if n > 0 {
        count_path_is_count(s, p, n - 1);
        let e = s.entries@[n - 1];
        assert(s.entry_wf(e));
        assert(s@[n - 1].path == s.paths@[e.path_id as int]);
    }
}

proof fn count_path_missing(s: NameSegment, path: Seq<char>, n: int)
    requires
        s.wf(),
        !s.paths@.contains(path),
        0 <= n <= s.entries@.len(),
    ensures
        count_path(s@, path, n) == 0,
    decreases n,
{
    if n > 0 {
        count_path_missing(s, path, n - 1);
        let e = s.entries@[n - 1];
        assert(s.entry_wf(e));
        assert(s@[n - 1].path == s.paths@[e.path_id as int]);
    }
}

// ---------------------------------------------------------------------------
// Building

/// The first place of a project, from `i` on.
pub open spec fn project_from(projects: Seq<ProjectKey>, key: Key, i: int) -> Option<int>
    decreases projects.len() - i,
{
    if i < 0 || i >= projects.len() {
        None
    } else if projects[i]@ == key {
        Some(i)
    } else {
        project_from(projects, key, i + 1)
    }
}

fn project_position(projects: &Vec<ProjectKey>, key: &ProjectKey) -> (r: Option<usize>)
    ensures
        match r {
            Some(i) => project_from(projects@, key@, 0) == Some(i as int) && i < projects@.len()
                && projects@[i as int]@ == key@,
            None => project_from(projects@, key@, 0) is None,
        },
{
    let mut i: usize = 0;
    while i < projects.len()
        invariant
            i <= projects@.len(),
            project_from(projects@, key@, 0) == project_from(projects@, key@, i as int),
        decreases projects@.len() - i,
    {
        if same_project(&projects[i], key) {
            return Some(i);
        }
        i = i + 1;
    }
    None
}

/// Accumulates declarations and interns their texts.
pub struct NameIndexBuilder {
    pub segment: NameSegment,
}

impl NameIndexBuilder {
    pub fn new() -> (r: Self)
        ensures
            r.segment.wf(),
            r.segment@ == Seq::<Name>::empty(),
    {
        NameIndexBuilder { segment: NameSegment::new() }
    }

    /// Add a declaration.
    #[verifier::rlimit(60)]
    pub fn push_ref(&mut self, entry: NameEntryRef)
        requires
            old(self).segment.wf(),
            old(self).segment@.len() < NO_PROJECT_ID - 1,
            entry.directly_included ==> entry.external,
        ensures
            final(self).segment.wf(),
            final(self).segment@ == old(self).segment@.push(entry@),
    {
        let ghost before = self.segment;
        let ghost names0 = self.segment.names@;
        let ghost paths0 = self.segment.paths@;
        let ghost count = self.segment.entries@.len();
        let fresh_name = !self.segment.names.contains(entry.name);
        let name_id: usize = self.segment.names.intern(entry.name);
        if fresh_name {
            self.segment.lowers.push(lower_bytes(entry.name.as_bytes()));
        }
        let fresh_path = !self.segment.paths.contains(entry.path);
        let path_id: usize = self.segment.paths.intern(entry.path);
        if fresh_path {
            self.segment.path_counts.push(0);
            self.segment.path_is_external.push(true);
        }
        let project_id: u32 = match entry.project_key {
            Some(key) => match project_position(&self.segment.projects, key) {
                Some(i) => i as u32,
                None => {
                    self.segment.projects.push(key.clone());
                    (self.segment.projects.len() - 1) as u32
                },
            },
            None => NO_PROJECT_ID,
        };
        let packed = CompactNameEntry {
            id: entry.id,
            name_id: name_id as u32,
            path_id: path_id as u32,
            project_id,
            kind: entry.kind,
            role: entry.role,
            flags: CompactNameFlags::new(
                entry.semantic_family,
                entry.external,
                entry.directly_included,
            ),
        };
        proof {
            count_bounded(before.entries@, path_id as int, count as int);
            if fresh_path {
                count_unseen(before, path_id as int, count as int);
            }
        }
        let counted: usize = self.segment.path_counts[path_id];
        self.segment.path_counts.set(path_id, counted + 1);
        if !entry.external {
            self.segment.path_is_external.set(path_id, false);
        }
        self.segment.entries.push(packed);
        proof {
            let after = self.segment;
            assert(after.entries@ == before.entries@.push(packed));
            assert forall|i: int| 0 <= i < after.entries@.len() implies after.entry_wf(
                #[trigger] after.entries@[i],
            ) by {
                if i < count {
                    assert(before.entry_wf(before.entries@[i]));
                }
            }
            assert forall|i: int| 0 <= i < after.names@.len() implies (
            #[trigger] after.lowers@[i])@ == folded(after.names@[i]) by {
                if i < before.names@.len() {
                    assert(before.lowers@[i]@ == folded(before.names@[i]));
                }
            }
            assert forall|p: int| 0 <= p < after.paths@.len() implies #[trigger] after.path_counts@[p]
                == count_on_path(after.entries@, p, after.entries@.len() as int) by {
                count_prefix(before.entries@, packed, p, count as int);
                if p < before.paths@.len() {
                    assert(before.path_counts@[p] == count_on_path(
                        before.entries@,
                        p,
                        count as int,
                    ));
                }
            }
            assert forall|p: int|
                0 <= p < after.paths@.len() implies #[trigger] after.path_is_external@[p]
                == external_on_path(after.entries@, p, after.entries@.len() as int) by {
                if p < before.paths@.len() {
                    assert(before.path_is_external@[p] == external_on_path(
                        before.entries@,
                        p,
                        count as int,
                    ));
                }
                external_prefix(before, packed, p, count as int);
            }
            assert(after@ =~= before@.push(entry@)) by {
                assert forall|i: int| 0 <= i < count implies after@[i] == before@[i] by {
                    let e = before.entries@[i];
                    assert(before.entry_wf(e));
                    assert(after.entries@[i] == e);
                }
            }
        }
    }

    pub fn push_entry(&mut self, entry: &NameEntry)
        requires
            old(self).segment.wf(),
            old(self).segment@.len() < NO_PROJECT_ID - 1,
        ensures
            final(self).segment.wf(),
            final(self).segment@ == old(self).segment@.push(entry@),
    {
        let lower = lower_bytes(entry.name.as_str().as_bytes());
        let project_key: Option<&ProjectKey> = match &entry.project_key {
            Some(key) => Some(key),
            None => None,
        };
        self.push_ref(
            NameEntryRef {
                id: entry.id,
                name: entry.name.as_str(),
                lower: lower.as_slice(),
                external: entry.external,
                directly_included: entry.external && entry.directly_included,
                path: entry.path.as_str(),
                kind: entry.kind,
                role: entry.role,
                semantic_family: entry.semantic_family,
                project_key,
            },
        );
    }

    pub fn finish_segment(self) -> (r: NameSegment)
        ensures
            r == self.segment,
    {
        self.segment
    }
}

proof fn count_bounded(entries: Seq<CompactNameEntry>, p: int, n: int)
    requires
        0 <= n,
    ensures
        count_on_path(entries, p, n) <= n,
    decreases n,
{
    if n > 0 {
        count_bounded(entries, p, n - 1);
    }
}

proof fn count_unseen(s: NameSegment, p: int, n: int)
    requires
        s.wf(),
        p >= s.paths@.len(),
        0 <= n <= s.entries@.len(),
    ensures
        count_on_path(s.entries@, p, n) == 0,
    decreases n,
{
    if n > 0 {
        count_unseen(s, p, n - 1);
        assert(s.entry_wf(s.entries@[n - 1]));
    }
}

proof fn count_prefix(entries: Seq<CompactNameEntry>, e: CompactNameEntry, p: int, n: int)
    requires
        0 <= n <= entries.len(),
    ensures
        count_on_path(entries.push(e), p, n) == count_on_path(entries, p, n),
        n == entries.len() ==> count_on_path(entries.push(e), p, n + 1) == count_on_path(
            entries,
            p,
            n,
        ) + if e.path_id == p {
            1nat
        } else {
            0nat
        },
    decreases n,
{
    if n > 0 {
        count_prefix(entries, e, p, n - 1);
    }
}

proof fn external_prefix(s: NameSegment, e: CompactNameEntry, p: int, n: int)
    requires
        n == s.entries@.len(),
        s.wf(),
    ensures
        external_on_path(s.entries@.push(e), p, n + 1) == (external_on_path(s.entries@, p, n) && (
        e.path_id == p ==> e.flags.is_external())),
        p >= s.paths@.len() ==> external_on_path(s.entries@, p, n),
{
    let after = s.entries@.push(e);
    assert(after[n] == e);
    if external_on_path(after, p, n + 1) {
        assert forall|i: int| 0 <= i < n && (#[trigger] s.entries@[i]).path_id == p implies s.entries@[i].flags.is_external() by {
            assert(after[i] == s.entries@[i]);
        }
    }
    if external_on_path(s.entries@, p, n) && (e.path_id == p ==> e.flags.is_external()) {
        assert forall|i: int| 0 <= i < n + 1 && (#[trigger] after[i]).path_id == p implies after[i].flags.is_external() by {
            if i < n {
                assert(after[i] == s.entries@[i]);
            }
        }
    }
    if p >= s.paths@.len() {
        assert forall|i: int| 0 <= i < n && (#[trigger] s.entries@[i]).path_id == p implies s.entries@[i].flags.is_external() by {
            assert(s.entry_wf(s.entries@[i]));
        }
    }
}

impl NameSegment {
    pub fn from_entries(entries: &Vec<NameEntry>) -> (r: NameSegment)
        requires
            entries@.len() < NO_PROJECT_ID,
        ensures
            r.wf(),
            r@ == entry_views(entries@),
    {
        let ghost all = entry_views(entries@);
        let mut builder = NameIndexBuilder::new();
        let mut i: usize = 0;
        assert(builder.segment@ =~= all.subrange(0, 0));
        while i < entries.len()
            invariant
                i <= entries@.len(),
                entries@.len() < NO_PROJECT_ID,
                all == entry_views(entries@),
                builder.segment.wf(),
                builder.segment@ == all.subrange(0, i as int),
            decreases entries@.len() - i,
        {
            builder.push_entry(&entries[i]);
            i = i + 1;
            assert(builder.segment@ =~= all.subrange(0, i as int));
        }
        assert(all.subrange(0, i as int) =~= all);
        builder.finish_segment()
    }
}

} // verus!
