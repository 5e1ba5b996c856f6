//! Which files a file reaches.

use vstd::prelude::*;

use crate::chars::{same_text, texts};
use crate::memory::{is_index_estimate, text_index_bytes};
use crate::text_index::TextIndex;

verus! {

/// A set of paths.
#[derive(Debug)]
pub struct PathSet {
    index: TextIndex,
}

impl View for PathSet {
    type V = Set<Seq<char>>;

    closed spec fn view(&self) -> Set<Seq<char>> {
        self.index@.to_set()
    }
}

impl Clone for PathSet {
    fn clone(&self) -> (r: Self)
        ensures
            r@ == self@,
            r.listed() == self.listed(),
    {
        self.duplicate()
    }
}

impl Default for PathSet {
    fn default() -> (r: Self)
        ensures
            r@ == Set::<Seq<char>>::empty(),
    {
        PathSet::new()
    }
}

impl PathSet {
    #[verifier::type_invariant]
    spec fn inv(self) -> bool {
        self.index.wf()
    }

    /// The paths as a list without repeats.
    pub closed spec fn listed(self) -> Seq<Seq<char>> {
        self.index@
    }

    pub fn new() -> (r: PathSet)
        ensures
            r@ == Set::<Seq<char>>::empty(),
    {
        let r = PathSet { index: TextIndex::new() };
        assert(r@ =~= Set::<Seq<char>>::empty());
        r
    }

    /// The set of the given paths.
    pub fn from_paths(paths: Vec<String>) -> (r: PathSet)
        ensures
            r@ == texts(paths@).to_set(),
    {
        let mut r = PathSet::new();
        let ghost all = texts(paths@);
        let mut i: usize = 0;
        assert(all.subrange(0, 0).to_set() =~= Set::<Seq<char>>::empty());
        while i < paths.len()
            invariant
                i <= paths@.len(),
                all == texts(paths@),
                r@ == all.subrange(0, i as int).to_set(),
            decreases paths@.len() - i,
        {
            r.insert(paths[i].as_str());
            proof {
                push_to_set(all.subrange(0, i as int), all[i as int]);
                assert(all.subrange(0, i + 1) =~= all.subrange(0, i as int).push(all[i as int]));
            }
            i = i + 1;
        }
        assert(all.subrange(0, i as int) =~= all);
        r
    }

    /// Add a path.
    pub fn insert(&mut self, path: &str)
        ensures
            final(self)@ == old(self)@.insert(path@),
    {
        let mut taken = PathSet::new();
        std::mem::swap(self, &mut taken);
        proof {
            use_type_invariant(&taken);
        }
        let mut index = taken.index;
        let ghost before = index@;
        let _ = index.intern(path);
        *self = PathSet { index };
        proof {
            if before.contains(path@) {
                assert(before.to_set() =~= before.to_set().insert(path@));
            } else {
                push_to_set(before, path@);
            }
        }
    }

    pub fn contains(&self, path: &str) -> (r: bool)
        ensures
            r == self@.contains(path@),
    {
        proof {
            use_type_invariant(self);
        }
        self.index.contains(path)
    }

    /// Number of paths.
    pub fn len(&self) -> (r: usize)
        ensures
            r == self.listed().len(),
    {
        self.index.len()
    }

    pub fn path_at(&self, i: usize) -> (r: &str)
        requires
            i < self.listed().len(),
        ensures
            r@ == self.listed()[i as int],
    {
        self.index.get(i)
    }

    /// The paths as they are held.
    pub closed spec fn held(&self) -> TextIndex {
        self.index
    }

    /// An estimate for the set.
    pub fn accounted_bytes(&self) -> (r: usize)
        ensures
            is_index_estimate(self.held(), r as int),
    {
        text_index_bytes(&self.index)
    }

    /// A copy of the set.
    pub fn duplicate(&self) -> (r: PathSet)
        ensures
            r@ == self@,
            r.listed() == self.listed(),
    {
        proof {
            use_type_invariant(self);
        }
        PathSet { index: self.index.duplicate() }
    }
}

/// The list of a path set holds exactly its paths, each once.
pub proof fn listed_paths(s: PathSet)
    ensures
        s.listed().to_set() == s@,
        forall|p: Seq<char>| s@.contains(p) <==> s.listed().contains(p),
{
}

proof fn push_to_set(s: Seq<Seq<char>>, x: Seq<char>)
    ensures
        s.push(x).to_set() == s.to_set().insert(x),
{
    assert forall|y: Seq<char>|
        #[trigger] s.push(x).to_set().contains(y) <==> s.to_set().insert(x).contains(y) by {
        if s.push(x).contains(y) {
            let i = choose|i: int| 0 <= i < s.push(x).len() && s.push(x)[i] == y;
            if i < s.len() {
                assert(s[i] == y);
            }
        }
        if s.contains(y) {
            let i = choose|i: int| 0 <= i < s.len() && s[i] == y;
            assert(s.push(x)[i] == y);
        }
        if y == x {
            assert(s.push(x)[s.len() as int] == x);
        }
    }
    assert(s.push(x).to_set() =~= s.to_set().insert(x));
}

/// Why the reach of a file is not known to be complete.
#[derive(Debug, Clone, Copy, PartialEq, Eq, Hash, Structural)]
pub enum OpenReason {
    UnresolvedInclude,
    AmbiguousInclude,
}

/// The files that one file reaches.
#[derive(Debug, Clone, Default)]
pub struct ReachScope {
    /// Files reached through resolved inclusion.
    pub files: PathSet,
    /// Files that a heuristic, not a resolved inclusion, puts in reach.
    pub heuristic_files: PathSet,
    /// Some inclusion is unresolved, so more files may be reached.
    pub open: bool,
    pub reason: Option<OpenReason>,
}

/// The reach of several files, by path.
#[derive(Debug, Clone, Default)]
pub struct SourceReach {
    pub entries: Vec<(String, ReachScope)>,
}

impl SourceReach {
    pub open spec fn lookup_from(self, path: Seq<char>, i: int) -> Option<ReachScope>
        decreases self.entries@.len() - i,
    {
        if i < 0 || i >= self.entries@.len() {
            None
        } else if self.entries@[i].0@ == path {
            Some(self.entries@[i].1)
        } else {
            self.lookup_from(path, i + 1)
        }
    }

    /// The reach recorded for a path.
    pub open spec fn lookup(self, path: Seq<char>) -> Option<ReachScope> {
        self.lookup_from(path, 0)
    }

    pub fn get(&self, path: &str) -> (r: Option<&ReachScope>)
        ensures
            match r {
                Some(scope) => self.lookup(path@) == Some(*scope),
                None => self.lookup(path@) is None,
            },
    {
        let mut i: usize = 0;
        while i < self.entries.len()
            invariant
                i <= self.entries@.len(),
                self.lookup(path@) == self.lookup_from(path@, i as int),
            decreases self.entries@.len() - i,
        {
            if same_text(self.entries[i].0.as_str(), path) {
                return Some(&self.entries[i].1);
            }
            i = i + 1;
        }
        None
    }

    /// Whether `from` is recorded to reach `to` through resolved inclusion.
    pub open spec fn spec_reaches(self, from: Seq<char>, to: Seq<char>) -> bool {
        match self.lookup(from) {
            Some(scope) => scope.files@.contains(to),
            None => false,
        }
    }

    pub fn reaches(&self, from: &str, to: &str) -> (r: bool)
        ensures
            r == self.spec_reaches(from@, to@),
    {
        match self.get(from) {
            Some(scope) => scope.files.contains(to),
            None => false,
        }
    }
}

} // verus!
