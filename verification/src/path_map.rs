//! Values by path.

use vstd::prelude::*;

use crate::text_index::TextIndex;

verus! {

/// A value for each of some paths.
#[derive(Debug, Clone, Default)]
pub struct PathMap<V> {
    pub keys: TextIndex,
    pub values: Vec<V>,
}

impl<V> View for PathMap<V> {
    type V = Map<Seq<char>, V>;

    open spec fn view(&self) -> Map<Seq<char>, V> {
        Map::new(
            |p: Seq<char>| self.keys@.contains(p),
            |p: Seq<char>| self.values@[self.keys@.index_of(p)],
        )
    }
}

impl<V: Copy> PathMap<V> {
    pub open spec fn wf(self) -> bool {
        self.keys.wf() && self.values@.len() == self.keys@.len()
    }

    pub fn new() -> (r: PathMap<V>)
        ensures
            r.wf(),
            r@ == Map::<Seq<char>, V>::empty(),
    {
        let r = PathMap { keys: TextIndex::new(), values: Vec::new() };
        assert(r@ =~= Map::<Seq<char>, V>::empty());
        r
    }

    pub fn is_empty(&self) -> (r: bool)
        ensures
            r == (self.keys@.len() == 0),
    {
        self.keys.len() == 0
    }

    pub fn get(&self, path: &str) -> (r: Option<V>)
        requires
            self.wf(),
        ensures
            r == (if self@.contains_key(path@) {
                Some(self@[path@])
            } else {
                None
            }),
    {
        match self.keys.find(path) {
            Some(i) => {
                proof {
                    assert(self.keys@.contains(path@));
                    let k = self.keys@.index_of(path@);
                    assert(self.keys@[k] == self.keys@[i as int]);
                }
                Some(self.values[i])
            },
            None => None,
        }
    }

    /// Give a path a value.
    pub fn set(&mut self, path: &str, value: V)
        requires
            old(self).wf(),
        ensures
            final(self).wf(),
            final(self)@ == old(self)@.insert(path@, value),
    {
        let ghost before = *self;
        let n: usize = self.values.len();
        let i: usize = self.keys.intern(path);
        if i < n {
            self.values.set(i, value);
        } else {
            self.values.push(value);
        }
        proof {
            assert(i < n <==> before.keys@.contains(path@));
            assert forall|p: Seq<char>| self.keys@.contains(p) implies self.values@[self.keys@.index_of(
                p,
            )] == before@.insert(path@, value)[p] by {
                let k = self.keys@.index_of(p);
                assert(self.keys@[k] == p);
                if p == path@ {
                    assert(self.keys@[i as int] == p);
                    assert(k == i);
                } else {
                    assert(k < n);
                    assert(before.keys@[k] == p);
                    let k0 = before.keys@.index_of(p);
                    assert(before.keys@[k0] == p);
                    assert(k0 == k);
                }
            }
            assert forall|p: Seq<char>| self.keys@.contains(p) <==> before.keys@.contains(p) || p
                == path@ by {
                if before.keys@.contains(p) {
                    let k = choose|k: int| 0 <= k < before.keys@.len() && before.keys@[k] == p;
                    assert(self.keys@[k] == p);
                }
                if self.keys@.contains(p) && p != path@ {
                    let k = choose|k: int| 0 <= k < self.keys@.len() && self.keys@[k] == p;
                    assert(before.keys@[k] == p);
                }
                assert(self.keys@[i as int] == path@);
            }
            assert(self@ =~= before@.insert(path@, value));
        }
    }

    /// A copy with the same values.
    pub fn duplicate(&self) -> (r: PathMap<V>)
        requires
            self.wf(),
        ensures
            r.wf(),
            r@ == self@,
            r.keys@ == self.keys@,
    {
        let mut values: Vec<V> = Vec::new();
        let mut i: usize = 0;
        while i < self.values.len()
            invariant
                i <= self.values@.len(),
                values@ == self.values@.subrange(0, i as int),
            decreases self.values@.len() - i,
        {
            values.push(self.values[i]);
            i = i + 1;
            assert(values@ =~= self.values@.subrange(0, i as int));
        }
        assert(values@ =~= self.values@);
        let r = PathMap { keys: self.keys.duplicate(), values };
        assert(r@ =~= self@);
        r
    }
}

} // verus!
