//! Distinct texts with hashed lookup.

use std::collections::HashMap;

use vstd::prelude::*;
use vstd::utf8::encode_utf8;

use crate::chars::{same_text, texts};

verus! {

broadcast use vstd::std_specs::hash::group_hash_axioms;

/// Polynomial hash of bytes, from position `i` on.
pub open spec fn hash_from(bytes: Seq<u8>, i: int, h: u64) -> u64
    decreases bytes.len() - i,
{
    if i < 0 || i >= bytes.len() {
        h
    } else {
        hash_from(bytes, i + 1, h.wrapping_mul(31).wrapping_add(bytes[i] as u64))
    }
}

pub open spec fn text_hash(s: Seq<char>) -> u64 {
    hash_from(encode_utf8(s), 0, 7)
}

fn hash_of(s: &str) -> (r: u64)
    ensures
        r == text_hash(s@),
{
    let bytes = s.as_bytes();
    let mut h: u64 = 7;
    let mut i: usize = 0;
    while i < bytes.len()
        invariant
            i <= bytes@.len(),
            hash_from(bytes@, 0, 7) == hash_from(bytes@, i as int, h),
        decreases bytes@.len() - i,
    {
        h = h.wrapping_mul(31).wrapping_add(bytes[i] as u64);
        i = i + 1;
    }
    h
}

/// Distinct texts, numbered in the order they came.
#[derive(Debug, Clone, Default)]
pub struct TextIndex {
    pub texts: Vec<String>,
    pub buckets: HashMap<u64, Vec<usize>>,
}

impl View for TextIndex {
    type V = Seq<Seq<char>>;

    open spec fn view(&self) -> Seq<Seq<char>> {
        texts(self.texts@)
    }
}

/// `i` is filed under the hash of its text.
pub open spec fn filed(buckets: Map<u64, Vec<usize>>, text: Seq<char>, i: int) -> bool {
    buckets.contains_key(text_hash(text)) && exists|k: int|
        0 <= k < buckets[text_hash(text)]@.len() && #[trigger] buckets[text_hash(text)]@[k] == i
}

impl TextIndex {
    /// Every text is filed under its hash, every filed number is one of a
    /// text, and no text is there twice.
    pub open spec fn wf(self) -> bool {
        &&& forall|i: int| 0 <= i < self@.len() ==> filed(self.buckets@, #[trigger] self@[i], i)
        &&& forall|h: u64, k: int|
            self.buckets@.contains_key(h) && 0 <= k < self.buckets@[h]@.len()
                ==> #[trigger] self.buckets@[h]@[k] < self@.len()
        &&& self@.no_duplicates()
    }

    pub fn new() -> (r: TextIndex)
        ensures
            r.wf(),
            r@ == Seq::<Seq<char>>::empty(),
    {
        let r = TextIndex { texts: Vec::new(), buckets: HashMap::new() };
        assert(r@ =~= Seq::<Seq<char>>::empty());
        r
    }

    pub fn len(&self) -> (r: usize)
        ensures
            r == self@.len(),
    {
        self.texts.len()
    }

    pub fn get(&self, i: usize) -> (r: &str)
        requires
            i < self@.len(),
        ensures
            r@ == self@[i as int],
    {
        self.texts[i].as_str()
    }

    /// The number of a text.
    pub fn find(&self, text: &str) -> (r: Option<usize>)
        requires
            self.wf(),
        ensures
            match r {
                Some(i) => i < self@.len() && self@[i as int] == text@,
                None => !self@.contains(text@),
            },
    {
        let h: u64 = hash_of(text);
        match self.buckets.get(&h) {
            Some(bucket) => {
                let mut k: usize = 0;
                while k < bucket.len()
                    invariant
                        self.wf(),
                        h == text_hash(text@),
                        self.buckets@.contains_key(h),
                        *bucket == self.buckets@[h],
                        k <= bucket@.len(),
                        forall|j: int| 0 <= j < k ==> self@[#[trigger] bucket@[j] as int] != text@,
                    decreases bucket@.len() - k,
                {
                    let i: usize = bucket[k];
                    assert(self.buckets@[h]@[k as int] < self@.len());
                    if same_text(self.texts[i].as_str(), text) {
                        return Some(i);
                    }
                    k = k + 1;
                }
                proof {
                    if self@.contains(text@) {
                        let i = choose|i: int| 0 <= i < self@.len() && self@[i] == text@;
                        assert(filed(self.buckets@, self@[i], i));
                    }
                }
                None
            },
            None => {
                proof {
                    if self@.contains(text@) {
                        let i = choose|i: int| 0 <= i < self@.len() && self@[i] == text@;
                        assert(filed(self.buckets@, self@[i], i));
                    }
                }
                None
            },
        }
    }

    pub fn contains(&self, text: &str) -> (r: bool)
        requires
            self.wf(),
        ensures
            r == self@.contains(text@),
    {
        self.find(text).is_some()
    }

    /// The number of a text, which is added if it is new.
    pub fn intern(&mut self, text: &str) -> (r: usize)
        requires
            old(self).wf(),
        ensures
            final(self).wf(),
            r < final(self)@.len(),
            final(self)@[r as int] == text@,
            old(self)@.contains(text@) ==> final(self)@ == old(self)@,
            !old(self)@.contains(text@) ==> final(self)@ == old(self)@.push(text@) && r
                == old(self)@.len(),
    {
        match self.find(text) {
            Some(i) => {
                return i;
            },
            None => {},
        }
        let ghost before = *self;
        let n: usize = self.texts.len();
        let h: u64 = hash_of(text);
        let mut bucket: Vec<usize> = match self.buckets.remove(&h) {
            Some(bucket) => bucket,
            None => Vec::new(),
        };
        let ghost shorter = bucket@;
        bucket.push(n);
        let ghost longer = bucket@;
        self.buckets.insert(h, bucket);
        self.texts.push(text.to_owned());
        proof {
            assert(self@ =~= before@.push(text@));
            assert forall|i: int| 0 <= i < self@.len() implies filed(
                self.buckets@,
                #[trigger] self@[i],
                i,
            ) by {
                if i == n {
                    assert(self.buckets@[h]@[shorter.len() as int] == n);
                } else {
                    assert(self@[i] == before@[i]);
                    assert(filed(before.buckets@, before@[i], i));
                    let hi = text_hash(before@[i]);
                    let k = choose|k: int|
                        0 <= k < before.buckets@[hi]@.len() && #[trigger] before.buckets@[hi]@[k]
                            == i;
                    if hi == h {
                        assert(self.buckets@[h]@[k] == i);
                    } else {
                        assert(self.buckets@[hi]@[k] == i);
                    }
                }
            }
            assert forall|g: u64, k: int|
                self.buckets@.contains_key(g) && 0 <= k
                    < self.buckets@[g]@.len() implies #[trigger] self.buckets@[g]@[k]
                < self@.len() by {
                if g == h {
                    if k < shorter.len() {
                        assert(before.buckets@[h]@[k] < before@.len());
                    }
                } else {
                    assert(before.buckets@[g]@[k] < before@.len());
                }
            }
        }
        n
    }

    /// Text `i` is the first of its bucket.
    pub open spec fn leads(self, i: int) -> bool {
        let h = text_hash(self@[i]);
        self.buckets@.contains_key(h) && self.buckets@[h]@.len() > 0 && self.buckets@[h]@[0] == i
    }

    /// The bucket of a text that is the first of it.
    pub fn led_bucket(&self, i: usize) -> (r: Option<&Vec<usize>>)
        requires
            i < self@.len(),
        ensures
            match r {
                Some(bucket) => self.leads(i as int) && *bucket == self.buckets@[text_hash(
                    self@[i as int],
                )],
                None => !self.leads(i as int),
            },
    {
        match self.buckets.get(&hash_of(self.get(i))) {
            Some(bucket) => if bucket.len() > 0 && bucket[0] == i {
                Some(bucket)
            } else {
                None
            },
            None => None,
        }
    }

    /// A copy with the same texts.
    pub fn duplicate(&self) -> (r: TextIndex)
        requires
            self.wf(),
        ensures
            r.wf(),
            r@ == self@,
    {
        let mut r = TextIndex::new();
        let mut i: usize = 0;
        while i < self.texts.len()
            invariant
                self.wf(),
                r.wf(),
                i <= self@.len(),
                r@ == self@.subrange(0, i as int),
            decreases self@.len() - i,
        {
            proof {
                if r@.contains(self@[i as int]) {
                    let k = choose|k: int| 0 <= k < r@.len() && r@[k] == self@[i as int];
                    assert(self@[k] == self@[i as int]);
                }
            }
            let _ = r.intern(self.texts[i].as_str());
            i = i + 1;
            assert(r@ =~= self@.subrange(0, i as int));
        }
        assert(r@ =~= self@);
        r
    }
}

} // verus!
