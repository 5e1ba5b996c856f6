//! Selecting from vectors.

use vstd::prelude::*;

verus! {

/// A test on values of type `T`.
pub trait Keep<T> {
    spec fn keeps(&self, x: T) -> bool;

    fn keep(&self, x: &T) -> (r: bool)
        ensures
            r == self.keeps(*x),
    ;
}

/// The elements that pass the test, in their order.
pub open spec fn kept<T, K: Keep<T>>(s: Seq<T>, k: K) -> Seq<T>
    decreases s.len(),
{
    if s.len() == 0 {
        s
    } else if k.keeps(s.last()) {
        kept(s.drop_last(), k).push(s.last())
    } else {
        kept(s.drop_last(), k)
    }
}

/// Keep the elements that pass the test, in their order.
pub fn retain<T, K: Keep<T>>(v: &mut Vec<T>, k: &K)
    ensures
        final(v)@ == kept(old(v)@, *k),
{
    let ghost input = v@;
    let ghost mut done: int = 0;
    let mut i: usize = 0;
    assert(v@.subrange(0, 0) =~= kept(input.subrange(0, 0), *k));
    while i < v.len()
        invariant
            i <= v@.len(),
            0 <= i <= done <= input.len(),
            v@.len() - i == input.len() - done,
            v@.subrange(0, i as int) == kept(input.subrange(0, done), *k),
            v@.subrange(i as int, v@.len() as int) == input.subrange(done, input.len() as int),
        decreases input.len() - done,
    {
        let ghost before = v@;
        let ghost tail = v@.subrange(i as int, v@.len() as int);
        assert(tail[0] == input.subrange(done, input.len() as int)[0]);
        assert(v@[i as int] == input[done]);
        proof {
            let next = input.subrange(0, done + 1);
            assert(next.drop_last() =~= input.subrange(0, done));
            assert(next.last() == input[done]);
        }
        if k.keep(&v[i]) {
            i = i + 1;
            assert(v@.subrange(0, i as int) =~= before.subrange(0, i - 1).push(input[done]));
        } else {
            let _ = v.remove(i);
            assert(v@.subrange(0, i as int) =~= before.subrange(0, i as int));
        }
        assert(v@.subrange(i as int, v@.len() as int) =~= tail.subrange(1, tail.len() as int));
        assert(input.subrange(done + 1, input.len() as int) =~= tail.subrange(
            1,
            tail.len() as int,
        ));
        proof {
            done = done + 1;
        }
    }
    assert(v@.subrange(0, i as int) =~= v@);
    assert(input.subrange(0, done) =~= input);
}

/// The values behind references.
pub open spec fn targets<T>(s: Seq<&T>) -> Seq<T> {
    Seq::new(s.len(), |i: int| *s[i])
}

/// Values that can be one and the same under some key.
pub trait SameKey {
    spec fn same_key(self, other: Self) -> bool;

    fn has_same_key(&self, other: &Self) -> (r: bool)
        ensures
            r == self.same_key(*other),
    ;
}

/// Whether an element of `s` has the key of `x`.
pub open spec fn key_seen<T: SameKey>(s: Seq<T>, x: T) -> bool {
    exists|i: int| 0 <= i < s.len() && (#[trigger] s[i]).same_key(x)
}

/// The first element of each key, in order.
pub open spec fn first_of_key<T: SameKey>(s: Seq<T>) -> Seq<T>
    decreases s.len(),
{
    if s.len() == 0 {
        s
    } else if key_seen(first_of_key(s.drop_last()), s.last()) {
        first_of_key(s.drop_last())
    } else {
        first_of_key(s.drop_last()).push(s.last())
    }
}

/// Keep the first element of each key.
pub fn dedup_by_key<T: SameKey>(v: &mut Vec<T>)
    ensures
        final(v)@ == first_of_key(old(v)@),
{
    let ghost input = v@;
    let ghost mut done: int = 0;
    let mut i: usize = 0;
    assert(v@.subrange(0, 0) =~= first_of_key(input.subrange(0, 0)));
    while i < v.len()
        invariant
            i <= v@.len(),
            0 <= i <= done <= input.len(),
            v@.len() - i == input.len() - done,
            v@.subrange(0, i as int) == first_of_key(input.subrange(0, done)),
            v@.subrange(i as int, v@.len() as int) == input.subrange(done, input.len() as int),
        decreases input.len() - done,
    {
        let ghost before = v@;
        let ghost head = v@.subrange(0, i as int);
        let ghost tail = v@.subrange(i as int, v@.len() as int);
        assert(tail[0] == input.subrange(done, input.len() as int)[0]);
        assert(v@[i as int] == input[done]);
        proof {
            let next = input.subrange(0, done + 1);
            assert(next.drop_last() =~= input.subrange(0, done));
            assert(next.last() == input[done]);
        }
        let mut seen = false;
        let mut j: usize = 0;
        while j < i && !seen
            invariant
                j <= i < v@.len(),
                head == v@.subrange(0, i as int),
                seen ==> key_seen(head, v@[i as int]),
                !seen ==> forall|k: int| 0 <= k < j ==> !(#[trigger] head[k]).same_key(
                    v@[i as int],
                ),
            decreases i - j + if seen {
                0int
            } else {
                1int
            },
        {
            assert(head[j as int] == v@[j as int]);
            if v[j].has_same_key(&v[i]) {
                seen = true;
            } else {
                j = j + 1;
            }
        }
        if !seen {
            i = i + 1;
            assert(v@.subrange(0, i as int) =~= before.subrange(0, i - 1).push(input[done]));
        } else {
            let _ = v.remove(i);
            assert(v@.subrange(0, i as int) =~= before.subrange(0, i as int));
        }
        assert(v@.subrange(i as int, v@.len() as int) =~= tail.subrange(1, tail.len() as int));
        assert(input.subrange(done + 1, input.len() as int) =~= tail.subrange(
            1,
            tail.len() as int,
        ));
        proof {
            done = done + 1;
        }
    }
    assert(v@.subrange(0, i as int) =~= v@);
    assert(input.subrange(0, done) =~= input);
}

/// An element that passes the test is kept.
pub proof fn kept_contains<T, K: Keep<T>>(s: Seq<T>, k: K, i: int)
    requires
        0 <= i < s.len(),
        k.keeps(s[i]),
    ensures
        kept(s, k).contains(s[i]),
    decreases s.len(),
{
    let r = kept(s, k);
    if i == s.len() - 1 {
        assert(r[r.len() - 1] == s[i]);
    } else {
        kept_contains(s.drop_last(), k, i);
        let short = kept(s.drop_last(), k);
        let w = choose|w: int| 0 <= w < short.len() && short[w] == s[i];
        assert(r[w] == s[i]);
    }
}

/// What is kept was there and passes the test.
pub proof fn kept_passes<T, K: Keep<T>>(s: Seq<T>, k: K, i: int)
    requires
        0 <= i < kept(s, k).len(),
    ensures
        k.keeps(kept(s, k)[i]),
        s.contains(kept(s, k)[i]),
    decreases s.len(),
{
    let short = kept(s.drop_last(), k);
    if i < short.len() {
        kept_passes(s.drop_last(), k, i);
        let w = choose|w: int| 0 <= w < s.drop_last().len() && s.drop_last()[w] == short[i];
        assert(s[w] == short[i]);
    } else {
        assert(s[s.len() - 1] == kept(s, k)[i]);
    }
}

} // verus!
