//! Lexicographic text order and stable sorting.

use vstd::prelude::*;
use vstd::utf8::encode_utf8;
use crate::chars::encode_injective;

verus! {

// ---------------------------------------------------------------------------
// Text order

/// Whether `a` stands before `b` in byte-wise lexicographic order, compared
/// from position `i` on.
pub open spec fn bytes_before_from(a: Seq<u8>, b: Seq<u8>, i: int) -> bool
    decreases a.len() - i,
{
    if i < 0 || i >= b.len() {
        false
    } else if i >= a.len() {
        true
    } else if a[i] != b[i] {
        a[i] < b[i]
    } else {
        bytes_before_from(a, b, i + 1)
    }
}

pub open spec fn bytes_before(a: Seq<u8>, b: Seq<u8>) -> bool {
    bytes_before_from(a, b, 0)
}

/// The order of strings: byte-wise on their UTF-8 form.
pub open spec fn text_before(a: Seq<char>, b: Seq<char>) -> bool {
    bytes_before(encode_utf8(a), encode_utf8(b))
}

pub fn is_bytes_before(a: &[u8], b: &[u8]) -> (r: bool)
    ensures
        r == bytes_before(a@, b@),
{
    let mut i: usize = 0;
    while i < a.len() && i < b.len()
        invariant
            i <= a@.len(),
            i <= b@.len(),
            bytes_before(a@, b@) == bytes_before_from(a@, b@, i as int),
        decreases a@.len() - i,
    {
        if a[i] != b[i] {
            return a[i] < b[i];
        }
        i = i + 1;
    }
    i < b.len()
}

pub fn is_text_before(a: &str, b: &str) -> (r: bool)
    ensures
        r == text_before(a@, b@),
{
    is_bytes_before(a.as_bytes(), b.as_bytes())
}

proof fn bytes_before_trichotomy_from(a: Seq<u8>, b: Seq<u8>, i: int)
    requires
        0 <= i <= a.len(),
        i <= b.len(),
        forall|j: int| 0 <= j < i ==> a[j] == b[j],
    ensures
        !(bytes_before_from(a, b, i) && bytes_before_from(b, a, i)),
        bytes_before_from(a, b, i) || bytes_before_from(b, a, i) || a == b,
        a == b ==> !bytes_before_from(a, b, i),
    decreases a.len() - i,
{
    if i < a.len() && i < b.len() && a[i] == b[i] {
        bytes_before_trichotomy_from(a, b, i + 1);
    } else if i == a.len() && i == b.len() {
        assert(a =~= b);
    }
}

proof fn bytes_before_transitive_from(a: Seq<u8>, b: Seq<u8>, c: Seq<u8>, i: int)
    requires
        0 <= i,
        bytes_before_from(a, b, i),
        bytes_before_from(b, c, i),
    ensures
        bytes_before_from(a, c, i),
    decreases a.len() - i,
{
    if i < a.len() && i < b.len() && i < c.len() && a[i] == b[i] && b[i] == c[i] {
        bytes_before_transitive_from(a, b, c, i + 1);
    }
}

/// Byte order is a strict total order.
pub proof fn bytes_before_is_total(a: Seq<u8>, b: Seq<u8>)
    ensures
        bytes_before(a, b) ==> !bytes_before(b, a) && a != b,
        bytes_before(a, b) || bytes_before(b, a) || a == b,
{
    bytes_before_trichotomy_from(a, b, 0);
}

/// Byte order is transitive.
pub proof fn bytes_before_is_transitive(a: Seq<u8>, b: Seq<u8>, c: Seq<u8>)
    requires
        bytes_before(a, b),
        bytes_before(b, c),
    ensures
        bytes_before(a, c),
{
    bytes_before_transitive_from(a, b, c, 0);
}

/// Text order is a strict total order: exactly one of before, equal and after
/// holds of two texts.
pub proof fn text_before_is_total(a: Seq<char>, b: Seq<char>)
    ensures
        text_before(a, b) ==> !text_before(b, a) && a != b,
        text_before(a, b) || text_before(b, a) || a == b,
{
    encode_injective(a, b);
    bytes_before_trichotomy_from(encode_utf8(a), encode_utf8(b), 0);
}

/// Text order is transitive.
pub proof fn text_before_is_transitive(a: Seq<char>, b: Seq<char>, c: Seq<char>)
    requires
        text_before(a, b),
        text_before(b, c),
    ensures
        text_before(a, c),
{
    bytes_before_transitive_from(encode_utf8(a), encode_utf8(b), encode_utf8(c), 0);
}

// ---------------------------------------------------------------------------
// Stable sorting

/// A strict order on values of type `T`, named by a type.
pub trait Order<T> {
    spec fn before(a: T, b: T) -> bool;
}

/// An order that can be decided.
pub trait Ordered<T>: Order<T> {
    fn is_before(a: &T, b: &T) -> (r: bool)
        ensures
            r == Self::before(*a, *b),
    ;
}

/// `x` put into `s` behind the last element that need not follow it.
pub open spec fn insert_stable<T, O: Order<T>>(s: Seq<T>, x: T) -> Seq<T>
    decreases s.len(),
{
    if s.len() > 0 && O::before(x, s.last()) {
        insert_stable::<T, O>(s.drop_last(), x).push(s.last())
    } else {
        s.push(x)
    }
}

/// The stable sort of `s`: each element is put behind its equals.
pub open spec fn stable_sort<T, O: Order<T>>(s: Seq<T>) -> Seq<T>
    decreases s.len(),
{
    if s.len() == 0 {
        s
    } else {
        insert_stable::<T, O>(stable_sort::<T, O>(s.drop_last()), s.last())
    }
}

proof fn insert_stable_at<T, O: Order<T>>(s: Seq<T>, x: T, at: int)
    requires
        0 <= at <= s.len(),
        at > 0 ==> !O::before(x, s[at - 1]),
        forall|j: int| at <= j < s.len() ==> O::before(x, #[trigger] s[j]),
    ensures
        insert_stable::<T, O>(s, x) == s.insert(at, x),
    decreases s.len(),
{
    if at < s.len() {
        assert(O::before(x, s[s.len() - 1]));
        insert_stable_at::<T, O>(s.drop_last(), x, at);
        assert(s.drop_last().insert(at, x).push(s.last()) =~= s.insert(at, x));
    } else {
        assert(s.insert(at, x) =~= s.push(x));
    }
}

/// Sort a vector, equal elements keeping their order.
pub fn sort_stable<T, O: Ordered<T>>(v: &mut Vec<T>)
    ensures
        final(v)@ == stable_sort::<T, O>(old(v)@),
{
    let ghost input = v@;
    let len: usize = v.len();
    let mut done: usize = 0;
    while done < len
        invariant
            done <= len,
            len == input.len(),
            v@.len() == len,
            v@.subrange(0, done as int) == stable_sort::<T, O>(input.subrange(0, done as int)),
            v@.subrange(done as int, len as int) == input.subrange(done as int, len as int),
        decreases len - done,
    {
        let ghost sorted = v@.subrange(0, done as int);
        let ghost rest = v@.subrange(done as int, len as int);
        assert(rest[0] == input[done as int]);
        let x = v.remove(done);
        let mut at: usize = done;
        assert(v@.subrange(0, done as int) =~= sorted);
        while at > 0 && O::is_before(&x, &v[at - 1])
            invariant
                at <= done,
                done < len,
                v@.len() == len - 1,
                v@.subrange(0, done as int) == sorted,
                sorted.len() == done,
                forall|j: int| at <= j < done ==> O::before(x, #[trigger] sorted[j]),
            decreases at,
        {
            assert(sorted[at - 1] == v@[at - 1]);
            at = at - 1;
        }
        proof {
            if at > 0 {
                assert(sorted[at - 1] == v@[at - 1]);
            }
            insert_stable_at::<T, O>(sorted, x, at as int);
            let next = input.subrange(0, done + 1);
            assert(next.drop_last() =~= input.subrange(0, done as int));
            assert(next.last() == x);
        }
        v.insert(at, x);
        assert(v@.subrange(0, done + 1) =~= sorted.insert(at as int, x));
        assert(v@.subrange(done + 1, len as int) =~= input.subrange(done + 1, len as int)) by {
            assert forall|k: int| done < k < len implies #[trigger] v@[k] == input[k] by {
                assert(rest[k - done] == input.subrange(done as int, len as int)[k - done]);
            }
        }
        done = done + 1;
    }
    assert(input.subrange(0, len as int) =~= input);
    assert(v@.subrange(0, len as int) =~= v@);
}

proof fn insert_stable_maps<T, U, O: Order<T>, P: Order<U>>(s: Seq<T>, x: T, f: spec_fn(T) -> U)
    requires
        forall|a: T, b: T| #[trigger] O::before(a, b) == P::before(f(a), f(b)),
    ensures
        insert_stable::<T, O>(s, x).map_values(f) == insert_stable::<U, P>(s.map_values(f), f(x)),
    decreases s.len(),
{
    let m = s.map_values(f);
    if s.len() > 0 {
        assert(m.last() == f(s.last()));
        assert(m.drop_last() =~= s.drop_last().map_values(f));
        assert(O::before(x, s.last()) == P::before(f(x), f(s.last())));
        insert_stable_maps::<T, U, O, P>(s.drop_last(), x, f);
    }
    assert(insert_stable::<T, O>(s, x).map_values(f) =~= insert_stable::<U, P>(m, f(x)));
}

/// Sorting commutes with a map that keeps the order.
pub proof fn stable_sort_maps<T, U, O: Order<T>, P: Order<U>>(s: Seq<T>, f: spec_fn(T) -> U)
    requires
        forall|a: T, b: T| #[trigger] O::before(a, b) == P::before(f(a), f(b)),
    ensures
        stable_sort::<T, O>(s).map_values(f) == stable_sort::<U, P>(s.map_values(f)),
    decreases s.len(),
{
    let m = s.map_values(f);
    if s.len() > 0 {
        stable_sort_maps::<T, U, O, P>(s.drop_last(), f);
        insert_stable_maps::<T, U, O, P>(stable_sort::<T, O>(s.drop_last()), s.last(), f);
        assert(m.last() == f(s.last()));
        assert(m.drop_last() =~= s.drop_last().map_values(f));
    } else {
        assert(stable_sort::<T, O>(s).map_values(f) =~= stable_sort::<U, P>(m));
    }
}

proof fn insert_stable_multiset<T, O: Order<T>>(s: Seq<T>, x: T)
    ensures
        insert_stable::<T, O>(s, x).to_multiset() == s.to_multiset().insert(x),
        insert_stable::<T, O>(s, x).len() == s.len() + 1,
    decreases s.len(),
{
    broadcast use vstd::seq_lib::group_to_multiset_ensures;

    if s.len() > 0 && O::before(x, s.last()) {
        insert_stable_multiset::<T, O>(s.drop_last(), x);
        assert(s.drop_last().push(s.last()) =~= s);
        assert(insert_stable::<T, O>(s, x).to_multiset() =~= s.to_multiset().insert(x));
    }
}

/// Sorting keeps exactly the elements it was given.
pub proof fn stable_sort_is_permutation<T, O: Order<T>>(s: Seq<T>)
    ensures
        stable_sort::<T, O>(s).to_multiset() == s.to_multiset(),
        stable_sort::<T, O>(s).len() == s.len(),
    decreases s.len(),
{
    broadcast use vstd::seq_lib::group_to_multiset_ensures;

    if s.len() > 0 {
        stable_sort_is_permutation::<T, O>(s.drop_last());
        insert_stable_multiset::<T, O>(stable_sort::<T, O>(s.drop_last()), s.last());
        assert(s.drop_last().push(s.last()) =~= s);
    }
}

/// Each element of a sorted sequence comes from the sequence that was sorted.
pub proof fn stable_sort_takes_from<T, O: Order<T>>(s: Seq<T>, i: int)
    requires
        0 <= i < s.len(),
    ensures
        exists|m: int| 0 <= m < s.len() && s[m] == stable_sort::<T, O>(s)[i],
{
    broadcast use vstd::seq_lib::group_to_multiset_ensures;

    stable_sort_is_permutation::<T, O>(s);
    let sorted = stable_sort::<T, O>(s);
    assert(sorted.contains(sorted[i]));
    assert(sorted.to_multiset().count(sorted[i]) > 0);
    assert(s.contains(sorted[i]));
}

proof fn insert_stable_agrees<T, A: Order<T>, B: Order<T>>(s: Seq<T>, x: T)
    requires
        forall|i: int| 0 <= i < s.len() ==> A::before(x, #[trigger] s[i]) == B::before(x, s[i]),
    ensures
        insert_stable::<T, A>(s, x) == insert_stable::<T, B>(s, x),
    decreases s.len(),
{
    if s.len() > 0 {
        assert(s.last() == s[s.len() - 1]);
        assert forall|i: int| 0 <= i < s.drop_last().len() implies A::before(
            x,
            #[trigger] s.drop_last()[i],
        ) == B::before(x, s.drop_last()[i]) by {
            assert(s.drop_last()[i] == s[i]);
        }
        insert_stable_agrees::<T, A, B>(s.drop_last(), x);
    }
}

/// Two orders that agree on the elements of a sequence sort it alike.
pub proof fn stable_sort_agrees<T, A: Order<T>, B: Order<T>>(s: Seq<T>)
    requires
        forall|i: int, j: int|
            0 <= i < j < s.len() ==> A::before(#[trigger] s[j], #[trigger] s[i]) == B::before(
                s[j],
                s[i],
            ),
    ensures
        stable_sort::<T, A>(s) == stable_sort::<T, B>(s),
    decreases s.len(),
{
    if s.len() > 0 {
        let front = s.drop_last();
        let x = s.last();
        assert forall|i: int, j: int| 0 <= i < j < front.len() implies A::before(
            #[trigger] front[j],
            #[trigger] front[i],
        ) == B::before(front[j], front[i]) by {
            assert(front[i] == s[i] && front[j] == s[j]);
        }
        stable_sort_agrees::<T, A, B>(front);
        let sorted = stable_sort::<T, A>(front);
        stable_sort_is_permutation::<T, A>(front);
        assert forall|i: int| 0 <= i < sorted.len() implies A::before(x, #[trigger] sorted[i])
            == B::before(x, sorted[i]) by {
            stable_sort_takes_from::<T, A>(front, i);
            let m = choose|m: int| 0 <= m < front.len() && front[m] == sorted[i];
            assert(s[m] == sorted[i] && s[s.len() - 1] == x);
        }
        insert_stable_agrees::<T, A, B>(sorted, x);
    }
}

proof fn insert_stable_maps_multiset<T, U, O: Order<T>>(s: Seq<T>, x: T, f: spec_fn(T) -> U)
    ensures
        insert_stable::<T, O>(s, x).map_values(f).to_multiset() == s.map_values(
            f,
        ).to_multiset().insert(f(x)),
    decreases s.len(),
{
    broadcast use vstd::seq_lib::group_to_multiset_ensures;

    let m = s.map_values(f);
    if s.len() > 0 && O::before(x, s.last()) {
        let front = s.drop_last();
        insert_stable_maps_multiset::<T, U, O>(front, x, f);
        let inner = insert_stable::<T, O>(front, x);
        assert(inner.push(s.last()).map_values(f) =~= inner.map_values(f).push(f(s.last())));
        assert(front.map_values(f).push(f(s.last())) =~= m);
        assert(insert_stable::<T, O>(s, x).map_values(f).to_multiset() =~= m.to_multiset().insert(
            f(x),
        ));
    } else {
        assert(s.push(x).map_values(f) =~= m.push(f(x)));
    }
}

/// Sorting keeps what a map makes of the elements.
pub proof fn stable_sort_maps_permutation<T, U, O: Order<T>>(s: Seq<T>, f: spec_fn(T) -> U)
    ensures
        stable_sort::<T, O>(s).map_values(f).to_multiset() == s.map_values(f).to_multiset(),
    decreases s.len(),
{
    broadcast use vstd::seq_lib::group_to_multiset_ensures;

    if s.len() > 0 {
        let front = s.drop_last();
        stable_sort_maps_permutation::<T, U, O>(front, f);
        insert_stable_maps_multiset::<T, U, O>(stable_sort::<T, O>(front), s.last(), f);
        assert(front.map_values(f).push(f(s.last())) =~= s.map_values(f));
    } else {
        assert(stable_sort::<T, O>(s).map_values(f) =~= s.map_values(f));
    }
}

/// No element has to stand before an earlier one.
pub open spec fn in_order<T, O: Order<T>>(s: Seq<T>) -> bool {
    forall|i: int, j: int| 0 <= i < j < s.len() ==> !O::before(#[trigger] s[j], #[trigger] s[i])
}

/// `O` is a strict weak order: asymmetric, and "not before" is transitive.
pub open spec fn strict_weak<T, O: Order<T>>() -> bool {
    &&& forall|a: T, b: T| O::before(a, b) ==> !#[trigger] O::before(b, a)
    &&& forall|a: T, b: T, c: T|
        !(#[trigger] O::before(a, b)) && !(#[trigger] O::before(b, c)) ==> !O::before(a, c)
}

proof fn insert_stable_in_order<T, O: Order<T>>(s: Seq<T>, x: T)
    requires
        strict_weak::<T, O>(),
        in_order::<T, O>(s),
    ensures
        in_order::<T, O>(insert_stable::<T, O>(s, x)),
        forall|k: int|
            0 <= k < insert_stable::<T, O>(s, x).len() ==> insert_stable::<T, O>(s, x)[k] == x
                || exists|m: int|
                0 <= m < s.len() && s[m] == #[trigger] insert_stable::<T, O>(s, x)[k],
    decreases s.len(),
{
    let r = insert_stable::<T, O>(s, x);
    if s.len() > 0 && O::before(x, s.last()) {
        let short = s.drop_last();
        insert_stable_in_order::<T, O>(short, x);
        insert_stable_multiset::<T, O>(short, x);
        let head = insert_stable::<T, O>(short, x);
        assert forall|i: int, j: int| 0 <= i < j < r.len() implies !O::before(
            #[trigger] r[j],
            #[trigger] r[i],
        ) by {
            if j < head.len() {
                assert(r[j] == head[j] && r[i] == head[i]);
            } else {
                assert(r[j] == s.last());
                assert(r[i] == head[i]);
                if head[i] != x {
                    let m = choose|m: int| 0 <= m < short.len() && short[m] == head[i];
                    assert(s[m] == head[i]);
                    assert(!O::before(s[s.len() - 1], s[m]));
                }
            }
        }
        assert forall|k: int| 0 <= k < r.len() implies #[trigger] r[k] == x || exists|m: int|
            0 <= m < s.len() && s[m] == r[k] by {
            if k < head.len() {
                assert(r[k] == head[k]);
                if head[k] != x {
                    let m = choose|m: int| 0 <= m < short.len() && short[m] == head[k];
                    assert(s[m] == r[k]);
                }
            } else {
                assert(s[s.len() - 1] == r[k]);
            }
        }
    } else {
        assert forall|i: int, j: int| 0 <= i < j < r.len() implies !O::before(
            #[trigger] r[j],
            #[trigger] r[i],
        ) by {
            if j == s.len() {
                let last = s.len() - 1;
                assert(!O::before(x, s[last]));
                if i < last {
                    assert(!O::before(s[last], s[i]));
                    assert(!O::before(x, s[i]));
                }
            }
        }
        assert forall|k: int| 0 <= k < r.len() implies #[trigger] r[k] == x || exists|m: int|
            0 <= m < s.len() && s[m] == r[k] by {
            if k < s.len() {
                assert(s[k] == r[k]);
            }
        }
    }
}

/// Sorting by a strict weak order leaves the elements in order.
pub proof fn stable_sort_is_in_order<T, O: Order<T>>(s: Seq<T>)
    requires
        strict_weak::<T, O>(),
    ensures
        in_order::<T, O>(stable_sort::<T, O>(s)),
    decreases s.len(),
{
    if s.len() > 0 {
        stable_sort_is_in_order::<T, O>(s.drop_last());
        insert_stable_in_order::<T, O>(stable_sort::<T, O>(s.drop_last()), s.last());
    }
}

/// Two sequences of the same elements, both in order, are the same where only
/// equal elements can stand on either side of each other.
pub proof fn sorted_is_unique<T, O: Order<T>>(a: Seq<T>, b: Seq<T>)
    requires
        a.to_multiset() == b.to_multiset(),
        in_order::<T, O>(a),
        in_order::<T, O>(b),
        forall|i: int, j: int|
            0 <= i < a.len() && 0 <= j < b.len() && !O::before(
                #[trigger] a[i],
                #[trigger] b[j],
            ) && !O::before(b[j], a[i]) ==> a[i] == b[j],
    ensures
        a == b,
    decreases a.len(),
{
    broadcast use vstd::seq_lib::group_to_multiset_ensures;

    assert(a.len() == a.to_multiset().len());
    assert(b.len() == b.to_multiset().len());
    if a.len() > 0 {
        let (x, y) = (a.last(), b.last());
        assert(a.contains(a[a.len() - 1]));
        assert(b.to_multiset().count(x) > 0);
        assert(b.contains(x));
        let i = choose|i: int| 0 <= i < b.len() && b[i] == x;
        assert(b.contains(b[b.len() - 1]));
        assert(a.to_multiset().count(y) > 0);
        assert(a.contains(y));
        let j = choose|j: int| 0 <= j < a.len() && a[j] == y;
        if x != y {
            assert(!O::before(b[b.len() - 1], b[i]));
            assert(!O::before(a[a.len() - 1], a[j]));
            assert(a[a.len() - 1] == b[b.len() - 1]);
            assert(false);
        }
        assert(a.drop_last().push(x) =~= a);
        assert(b.drop_last().push(y) =~= b);
        assert(a.drop_last().to_multiset() =~= b.drop_last().to_multiset()) by {
            let (c, d) = (a.drop_last().to_multiset(), b.drop_last().to_multiset());
            assert(a.to_multiset() =~= c.insert(x));
            assert(b.to_multiset() =~= d.insert(y));
            assert forall|z: T| #[trigger] c.count(z) == d.count(z) by {
                assert(c.insert(x).count(z) == d.insert(x).count(z));
                assert(c.insert(x).count(z) == c.count(z) + if z == x {
                    1nat
                } else {
                    0nat
                });
                assert(d.insert(x).count(z) == d.count(z) + if z == x {
                    1nat
                } else {
                    0nat
                });
            }
        }
        assert forall|p: int, q: int| 0 <= p < q < a.drop_last().len() implies !O::before(
            #[trigger] a.drop_last()[q],
            #[trigger] a.drop_last()[p],
        ) by {
            assert(!O::before(a[q], a[p]));
        }
        assert forall|p: int, q: int| 0 <= p < q < b.drop_last().len() implies !O::before(
            #[trigger] b.drop_last()[q],
            #[trigger] b.drop_last()[p],
        ) by {
            assert(!O::before(b[q], b[p]));
        }
        assert forall|i: int, j: int|
            0 <= i < a.drop_last().len() && 0 <= j < b.drop_last().len() && !O::before(
                #[trigger] a.drop_last()[i],
                #[trigger] b.drop_last()[j],
            ) && !O::before(b.drop_last()[j], a.drop_last()[i]) implies a.drop_last()[i]
            == b.drop_last()[j] by {
            assert(a.drop_last()[i] == a[i] && b.drop_last()[j] == b[j]);
        }
        sorted_is_unique::<T, O>(a.drop_last(), b.drop_last());
    } else {
        assert(a =~= b);
    }
}

// ---------------------------------------------------------------------------
// Sorting by merging

/// Two sequences merged from their ends, the left one first among equals.
pub open spec fn merged<T, O: Order<T>>(s: Seq<T>, t: Seq<T>) -> Seq<T>
    decreases s.len() + t.len(),
{
    if t.len() == 0 {
        s
    } else if s.len() == 0 {
        t
    } else if O::before(t.last(), s.last()) {
        merged::<T, O>(s.drop_last(), t).push(s.last())
    } else {
        merged::<T, O>(s, t.drop_last()).push(t.last())
    }
}

proof fn merged_insert<T, O: Order<T>>(s: Seq<T>, t: Seq<T>, x: T)
    requires
        strict_weak::<T, O>(),
    ensures
        merged::<T, O>(s, insert_stable::<T, O>(t, x)) == insert_stable::<T, O>(
            merged::<T, O>(s, t),
            x,
        ),
    decreases s.len() + t.len(),
{
    let i = insert_stable::<T, O>(t, x);
    if t.len() > 0 && O::before(x, t.last()) {
        let inner = insert_stable::<T, O>(t.drop_last(), x);
        assert(i.drop_last() =~= inner);
        assert(i.last() == t.last());
        if s.len() > 0 && O::before(t.last(), s.last()) {
            merged_insert::<T, O>(s.drop_last(), t, x);
            assert(merged::<T, O>(s, t).drop_last() =~= merged::<T, O>(s.drop_last(), t));
            if !O::before(x, s.last()) {
                assert(O::before(t.last(), s.last()));
                assert(!O::before(s.last(), t.last()));
                assert(false);
            }
        } else if s.len() > 0 {
            merged_insert::<T, O>(s, t.drop_last(), x);
            assert(merged::<T, O>(s, t).drop_last() =~= merged::<T, O>(s, t.drop_last()));
        }
    } else {
        assert(i == t.push(x));
        assert(i.drop_last() =~= t);
        if s.len() > 0 && O::before(x, s.last()) {
            merged_insert::<T, O>(s.drop_last(), t, x);
            if t.len() > 0 {
                assert(!O::before(x, t.last()));
                if !O::before(t.last(), s.last()) {
                    assert(!O::before(x, s.last()));
                }
            }
            assert(merged::<T, O>(s, t).drop_last() =~= merged::<T, O>(s.drop_last(), t));
        }
    }
}

/// Merging two sorted halves sorts the whole.
pub proof fn merged_is_sort<T, O: Order<T>>(a: Seq<T>, b: Seq<T>)
    requires
        strict_weak::<T, O>(),
    ensures
        merged::<T, O>(stable_sort::<T, O>(a), stable_sort::<T, O>(b)) == stable_sort::<T, O>(
            a + b,
        ),
    decreases b.len(),
{
    if b.len() == 0 {
        assert(a + b =~= a);
    } else {
        merged_is_sort::<T, O>(a, b.drop_last());
        merged_insert::<T, O>(
            stable_sort::<T, O>(a),
            stable_sort::<T, O>(b.drop_last()),
            b.last(),
        );
        assert((a + b).drop_last() =~= a + b.drop_last());
    }
}

fn merge<T, O: Ordered<T>>(left: Vec<T>, right: Vec<T>) -> (r: Vec<T>)
    ensures
        r@ == merged::<T, O>(left@, right@),
{
    let ghost want = merged::<T, O>(left@, right@);
    let mut l = left;
    let mut r = right;
    let mut tail: Vec<T> = Vec::new();
    assert(merged::<T, O>(l@, r@) + tail@.reverse() =~= want);
    while l.len() > 0 && r.len() > 0
        invariant
            merged::<T, O>(l@, r@) + tail@.reverse() == want,
        decreases l@.len() + r@.len(),
    {
        let ghost (l0, r0, t0) = (l@, r@, tail@);
        if O::is_before(&r[r.len() - 1], &l[l.len() - 1]) {
            match l.pop() {
                Some(x) => {
                    tail.push(x);
                },
                None => {},
            }
        } else {
            match r.pop() {
                Some(x) => {
                    tail.push(x);
                },
                None => {},
            }
        }
        assert(tail@.reverse() =~= seq![tail@.last()] + t0.reverse());
        assert(merged::<T, O>(l@, r@) + tail@.reverse() =~= merged::<T, O>(l0, r0)
            + t0.reverse());
    }
    let mut out = if l.len() == 0 {
        r
    } else {
        l
    };
    assert(out@ == merged::<T, O>(l@, r@));
    while tail.len() > 0
        invariant
            out@ + tail@.reverse() == want,
        decreases tail@.len(),
    {
        let ghost (o0, t0) = (out@, tail@);
        match tail.pop() {
            Some(x) => {
                out.push(x);
            },
            None => {},
        }
        assert(t0.reverse() =~= seq![t0.last()] + tail@.reverse());
        assert(out@ + tail@.reverse() =~= o0 + t0.reverse());
    }
    assert(out@ + tail@.reverse() =~= out@);
    out
}

/// Sort a vector by a strict weak order, equal elements keeping their order.
pub fn sort_merging<T, O: Ordered<T>>(v: Vec<T>) -> (r: Vec<T>)
    requires
        strict_weak::<T, O>(),
    ensures
        r@ == stable_sort::<T, O>(v@),
    decreases v@.len(),
{
    let mut left = v;
    let n: usize = left.len();
    if n <= 1 {
        proof {
            if n == 1 {
                assert(stable_sort::<T, O>(v@.drop_last()) =~= Seq::<T>::empty());
                assert(stable_sort::<T, O>(v@) =~= v@);
            }
        }
        return left;
    }
    let right = left.split_off(n / 2);
    proof {
        merged_is_sort::<T, O>(left@, right@);
        assert(left@ + right@ =~= v@);
    }
    let l = sort_merging::<T, O>(left);
    let r = sort_merging::<T, O>(right);
    merge::<T, O>(l, r)
}

} // verus!
