//! Posting lists: which elements carry a key, in a given order.

use std::collections::HashMap;

use vstd::prelude::*;

use crate::name_tokens::{fuzzy_tokens_for_name, increasing, is_name_token, push_contains};
use crate::text_index::TextIndex;

verus! {

broadcast use vstd::std_specs::hash::group_hash_axioms;

/// The elements of `ids` that pass a test, in order.
pub open spec fn picked(ids: Seq<usize>, test: spec_fn(int) -> bool) -> Seq<u32>
    decreases ids.len(),
{
    if ids.len() == 0 {
        Seq::empty()
    } else if test(ids.last() as int) {
        picked(ids.drop_last(), test).push(ids.last() as u32)
    } else {
        picked(ids.drop_last(), test)
    }
}

pub proof fn picked_step(ids: Seq<usize>, test: spec_fn(int) -> bool, n: int)
    requires
        0 <= n < ids.len(),
    ensures
        picked(ids.subrange(0, n + 1), test) == (if test(ids[n] as int) {
            picked(ids.subrange(0, n), test).push(ids[n] as u32)
        } else {
            picked(ids.subrange(0, n), test)
        }),
{
    let next = ids.subrange(0, n + 1);
    assert(next.drop_last() =~= ids.subrange(0, n));
    assert(next.last() == ids[n]);
}

/// Every picked element is one of `ids` that passes the test.
pub proof fn picked_passes(ids: Seq<usize>, test: spec_fn(int) -> bool, k: int)
    requires
        0 <= k < picked(ids, test).len(),
        forall|i: int| 0 <= i < ids.len() ==> (#[trigger] ids[i]) <= u32::MAX,
    ensures
        test(picked(ids, test)[k] as int),
        exists|i: int| 0 <= i < ids.len() && ids[i] == picked(ids, test)[k],
    decreases ids.len(),
{
    let short = picked(ids.drop_last(), test);
    assert(ids.last() == ids[ids.len() - 1]);
    if k < short.len() {
        picked_passes(ids.drop_last(), test, k);
        let i = choose|i: int| 0 <= i < ids.drop_last().len() && ids.drop_last()[i] == short[k];
        assert(ids[i] == short[k]);
    }
}

// ---------------------------------------------------------------------------
// Lists end to end

/// Total length of the first `n` lists.
pub open spec fn total_below(lists: Seq<Vec<u32>>, n: int) -> nat
    decreases n,
{
    if n <= 0 {
        0
    } else {
        total_below(lists, n - 1) + lists[n - 1]@.len()
    }
}

/// The first `n` lists end to end.
pub open spec fn joined_below(lists: Seq<Vec<u32>>, n: int) -> Seq<u32>
    decreases n,
{
    if n <= 0 {
        Seq::empty()
    } else {
        joined_below(lists, n - 1) + lists[n - 1]@
    }
}

proof fn joined_len(lists: Seq<Vec<u32>>, n: int)
    requires
        0 <= n <= lists.len(),
    ensures
        joined_below(lists, n).len() == total_below(lists, n),
    decreases n,
{
    if n > 0 {
        joined_len(lists, n - 1);
    }
}

proof fn total_grows(lists: Seq<Vec<u32>>, a: int, b: int)
    requires
        0 <= a <= b <= lists.len(),
    ensures
        total_below(lists, a) <= total_below(lists, b),
    decreases b,
{
    if a < b {
        total_grows(lists, a, b - 1);
    }
}

proof fn joined_part(lists: Seq<Vec<u32>>, k: int, n: int)
    requires
        0 <= k < n <= lists.len(),
    ensures
        total_below(lists, k) + lists[k]@.len() <= total_below(lists, n),
        joined_below(lists, n).len() == total_below(lists, n),
        joined_below(lists, n).subrange(
            total_below(lists, k) as int,
            (total_below(lists, k) + lists[k]@.len()) as int,
        ) == lists[k]@,
    decreases n,
{
    joined_len(lists, n);
    joined_len(lists, n - 1);
    joined_len(lists, k);
    if k < n - 1 {
        joined_part(lists, k, n - 1);
        total_grows(lists, k + 1, n - 1);
        assert(joined_below(lists, n).subrange(
            total_below(lists, k) as int,
            (total_below(lists, k) + lists[k]@.len()) as int,
        ) =~= joined_below(lists, n - 1).subrange(
            total_below(lists, k) as int,
            (total_below(lists, k) + lists[k]@.len()) as int,
        ));
    } else {
        assert(joined_below(lists, n).subrange(
            total_below(lists, k) as int,
            (total_below(lists, k) + lists[k]@.len()) as int,
        ) =~= lists[k]@);
    }
}

proof fn total_updated(before: Seq<Vec<u32>>, after: Seq<Vec<u32>>, k: int, n: int)
    requires
        before.len() == after.len(),
        0 <= k < before.len(),
        0 <= n <= before.len(),
        forall|j: int| 0 <= j < before.len() && j != k ==> after[j] == #[trigger] before[j],
        after[k]@.len() == before[k]@.len() + 1,
    ensures
        total_below(after, n) == total_below(before, n) + if k < n {
            1nat
        } else {
            0nat
        },
    decreases n,
{
    if n > 0 {
        total_updated(before, after, k, n - 1);
        if n - 1 != k {
            assert(after[n - 1] == before[n - 1]);
        }
    }
}

// ---------------------------------------------------------------------------
// One key per element

/// Lists by key, stored end to end.
pub struct CompactPathPostings {
    pub offsets: Vec<u32>,
    pub indices: Vec<u32>,
}

pub open spec fn key_test(keys: Seq<u32>, k: int) -> spec_fn(int) -> bool {
    |i: int| keys[i] == k
}

impl CompactPathPostings {
    pub open spec fn wf(self) -> bool {
        &&& self.offsets@.len() > 0
        &&& forall|i: int, j: int|
            0 <= i <= j < self.offsets@.len() ==> self.offsets@[i] <= self.offsets@[j]
        &&& self.offsets@.last() == self.indices@.len()
    }

    pub open spec fn list(self, k: int) -> Seq<u32> {
        self.indices@.subrange(self.offsets@[k] as int, self.offsets@[k + 1] as int)
    }

    /// Group `ids` by their keys, keeping their order; keys from `count` on are
    /// left out.
    #[verifier::rlimit(50)]
    pub fn build(keys: &Vec<u32>, ids: &Vec<usize>, count: usize) -> (r: CompactPathPostings)
        requires
            ids@.len() < u32::MAX,
            keys@.len() < u32::MAX,
            forall|i: int| 0 <= i < ids@.len() ==> (#[trigger] ids@[i]) < keys@.len(),
        ensures
            r.wf(),
            r.offsets@.len() == count + 1,
            forall|k: int|
                0 <= k < count ==> #[trigger] r.list(k) == picked(ids@, key_test(keys@, k)),
    {
        let lists = distribute(keys, ids, count);
        let mut offsets: Vec<u32> = Vec::new();
        let mut indices: Vec<u32> = Vec::new();
        offsets.push(0);
        let mut k: usize = 0;
        assert(indices@ =~= joined_below(lists@, 0));
        while k < lists.len()
            invariant
                k <= lists@.len(),
                lists@.len() == count,
                total_below(lists@, count as int) <= ids@.len() < u32::MAX,
                offsets@.len() == k + 1,
                forall|j: int| 0 <= j <= k ==> #[trigger] offsets@[j] == total_below(lists@, j),
                indices@ == joined_below(lists@, k as int),
            decreases lists@.len() - k,
        {
            proof {
                joined_len(lists@, k as int);
                joined_len(lists@, k + 1);
                total_grows(lists@, k + 1, count as int);
                total_grows(lists@, k as int, count as int);
            }
            append_all(&mut indices, &lists[k]);
            offsets.push(indices.len() as u32);
            k = k + 1;
        }
        let r = CompactPathPostings { offsets, indices };
        proof {
            joined_len(lists@, count as int);
            assert forall|i: int, j: int| 0 <= i <= j < r.offsets@.len() implies r.offsets@[i]
                <= r.offsets@[j] by {
                total_grows(lists@, i, j);
                assert(r.offsets@[i] == total_below(lists@, i));
                assert(r.offsets@[j] == total_below(lists@, j));
            }
            assert(r.offsets@[count as int] == total_below(lists@, count as int));
            assert forall|k: int| 0 <= k < count implies #[trigger] r.list(k) == picked(
                ids@,
                key_test(keys@, k),
            ) by {
                joined_part(lists@, k, count as int);
                assert(r.offsets@[k] == total_below(lists@, k));
                assert(r.offsets@[k + 1] == total_below(lists@, k + 1));
                assert(lists@[k]@ == picked(ids@, key_test(keys@, k)));
            }
        }
        r
    }

    pub fn posting(&self, key: u32) -> (r: &[u32])
        requires
            self.wf(),
            key + 1 < self.offsets@.len(),
        ensures
            r@ == self.list(key as int),
    {
        let known: usize = self.offsets.len();
        let start: usize = self.offsets[key as usize] as usize;
        let end: usize = self.offsets[key as usize + 1] as usize;
        vstd::slice::slice_subrange(self.indices.as_slice(), start, end)
    }
}

fn append_all(out: &mut Vec<u32>, more: &Vec<u32>)
    ensures
        final(out)@ == old(out)@ + more@,
{
    let ghost before = out@;
    let mut i: usize = 0;
    while i < more.len()
        invariant
            i <= more@.len(),
            out@ == before + more@.subrange(0, i as int),
        decreases more@.len() - i,
    {
        out.push(more[i]);
        i = i + 1;
        assert(out@ =~= before + more@.subrange(0, i as int));
    }
    assert(out@ =~= before + more@);
}

fn empty_lists(count: usize) -> (r: Vec<Vec<u32>>)
    ensures
        r@.len() == count,
        forall|k: int| 0 <= k < count ==> (#[trigger] r@[k])@ == Seq::<u32>::empty(),
        total_below(r@, count as int) == 0,
{
    let mut lists: Vec<Vec<u32>> = Vec::new();
    let mut k: usize = 0;
    while k < count
        invariant
            k <= count,
            lists@.len() == k,
            forall|j: int| 0 <= j < k ==> (#[trigger] lists@[j])@ == Seq::<u32>::empty(),
        decreases count - k,
    {
        lists.push(Vec::new());
        k = k + 1;
    }
    proof {
        empty_total(lists@, count as int);
    }
    lists
}

proof fn empty_total(lists: Seq<Vec<u32>>, n: int)
    requires
        0 <= n <= lists.len(),
        forall|j: int| 0 <= j < lists.len() ==> (#[trigger] lists[j])@ == Seq::<u32>::empty(),
    ensures
        total_below(lists, n) == 0,
    decreases n,
{
    if n > 0 {
        empty_total(lists, n - 1);
        assert(lists[n - 1]@ == Seq::<u32>::empty());
    }
}

fn distribute(keys: &Vec<u32>, ids: &Vec<usize>, count: usize) -> (r: Vec<Vec<u32>>)
    requires
        keys@.len() < u32::MAX,
        forall|i: int| 0 <= i < ids@.len() ==> (#[trigger] ids@[i]) < keys@.len(),
    ensures
        r@.len() == count,
        forall|k: int|
            0 <= k < count ==> (#[trigger] r@[k])@ == picked(ids@, key_test(keys@, k)),
        total_below(r@, count as int) <= ids@.len(),
{
    let mut lists = empty_lists(count);
    let mut i: usize = 0;
    while i < ids.len()
        invariant
            i <= ids@.len(),
            lists@.len() == count,
            keys@.len() < u32::MAX,
            forall|j: int| 0 <= j < ids@.len() ==> (#[trigger] ids@[j]) < keys@.len(),
            forall|k: int|
                0 <= k < count ==> (#[trigger] lists@[k])@ == picked(
                    ids@.subrange(0, i as int),
                    key_test(keys@, k),
                ),
            total_below(lists@, count as int) <= i,
        decreases ids@.len() - i,
    {
        let id: usize = ids[i];
        let key: usize = keys[id] as usize;
        let ghost before = lists@;
        if key < count {
            lists[key].push(id as u32);
            proof {
                total_updated(before, lists@, key as int, count as int);
            }
        }
        proof {
            assert forall|k: int| 0 <= k < count implies (#[trigger] lists@[k])@ == picked(
                ids@.subrange(0, i + 1),
                key_test(keys@, k),
            ) by {
                picked_step(ids@, key_test(keys@, k), i as int);
                assert(before[k]@ == picked(ids@.subrange(0, i as int), key_test(keys@, k)));
            }
        }
        i = i + 1;
    }
    assert(ids@.subrange(0, i as int) =~= ids@);
    lists
}

// ---------------------------------------------------------------------------
// Several tokens per name

#[derive(Clone, Copy)]
pub struct CompactPostingRange {
    pub start: usize,
    pub len: usize,
}

/// Names by token, stored end to end.
pub struct CompactFuzzyPostings {
    pub ranges: HashMap<u32, CompactPostingRange>,
    pub name_ids: Vec<u32>,
}

pub open spec fn token_test(names: Seq<Seq<char>>, token: u32) -> spec_fn(int) -> bool {
    |i: int| is_name_token(names[i], token)
}

impl CompactFuzzyPostings {
    pub open spec fn wf(self) -> bool {
        forall|t: u32| #[trigger]
            self.ranges@.contains_key(t) ==> self.ranges@[t].start + self.ranges@[t].len
                <= self.name_ids@.len()
    }

    /// The names that have a token.
    pub open spec fn list(self, token: u32) -> Seq<u32> {
        if self.ranges@.contains_key(token) {
            self.name_ids@.subrange(
                self.ranges@[token].start as int,
                self.ranges@[token].start + self.ranges@[token].len,
            )
        } else {
            Seq::empty()
        }
    }

    pub fn posting(&self, token: u32) -> (r: &[u32])
        requires
            self.wf(),
        ensures
            r@ == self.list(token),
    {
        match self.ranges.get(&token) {
            Some(range) => {
                let start: usize = range.start;
                let total: usize = self.name_ids.len();
                assert(self.ranges@.contains_key(token));
                let end: usize = start + range.len;
                vstd::slice::slice_subrange(self.name_ids.as_slice(), start, end)
            },
            None => {
                let r = vstd::slice::slice_subrange(self.name_ids.as_slice(), 0, 0);
                assert(r@ =~= Seq::<u32>::empty());
                r
            },
        }
    }
}

/// Lists by token while they are built.
pub struct TokenLists {
    pub slots: HashMap<u32, usize>,
    pub tokens: Vec<u32>,
    pub lists: Vec<Vec<u32>>,
}

impl TokenLists {
    pub open spec fn wf(self) -> bool {
        &&& self.tokens@.len() == self.lists@.len()
        &&& forall|t: u32| #[trigger]
            self.slots@.contains_key(t) ==> self.slots@[t] < self.tokens@.len()
                && self.tokens@[self.slots@[t] as int] == t
        &&& forall|k: int|
            0 <= k < self.tokens@.len() ==> self.slots@.contains_key(#[trigger] self.tokens@[k])
                && self.slots@[self.tokens@[k]] == k
    }

    pub open spec fn list(self, t: u32) -> Seq<u32> {
        if self.slots@.contains_key(t) {
            self.lists@[self.slots@[t] as int]@
        } else {
            Seq::empty()
        }
    }

    pub fn new() -> (r: TokenLists)
        ensures
            r.wf(),
            forall|t: u32| #[trigger] r.list(t) == Seq::<u32>::empty(),
            total_below(r.lists@, r.lists@.len() as int) == 0,
    {
        TokenLists { slots: HashMap::new(), tokens: Vec::new(), lists: Vec::new() }
    }

    /// The list of a token.
    pub fn get(&self, token: u32) -> (r: &[u32])
        requires
            self.wf(),
        ensures
            r@ == self.list(token),
    {
        match self.slots.get(&token) {
            Some(slot) => self.lists[*slot].as_slice(),
            None => {
                let empty: &[u32] = &[];
                assert(empty@ =~= Seq::<u32>::empty());
                empty
            },
        }
    }

    /// Add a name under a token.
    pub fn add_name(&mut self, token: u32, name_id: u32)
        requires
            old(self).wf(),
        ensures
            final(self).wf(),
            final(self).list(token) == old(self).list(token).push(name_id),
            forall|t: u32| t != token ==> #[trigger] final(self).list(t) == old(self).list(t),
            total_below(final(self).lists@, final(self).lists@.len() as int) == total_below(
                old(self).lists@,
                old(self).lists@.len() as int,
            ) + 1,
    {
        let ghost before = *self;
        let known: Option<usize> = match self.slots.get(&token) {
            Some(slot) => Some(*slot),
            None => None,
        };
        match known {
            Some(slot) => {
                let ghost lists0 = self.lists@;
                self.lists[slot].push(name_id);
                proof {
                    total_updated(
                        lists0,
                        self.lists@,
                        slot as int,
                        self.lists@.len() as int,
                    );
                    assert forall|t: u32| t != token implies #[trigger] self.list(t)
                        == before.list(t) by {
                        if before.slots@.contains_key(t) {
                            assert(before.slots@[t] != slot) by {
                                assert(before.tokens@[before.slots@[t] as int] == t);
                                assert(before.tokens@[slot as int] == token);
                            }
                        }
                    }
                }
            },
            None => {
                let slot: usize = self.tokens.len();
                let mut list: Vec<u32> = Vec::new();
                list.push(name_id);
                let ghost one = list@;
                self.slots.insert(token, slot);
                self.tokens.push(token);
                self.lists.push(list);
                proof {
                    assert(one =~= Seq::<u32>::empty().push(name_id));
                    total_prefix(before.lists@, self.lists@, before.lists@.len() as int);
                    assert forall|t: u32| t != token implies #[trigger] self.list(t)
                        == before.list(t) by {
                        if before.slots@.contains_key(t) {
                            assert(before.slots@[t] < before.tokens@.len());
                        }
                    }
                    assert forall|t: u32| #[trigger] self.slots@.contains_key(
                        t,
                    ) implies self.slots@[t] < self.tokens@.len()
                        && self.tokens@[self.slots@[t] as int] == t by {
                        if t != token {
                            assert(before.slots@.contains_key(t));
                        }
                    }
                    assert forall|k: int| 0 <= k < self.tokens@.len() implies self.slots@.contains_key(
                        #[trigger] self.tokens@[k],
                    ) && self.slots@[self.tokens@[k]] == k by {
                        if k < slot {
                            assert(before.slots@.contains_key(before.tokens@[k]));
                        }
                    }
                }
            },
        }
    }
}

proof fn total_prefix(a: Seq<Vec<u32>>, b: Seq<Vec<u32>>, n: int)
    requires
        0 <= n <= a.len(),
        a.len() <= b.len(),
        forall|j: int| 0 <= j < a.len() ==> a[j] == #[trigger] b[j],
    ensures
        total_below(a, n) == total_below(b, n),
    decreases n,
{
    if n > 0 {
        total_prefix(a, b, n - 1);
        assert(a[n - 1] == b[n - 1]);
    }
}

proof fn increasing_tail(tokens: Seq<u32>, j: int, k: int)
    requires
        increasing(tokens),
        0 <= j < tokens.len(),
        0 <= k < tokens.len(),
        tokens[j] == tokens[k],
    ensures
        j == k,
{
}

impl CompactFuzzyPostings {
    /// List the names `ordered` under each of their tokens.
    #[verifier::rlimit(80)]
    pub fn build(ordered: &Vec<usize>, names: &TextIndex) -> (r: CompactFuzzyPostings)
        requires
            ordered@.len() < u32::MAX,
            names@.len() < u32::MAX,
            forall|i: int| 0 <= i < ordered@.len() ==> (#[trigger] ordered@[i]) < names@.len(),
        ensures
            r.wf(),
            forall|t: u32| #[trigger] r.list(t) == picked(ordered@, token_test(names@, t)),
    {
        let mut building = TokenLists::new();
        let mut i: usize = 0;
        while i < ordered.len()
            invariant
                i <= ordered@.len(),
                names@.len() < u32::MAX,
                forall|k: int| 0 <= k < ordered@.len() ==> (#[trigger] ordered@[k]) < names@.len(),
                building.wf(),
                forall|t: u32| #[trigger]
                    building.list(t) == picked(
                        ordered@.subrange(0, i as int),
                        token_test(names@, t),
                    ),
            decreases ordered@.len() - i,
        {
            let id: usize = ordered[i];
            let tokens = fuzzy_tokens_for_name(names.get(id));
            let ghost start = building;
            let mut j: usize = 0;
            while j < tokens.len()
                invariant
                    j <= tokens@.len(),
                    increasing(tokens@),
                    building.wf(),
                    id < u32::MAX,
                    forall|t: u32| #[trigger]
                        building.list(t) == (if tokens@.subrange(0, j as int).contains(t) {
                            start.list(t).push(id as u32)
                        } else {
                            start.list(t)
                        }),
                decreases tokens@.len() - j,
            {
                let token: u32 = tokens[j];
                let ghost before = building;
                proof {
                    let done = tokens@.subrange(0, j as int);
                    if done.contains(token) {
                        let k = choose|k: int| 0 <= k < done.len() && done[k] == token;
                        increasing_tail(tokens@, k, j as int);
                    }
                }
                building.add_name(token, id as u32);
                proof {
                    let done = tokens@.subrange(0, j as int);
                    assert(tokens@.subrange(0, j + 1) =~= done.push(token));
                    assert forall|t: u32| #[trigger] building.list(t) == (if tokens@.subrange(
                        0,
                        j + 1,
                    ).contains(t) {
                        start.list(t).push(id as u32)
                    } else {
                        start.list(t)
                    }) by {
                        push_contains(done, token, t);
                        assert(before.list(t) == (if done.contains(t) {
                            start.list(t).push(id as u32)
                        } else {
                            start.list(t)
                        }));
                    }
                }
                j = j + 1;
            }
            proof {
                assert(tokens@.subrange(0, j as int) =~= tokens@);
                assert forall|t: u32| #[trigger] building.list(t) == picked(
                    ordered@.subrange(0, i + 1),
                    token_test(names@, t),
                ) by {
                    picked_step(ordered@, token_test(names@, t), i as int);
                    assert(tokens@.contains(t) <==> is_name_token(names@[id as int], t));
                    assert(start.list(t) == picked(
                        ordered@.subrange(0, i as int),
                        token_test(names@, t),
                    ));
                }
            }
            i = i + 1;
        }
        assert(ordered@.subrange(0, i as int) =~= ordered@);
        building.flatten()
    }
}

impl TokenLists {
    fn flatten(self) -> (r: CompactFuzzyPostings)
        requires
            self.wf(),
        ensures
            r.wf(),
            forall|t: u32| #[trigger] r.list(t) == self.list(t),
    {
        let mut ranges: HashMap<u32, CompactPostingRange> = HashMap::new();
        let mut name_ids: Vec<u32> = Vec::new();
        let mut k: usize = 0;
        assert(name_ids@ =~= joined_below(self.lists@, 0));
        while k < self.lists.len()
            invariant
                self.wf(),
                k <= self.lists@.len(),
                name_ids@ == joined_below(self.lists@, k as int),
                name_ids@.len() == total_below(self.lists@, k as int),
                forall|t: u32|
                    #[trigger] ranges@.contains_key(t) <==> self.slots@.contains_key(t)
                        && self.slots@[t] < k,
                forall|t: u32| #[trigger]
                    ranges@.contains_key(t) ==> ranges@[t].start == total_below(
                        self.lists@,
                        self.slots@[t] as int,
                    ) && ranges@[t].len == self.lists@[self.slots@[t] as int]@.len(),
            decreases self.lists@.len() - k,
        {
            let start: usize = name_ids.len();
            let len: usize = self.lists[k].len();
            proof {
                joined_len(self.lists@, k + 1);
            }
            append_all(&mut name_ids, &self.lists[k]);
            let token: u32 = self.tokens[k];
            let ghost before = ranges@;
            ranges.insert(token, CompactPostingRange { start, len });
            proof {
                assert forall|t: u32| #[trigger] ranges@.contains_key(t) <==> self.slots@.contains_key(
                    t,
                ) && self.slots@[t] < k + 1 by {
                    assert(self.slots@[self.tokens@[k as int]] == k);
                    if self.slots@.contains_key(t) && self.slots@[t] == k {
                        assert(self.tokens@[k as int] == t);
                    }
                }
                assert forall|t: u32| #[trigger] ranges@.contains_key(t) implies ranges@[t].start
                    == total_below(self.lists@, self.slots@[t] as int) && ranges@[t].len
                    == self.lists@[self.slots@[t] as int]@.len() by {
                    if t != token {
                        assert(before.contains_key(t));
                    }
                }
            }
            k = k + 1;
        }
        let r = CompactFuzzyPostings { ranges, name_ids };
        proof {
            let n = self.lists@.len() as int;
            assert forall|t: u32| #[trigger] r.list(t) == self.list(t) by {
                if self.slots@.contains_key(t) {
                    assert(r.ranges@.contains_key(t));
                    joined_part(self.lists@, self.slots@[t] as int, n);
                }
            }
            assert forall|t: u32| #[trigger] r.ranges@.contains_key(t) implies r.ranges@[t].start
                + r.ranges@[t].len <= r.name_ids@.len() by {
                joined_part(self.lists@, self.slots@[t] as int, n);
            }
        }
        r
    }
}

} // verus!
