//! Which paths declare names with a given head.

use vstd::prelude::*;
use vstd::slice::slice_subrange;

use crate::name_search::same_multiset_member;
use crate::name_segment::NO_PROJECT_ID;
use crate::name_tokens::{head_token, prefix_width, push_contains, three_byte_prefix_bounds};
use crate::order::{
    in_order, sort_merging, stable_sort_is_in_order, stable_sort_is_permutation, strict_weak,
    Order, Ordered,
};
use crate::postings::TokenLists;

verus! {

/// A name head and a path that declares a name with it.
#[derive(Debug, Clone, Copy, PartialEq, Eq, Structural)]
pub struct CompactPrefixPathPair {
    pub token: u32,
    pub path_id: u32,
}

/// A pair with the project of the declaration.
#[derive(Debug, Clone, Copy, PartialEq, Eq, Structural)]
pub struct PrefixPath {
    pub token: u32,
    pub path_id: u32,
    pub project_id: u32,
}

impl PrefixPath {
    pub open spec fn pair(self) -> CompactPrefixPathPair {
        CompactPrefixPathPair { token: self.token, path_id: self.path_id }
    }
}

/// Pairs by head, then by path.
pub open spec fn pair_before(a: CompactPrefixPathPair, b: CompactPrefixPathPair) -> bool {
    a.token < b.token || (a.token == b.token && a.path_id < b.path_id)
}

/// Declarations by head, path and project.
pub struct PrefixPathOrder;

impl Order<PrefixPath> for PrefixPathOrder {
    open spec fn before(a: PrefixPath, b: PrefixPath) -> bool {
        if a.token != b.token {
            a.token < b.token
        } else if a.path_id != b.path_id {
            a.path_id < b.path_id
        } else {
            a.project_id < b.project_id
        }
    }
}

impl Ordered<PrefixPath> for PrefixPathOrder {
    fn is_before(a: &PrefixPath, b: &PrefixPath) -> (r: bool) {
        if a.token != b.token {
            a.token < b.token
        } else if a.path_id != b.path_id {
            a.path_id < b.path_id
        } else {
            a.project_id < b.project_id
        }
    }
}

/// Distinct pairs in order, with the positions of each project's pairs.
pub struct CompactPrefixPathPostings {
    pub pairs: Vec<CompactPrefixPathPair>,
    pub project_positions: TokenLists,
}

/// Strictly increasing numbers.
pub open spec fn ascending(s: Seq<u32>) -> bool {
    forall|i: int, j: int| 0 <= i < j < s.len() ==> (#[trigger] s[i]) < (#[trigger] s[j])
}

/// One of the first `n` declarations has the pair.
pub open spec fn declares(s: Seq<PrefixPath>, n: int, pair: CompactPrefixPathPair) -> bool {
    exists|k: int| 0 <= k < n && (#[trigger] s[k]).pair() == pair
}

/// One of the first `n` declarations has the pair and the project.
pub open spec fn owns(
    s: Seq<PrefixPath>,
    n: int,
    pair: CompactPrefixPathPair,
    project: u32,
) -> bool {
    project != NO_PROJECT_ID && exists|k: int|
        0 <= k < n && (#[trigger] s[k]).pair() == pair && s[k].project_id == project
}

/// First position from `i` on whose head is no less than `token`.
pub open spec fn reaching(pairs: Seq<CompactPrefixPathPair>, token: int, i: int) -> int
    decreases pairs.len() - i,
{
    if i < 0 || i >= pairs.len() || pairs[i].token >= token {
        i
    } else {
        reaching(pairs, token, i + 1)
    }
}

/// First place from `i` on of a list of positions whose head is no less than
/// `token`.
pub open spec fn list_reaching(
    pairs: Seq<CompactPrefixPathPair>,
    list: Seq<u32>,
    token: int,
    i: int,
) -> int
    decreases list.len() - i,
{
    if i < 0 || i >= list.len() || pairs[list[i] as int].token >= token {
        i
    } else {
        list_reaching(pairs, list, token, i + 1)
    }
}

proof fn reaching_is(pairs: Seq<CompactPrefixPathPair>, token: int, i: int, r: int)
    requires
        0 <= i <= r <= pairs.len(),
        forall|k: int| i <= k < r ==> (#[trigger] pairs[k]).token < token,
        r < pairs.len() ==> pairs[r].token >= token,
    ensures
        reaching(pairs, token, i) == r,
    decreases r - i,
{
    if i < r {
        assert(pairs[i].token < token);
        reaching_is(pairs, token, i + 1, r);
    }
}

proof fn list_reaching_is(
    pairs: Seq<CompactPrefixPathPair>,
    list: Seq<u32>,
    token: int,
    i: int,
    r: int,
)
    requires
        0 <= i <= r <= list.len(),
        forall|k: int| i <= k < r ==> pairs[(#[trigger] list[k]) as int].token < token,
        r < list.len() ==> pairs[list[r] as int].token >= token,
    ensures
        list_reaching(pairs, list, token, i) == r,
    decreases r - i,
{
    if i < r {
        assert(pairs[list[i] as int].token < token);
        list_reaching_is(pairs, list, token, i + 1, r);
    }
}

impl CompactPrefixPathPostings {
    pub open spec fn positions(self, project: u32) -> Seq<u32> {
        self.project_positions.list(project)
    }

    pub open spec fn wf(self) -> bool {
        &&& self.pairs@.len() <= u32::MAX
        &&& forall|i: int, j: int|
            0 <= i < j < self.pairs@.len() ==> pair_before(
                #[trigger] self.pairs@[i],
                #[trigger] self.pairs@[j],
            )
        &&& self.project_positions.wf()
        &&& forall|q: u32| ascending(#[trigger] self.positions(q))
        &&& forall|q: u32, k: int|
            0 <= k < self.positions(q).len() ==> (#[trigger] self.positions(q)[k])
                < self.pairs@.len()
    }

    /// These postings are those of the declarations `s`: every pair once, and
    /// under each project the positions of its pairs.
    pub open spec fn index_of(self, s: Seq<PrefixPath>, n: int) -> bool {
        &&& forall|pair: CompactPrefixPathPair|
            self.pairs@.contains(pair) <==> #[trigger] declares(s, n, pair)
        &&& forall|q: u32, p: u32|
            p < self.pairs@.len() ==> (#[trigger] self.positions(q).contains(p) <==> owns(
                s,
                n,
                self.pairs@[p as int],
                q,
            ))
    }

    /// Index declarations by their heads.
    #[verifier::rlimit(50)]
    pub fn build(raw: Vec<PrefixPath>) -> (r: CompactPrefixPathPostings)
        requires
            raw@.len() < u32::MAX,
        ensures
            r.wf(),
            r.index_of(raw@, raw@.len() as int),
    {
        let ghost input = raw@;
        let sorted = sort_declarations(raw);
        let ghost s = sorted@;
        let mut r = CompactPrefixPathPostings {
            pairs: Vec::new(),
            project_positions: TokenLists::new(),
        };
        let mut i: usize = 0;
        assert(r.index_of(s, 0)) by {
            assert forall|q: u32, p: u32| p < r.pairs@.len() implies (
            #[trigger] r.positions(q).contains(p) <==> owns(s, 0, r.pairs@[p as int], q)) by {}
        }
        while i < sorted.len()
            invariant
                i <= s.len() < u32::MAX,
                s == sorted@,
                in_order::<PrefixPath, PrefixPathOrder>(s),
                r.wf(),
                r.pairs@.len() <= i,
                i > 0 ==> r.pairs@.len() > 0 && r.pairs@.last() == s[i - 1].pair(),
                r.index_of(s, i as int),
            decreases s.len() - i,
        {
            r.add_declaration(sorted[i], Ghost(s), Ghost(i as int));
            i = i + 1;
        }
        proof {
            assert forall|pair: CompactPrefixPathPair| #[trigger] declares(
                input,
                input.len() as int,
                pair,
            ) == declares(s, s.len() as int, pair) by {
                same_declarations(input, s, pair, 0);
            }
            assert forall|q: u32, p: u32| p < r.pairs@.len() implies (
            #[trigger] r.positions(q).contains(p) <==> owns(
                input,
                input.len() as int,
                r.pairs@[p as int],
                q,
            )) by {
                same_declarations(input, s, r.pairs@[p as int], q);
            }
        }
        r
    }

    /// Add the next declaration of a sorted sequence.
    #[verifier::rlimit(60)]
    fn add_declaration(&mut self, d: PrefixPath, Ghost(s): Ghost<Seq<PrefixPath>>, Ghost(n): Ghost<
        int,
    >)
        requires
            old(self).wf(),
            old(self).pairs@.len() < u32::MAX,
            0 <= n < s.len(),
            s[n] == d,
            in_order::<PrefixPath, PrefixPathOrder>(s),
            n > 0 ==> old(self).pairs@.len() > 0 && old(self).pairs@.last() == s[n - 1].pair(),
            old(self).index_of(s, n),
        ensures
            final(self).wf(),
            final(self).pairs@.len() <= old(self).pairs@.len() + 1,
            final(self).pairs@.len() > 0,
            final(self).pairs@.last() == d.pair(),
            final(self).index_of(s, n + 1),
    {
        let ghost before = *self;
        let pair = CompactPrefixPathPair { token: d.token, path_id: d.path_id };
        let count: usize = self.pairs.len();
        let repeated = count > 0 && self.pairs[count - 1].token == pair.token
            && self.pairs[count - 1].path_id == pair.path_id;
        if !repeated {
            proof {
                if n > 0 {
                    assert(!PrefixPathOrder::before(s[n], s[n - 1]));
                    assert(pair_before(before.pairs@.last(), pair));
                } else {
                    if count > 0 {
                        assert(before.pairs@.contains(before.pairs@[0]));
                        assert(declares(s, n, before.pairs@[0]));
                        assert(false);
                    }
                }
            }
            self.pairs.push(pair);
        }
        let ghost middle = *self;
        proof {
            let now = self.pairs@;
            assert forall|i: int, j: int| 0 <= i < j < now.len() implies pair_before(
                #[trigger] now[i],
                #[trigger] now[j],
            ) by {
                if j < before.pairs@.len() {
                    assert(pair_before(before.pairs@[i], before.pairs@[j]));
                } else {
                    assert(now[i] == before.pairs@[i]);
                    let last = before.pairs@.len() - 1;
                    if i < last {
                        assert(pair_before(before.pairs@[i], before.pairs@[last]));
                    }
                    assert(pair_before(before.pairs@.last(), pair));
                }
            }
            assert(now.last() == pair);
        }
        let position: u32 = (self.pairs.len() - 1) as u32;
        if d.project_id != NO_PROJECT_ID {
            let list = self.project_positions.get(d.project_id);
            let listed: usize = list.len();
            let known = listed > 0 && list[listed - 1] == position;
            if !known {
                let ghost old_list = self.project_positions.list(d.project_id);
                proof {
                    assert(old_list == before.positions(d.project_id));
                    assert forall|k: int| 0 <= k < old_list.len() implies (#[trigger] old_list[k])
                        < position by {
                        assert(before.positions(d.project_id)[k] < before.pairs@.len());
                        if k < old_list.len() - 1 {
                            assert(old_list[k] < old_list[old_list.len() - 1]);
                        }
                    }
                }
                self.project_positions.add_name(d.project_id, position);
                proof {
                    let new_list = self.project_positions.list(d.project_id);
                    assert(new_list == old_list.push(position));
                    assert(ascending(new_list));
                }
            }
        }
        proof {
            let after = *self;
            let now = after.pairs@;
            assert(now == middle.pairs@);
            assert(ascending(after.positions(d.project_id)));
            assert forall|q: u32| ascending(#[trigger] after.positions(q)) by {
                if q != d.project_id {
                    assert(after.positions(q) == before.positions(q));
                }
            }
            assert forall|q: u32, k: int| 0 <= k < after.positions(q).len() implies (
            #[trigger] after.positions(q)[k]) < now.len() by {
                if q != d.project_id || k < before.positions(q).len() {
                    assert(after.positions(q)[k] == before.positions(q)[k]);
                    assert(before.positions(q)[k] < before.pairs@.len());
                }
            }
            assert forall|x: CompactPrefixPathPair|
                now.contains(x) <==> #[trigger] declares(s, n + 1, x) by {
                declares_step(s, n, x);
                if before.pairs@.contains(x) {
                    let k = choose|k: int| 0 <= k < before.pairs@.len() && before.pairs@[k] == x;
                    assert(now[k] == x);
                }
                if now.contains(x) {
                    let k = choose|k: int| 0 <= k < now.len() && now[k] == x;
                    if k < before.pairs@.len() {
                        assert(before.pairs@[k] == x);
                    }
                }
                if x == pair {
                    assert(now[now.len() - 1] == x);
                }
            }
            assert forall|q: u32, p: u32| p < now.len() implies (
            #[trigger] after.positions(q).contains(p) <==> owns(s, n + 1, now[p as int], q)) by {
                owns_step(s, n, now[p as int], q);
                positions_step(before, after, d, position, p, q);
                if p < before.pairs@.len() {
                    assert(before.positions(q).contains(p) <==> owns(
                        s,
                        n,
                        before.pairs@[p as int],
                        q,
                    ));
                    if p as int != now.len() - 1 {
                        assert(pair_before(now[p as int], now[now.len() - 1]));
                    }
                } else {
                    assert(!declares(s, n, pair)) by {
                        if declares(s, n, pair) {
                            assert(before.pairs@.contains(pair));
                            let k = choose|k: int|
                                0 <= k < before.pairs@.len() && before.pairs@[k] == pair;
                            assert(pair_before(now[k], now[now.len() - 1]));
                        }
                    }
                    if owns(s, n, pair, q) {
                        let k = choose|k: int|
                            0 <= k < n && (#[trigger] s[k]).pair() == pair && s[k].project_id == q;
                        assert(s[k].pair() == pair);
                        assert(declares(s, n, pair));
                    }
                    if before.positions(q).contains(p) {
                        let k = choose|k: int|
                            0 <= k < before.positions(q).len() && before.positions(q)[k] == p;
                        assert(before.positions(q)[k] < before.pairs@.len());
                    }
                }
            }
        }
    }

    /// The pairs whose heads a prefix can have.
    pub fn paths_for_prefix(&self, prefix: &[u8]) -> (r: &[CompactPrefixPathPair])
        requires
            self.wf(),
        ensures
            r@ == self.spec_paths(prefix@),
    {
        match three_byte_prefix_bounds(prefix) {
            Some((low, high)) => {
                let start: usize = self.partition(low);
                let end: usize = self.partition(high);
                proof {
                    self.reaching_grows(low as int, high as int);
                }
                slice_subrange(self.pairs.as_slice(), start, end)
            },
            None => {
                let empty: &[CompactPrefixPathPair] = &[];
                assert(empty@ =~= self.spec_paths(prefix@));
                empty
            },
        }
    }

    pub open spec fn spec_paths(self, prefix: Seq<u8>) -> Seq<CompactPrefixPathPair> {
        match head_token(prefix) {
            Some(low) => self.pairs@.subrange(
                reaching(self.pairs@, low as int, 0),
                reaching(self.pairs@, low + prefix_width(prefix.len()), 0),
            ),
            None => Seq::empty(),
        }
    }

    /// The positions of a project's pairs whose heads a prefix can have.
    pub fn project_positions_for_prefix(&self, project_id: u32, prefix: &[u8]) -> (r: &[u32])
        requires
            self.wf(),
        ensures
            r@ == self.spec_project_positions(project_id, prefix@),
    {
        match three_byte_prefix_bounds(prefix) {
            Some((low, high)) => {
                let list = self.project_positions.get(project_id);
                let start: usize = self.partition_list(project_id, list, low);
                let end: usize = self.partition_list(project_id, list, high);
                proof {
                    self.list_reaching_grows(project_id, low as int, high as int);
                }
                slice_subrange(list, start, end)
            },
            None => {
                let empty: &[u32] = &[];
                assert(empty@ =~= self.spec_project_positions(project_id, prefix@));
                empty
            },
        }
    }

    pub open spec fn spec_project_positions(self, project: u32, prefix: Seq<u8>) -> Seq<u32> {
        let list = self.positions(project);
        match head_token(prefix) {
            Some(low) => list.subrange(
                list_reaching(self.pairs@, list, low as int, 0),
                list_reaching(self.pairs@, list, low + prefix_width(prefix.len()), 0),
            ),
            None => Seq::empty(),
        }
    }

    fn partition(&self, token: u32) -> (r: usize)
        requires
            self.wf(),
        ensures
            r == reaching(self.pairs@, token as int, 0),
            r <= self.pairs@.len(),
    {
        let mut low: usize = 0;
        let mut high: usize = self.pairs.len();
        while low < high
            invariant
                self.wf(),
                low <= high <= self.pairs@.len(),
                forall|k: int| 0 <= k < low ==> (#[trigger] self.pairs@[k]).token < token,
                forall|k: int|
                    high <= k < self.pairs@.len() ==> (#[trigger] self.pairs@[k]).token >= token,
            decreases high - low,
        {
            let middle: usize = low + (high - low) / 2;
            if self.pairs[middle].token < token {
                assert forall|k: int| 0 <= k < middle + 1 implies (#[trigger] self.pairs@[k]).token
                    < token by {
                    if k < middle {
                        assert(pair_before(self.pairs@[k], self.pairs@[middle as int]));
                    }
                }
                low = middle + 1;
            } else {
                assert forall|k: int| middle <= k < self.pairs@.len() implies (
                #[trigger] self.pairs@[k]).token >= token by {
                    if k > middle {
                        assert(pair_before(self.pairs@[middle as int], self.pairs@[k]));
                    }
                }
                high = middle;
            }
        }
        proof {
            reaching_is(self.pairs@, token as int, 0, low as int);
        }
        low
    }

    fn partition_list(&self, project_id: u32, list: &[u32], token: u32) -> (r: usize)
        requires
            self.wf(),
            list@ == self.positions(project_id),
        ensures
            r == list_reaching(self.pairs@, list@, token as int, 0),
            r <= list@.len(),
    {
        let mut low: usize = 0;
        let mut high: usize = list.len();
        while low < high
            invariant
                self.wf(),
                list@ == self.positions(project_id),
                low <= high <= list@.len(),
                forall|k: int|
                    0 <= k < low ==> self.pairs@[(#[trigger] list@[k]) as int].token < token,
                forall|k: int|
                    high <= k < list@.len() ==> self.pairs@[(#[trigger] list@[k]) as int].token
                        >= token,
            decreases high - low,
        {
            let middle: usize = low + (high - low) / 2;
            assert(self.positions(project_id)[middle as int] < self.pairs@.len());
            if self.pairs[list[middle] as usize].token < token {
                assert forall|k: int| 0 <= k < middle + 1 implies self.pairs@[(
                #[trigger] list@[k]) as int].token < token by {
                    if k < middle {
                        assert(self.positions(project_id)[k] < self.pairs@.len());
                        assert(list@[k] < list@[middle as int]);
                        assert(pair_before(
                            self.pairs@[list@[k] as int],
                            self.pairs@[list@[middle as int] as int],
                        ));
                    }
                }
                low = middle + 1;
            } else {
                assert forall|k: int| middle <= k < list@.len() implies self.pairs@[(
                #[trigger] list@[k]) as int].token >= token by {
                    if k > middle {
                        assert(self.positions(project_id)[k] < self.pairs@.len());
                        assert(list@[middle as int] < list@[k]);
                        assert(pair_before(
                            self.pairs@[list@[middle as int] as int],
                            self.pairs@[list@[k] as int],
                        ));
                    }
                }
                high = middle;
            }
        }
        proof {
            list_reaching_is(self.pairs@, list@, token as int, 0, low as int);
        }
        low
    }

    /// The pairs of a prefix lie among all pairs.
    pub proof fn paths_in_range(self, prefix: Seq<u8>)
        requires
            head_token(prefix) is Some,
        ensures
            0 <= reaching(self.pairs@, head_token(prefix)->0 as int, 0) <= reaching(
                self.pairs@,
                head_token(prefix)->0 + prefix_width(prefix.len()),
                0,
            ) <= self.pairs@.len(),
    {
        let low = head_token(prefix)->0 as int;
        reaching_monotone(self.pairs@, low, low + prefix_width(prefix.len()), 0);
        reaching_within(self.pairs@, low + prefix_width(prefix.len()), 0);
    }

    /// The positions of a project's pairs are positions of pairs.
    pub proof fn project_positions_in_range(self, project: u32, prefix: Seq<u8>, i: int)
        requires
            self.wf(),
            0 <= i < self.spec_project_positions(project, prefix).len(),
        ensures
            self.spec_project_positions(project, prefix)[i] < self.pairs@.len(),
    {
        let list = self.positions(project);
        let low = head_token(prefix)->0 as int;
        let high = low + prefix_width(prefix.len());
        list_reaching_monotone(self.pairs@, list, low, high, 0);
        list_reaching_within(self.pairs@, list, high, 0);
        let at = list_reaching(self.pairs@, list, low, 0) + i;
        assert(self.positions(project)[at] < self.pairs@.len());
    }

    proof fn reaching_grows(self, low: int, high: int)
        requires
            low <= high,
        ensures
            reaching(self.pairs@, low, 0) <= reaching(self.pairs@, high, 0),
    {
        reaching_monotone(self.pairs@, low, high, 0);
    }

    proof fn list_reaching_grows(self, project: u32, low: int, high: int)
        requires
            low <= high,
        ensures
            list_reaching(self.pairs@, self.positions(project), low, 0) <= list_reaching(
                self.pairs@,
                self.positions(project),
                high,
                0,
            ),
    {
        list_reaching_monotone(self.pairs@, self.positions(project), low, high, 0);
    }
}

proof fn reaching_within(pairs: Seq<CompactPrefixPathPair>, token: int, i: int)
    requires
        0 <= i <= pairs.len(),
    ensures
        i <= reaching(pairs, token, i) <= pairs.len(),
    decreases pairs.len() - i,
{
    if i < pairs.len() && pairs[i].token < token {
        reaching_within(pairs, token, i + 1);
    }
}

proof fn list_reaching_within(
    pairs: Seq<CompactPrefixPathPair>,
    list: Seq<u32>,
    token: int,
    i: int,
)
    requires
        0 <= i <= list.len(),
    ensures
        i <= list_reaching(pairs, list, token, i) <= list.len(),
    decreases list.len() - i,
{
    if i < list.len() && pairs[list[i] as int].token < token {
        list_reaching_within(pairs, list, token, i + 1);
    }
}

proof fn reaching_monotone(pairs: Seq<CompactPrefixPathPair>, low: int, high: int, i: int)
    requires
        low <= high,
        0 <= i,
    ensures
        i <= reaching(pairs, low, i) <= reaching(pairs, high, i),
    decreases pairs.len() - i,
{
    if i < pairs.len() {
        reaching_monotone(pairs, low, high, i + 1);
    }
}

proof fn list_reaching_monotone(
    pairs: Seq<CompactPrefixPathPair>,
    list: Seq<u32>,
    low: int,
    high: int,
    i: int,
)
    requires
        low <= high,
        0 <= i,
    ensures
        i <= list_reaching(pairs, list, low, i) <= list_reaching(pairs, list, high, i),
    decreases list.len() - i,
{
    if i < list.len() {
        list_reaching_monotone(pairs, list, low, high, i + 1);
    }
}

/// A pair whose head is in a range lies between the ends of the range.
pub proof fn within_reach(postings: CompactPrefixPathPostings, low: int, high: int, at: int)
    requires
        postings.wf(),
        0 <= at < postings.pairs@.len(),
        low <= postings.pairs@[at].token < high,
    ensures
        0 <= reaching(postings.pairs@, low, 0) <= at,
        at < reaching(postings.pairs@, high, 0) <= postings.pairs@.len(),
{
    reaching_before(postings.pairs@, low, 0, at);
    reaching_behind(postings, high, 0, at);
}

proof fn reaching_before(pairs: Seq<CompactPrefixPathPair>, low: int, i: int, at: int)
    requires
        0 <= i <= at < pairs.len(),
        low <= pairs[at].token,
    ensures
        i <= reaching(pairs, low, i) <= at,
    decreases at - i,
{
    if i < at && pairs[i].token < low {
        reaching_before(pairs, low, i + 1, at);
    }
}

proof fn reaching_behind(postings: CompactPrefixPathPostings, high: int, i: int, at: int)
    requires
        postings.wf(),
        0 <= i <= postings.pairs@.len(),
        0 <= at < postings.pairs@.len(),
        postings.pairs@[at].token < high,
    ensures
        at < reaching(postings.pairs@, high, i) <= postings.pairs@.len(),
    decreases postings.pairs@.len() - i,
{
    let pairs = postings.pairs@;
    if i < pairs.len() {
        if i < at {
            assert(pair_before(pairs[i], pairs[at]));
        }
        if pairs[i].token < high {
            reaching_behind(postings, high, i + 1, at);
        }
    }
}

proof fn declares_step(s: Seq<PrefixPath>, n: int, x: CompactPrefixPathPair)
    requires
        0 <= n < s.len(),
    ensures
        declares(s, n + 1, x) <==> declares(s, n, x) || s[n].pair() == x,
{
    if declares(s, n + 1, x) && s[n].pair() != x {
        let k = choose|k: int| 0 <= k < n + 1 && (#[trigger] s[k]).pair() == x;
        assert(s[k].pair() == x);
    }
    if declares(s, n, x) {
        let k = choose|k: int| 0 <= k < n && (#[trigger] s[k]).pair() == x;
        assert(s[k].pair() == x);
    }
}

proof fn owns_step(s: Seq<PrefixPath>, n: int, x: CompactPrefixPathPair, q: u32)
    requires
        0 <= n < s.len(),
    ensures
        owns(s, n + 1, x, q) <==> owns(s, n, x, q) || (q != NO_PROJECT_ID && s[n].pair() == x
            && s[n].project_id == q),
{
    if owns(s, n + 1, x, q) && !(s[n].pair() == x && s[n].project_id == q) {
        let k = choose|k: int|
            0 <= k < n + 1 && (#[trigger] s[k]).pair() == x && s[k].project_id == q;
        assert(s[k].pair() == x);
    }
    if owns(s, n, x, q) {
        let k = choose|k: int|
            0 <= k < n && (#[trigger] s[k]).pair() == x && s[k].project_id == q;
        assert(s[k].pair() == x);
    }
}

/// What adding `d` does to the positions of a project.
proof fn positions_step(
    before: CompactPrefixPathPostings,
    after: CompactPrefixPathPostings,
    d: PrefixPath,
    position: u32,
    p: u32,
    q: u32,
)
    requires
        q != d.project_id || q == NO_PROJECT_ID ==> after.positions(q) == before.positions(q),
        d.project_id != NO_PROJECT_ID ==> (after.positions(d.project_id) == before.positions(
            d.project_id,
        ).push(position) || (after.positions(d.project_id) == before.positions(d.project_id)
            && before.positions(d.project_id).len() > 0 && before.positions(d.project_id).last()
            == position)),
    ensures
        after.positions(q).contains(p) <==> before.positions(q).contains(p) || (q == d.project_id
            && q != NO_PROJECT_ID && p == position),
{
    let (a, b) = (after.positions(q), before.positions(q));
    if q == d.project_id && q != NO_PROJECT_ID {
        if a == b.push(position) {
            push_contains(b, position, p);
        } else {
            assert(b[b.len() - 1] == position);
        }
    }
}

fn sort_declarations(raw: Vec<PrefixPath>) -> (r: Vec<PrefixPath>)
    ensures
        r@.to_multiset() == raw@.to_multiset(),
        r@.len() == raw@.len(),
        in_order::<PrefixPath, PrefixPathOrder>(r@),
{
    proof {
        assert(strict_weak::<PrefixPath, PrefixPathOrder>());
        stable_sort_is_permutation::<PrefixPath, PrefixPathOrder>(raw@);
        stable_sort_is_in_order::<PrefixPath, PrefixPathOrder>(raw@);
    }
    sort_merging::<PrefixPath, PrefixPathOrder>(raw)
}

proof fn same_declarations(a: Seq<PrefixPath>, b: Seq<PrefixPath>, x: CompactPrefixPathPair, q: u32)
    requires
        a.to_multiset() == b.to_multiset(),
    ensures
        declares(a, a.len() as int, x) == declares(b, b.len() as int, x),
        owns(a, a.len() as int, x, q) == owns(b, b.len() as int, x, q),
{
    moved_declaration(a, b, x, q);
    moved_declaration(b, a, x, q);
}

proof fn moved_declaration(
    a: Seq<PrefixPath>,
    b: Seq<PrefixPath>,
    x: CompactPrefixPathPair,
    q: u32,
)
    requires
        a.to_multiset() == b.to_multiset(),
    ensures
        declares(a, a.len() as int, x) ==> declares(b, b.len() as int, x),
        owns(a, a.len() as int, x, q) ==> owns(b, b.len() as int, x, q),
{
    if declares(a, a.len() as int, x) {
        let k = choose|k: int| 0 <= k < a.len() && (#[trigger] a[k]).pair() == x;
        same_multiset_member(a, b, k);
        let j = choose|j: int| 0 <= j < b.len() && b[j] == a[k];
        assert(b[j].pair() == x);
    }
    if owns(a, a.len() as int, x, q) {
        let k = choose|k: int|
            0 <= k < a.len() && (#[trigger] a[k]).pair() == x && a[k].project_id == q;
        same_multiset_member(a, b, k);
        let j = choose|j: int| 0 <= j < b.len() && b[j] == a[k];
        assert(b[j].pair() == x);
    }
}

} // verus!
