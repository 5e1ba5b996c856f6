//! Slots for a bounded recall, taken from the indexes of the segments.

use vstd::prelude::*;

use crate::chars::lower_bytes;
use crate::facts::SemanticFamily;
use crate::name_recall::{
    eligible, marks, marks_one_more, shares_token, shelved, slots_where, source_slots, source_test,
    static_order_is_strict_weak, static_sorted, unmarked, unseen_step, with_unseen, Shelved, Source,
    SourceRef, StaticOrder,
};
use crate::name_search::{first, prefix_slots, prefix_slots_facts, prefixed, valid_ids};
use crate::name_table::{slot_in_segment, NameTable, Table};
use crate::name_segment::{folded, Name, NameSegment};
use crate::name_tokens::{
    fuzzy_query_tokens, initials_below, is_boundary_query_token, is_continuous_query_token,
    is_name_token, is_window_token, windows,
};
use crate::order::{
    sorted_is_unique, stable_sort, stable_sort_is_in_order, stable_sort_is_permutation,
    stable_sort_takes_from, text_before_is_total, Order,
};
use crate::postings::{picked, picked_passes, token_test};
use crate::priority::{in_list, picked_holds, slot_has_segment};
use crate::recall_laws::{where_holds, where_is_proper};
use crate::segment_index::{
    family_names, name_in_family, names_by_length, IndexedSegment, LengthOrder, NamedId,
};
use crate::text_index::TextIndex;

verus! {

// ---------------------------------------------------------------------------
// Lists of slots

/// Distinct slots, exactly those that pass a test.
pub open spec fn lists_exactly(t: Table, ids: Seq<usize>, test: spec_fn(int) -> bool) -> bool {
    &&& ids.no_duplicates()
    &&& forall|k: int|
        0 <= k < ids.len() ==> (#[trigger] ids[k]) < t.slots.len() && test(ids[k] as int)
    &&& forall|i: int| 0 <= i < t.slots.len() && #[trigger] test(i) ==> ids.contains(i as usize)
}

/// Lists of the same slots are the same in static order.
proof fn same_slots_shelve_alike(
    t: Table,
    a: Seq<usize>,
    b: Seq<usize>,
    test: spec_fn(int) -> bool,
)
    requires
        t.slots.len() <= usize::MAX,
        lists_exactly(t, a, test),
        lists_exactly(t, b, test),
    ensures
        static_sorted(t, a) == static_sorted(t, b),
{
    broadcast use vstd::seq_lib::group_to_multiset_ensures;

    let (x, y) = (shelved(t, a), shelved(t, b));
    let (p, q) = (
        stable_sort::<Shelved, StaticOrder>(x),
        stable_sort::<Shelved, StaticOrder>(y),
    );
    static_order_is_strict_weak();
    stable_sort_is_in_order::<Shelved, StaticOrder>(x);
    stable_sort_is_in_order::<Shelved, StaticOrder>(y);
    stable_sort_is_permutation::<Shelved, StaticOrder>(x);
    stable_sort_is_permutation::<Shelved, StaticOrder>(y);
    shelved_distinct(t, a);
    shelved_distinct(t, b);
    x.lemma_multiset_has_no_duplicates();
    y.lemma_multiset_has_no_duplicates();
    assert(x.to_multiset() =~= y.to_multiset()) by {
        assert forall|e: Shelved| #[trigger] x.to_multiset().count(e) == y.to_multiset().count(
            e,
        ) by {
            if x.contains(e) {
                shelved_carries(t, a, b, test, e);
                assert(x.to_multiset().contains(e) && y.to_multiset().contains(e));
            }
            if y.contains(e) {
                shelved_carries(t, b, a, test, e);
                assert(x.to_multiset().contains(e) && y.to_multiset().contains(e));
            }
        }
    }
    assert forall|i: int, j: int|
        0 <= i < p.len() && 0 <= j < q.len() && !<StaticOrder as Order<Shelved>>::before(
            #[trigger] p[i],
            #[trigger] q[j],
        ) && !<StaticOrder as Order<Shelved>>::before(q[j], p[i]) implies p[i] == q[j] by {
        assert(p.contains(p[i]) && q.contains(q[j]));
        assert(x.to_multiset().count(p[i]) > 0 && y.to_multiset().count(q[j]) > 0);
        assert(x.contains(p[i]) && y.contains(q[j]));
        text_before_is_total(p[i].name.name, q[j].name.name);
        text_before_is_total(p[i].name.path, q[j].name.path);
        let m = choose|m: int| 0 <= m < x.len() && x[m] == p[i];
        let n = choose|n: int| 0 <= n < y.len() && y[n] == q[j];
        assert(x[m].name == t.slots[x[m].index as int]);
        assert(y[n].name == t.slots[y[n].index as int]);
    }
    sorted_is_unique::<Shelved, StaticOrder>(p, q);
}

proof fn shelved_distinct(t: Table, ids: Seq<usize>)
    requires
        ids.no_duplicates(),
    ensures
        shelved(t, ids).no_duplicates(),
{
    let s = shelved(t, ids);
    assert forall|i: int, j: int| 0 <= i < s.len() && 0 <= j < s.len() && i != j implies s[i]
        != s[j] by {
        assert(ids[i] != ids[j]);
    }
}

proof fn shelved_carries(
    t: Table,
    a: Seq<usize>,
    b: Seq<usize>,
    test: spec_fn(int) -> bool,
    e: Shelved,
)
    requires
        lists_exactly(t, a, test),
        lists_exactly(t, b, test),
        shelved(t, a).contains(e),
    ensures
        shelved(t, b).contains(e),
{
    let k = choose|k: int| 0 <= k < a.len() && shelved(t, a)[k] == e;
    assert(test(a[k] as int));
    assert(b.contains(a[k]));
    let m = choose|m: int| 0 <= m < b.len() && b[m] == a[k];
    assert(shelved(t, b)[m] == e);
}

/// The slots of a source are exactly those that pass its test.
proof fn source_lists(t: Table, family: Option<SemanticFamily>, source: Source, needle: Seq<u8>)
    requires
        t.slots.len() <= usize::MAX,
    ensures
        lists_exactly(
            t,
            source_slots(t, family, source, needle),
            source_test(t, family, source, needle),
        ),
{
    let test = source_test(t, family, source, needle);
    let n = t.slots.len() as int;
    where_is_proper(test, n);
    assert forall|i: int| 0 <= i < n && #[trigger] test(i) implies source_slots(
        t,
        family,
        source,
        needle,
    ).contains(i as usize) by {
        where_holds(test, i, n);
    }
}

// ---------------------------------------------------------------------------
// Names that start with a query

/// A source whose names start with the query.
pub open spec fn is_prefix_source(source: Source) -> bool {
    source is Opened || source is Owned || source is Prefix
}

impl NameTable {
    /// The slots of a prefix source, found by spelling, in static order.
    pub fn slots_by_prefix(
        &self,
        source: SourceRef,
        family: Option<SemanticFamily>,
        needle: &[u8],
    ) -> (r: Vec<usize>)
        requires
            self.wf(),
            needle@.len() > 0,
            is_prefix_source(source@),
        ensures
            r@ == static_sorted(self@, source_slots(self@, family, source@, needle@)),
            valid_ids(self@, r@),
    {
        let ghost t = self@;
        let ghost test = source_test(t, family, source@, needle@);
        let (continuous, boundary) = fuzzy_query_tokens(needle);
        let list = self.prefix_indices(needle);
        proof {
            prefix_slots_facts(t, needle@);
        }
        let mut out: Vec<usize> = Vec::new();
        let mut k: usize = 0;
        while k < list.len()
            invariant
                self.wf(),
                t == self@,
                test == source_test(t, family, source@, needle@),
                k <= list@.len(),
                list@ == prefix_slots(t, needle@),
                list@.no_duplicates(),
                valid_ids(t, list@),
                forall|m: int|
                    0 <= m < list@.len() ==> prefixed(t, needle@, (#[trigger] list@[m]) as int),
                forall|x: u32|
                    #[trigger] continuous@.contains(x)
                        <==> is_continuous_query_token(needle@, x),
                forall|x: u32|
                    #[trigger] boundary@.contains(x)
                        <==> is_boundary_query_token(needle@, x),
                valid_ids(t, out@),
                out@.no_duplicates(),
                forall|m: int|
                    0 <= m < out@.len() ==> test((#[trigger] out@[m]) as int) && list@.subrange(
                        0,
                        k as int,
                    ).contains(out@[m]),
                forall|m: int|
                    0 <= m < k && test((#[trigger] list@[m]) as int) ==> out@.contains(list@[m]),
            decreases list@.len() - k,
        {
            let id: usize = list[k];
            let entry = self.entry(id);
            let mine = match family {
                Some(f) => entry.semantic_family == f,
                None => true,
            };
            let wanted = mine && self.entry_comes_from(
                &entry,
                source,
                needle,
                &continuous,
                &boundary,
            );
            assert(prefixed(t, needle@, list@[k as int] as int));
            assert(wanted == test(id as int));
            let ghost before = out@;
            proof {
                assert(list@.subrange(0, k + 1) =~= list@.subrange(0, k as int).push(id));
                assert forall|x: usize| list@.subrange(0, k as int).contains(x) implies
                    list@.subrange(0, k + 1).contains(x) by {
                    let m = choose|m: int| 0 <= m < k && #[trigger] list@.subrange(0, k as int)[m] == x;
                    assert(list@.subrange(0, k + 1)[m] == x);
                }
                assert(list@.subrange(0, k + 1)[k as int] == id);
                if before.contains(id) {
                    let m = choose|m: int| 0 <= m < before.len() && before[m] == id;
                    assert(list@.subrange(0, k as int).contains(before[m]));
                    let n = choose|n: int| 0 <= n < k && #[trigger] list@.subrange(0, k as int)[n] == id;
                    assert(list@[n] == list@[k as int]);
                }
            }
            if wanted {
                out.push(id);
                proof {
                    assert(out@[before.len() as int] == id);
                    assert forall|m: int| 0 <= m < k + 1 && test((#[trigger] list@[m]) as int) implies
                        out@.contains(list@[m]) by {
                        if m < k {
                            let n = choose|n: int| 0 <= n < before.len() && before[n] == list@[m];
                            assert(out@[n] == list@[m]);
                        }
                    }
                }
            }
            k = k + 1;
        }
        proof {
            assert forall|i: int| 0 <= i < t.slots.len() && #[trigger] test(i) implies
                out@.contains(i as usize) by {
                assert(prefixed(t, needle@, i));
                let m = choose|m: int| 0 <= m < list@.len() && list@[m] == i as usize;
                assert(test(list@[m] as int));
            }
            source_lists(t, family, source@, needle@);
            same_slots_shelve_alike(t, out@, source_slots(t, family, source@, needle@), test);
        }
        self.sort_statically(&out)
    }
}

// ---------------------------------------------------------------------------
// Names that share a token with a query

proof fn family_name_listed(seg: NameSegment, family: SemanticFamily, id: int, n: int)
    requires
        0 <= id < n <= seg.names@.len(),
        n <= usize::MAX,
        name_in_family(seg.entries@, family, id, seg.entries@.len() as int),
    ensures
        exists|k: int|
            0 <= k < family_names(seg, family, n).len() && (#[trigger] family_names(
                seg,
                family,
                n,
            )[k]).id == id,
    decreases n,
{
    let list = family_names(seg, family, n);
    if id == n - 1 {
        assert(list[list.len() - 1].id == id);
    } else {
        family_name_listed(seg, family, id, n - 1);
        let before = family_names(seg, family, n - 1);
        let k = choose|k: int| 0 <= k < before.len() && (#[trigger] before[k]).id == id;
        assert(list[k].id == id);
    }
}

proof fn family_names_fit(seg: NameSegment, family: SemanticFamily, n: int)
    requires
        0 <= n <= usize::MAX,
    ensures
        forall|k: int|
            0 <= k < family_names(seg, family, n).len() ==> (#[trigger] family_names(
                seg,
                family,
                n,
            )[k]).id < n,
    decreases n,
{
    if n > 0 {
        family_names_fit(seg, family, n - 1);
        let before = family_names(seg, family, n - 1);
        let list = family_names(seg, family, n);
        assert forall|k: int| 0 <= k < list.len() implies (#[trigger] list[k]).id < n by {
            if k < before.len() {
                assert(list[k] == before[k]);
            }
        }
    }
}

/// The names that a family declares are listed, and only names are.
proof fn names_by_length_facts(seg: NameSegment, family: SemanticFamily)
    requires
        seg.wf(),
    ensures
        forall|k: int|
            0 <= k < names_by_length(seg, family).len() ==> (#[trigger] names_by_length(
                seg,
                family,
            )[k]) < seg.names@.len(),
        forall|id: int|
            0 <= id < seg.names@.len() && #[trigger] name_in_family(
                seg.entries@,
                family,
                id,
                seg.entries@.len() as int,
            ) ==> names_by_length(seg, family).contains(id as usize),
{
    broadcast use vstd::seq_lib::group_to_multiset_ensures;

    let n = seg.names@.len() as int;
    let s = family_names(seg, family, n);
    let sorted = stable_sort::<NamedId, LengthOrder>(s);
    let ids = names_by_length(seg, family);
    stable_sort_is_permutation::<NamedId, LengthOrder>(s);
    family_names_fit(seg, family, n);
    assert forall|k: int| 0 <= k < ids.len() implies (#[trigger] ids[k]) < n by {
        stable_sort_takes_from::<NamedId, LengthOrder>(s, k);
        let m = choose|m: int| 0 <= m < s.len() && s[m] == sorted[k];
        assert(s[m].id < n);
    }
    assert forall|id: int|
        0 <= id < n && #[trigger] name_in_family(
            seg.entries@,
            family,
            id,
            seg.entries@.len() as int,
        ) implies ids.contains(id as usize) by {
        family_name_listed(seg, family, id, n);
        let k = choose|k: int| 0 <= k < s.len() && (#[trigger] s[k]).id == id;
        assert(s.to_multiset().count(s[k]) > 0);
        assert(sorted.contains(s[k]));
        let m = choose|m: int| 0 <= m < sorted.len() && sorted[m] == s[k];
        assert(ids[m] == id as usize);
    }
}

/// Whether a request for `family` reads the index of `of`.
pub open spec fn reads(family: Option<SemanticFamily>, of: SemanticFamily) -> bool {
    family is None || family == Some(of)
}

/// The names of a segment under some tokens are all there.
pub open spec fn names_there(
    t: NameTable,
    k: int,
    of: SemanticFamily,
    tokens: Seq<u32>,
    names: Seq<Seq<char>>,
) -> bool {
    let list = t.indexed(k).index.spec_family(of).fuzzy;
    forall|i: int, m: int|
        0 <= i < tokens.len() && 0 <= m < list.list(tokens[i]).len() ==> names.contains(
            t.segment(k).names@[(#[trigger] list.list(tokens[i])[m]) as int],
        )
}

/// Everything of `a` is in `b`.
pub open spec fn all_in(a: Seq<Seq<char>>, b: Seq<Seq<char>>) -> bool {
    forall|x: Seq<char>| #[trigger] a.contains(x) ==> b.contains(x)
}

impl NameTable {
    /// Note the names that a segment lists under some tokens.
    fn add_token_names(
        &self,
        k: usize,
        of: SemanticFamily,
        tokens: &Vec<u32>,
        names: &mut TextIndex,
    )
        requires
            self.wf(),
            k < self.segments(),
            old(names).wf(),
        ensures
            final(names).wf(),
            all_in(old(names)@, final(names)@),
            names_there(*self, k as int, of, tokens@, final(names)@),
    {
        let part: &IndexedSegment = if k == 0 {
            &self.base
        } else {
            &self.deltas[k - 1]
        };
        assert(*part == self.indexed(k as int));
        assert(self.indexed(k as int).index.describes(self.indexed(k as int).names));
        assert(self.segment(k as int).wf());
        let ghost seg = part.names;
        let ghost start = names@;
        let index = part.index.family(of);
        proof {
            names_by_length_facts(seg, of);
        }
        let mut i: usize = 0;
        while i < tokens.len()
            invariant
                i <= tokens@.len(),
                *part == self.indexed(k as int),
                *index == part.index.spec_family(of),
                index.describes(seg, of),
                seg == part.names,
                seg.wf(),
                forall|m: int|
                    0 <= m < names_by_length(seg, of).len() ==> (#[trigger] names_by_length(
                        seg,
                        of,
                    )[m]) < seg.names@.len(),
                names.wf(),
                start == old(names)@,
                all_in(start, names@),
                names_there(*self, k as int, of, tokens@.subrange(0, i as int), names@),
            decreases tokens@.len() - i,
        {
            let token: u32 = tokens[i];
            let list = index.fuzzy.posting(token);
            let ghost before = names@;
            let mut m: usize = 0;
            while m < list.len()
                invariant
                    m <= list@.len(),
                    seg == part.names,
                    seg.wf(),
                    index.describes(seg, of),
                    list@ == index.fuzzy.list(token),
                    forall|m: int|
                        0 <= m < names_by_length(seg, of).len() ==> (#[trigger] names_by_length(
                            seg,
                            of,
                        )[m]) < seg.names@.len(),
                    names.wf(),
                    all_in(before, names@),
                    forall|j: int|
                        0 <= j < m ==> names@.contains(seg.names@[(#[trigger] list@[j]) as int]),
                decreases list@.len() - m,
            {
                proof {
                    let ids = names_by_length(seg, of);
                    assert(list@ == picked(ids, token_test(seg.names@, token)));
                    picked_passes(ids, token_test(seg.names@, token), m as int);
                    let w = choose|w: int| 0 <= w < ids.len() && ids[w] == list@[m as int];
                    assert(ids[w] < seg.names@.len());
                }
                let ghost old_names = names@;
                let at: usize = names.intern(part.names.names.get(list[m] as usize));
                proof {
                    assert(all_in(old_names, names@)) by {
                        assert forall|x: Seq<char>| #[trigger]
                            old_names.contains(x) implies names@.contains(x) by {
                            let w = choose|w: int| 0 <= w < old_names.len() && old_names[w] == x;
                            assert(names@[w] == x);
                        }
                    }
                    assert(names@[at as int] == seg.names@[list@[m as int] as int]);
                }
                m = m + 1;
            }
            proof {
                let some = tokens@.subrange(0, i as int);
                let more = tokens@.subrange(0, i + 1);
                let lists = self.indexed(k as int).index.spec_family(of).fuzzy;
                assert forall|a: int, b: int|
                    0 <= a < more.len() && 0 <= b < lists.list(more[a]).len() implies names@.contains(
                    self.segment(k as int).names@[(#[trigger] lists.list(more[a])[b]) as int],
                ) by {
                    if a < i {
                        assert(some[a] == more[a]);
                        assert(before.contains(
                            self.segment(k as int).names@[lists.list(some[a])[b] as int],
                        ));
                    } else {
                        assert(list@[b] == lists.list(more[a])[b]);
                    }
                }
            }
            i = i + 1;
        }
        assert(tokens@.subrange(0, i as int) =~= tokens@);
    }
}

proof fn names_there_grow(
    t: NameTable,
    k: int,
    of: SemanticFamily,
    tokens: Seq<u32>,
    a: Seq<Seq<char>>,
    b: Seq<Seq<char>>,
)
    requires
        names_there(t, k, of, tokens, a),
        all_in(a, b),
    ensures
        names_there(t, k, of, tokens, b),
{
    let list = t.indexed(k).index.spec_family(of).fuzzy;
    assert forall|i: int, m: int|
        0 <= i < tokens.len() && 0 <= m < list.list(tokens[i]).len() implies b.contains(
        t.segment(k).names@[(#[trigger] list.list(tokens[i])[m]) as int],
    ) by {
        assert(a.contains(t.segment(k).names@[list.list(tokens[i])[m] as int]));
    }
}

/// The names under some tokens are there, of the first `n` segments.
pub open spec fn names_there_below(
    t: NameTable,
    family: Option<SemanticFamily>,
    tokens: Seq<u32>,
    names: Seq<Seq<char>>,
    n: int,
) -> bool {
    forall|k: int, of: SemanticFamily|
        0 <= k < n && reads(family, of) ==> #[trigger] names_there(t, k, of, tokens, names)
}

impl NameTable {
    /// The names that the segments list under some tokens.
    fn token_names(&self, family: Option<SemanticFamily>, tokens: &Vec<u32>) -> (r: TextIndex)
        requires
            self.wf(),
        ensures
            r.wf(),
            names_there_below(*self, family, tokens@, r@, self.segments()),
    {
        let mut names = TextIndex::new();
        let last: usize = self.deltas.len();
        let (c, g) = match family {
            Some(SemanticFamily::CFamily) => (true, false),
            Some(SemanticFamily::Go) => (false, true),
            None => (true, true),
        };
        let mut k: usize = 0;
        let mut more = true;
        while more
            invariant
                self.wf(),
                last == self.deltas@.len(),
                k <= last,
                names.wf(),
                c == reads(family, SemanticFamily::CFamily),
                g == reads(family, SemanticFamily::Go),
                names_there_below(
                    *self,
                    family,
                    tokens@,
                    names@,
                    if more {
                        k as int
                    } else {
                        k + 1
                    },
                ),
                !more ==> k == last,
            decreases last - k + if more {
                1int
            } else {
                0int
            },
        {
            let ghost start = names@;
            if c {
                self.add_token_names(k, SemanticFamily::CFamily, tokens, &mut names);
            }
            let ghost half = names@;
            if g {
                self.add_token_names(k, SemanticFamily::Go, tokens, &mut names);
            }
            proof {
                assert forall|j: int, of: SemanticFamily|
                    0 <= j < k + 1 && reads(family, of) implies #[trigger] names_there(
                    *self,
                    j,
                    of,
                    tokens@,
                    names@,
                ) by {
                    if j < k {
                        names_there_grow(*self, j, of, tokens@, start, half);
                        names_there_grow(*self, j, of, tokens@, half, names@);
                    } else if of == SemanticFamily::CFamily {
                        names_there_grow(*self, j, of, tokens@, half, names@);
                    }
                }
            }
            if k == last {
                more = false;
            } else {
                k = k + 1;
            }
        }
        names
    }

    /// Add the slots of a name that share a token with the query.
    fn add_named(
        &self,
        name: &str,
        family: Option<SemanticFamily>,
        needle: &[u8],
        continuous: &Vec<u32>,
        boundary: &Vec<u32>,
        out: &mut Vec<usize>,
        seen: &mut Vec<bool>,
    )
        requires
            self.wf(),
            forall|x: u32|
                #[trigger] continuous@.contains(x) <==> is_continuous_query_token(needle@, x),
            forall|x: u32|
                #[trigger] boundary@.contains(x) <==> is_boundary_query_token(needle@, x),
            marks(old(seen)@, old(out)@),
            old(seen)@.len() == self@.slots.len(),
            sharing(self@, family, needle@, old(out)@),
        ensures
            marks(final(seen)@, final(out)@),
            final(seen)@.len() == self@.slots.len(),
            sharing(self@, family, needle@, final(out)@),
            forall|x: usize| #[trigger] old(out)@.contains(x) ==> final(out)@.contains(x),
            forall|i: int|
                0 <= i < self@.slots.len() && self@.slots[i].name == name@ && #[trigger] source_test(
                    self@,
                    family,
                    Source::Token,
                    needle@,
                )(i) ==> final(out)@.contains(i as usize),
    {
        let ghost t = self@;
        let ghost test = source_test(t, family, Source::Token, needle@);
        let ghost start = out@;
        let lower = lower_bytes(name.as_bytes());
        let list = self.prefix_indices(&lower);
        proof {
            if lower@.len() > 0 {
                prefix_slots_facts(t, lower@);
            }
        }
        let mut k: usize = 0;
        while k < list.len()
            invariant
                self.wf(),
                t == self@,
                test == source_test(t, family, Source::Token, needle@),
                k <= list@.len(),
                valid_ids(t, list@),
                list@ == prefix_slots(t, lower@),
                forall|m: int|
                    0 <= m < list@.len() ==> t.is_active((#[trigger] list@[m]) as int),
                forall|x: u32|
                    #[trigger] continuous@.contains(x) <==> is_continuous_query_token(needle@, x),
                forall|x: u32|
                    #[trigger] boundary@.contains(x) <==> is_boundary_query_token(needle@, x),
                marks(seen@, out@),
                seen@.len() == t.slots.len(),
                sharing(t, family, needle@, out@),
                forall|x: usize| #[trigger] start.contains(x) ==> out@.contains(x),
                forall|m: int|
                    0 <= m < k && test((#[trigger] list@[m]) as int) ==> out@.contains(list@[m]),
            decreases list@.len() - k,
        {
            let id: usize = list[k];
            let entry = self.entry(id);
            let mine = match family {
                Some(f) => entry.semantic_family == f,
                None => true,
            };
            let wanted = mine && self.entry_comes_from(
                &entry,
                SourceRef::Token,
                needle,
                continuous,
                boundary,
            );
            assert(t.is_active(list@[k as int] as int));
            assert(wanted == test(id as int));
            let ghost before = out@;
            let ghost marked = seen@;
            assert(marked[id as int] == before.contains(id));
            if wanted && !seen[id] {
                out.push(id);
                seen.set(id, true);
                proof {
                    marks_one_more(marked, before, id);
                    assert forall|x: usize| #[trigger] before.contains(x) implies out@.contains(
                        x,
                    ) by {
                        let w = choose|w: int| 0 <= w < before.len() && before[w] == x;
                        assert(out@[w] == x);
                    }
                    assert(out@[before.len() as int] == id);
                }
            }
            k = k + 1;
        }
        proof {
            assert forall|i: int|
                0 <= i < t.slots.len() && t.slots[i].name == name@ && #[trigger] test(
                    i,
                ) implies out@.contains(i as usize) by {
                sharing_has_bytes(t.slots[i], needle@);
                let hay = folded(t.slots[i].name);
                assert(hay.subrange(0, lower@.len() as int) =~= lower@);
                assert(prefixed(t, lower@, i));
                let m = choose|m: int| 0 <= m < list@.len() && list@[m] == i as usize;
                assert(test(list@[m] as int));
            }
        }
    }

    /// The slots of names that share a token with a query, found by token, in
    /// static order.
    pub fn slots_by_token(&self, family: Option<SemanticFamily>, needle: &[u8]) -> (r: Vec<usize>)
        requires
            self.wf(),
        ensures
            r@ == static_sorted(
                self@,
                source_slots(self@, family, Source::Token, needle@),
            ),
            valid_ids(self@, r@),
    {
        let ghost t = self@;
        let ghost test = source_test(t, family, Source::Token, needle@);
        let (continuous, boundary) = fuzzy_query_tokens(needle);
        let first = self.token_names(family, &continuous);
        let second = self.token_names(family, &boundary);
        let mut out: Vec<usize> = Vec::new();
        let mut seen = unmarked(self.slot_len);
        assert(out@ =~= Seq::empty());
        self.add_all_named(&first, family, needle, &continuous, &boundary, &mut out, &mut seen);
        let ghost half = out@;
        self.add_all_named(&second, family, needle, &continuous, &boundary, &mut out, &mut seen);
        proof {
            assert forall|i: int| 0 <= i < t.slots.len() && #[trigger] test(i) implies
                out@.contains(i as usize) by {
                self.token_finds(family, needle@, continuous@, boundary@, first@, second@, i);
                if first@.contains(t.slots[i].name) {
                    assert(half.contains(i as usize));
                }
            }
            source_lists(t, family, Source::Token, needle@);
            same_slots_shelve_alike(
                t,
                out@,
                source_slots(t, family, Source::Token, needle@),
                test,
            );
        }
        self.sort_statically(&out)
    }

    fn add_all_named(
        &self,
        names: &TextIndex,
        family: Option<SemanticFamily>,
        needle: &[u8],
        continuous: &Vec<u32>,
        boundary: &Vec<u32>,
        out: &mut Vec<usize>,
        seen: &mut Vec<bool>,
    )
        requires
            self.wf(),
            forall|x: u32|
                #[trigger] continuous@.contains(x) <==> is_continuous_query_token(needle@, x),
            forall|x: u32|
                #[trigger] boundary@.contains(x) <==> is_boundary_query_token(needle@, x),
            marks(old(seen)@, old(out)@),
            old(seen)@.len() == self@.slots.len(),
            sharing(self@, family, needle@, old(out)@),
        ensures
            marks(final(seen)@, final(out)@),
            final(seen)@.len() == self@.slots.len(),
            sharing(self@, family, needle@, final(out)@),
            forall|x: usize| #[trigger] old(out)@.contains(x) ==> final(out)@.contains(x),
            forall|i: int|
                0 <= i < self@.slots.len() && names@.contains(self@.slots[i].name)
                    && #[trigger] source_test(self@, family, Source::Token, needle@)(i)
                    ==> final(out)@.contains(i as usize),
    {
        let ghost t = self@;
        let ghost test = source_test(t, family, Source::Token, needle@);
        let ghost start = out@;
        let mut k: usize = 0;
        while k < names.len()
            invariant
                self.wf(),
                t == self@,
                test == source_test(t, family, Source::Token, needle@),
                k <= names@.len(),
                forall|x: u32|
                    #[trigger] continuous@.contains(x) <==> is_continuous_query_token(needle@, x),
                forall|x: u32|
                    #[trigger] boundary@.contains(x) <==> is_boundary_query_token(needle@, x),
                marks(seen@, out@),
                seen@.len() == t.slots.len(),
                sharing(t, family, needle@, out@),
                forall|x: usize| #[trigger] start.contains(x) ==> out@.contains(x),
                forall|m: int, i: int|
                    0 <= m < k && 0 <= i < t.slots.len() && t.slots[i].name == #[trigger] names@[m]
                        && #[trigger] test(i) ==> out@.contains(i as usize),
            decreases names@.len() - k,
        {
            self.add_named(names.get(k), family, needle, continuous, boundary, out, seen);
            k = k + 1;
        }
        proof {
            assert forall|i: int|
                0 <= i < t.slots.len() && names@.contains(t.slots[i].name) && #[trigger] test(
                    i,
                ) implies out@.contains(i as usize) by {
                let m = choose|m: int| 0 <= m < names@.len() && names@[m] == t.slots[i].name;
                assert(names@[m] == t.slots[i].name);
            }
        }
    }

    /// A slot that shares a token with the query has one of the listed names.
    proof fn token_finds(
        self,
        family: Option<SemanticFamily>,
        needle: Seq<u8>,
        continuous: Seq<u32>,
        boundary: Seq<u32>,
        first: Seq<Seq<char>>,
        second: Seq<Seq<char>>,
        i: int,
    )
        requires
            self.wf(),
            source_test(self@, family, Source::Token, needle)(i),
            forall|x: u32|
                #[trigger] continuous.contains(x) <==> is_continuous_query_token(needle, x),
            forall|x: u32| #[trigger] boundary.contains(x) <==> is_boundary_query_token(needle, x),
            names_there_below(self, family, continuous, first, self.segments()),
            names_there_below(self, family, boundary, second, self.segments()),
        ensures
            first.contains(self@.slots[i].name) || second.contains(self@.slots[i].name),
    {
        let n = self@.slots[i];
        let token = choose|token: u32| #[trigger]
            is_name_token(n.name, token) && (is_continuous_query_token(needle, token)
                || is_boundary_query_token(needle, token));
        let (k, j) = slot_has_segment(self, i, self.segments());
        slot_in_segment(self, k, j, self.segments());
        let seg = self.segment(k);
        let of = n.family;
        let e = seg.entries@[j];
        assert(seg.wf());
        assert(self.indexed(k).index.describes(self.indexed(k).names));
        assert(seg.entry_wf(e));
        assert(seg@[j] == n);
        let id = e.name_id as int;
        names_by_length_facts(seg, of);
        assert(seg.entries@[j].name_id == id && seg.entries@[j].flags.family() == of);
        assert(name_in_family(seg.entries@, of, id, seg.entries@.len() as int));
        let ids = names_by_length(seg, of);
        let fuzzy = self.indexed(k).index.spec_family(of).fuzzy;
        assert(fuzzy.list(token) == picked(ids, token_test(seg.names@, token)));
        assert forall|w: int| 0 <= w < ids.len() implies (#[trigger] ids[w]) <= u32::MAX by {
            assert(ids[w] < seg.names@.len());
        }
        picked_holds(ids, token_test(seg.names@, token), id);
        assert(in_list(fuzzy.list(token), id));
        let m = choose|m: int|
            0 <= m < fuzzy.list(token).len() && #[trigger] fuzzy.list(token)[m] == id;
        if continuous.contains(token) {
            let a = choose|a: int| 0 <= a < continuous.len() && continuous[a] == token;
            assert(names_there(self, k, of, continuous, first));
            assert(first.contains(seg.names@[fuzzy.list(continuous[a])[m] as int]));
        } else {
            assert(boundary.contains(token));
            let a = choose|a: int| 0 <= a < boundary.len() && boundary[a] == token;
            assert(names_there(self, k, of, boundary, second));
            assert(second.contains(seg.names@[fuzzy.list(boundary[a])[m] as int]));
        }
    }
}

/// Distinct slots that share a token with the query.
pub open spec fn sharing(
    t: Table,
    family: Option<SemanticFamily>,
    needle: Seq<u8>,
    ids: Seq<usize>,
) -> bool {
    &&& ids.no_duplicates()
    &&& forall|k: int|
        0 <= k < ids.len() ==> (#[trigger] ids[k]) < t.slots.len() && source_test(
            t,
            family,
            Source::Token,
            needle,
        )(ids[k] as int)
}

/// A name that has a token is not empty.
proof fn sharing_has_bytes(n: Name, needle: Seq<u8>)
    requires
        shares_token(n, needle),
    ensures
        folded(n.name).len() > 0,
{
    let token = choose|token: u32| #[trigger]
        is_name_token(n.name, token) && (is_continuous_query_token(needle, token)
            || is_boundary_query_token(needle, token));
    let hay = folded(n.name);
    if hay.len() == 0 {
        assert(windows(hay) == 0);
        assert(!is_window_token(hay, token));
        assert(initials_below(vstd::utf8::encode_utf8(n.name), hay, 0).len() == 0);
        assert(false);
    }
}

// ---------------------------------------------------------------------------
// Any names

/// The slots below a bound that pass a test come first among all that do.
pub proof fn where_grows(test: spec_fn(int) -> bool, i: int, n: int)
    requires
        0 <= i <= n,
    ensures
        slots_where(test, i).len() <= slots_where(test, n).len(),
        slots_where(test, n).subrange(0, slots_where(test, i).len() as int) == slots_where(test, i),
        slots_where(test, i).len() <= i,
        i < n && test(i) ==> slots_where(test, i).len() < slots_where(test, n).len()
            && slots_where(test, n)[slots_where(test, i).len() as int] == i as usize,
    decreases n,
{
    let part = slots_where(test, i);
    let list = slots_where(test, n);
    if i < n {
        where_grows(test, i, n - 1);
        let before = slots_where(test, n - 1);
        assert(list.subrange(0, part.len() as int) =~= before.subrange(0, part.len() as int));
    } else {
        assert(list.subrange(0, list.len() as int) =~= list);
        if i > 0 {
            where_grows(test, i - 1, i - 1);
        }
    }
}

impl NameTable {
    /// Whether a slot is active and of the family.
    pub fn is_eligible(&self, family: Option<SemanticFamily>, i: usize) -> (r: bool)
        requires
            self.wf(),
            i < self@.slots.len(),
        ensures
            r == eligible(self@, family, i as int),
    {
        match family {
            Some(f) => self.is_active_index(i) && self.entry(i).semantic_family == f,
            None => self.is_active_index(i),
        }
    }

    /// Fill a list up with slots that are not in it, in slot order.
    pub fn fill_with_any(
        &self,
        done: &mut Vec<usize>,
        seen: &mut Vec<bool>,
        family: Option<SemanticFamily>,
        Ghost(needle): Ghost<Seq<u8>>,
        cap: usize,
    )
        requires
            self.wf(),
            marks(old(seen)@, old(done)@),
            old(seen)@.len() == self@.slots.len(),
            valid_ids(self@, old(done)@),
        ensures
            final(done)@ == with_unseen(
                old(done)@,
                source_slots(self@, family, Source::Any, needle),
                cap as int,
                0,
            ),
            valid_ids(self@, final(done)@),
    {
        let ghost t = self@;
        let ghost test = source_test(t, family, Source::Any, needle);
        let ghost all = source_slots(t, family, Source::Any, needle);
        let ghost start = done@;
        let mut i: usize = 0;
        assert(slots_where(test, 0).len() == 0);
        while i < self.slot_len && done.len() < cap
            invariant
                self.wf(),
                t == self@,
                i <= self.slot_len,
                self.slot_len == t.slots.len(),
                test == source_test(t, family, Source::Any, needle),
                all == slots_where(test, t.slots.len() as int),
                marks(seen@, done@),
                seen@.len() == t.slots.len(),
                valid_ids(t, done@),
                with_unseen(start, all, cap as int, 0) == with_unseen(
                    done@,
                    all,
                    cap as int,
                    slots_where(test, i as int).len() as int,
                ),
            decreases self.slot_len - i,
        {
            let wanted = self.is_eligible(family, i);
            let ghost before = done@;
            let ghost marked = seen@;
            let ghost k = slots_where(test, i as int).len() as int;
            assert(wanted == test(i as int));
            proof {
                where_grows(test, i as int, t.slots.len() as int);
                assert(marked[i as int] == before.contains(i));
                if wanted {
                    unseen_step(before, all, cap as int, k);
                }
            }
            if wanted && !seen[i] {
                done.push(i);
                seen.set(i, true);
                proof {
                    marks_one_more(marked, before, i);
                }
            }
            i = i + 1;
        }
        proof {
            if i == self.slot_len {
                assert(slots_where(test, i as int).len() == all.len());
            }
        }
    }

    /// Whether there are more eligible slots than `budget`.
    pub fn has_more_than(
        &self,
        family: Option<SemanticFamily>,
        Ghost(needle): Ghost<Seq<u8>>,
        budget: usize,
    ) -> (r: bool)
        requires
            self.wf(),
        ensures
            r == (source_slots(self@, family, Source::Any, needle).len() > budget),
    {
        let ghost t = self@;
        let ghost test = source_test(t, family, Source::Any, needle);
        let mut count: usize = 0;
        let mut i: usize = 0;
        while i < self.slot_len && count <= budget
            invariant
                self.wf(),
                t == self@,
                i <= self.slot_len,
                self.slot_len == t.slots.len(),
                test == source_test(t, family, Source::Any, needle),
                count <= i,
                count == slots_where(test, i as int).len(),
            decreases self.slot_len - i,
        {
            let wanted = self.is_eligible(family, i);
            assert(wanted == test(i as int));
            if wanted {
                count = count + 1;
            }
            i = i + 1;
        }
        proof {
            where_grows(test, i as int, t.slots.len() as int);
        }
        count > budget
    }
}

impl NameTable {
    /// The first eligible slots, up to `cap`.
    pub fn first_eligible(
        &self,
        family: Option<SemanticFamily>,
        Ghost(needle): Ghost<Seq<u8>>,
        cap: usize,
    ) -> (r: Vec<usize>)
        requires
            self.wf(),
        ensures
            r@ == first(source_slots(self@, family, Source::Any, needle), cap as int),
            valid_ids(self@, r@),
    {
        let ghost t = self@;
        let ghost test = source_test(t, family, Source::Any, needle);
        let mut out: Vec<usize> = Vec::new();
        let mut i: usize = 0;
        while i < self.slot_len && out.len() < cap
            invariant
                self.wf(),
                t == self@,
                i <= self.slot_len,
                self.slot_len == t.slots.len(),
                test == source_test(t, family, Source::Any, needle),
                out@ == slots_where(test, i as int),
                out@.len() <= cap,
                valid_ids(t, out@),
            decreases self.slot_len - i,
        {
            let wanted = self.is_eligible(family, i);
            assert(wanted == test(i as int));
            if wanted {
                out.push(i);
            }
            i = i + 1;
        }
        proof {
            let all = slots_where(test, t.slots.len() as int);
            where_grows(test, i as int, t.slots.len() as int);
            assert(out@ =~= first(all, cap as int));
        }
        out
    }
}

} // verus!
