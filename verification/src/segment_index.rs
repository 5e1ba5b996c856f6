//! Lookup structures over one segment, apart for each language family.

use vstd::prelude::*;
use vstd::utf8::encode_utf8;

use crate::chars::{occurs_at, same_text};
use crate::facts::SemanticFamily;
use crate::name_recall::{
    shelf_indices, shelved_views, static_order_is_strict_weak, Shelved, ShelvedRef, StaticOrder,
};
use crate::name_search::{
    by_spelling_facts, indices_of, same_multiset_member, spelled_views, spelling_order_is_strict_weak, Spelled,
    SpelledRef, SpellingOrder,
};
use crate::name_segment::{folded, CompactNameEntry, Name, NameSegment};
use crate::name_tokens::{
    head_token, head_token_in_bounds, prefix_width, three_byte_prefix_token,
};
use crate::order::{
    is_text_before, sort_merging, stable_sort, stable_sort_is_permutation, stable_sort_maps,
    strict_weak, text_before, text_before_is_total, text_before_is_transitive, Order, Ordered,
};
use crate::postings::{
    key_test, picked, token_test, CompactFuzzyPostings, CompactPathPostings,
};
use crate::prefix_paths::{
    declares, reaching, within_reach, CompactPrefixPathPair, CompactPrefixPathPostings, PrefixPath,
};

verus! {

/// The declarations of one family: by spelling, by head, token, path and
/// project.
pub struct FamilyIndex {
    /// Entries by folded spelling, then by spelling.
    pub sorted: Vec<usize>,
    /// Entries by the first byte of their folded names, shorter names first.
    pub heads: CompactPathPostings,
    /// Names by their tokens, shorter names first.
    pub fuzzy: CompactFuzzyPostings,
    /// Paths by the heads of the names that they declare.
    pub prefix_paths: CompactPrefixPathPostings,
    /// Entries by path, in the order of spelling.
    pub paths: CompactPathPostings,
    /// Entries by project, in the order of spelling.
    pub projects: CompactPathPostings,
}

pub const UNSEEN_PATH_ID: u32 = 0xFFFF_FFFE;

pub const MULTI_PATH_ID: u32 = 0xFFFF_FFFF;

/// The indexes of a segment.
pub struct SegmentIndex {
    pub c_family: FamilyIndex,
    pub go_family: FamilyIndex,
    /// The one path that declares a name, `MULTI_PATH_ID` where there are
    /// several.
    pub sole_path_by_name: Vec<u32>,
}

// ---------------------------------------------------------------------------
// What the indexes hold

pub open spec fn local_spelled(names: Seq<Name>, i: int) -> Spelled {
    Spelled {
        lower: folded(names[i].name),
        name: names[i].name,
        segment: 0,
        family: names[i].family,
        index: i as usize,
    }
}

/// The declarations of a family among the first `n`.
pub open spec fn family_spelled(names: Seq<Name>, family: SemanticFamily, n: int) -> Seq<Spelled>
    decreases n,
{
    if n <= 0 {
        Seq::empty()
    } else if names[n - 1].family == family {
        family_spelled(names, family, n - 1).push(local_spelled(names, n - 1))
    } else {
        family_spelled(names, family, n - 1)
    }
}

/// The declarations of a family by spelling.
pub open spec fn by_spelling(names: Seq<Name>, family: SemanticFamily) -> Seq<usize> {
    indices_of(
        stable_sort::<Spelled, SpellingOrder>(
            family_spelled(names, family, names.len() as int),
        ),
    )
}

pub open spec fn family_shelved(names: Seq<Name>, family: SemanticFamily, n: int) -> Seq<Shelved>
    decreases n,
{
    if n <= 0 {
        Seq::empty()
    } else if names[n - 1].family == family {
        family_shelved(names, family, n - 1).push(
            Shelved { name: names[n - 1], index: (n - 1) as usize },
        )
    } else {
        family_shelved(names, family, n - 1)
    }
}

/// The declarations of a family, shorter names first.
pub open spec fn by_length(names: Seq<Name>, family: SemanticFamily) -> Seq<usize> {
    shelf_indices(
        stable_sort::<Shelved, StaticOrder>(family_shelved(names, family, names.len() as int)),
    )
}

/// First byte of a folded name, 256 for an empty name.
pub open spec fn head_key(name: Seq<char>) -> u32 {
    if folded(name).len() > 0 {
        folded(name)[0] as u32
    } else {
        256
    }
}

pub open spec fn head_keys(names: Seq<Name>) -> Seq<u32> {
    Seq::new(names.len(), |i: int| head_key(names[i].name))
}

pub open spec fn path_keys(entries: Seq<CompactNameEntry>) -> Seq<u32> {
    Seq::new(entries.len(), |i: int| entries[i].path_id)
}

pub open spec fn project_keys(entries: Seq<CompactNameEntry>) -> Seq<u32> {
    Seq::new(entries.len(), |i: int| entries[i].project_id)
}

/// One of the first `n` entries declares a name in a family.
pub open spec fn name_in_family(
    entries: Seq<CompactNameEntry>,
    family: SemanticFamily,
    name_id: int,
    n: int,
) -> bool {
    exists|i: int|
        0 <= i < n && (#[trigger] entries[i]).name_id == name_id && entries[i].flags.family()
            == family
}

/// A numbered name.
pub struct NamedId {
    pub name: Seq<char>,
    pub id: usize,
}

pub struct NamedIdRef<'a> {
    pub name: &'a str,
    pub id: usize,
}

impl<'a> View for NamedIdRef<'a> {
    type V = NamedId;

    open spec fn view(&self) -> NamedId {
        NamedId { name: self.name@, id: self.id }
    }
}

/// Shorter names first, then by name and number.
pub struct LengthOrder;

impl Order<NamedId> for LengthOrder {
    open spec fn before(a: NamedId, b: NamedId) -> bool {
        let (la, lb) = (encode_utf8(a.name).len(), encode_utf8(b.name).len());
        if la != lb {
            la < lb
        } else if a.name != b.name {
            text_before(a.name, b.name)
        } else {
            a.id < b.id
        }
    }
}

impl<'a> Order<NamedIdRef<'a>> for LengthOrder {
    open spec fn before(a: NamedIdRef<'a>, b: NamedIdRef<'a>) -> bool {
        <LengthOrder as Order<NamedId>>::before(a@, b@)
    }
}

impl<'a> Ordered<NamedIdRef<'a>> for LengthOrder {
    fn is_before(a: &NamedIdRef<'a>, b: &NamedIdRef<'a>) -> (r: bool) {
        let la: usize = a.name.as_bytes().len();
        let lb: usize = b.name.as_bytes().len();
        if la != lb {
            la < lb
        } else if !same_text(a.name, b.name) {
            is_text_before(a.name, b.name)
        } else {
            a.id < b.id
        }
    }
}

proof fn length_order_is_strict_weak()
    ensures
        strict_weak::<NamedIdRef, LengthOrder>(),
{
    assert forall|a: NamedIdRef, b: NamedIdRef|
        <LengthOrder as Order<NamedIdRef>>::before(
            a,
            b,
        ) implies !#[trigger] <LengthOrder as Order<NamedIdRef>>::before(b, a) by {
        text_before_is_total(a.name@, b.name@);
    }
    assert forall|a: NamedIdRef, b: NamedIdRef, c: NamedIdRef|
        !(#[trigger] <LengthOrder as Order<NamedIdRef>>::before(a, b))
            && !(#[trigger] <LengthOrder as Order<NamedIdRef>>::before(
            b,
            c,
        )) implies !<LengthOrder as Order<NamedIdRef>>::before(a, c) by {
        text_before_is_total(a.name@, b.name@);
        text_before_is_total(b.name@, c.name@);
        text_before_is_total(a.name@, c.name@);
        if text_before(b.name@, a.name@) && text_before(c.name@, b.name@) {
            text_before_is_transitive(c.name@, b.name@, a.name@);
        }
    }
}

/// The names that a family declares among the first `n`.
pub open spec fn family_names(seg: NameSegment, family: SemanticFamily, n: int) -> Seq<NamedId>
    decreases n,
{
    if n <= 0 {
        Seq::empty()
    } else if name_in_family(seg.entries@, family, n - 1, seg.entries@.len() as int) {
        family_names(seg, family, n - 1).push(
            NamedId { name: seg.names@[n - 1], id: (n - 1) as usize },
        )
    } else {
        family_names(seg, family, n - 1)
    }
}

pub open spec fn name_ids(s: Seq<NamedId>) -> Seq<usize> {
    Seq::new(s.len(), |i: int| s[i].id)
}

/// The names that a family declares, shorter names first.
pub open spec fn names_by_length(seg: NameSegment, family: SemanticFamily) -> Seq<usize> {
    name_ids(
        stable_sort::<NamedId, LengthOrder>(family_names(seg, family, seg.names@.len() as int)),
    )
}

/// Heads and paths of the family's entries among the first `n`.
pub open spec fn prefix_rows(seg: NameSegment, family: SemanticFamily, n: int) -> Seq<PrefixPath>
    decreases n,
{
    if n <= 0 {
        Seq::empty()
    } else {
        let e = seg.entries@[n - 1];
        let before = prefix_rows(seg, family, n - 1);
        match head_token(folded(seg.names@[e.name_id as int])) {
            Some(token) if e.flags.family() == family => before.push(
                PrefixPath { token, path_id: e.path_id, project_id: e.project_id },
            ),
            _ => before,
        }
    }
}

/// The one path of a name among the first `n` entries.
pub open spec fn sole_path(entries: Seq<CompactNameEntry>, name_id: int, n: int) -> u32
    decreases n,
{
    if n <= 0 {
        UNSEEN_PATH_ID
    } else {
        let before = sole_path(entries, name_id, n - 1);
        let e = entries[n - 1];
        if e.name_id != name_id {
            before
        } else if before == UNSEEN_PATH_ID {
            e.path_id
        } else if before == e.path_id {
            before
        } else {
            MULTI_PATH_ID
        }
    }
}

impl FamilyIndex {
    /// This is the index of a family of a segment.
    pub open spec fn describes(self, seg: NameSegment, family: SemanticFamily) -> bool {
        &&& self.sorted@ == by_spelling(seg@, family)
        &&& self.heads.wf()
        &&& self.heads.offsets@.len() == 257
        &&& forall|b: int|
            0 <= b < 256 ==> #[trigger] self.heads.list(b) == picked(
                by_length(seg@, family),
                key_test(head_keys(seg@), b),
            )
        &&& self.fuzzy.wf()
        &&& forall|t: u32| #[trigger]
            self.fuzzy.list(t) == picked(
                names_by_length(seg, family),
                token_test(seg.names@, t),
            )
        &&& self.prefix_paths.wf()
        &&& self.prefix_paths.index_of(
            prefix_rows(seg, family, seg.entries@.len() as int),
            prefix_rows(seg, family, seg.entries@.len() as int).len() as int,
        )
        &&& self.paths.wf()
        &&& self.paths.offsets@.len() == seg.paths@.len() + 1
        &&& forall|p: int|
            0 <= p < seg.paths@.len() ==> #[trigger] self.paths.list(p) == picked(
                by_spelling(seg@, family),
                key_test(path_keys(seg.entries@), p),
            )
        &&& self.projects.wf()
        &&& self.projects.offsets@.len() == seg.projects@.len() + 1
        &&& forall|p: int|
            0 <= p < seg.projects@.len() ==> #[trigger] self.projects.list(p) == picked(
                by_spelling(seg@, family),
                key_test(project_keys(seg.entries@), p),
            )
    }
}

impl SegmentIndex {
    /// This is the index of a segment.
    pub open spec fn describes(self, seg: NameSegment) -> bool {
        &&& self.c_family.describes(seg, SemanticFamily::CFamily)
        &&& self.go_family.describes(seg, SemanticFamily::Go)
        &&& self.sole_path_by_name@.len() == seg.names@.len()
        &&& forall|n: int|
            0 <= n < seg.names@.len() ==> #[trigger] self.sole_path_by_name@[n] == sole_path(
                seg.entries@,
                n,
                seg.entries@.len() as int,
            )
    }

    pub open spec fn spec_family(self, family: SemanticFamily) -> FamilyIndex {
        match family {
            SemanticFamily::CFamily => self.c_family,
            SemanticFamily::Go => self.go_family,
        }
    }

    pub fn family(&self, family: SemanticFamily) -> (r: &FamilyIndex)
        ensures
            *r == self.spec_family(family),
    {
        match family {
            SemanticFamily::CFamily => &self.c_family,
            SemanticFamily::Go => &self.go_family,
        }
    }
}

// ---------------------------------------------------------------------------
// Building

fn sorted_indices(seg: &NameSegment, family: SemanticFamily) -> (r: Vec<usize>)
    requires
        seg.wf(),
    ensures
        r@ == by_spelling(seg@, family),
        forall|i: int| 0 <= i < r@.len() ==> (#[trigger] r@[i]) < seg.entries@.len(),
        r@.len() <= seg.entries@.len(),
{
    let len: usize = seg.entries.len();
    let mut found: Vec<SpelledRef> = Vec::new();
    let mut i: usize = 0;
    assert(spelled_views(found@) =~= Seq::empty());
    while i < len
        invariant
            seg.wf(),
            len == seg.entries@.len(),
            i <= len,
            found@.len() <= i,
            spelled_views(found@) == family_spelled(seg@, family, i as int),
            forall|k: int| 0 <= k < found@.len() ==> (#[trigger] found@[k]).index < len,
        decreases len - i,
    {
        let entry = seg.entry(i);
        if entry.semantic_family == family {
            let ghost before = spelled_views(found@);
            let item = SpelledRef {
                lower: entry.lower,
                name: entry.name,
                segment: 0,
                family: entry.semantic_family,
                index: i,
            };
            let ghost v = item@;
            found.push(item);
            assert(spelled_views(found@) =~= before.push(v));
        }
        i = i + 1;
    }
    let ghost unsorted = found@;
    proof {
        spelling_order_is_strict_weak();
        stable_sort_maps::<SpelledRef, Spelled, SpellingOrder, SpellingOrder>(
            found@,
            |r: SpelledRef| r@,
        );
        stable_sort_is_permutation::<SpelledRef, SpellingOrder>(unsorted);
    }
    let sorted = sort_merging::<SpelledRef, SpellingOrder>(found);
    let ghost order = spelled_views(sorted@);
    let mut out: Vec<usize> = Vec::new();
    let mut k: usize = 0;
    while k < sorted.len()
        invariant
            k <= sorted@.len(),
            order == spelled_views(sorted@),
            sorted@.to_multiset() == unsorted.to_multiset(),
            forall|j: int| 0 <= j < unsorted.len() ==> (#[trigger] unsorted[j]).index < len,
            out@ == indices_of(order).subrange(0, k as int),
            forall|j: int| 0 <= j < out@.len() ==> (#[trigger] out@[j]) < len,
        decreases sorted@.len() - k,
    {
        proof {
            same_multiset_member(sorted@, unsorted, k as int);
            assert(order[k as int] == sorted@[k as int]@);
        }
        out.push(sorted[k].index);
        k = k + 1;
        assert(out@ =~= indices_of(order).subrange(0, k as int));
    }
    assert(out@ =~= by_spelling(seg@, family));
    out
}

fn shelf_order(seg: &NameSegment, family: SemanticFamily) -> (r: Vec<usize>)
    requires
        seg.wf(),
    ensures
        r@ == by_length(seg@, family),
        forall|i: int| 0 <= i < r@.len() ==> (#[trigger] r@[i]) < seg.entries@.len(),
        r@.len() <= seg.entries@.len(),
{
    let len: usize = seg.entries.len();
    let mut found: Vec<ShelvedRef> = Vec::new();
    let mut i: usize = 0;
    assert(shelved_views(found@) =~= Seq::empty());
    while i < len
        invariant
            seg.wf(),
            len == seg.entries@.len(),
            i <= len,
            found@.len() <= i,
            shelved_views(found@) == family_shelved(seg@, family, i as int),
            forall|k: int| 0 <= k < found@.len() ==> (#[trigger] found@[k]).index < len,
        decreases len - i,
    {
        let entry = seg.entry(i);
        if entry.semantic_family == family {
            let ghost before = shelved_views(found@);
            let item = ShelvedRef { entry, index: i };
            let ghost v = item@;
            found.push(item);
            assert(shelved_views(found@) =~= before.push(v));
        }
        i = i + 1;
    }
    let ghost unsorted = found@;
    proof {
        static_order_is_strict_weak();
        stable_sort_maps::<ShelvedRef, Shelved, StaticOrder, StaticOrder>(
            found@,
            |r: ShelvedRef| r@,
        );
        stable_sort_is_permutation::<ShelvedRef, StaticOrder>(unsorted);
    }
    let sorted = sort_merging::<ShelvedRef, StaticOrder>(found);
    let ghost order = shelved_views(sorted@);
    let mut out: Vec<usize> = Vec::new();
    let mut k: usize = 0;
    while k < sorted.len()
        invariant
            k <= sorted@.len(),
            order == shelved_views(sorted@),
            sorted@.to_multiset() == unsorted.to_multiset(),
            forall|j: int| 0 <= j < unsorted.len() ==> (#[trigger] unsorted[j]).index < len,
            out@ == shelf_indices(order).subrange(0, k as int),
            forall|j: int| 0 <= j < out@.len() ==> (#[trigger] out@[j]) < len,
        decreases sorted@.len() - k,
    {
        proof {
            same_multiset_member(sorted@, unsorted, k as int);
            assert(order[k as int] == sorted@[k as int]@);
        }
        out.push(sorted[k].index);
        k = k + 1;
        assert(out@ =~= shelf_indices(order).subrange(0, k as int));
    }
    assert(out@ =~= by_length(seg@, family));
    out
}

/// Which names the entries of a family declare.
fn declared_names(seg: &NameSegment, family: SemanticFamily) -> (r: Vec<bool>)
    requires
        seg.wf(),
    ensures
        r@.len() == seg.names@.len(),
        forall|n: int|
            0 <= n < r@.len() ==> #[trigger] r@[n] == name_in_family(
                seg.entries@,
                family,
                n,
                seg.entries@.len() as int,
            ),
{
    let mut out: Vec<bool> = Vec::new();
    let mut n: usize = 0;
    while n < seg.names.len()
        invariant
            n <= seg.names@.len(),
            out@.len() == n,
            forall|k: int| 0 <= k < n ==> !(#[trigger] out@[k]),
        decreases seg.names@.len() - n,
    {
        out.push(false);
        n = n + 1;
    }
    let len: usize = seg.entries.len();
    let mut i: usize = 0;
    while i < len
        invariant
            seg.wf(),
            len == seg.entries@.len(),
            i <= len,
            out@.len() == seg.names@.len(),
            forall|k: int|
                0 <= k < out@.len() ==> #[trigger] out@[k] == name_in_family(
                    seg.entries@,
                    family,
                    k,
                    i as int,
                ),
        decreases len - i,
    {
        let e = seg.entries[i];
        assert(seg.entry_wf(seg.entries@[i as int]));
        let ghost before = out@;
        if e.flags.semantic_family() == family {
            out.set(e.name_id as usize, true);
        }
        proof {
            assert forall|k: int| 0 <= k < out@.len() implies #[trigger] out@[k] == name_in_family(
                seg.entries@,
                family,
                k,
                i + 1,
            ) by {
                assert(before[k] == name_in_family(seg.entries@, family, k, i as int));
                if name_in_family(seg.entries@, family, k, i as int) {
                    let j = choose|j: int|
                        0 <= j < i && (#[trigger] seg.entries@[j]).name_id == k
                            && seg.entries@[j].flags.family() == family;
                    assert(seg.entries@[j].name_id == k);
                }
                if name_in_family(seg.entries@, family, k, i + 1) {
                    let j = choose|j: int|
                        0 <= j < i + 1 && (#[trigger] seg.entries@[j]).name_id == k
                            && seg.entries@[j].flags.family() == family;
                    if j < i {
                        assert(name_in_family(seg.entries@, family, k, i as int));
                    }
                }
                if e.name_id == k && e.flags.family() == family {
                    assert(seg.entries@[i as int].name_id == k);
                }
            }
        }
        i = i + 1;
    }
    out
}

pub open spec fn named_views(s: Seq<NamedIdRef>) -> Seq<NamedId> {
    s.map_values(|r: NamedIdRef| r@)
}

fn name_order(seg: &NameSegment, family: SemanticFamily) -> (r: Vec<usize>)
    requires
        seg.wf(),
    ensures
        r@ == names_by_length(*seg, family),
        forall|i: int| 0 <= i < r@.len() ==> (#[trigger] r@[i]) < seg.names@.len(),
        r@.len() <= seg.names@.len(),
{
    let declared = declared_names(seg, family);
    let len: usize = seg.names.len();
    let mut found: Vec<NamedIdRef> = Vec::new();
    let mut i: usize = 0;
    assert(named_views(found@) =~= Seq::empty());
    while i < len
        invariant
            len == seg.names@.len(),
            i <= len,
            declared@.len() == len,
            forall|n: int|
                0 <= n < declared@.len() ==> #[trigger] declared@[n] == name_in_family(
                    seg.entries@,
                    family,
                    n,
                    seg.entries@.len() as int,
                ),
            found@.len() <= i,
            named_views(found@) == family_names(*seg, family, i as int),
            forall|k: int| 0 <= k < found@.len() ==> (#[trigger] found@[k]).id < len,
        decreases len - i,
    {
        if declared[i] {
            let ghost before = named_views(found@);
            let item = NamedIdRef { name: seg.names.get(i), id: i };
            let ghost v = item@;
            found.push(item);
            assert(named_views(found@) =~= before.push(v));
        }
        i = i + 1;
    }
    let ghost unsorted = found@;
    proof {
        length_order_is_strict_weak();
        stable_sort_maps::<NamedIdRef, NamedId, LengthOrder, LengthOrder>(
            found@,
            |r: NamedIdRef| r@,
        );
        stable_sort_is_permutation::<NamedIdRef, LengthOrder>(unsorted);
    }
    let sorted = sort_merging::<NamedIdRef, LengthOrder>(found);
    let ghost order = named_views(sorted@);
    let mut out: Vec<usize> = Vec::new();
    let mut k: usize = 0;
    while k < sorted.len()
        invariant
            k <= sorted@.len(),
            order == named_views(sorted@),
            sorted@.to_multiset() == unsorted.to_multiset(),
            forall|j: int| 0 <= j < unsorted.len() ==> (#[trigger] unsorted[j]).id < len,
            out@ == name_ids(order).subrange(0, k as int),
            forall|j: int| 0 <= j < out@.len() ==> (#[trigger] out@[j]) < len,
        decreases sorted@.len() - k,
    {
        proof {
            same_multiset_member(sorted@, unsorted, k as int);
            assert(order[k as int] == sorted@[k as int]@);
        }
        out.push(sorted[k].id);
        k = k + 1;
        assert(out@ =~= name_ids(order).subrange(0, k as int));
    }
    assert(out@ =~= names_by_length(*seg, family));
    out
}

fn prefix_declarations(seg: &NameSegment, family: SemanticFamily) -> (r: Vec<PrefixPath>)
    requires
        seg.wf(),
    ensures
        r@ == prefix_rows(*seg, family, seg.entries@.len() as int),
        r@.len() <= seg.entries@.len(),
{
    let len: usize = seg.entries.len();
    let mut out: Vec<PrefixPath> = Vec::new();
    let mut i: usize = 0;
    while i < len
        invariant
            seg.wf(),
            len == seg.entries@.len(),
            i <= len,
            out@.len() <= i,
            out@ == prefix_rows(*seg, family, i as int),
        decreases len - i,
    {
        let e = seg.entries[i];
        assert(seg.entry_wf(seg.entries@[i as int]));
        assert(seg.lowers@[e.name_id as int]@ == folded(seg.names@[e.name_id as int]));
        if e.flags.semantic_family() == family {
            match three_byte_prefix_token(seg.lowers[e.name_id as usize].as_slice()) {
                Some(token) => {
                    out.push(
                        PrefixPath { token, path_id: e.path_id, project_id: e.project_id },
                    );
                },
                None => {},
            }
        }
        i = i + 1;
    }
    out
}

/// The keys that entries are grouped by.
struct EntryKeys {
    heads: Vec<u32>,
    paths: Vec<u32>,
    projects: Vec<u32>,
}

fn entry_keys(seg: &NameSegment) -> (r: EntryKeys)
    requires
        seg.wf(),
    ensures
        r.heads@ == head_keys(seg@),
        r.paths@ == path_keys(seg.entries@),
        r.projects@ == project_keys(seg.entries@),
{
    let len: usize = seg.entries.len();
    let mut heads: Vec<u32> = Vec::new();
    let mut paths: Vec<u32> = Vec::new();
    let mut projects: Vec<u32> = Vec::new();
    let mut i: usize = 0;
    while i < len
        invariant
            seg.wf(),
            len == seg.entries@.len(),
            i <= len,
            heads@ == head_keys(seg@).subrange(0, i as int),
            paths@ == path_keys(seg.entries@).subrange(0, i as int),
            projects@ == project_keys(seg.entries@).subrange(0, i as int),
        decreases len - i,
    {
        let e = seg.entries[i];
        let lower = seg.entry(i).lower;
        if lower.len() > 0 {
            heads.push(lower[0] as u32);
        } else {
            heads.push(256);
        }
        paths.push(e.path_id);
        projects.push(e.project_id);
        i = i + 1;
        assert(heads@ =~= head_keys(seg@).subrange(0, i as int));
        assert(paths@ =~= path_keys(seg.entries@).subrange(0, i as int));
        assert(projects@ =~= project_keys(seg.entries@).subrange(0, i as int));
    }
    assert(heads@ =~= head_keys(seg@));
    assert(paths@ =~= path_keys(seg.entries@));
    assert(projects@ =~= project_keys(seg.entries@));
    EntryKeys { heads, paths, projects }
}

fn sole_paths(seg: &NameSegment) -> (r: Vec<u32>)
    requires
        seg.wf(),
    ensures
        r@.len() == seg.names@.len(),
        forall|n: int|
            0 <= n < seg.names@.len() ==> #[trigger] r@[n] == sole_path(
                seg.entries@,
                n,
                seg.entries@.len() as int,
            ),
{
    let mut out: Vec<u32> = Vec::new();
    let mut n: usize = 0;
    while n < seg.names.len()
        invariant
            n <= seg.names@.len(),
            out@.len() == n,
            forall|k: int| 0 <= k < n ==> #[trigger] out@[k] == UNSEEN_PATH_ID,
        decreases seg.names@.len() - n,
    {
        out.push(UNSEEN_PATH_ID);
        n = n + 1;
    }
    let len: usize = seg.entries.len();
    let mut i: usize = 0;
    while i < len
        invariant
            seg.wf(),
            len == seg.entries@.len(),
            i <= len,
            out@.len() == seg.names@.len(),
            forall|k: int|
                0 <= k < out@.len() ==> #[trigger] out@[k] == sole_path(
                    seg.entries@,
                    k,
                    i as int,
                ),
        decreases len - i,
    {
        let e = seg.entries[i];
        assert(seg.entry_wf(seg.entries@[i as int]));
        let name: usize = e.name_id as usize;
        let known: u32 = out[name];
        if known == UNSEEN_PATH_ID {
            out.set(name, e.path_id);
        } else if known != e.path_id {
            out.set(name, MULTI_PATH_ID);
        }
        i = i + 1;
    }
    out
}

impl FamilyIndex {
    fn build(seg: &NameSegment, family: SemanticFamily, keys: &EntryKeys) -> (r: FamilyIndex)
        requires
            seg.wf(),
            keys.heads@ == head_keys(seg@),
            keys.paths@ == path_keys(seg.entries@),
            keys.projects@ == project_keys(seg.entries@),
        ensures
            r.describes(*seg, family),
    {
        let sorted = sorted_indices(seg, family);
        let shelf = shelf_order(seg, family);
        let heads = CompactPathPostings::build(&keys.heads, &shelf, 256);
        let names = name_order(seg, family);
        let fuzzy = CompactFuzzyPostings::build(&names, &seg.names);
        let prefix_paths = CompactPrefixPathPostings::build(prefix_declarations(seg, family));
        let paths = CompactPathPostings::build(&keys.paths, &sorted, seg.paths.len());
        let projects = CompactPathPostings::build(&keys.projects, &sorted, seg.projects.len());
        FamilyIndex { sorted, heads, fuzzy, prefix_paths, paths, projects }
    }
}

impl SegmentIndex {
    /// Index a segment.
    pub fn build(seg: &NameSegment) -> (r: SegmentIndex)
        requires
            seg.wf(),
        ensures
            r.describes(*seg),
    {
        let keys = entry_keys(seg);
        SegmentIndex {
            c_family: FamilyIndex::build(seg, SemanticFamily::CFamily, &keys),
            go_family: FamilyIndex::build(seg, SemanticFamily::Go, &keys),
            sole_path_by_name: sole_paths(seg),
        }
    }
}

/// A segment with its index.
pub struct IndexedSegment {
    pub names: NameSegment,
    pub index: SegmentIndex,
}

impl IndexedSegment {
    pub fn new(names: NameSegment) -> (r: IndexedSegment)
        requires
            names.wf(),
        ensures
            r.names == names,
            r.index.describes(names),
    {
        let index = SegmentIndex::build(&names);
        IndexedSegment { names, index }
    }
}

// ---------------------------------------------------------------------------
// Laws

proof fn row_of_entry(seg: NameSegment, family: SemanticFamily, i: int, n: int)
    requires
        0 <= i < n <= seg.entries@.len(),
        seg.entries@[i].flags.family() == family,
        head_token(folded(seg.names@[seg.entries@[i].name_id as int])) is Some,
    ensures
        declares(
            prefix_rows(seg, family, n),
            prefix_rows(seg, family, n).len() as int,
            CompactPrefixPathPair {
                token: head_token(folded(seg.names@[seg.entries@[i].name_id as int]))->0,
                path_id: seg.entries@[i].path_id,
            },
        ),
    decreases n,
{
    let e = seg.entries@[i];
    let pair = CompactPrefixPathPair {
        token: head_token(folded(seg.names@[e.name_id as int]))->0,
        path_id: e.path_id,
    };
    let rows = prefix_rows(seg, family, n);
    if i == n - 1 {
        assert(rows.last().pair() == pair);
    } else {
        row_of_entry(seg, family, i, n - 1);
        let before = prefix_rows(seg, family, n - 1);
        let k = choose|k: int| 0 <= k < before.len() && (#[trigger] before[k]).pair() == pair;
        assert(rows[k] == before[k]);
        assert(rows[k].pair() == pair);
    }
}

/// Every path that declares a name with a prefix is among the paths of the
/// prefix.
pub proof fn prefix_paths_cover(
    index: FamilyIndex,
    seg: NameSegment,
    family: SemanticFamily,
    prefix: Seq<u8>,
    i: int,
)
    requires
        index.describes(seg, family),
        prefix.len() > 0,
        0 <= i < seg.entries@.len(),
        seg.entries@[i].flags.family() == family,
        occurs_at(folded(seg.names@[seg.entries@[i].name_id as int]), prefix, 0),
    ensures
        exists|k: int|
            0 <= k < index.prefix_paths.spec_paths(prefix).len()
                && index.prefix_paths.spec_paths(prefix)[k].path_id == seg.entries@[i].path_id,
{
    let e = seg.entries@[i];
    let lower = folded(seg.names@[e.name_id as int]);
    head_token_in_bounds(lower, prefix);
    row_of_entry(seg, family, i, seg.entries@.len() as int);
    let pair = CompactPrefixPathPair { token: head_token(lower)->0, path_id: e.path_id };
    let pairs = index.prefix_paths.pairs@;
    assert(pairs.contains(pair));
    let at = choose|at: int| 0 <= at < pairs.len() && pairs[at] == pair;
    within_reach(
        index.prefix_paths,
        head_token(prefix)->0 as int,
        head_token(prefix)->0 + prefix_width(prefix.len()),
        at,
    );
    let low = reaching(pairs, head_token(prefix)->0 as int, 0);
    assert(index.prefix_paths.spec_paths(prefix)[at - low] == pair);
}

/// Every declaration is in the order of its own family, once, and in no other.
pub proof fn each_entry_is_in_one_family(names: Seq<Name>, family: SemanticFamily, i: int)
    requires
        0 <= i < names.len() <= usize::MAX,
    ensures
        by_spelling(names, family).no_duplicates(),
        by_spelling(names, family).contains(i as usize) <==> names[i].family == family,
{
    by_spelling_facts(names, family);
    let ids = by_spelling(names, family);
    if ids.contains(i as usize) {
        let k = choose|k: int| 0 <= k < ids.len() && ids[k] == i as usize;
        assert(names[ids[k] as int].family == family);
    }
}

} // verus!
