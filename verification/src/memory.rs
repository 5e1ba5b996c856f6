//! Estimates of the memory that name tables take.
//!
//! These explain the indexes; they are no account of an allocator.

use std::collections::HashMap;
use std::mem::size_of;
use std::sync::Arc;

use vstd::layout;
use vstd::prelude::*;
use vstd::std_specs::hash::obeys_key_model;
use vstd::utf8::encode_utf8;

use crate::name_recall::sat_sum;
use crate::name_segment::CompactNameEntry;
use crate::name_table::NameTable;
use crate::path_map::PathMap;
use crate::postings::{CompactPathPostings, CompactPostingRange};
use crate::prefix_paths::CompactPrefixPathPair;
use crate::project_context::ProjectKey;
use crate::reach::ReachScope;
use crate::segment_index::{FamilyIndex, IndexedSegment};
use crate::text_index::{text_hash, TextIndex};

verus! {

broadcast use vstd::std_specs::hash::group_hash_axioms;

/// Calls `Vec::capacity`: room for at least the elements that are held. How
/// much more is up to the allocation, so it is left open.
#[verifier::external_body]
fn vec_capacity<T>(v: &Vec<T>) -> (r: usize)
    ensures
        r >= v@.len(),
{
    v.capacity()
}

/// Calls `HashMap::capacity`: room for at least the pairs that are held, where
/// keys behave as keys. How much more depends on how the map grew, so it is
/// left open.
#[verifier::external_body]
fn map_capacity<K, V>(m: &HashMap<K, V>) -> (r: usize)
    ensures
        obeys_key_model::<K>() ==> r >= m@.len(),
{
    m.capacity()
}

// ---------------------------------------------------------------------------
// Capacities

/// `n` was the answer to the question for the capacity of a list.
pub closed spec fn vec_answered<T>(v: Vec<T>, n: usize) -> bool {
    call_ensures(vec_capacity::<T>, (&v,), n)
}

/// `n` was the answer to the question for the capacity of a hash table.
pub closed spec fn map_answered<K, V>(m: HashMap<K, V>, n: usize) -> bool {
    call_ensures(map_capacity::<K, V>, (&m,), n)
}

/// `n` is the room of a list: its capacity, which is no less than its length.
pub open spec fn is_vec_room<T>(v: Vec<T>, n: usize) -> bool {
    vec_answered(v, n) && n >= v@.len()
}

/// `n` is the room of a hash table: its capacity, which is no less than its
/// length where keys behave as keys.
pub open spec fn is_map_room<K, V>(m: HashMap<K, V>, n: usize) -> bool {
    map_answered(m, n) && (obeys_key_model::<K>() ==> n >= m@.len())
}

/// Put a question to a value, and keep that this was its answer.
fn ask<A, F: Fn(&A) -> usize>(question: F, value: &A) -> (r: usize)
    requires
        call_requires(question, (value,)),
    ensures
        call_ensures(question, (value,), r),
{
    question(value)
}

fn vec_room<T>(v: &Vec<T>) -> (r: usize)
    ensures
        is_vec_room(*v, r),
{
    ask(vec_capacity::<T>, v)
}

fn map_room<K, V>(m: &HashMap<K, V>) -> (r: usize)
    ensures
        is_map_room(*m, r),
{
    ask(map_capacity::<K, V>, m)
}

// ---------------------------------------------------------------------------
// Arithmetic

/// `a * b`, or the largest number.
pub open spec fn sat_prod(a: int, b: int) -> int {
    if a * b > usize::MAX {
        usize::MAX as int
    } else {
        a * b
    }
}

fn times(a: usize, b: usize) -> (r: usize)
    ensures
        r == sat_prod(a as int, b as int),
{
    match a.checked_mul(b) {
        Some(n) => n,
        None => usize::MAX,
    }
}

/// Bytes of a hash table: a control byte stands beside each bucket.
pub open spec fn table_bytes(capacity: int, pair: int) -> int {
    sat_prod(capacity, sat_sum(pair, 1))
}

fn hash_table_bytes<K, V>(capacity: usize) -> (r: usize)
    ensures
        r == table_bytes(capacity as int, layout::size_of::<(K, V)>() as int),
{
    times(capacity, size_of::<(K, V)>().saturating_add(1))
}

// ---------------------------------------------------------------------------
// Breakdown

/// Estimates for one segment, each byte in one of them.
#[derive(Debug, Clone, Copy, PartialEq, Eq, Structural)]
pub struct NameSegmentMemoryBreakdown {
    pub declaration_entry_bytes: usize,
    pub name_record_bytes: usize,
    pub original_name_bytes: usize,
    pub lowercase_name_bytes: usize,
    pub shared_name_bytes: usize,
    pub path_metadata_bytes: usize,
    pub project_metadata_bytes: usize,
    pub sorting_index_bytes: usize,
    pub short_prefix_posting_bytes: usize,
    pub fuzzy_posting_bytes: usize,
    pub prefix_path_posting_bytes: usize,
    pub path_posting_bytes: usize,
    pub project_posting_bytes: usize,
    pub fixed_overhead_bytes: usize,
}

impl Default for NameSegmentMemoryBreakdown {
    fn default() -> (r: Self)
        ensures
            r.parts() == Seq::new(14, |i: int| 0int),
    {
        let r = NameSegmentMemoryBreakdown {
            declaration_entry_bytes: 0,
            name_record_bytes: 0,
            original_name_bytes: 0,
            lowercase_name_bytes: 0,
            shared_name_bytes: 0,
            path_metadata_bytes: 0,
            project_metadata_bytes: 0,
            sorting_index_bytes: 0,
            short_prefix_posting_bytes: 0,
            fuzzy_posting_bytes: 0,
            prefix_path_posting_bytes: 0,
            path_posting_bytes: 0,
            project_posting_bytes: 0,
            fixed_overhead_bytes: 0,
        };
        assert(r.parts() =~= Seq::new(14, |i: int| 0int));
        r
    }
}

/// The sum of the first `n` numbers, or the largest number.
pub open spec fn sat_total(s: Seq<int>, n: int) -> int
    decreases n,
{
    if n <= 0 {
        0
    } else {
        sat_sum(sat_total(s, n - 1), s[n - 1])
    }
}

impl NameSegmentMemoryBreakdown {
    /// All estimates, in order.
    pub open spec fn parts(self) -> Seq<int> {
        seq![
            self.declaration_entry_bytes as int,
            self.name_record_bytes as int,
            self.original_name_bytes as int,
            self.lowercase_name_bytes as int,
            self.shared_name_bytes as int,
            self.path_metadata_bytes as int,
            self.project_metadata_bytes as int,
            self.sorting_index_bytes as int,
            self.short_prefix_posting_bytes as int,
            self.fuzzy_posting_bytes as int,
            self.prefix_path_posting_bytes as int,
            self.path_posting_bytes as int,
            self.project_posting_bytes as int,
            self.fixed_overhead_bytes as int,
        ]
    }

    pub open spec fn total(self) -> int {
        sat_total(self.parts(), 14)
    }

    /// All estimates together.
    pub fn bytes(&self) -> (r: usize)
        ensures
            r == self.total(),
    {
        proof {
            reveal_with_fuel(sat_total, 15);
        }
        self.declaration_entry_bytes.saturating_add(self.name_record_bytes).saturating_add(
            self.original_name_bytes,
        ).saturating_add(self.lowercase_name_bytes).saturating_add(
            self.shared_name_bytes,
        ).saturating_add(self.path_metadata_bytes).saturating_add(
            self.project_metadata_bytes,
        ).saturating_add(self.sorting_index_bytes).saturating_add(
            self.short_prefix_posting_bytes,
        ).saturating_add(self.fuzzy_posting_bytes).saturating_add(
            self.prefix_path_posting_bytes,
        ).saturating_add(self.path_posting_bytes).saturating_add(
            self.project_posting_bytes,
        ).saturating_add(self.fixed_overhead_bytes)
    }

    /// Add the estimates of another segment.
    pub fn add_assign(&mut self, other: Self)
        ensures
            forall|i: int|
                0 <= i < 14 ==> #[trigger] final(self).parts()[i] == sat_sum(
                    old(self).parts()[i],
                    other.parts()[i],
                ),
    {
        self.declaration_entry_bytes = self.declaration_entry_bytes.saturating_add(
            other.declaration_entry_bytes,
        );
        self.name_record_bytes = self.name_record_bytes.saturating_add(other.name_record_bytes);
        self.original_name_bytes = self.original_name_bytes.saturating_add(
            other.original_name_bytes,
        );
        self.lowercase_name_bytes = self.lowercase_name_bytes.saturating_add(
            other.lowercase_name_bytes,
        );
        self.shared_name_bytes = self.shared_name_bytes.saturating_add(other.shared_name_bytes);
        self.path_metadata_bytes = self.path_metadata_bytes.saturating_add(
            other.path_metadata_bytes,
        );
        self.project_metadata_bytes = self.project_metadata_bytes.saturating_add(
            other.project_metadata_bytes,
        );
        self.sorting_index_bytes = self.sorting_index_bytes.saturating_add(
            other.sorting_index_bytes,
        );
        self.short_prefix_posting_bytes = self.short_prefix_posting_bytes.saturating_add(
            other.short_prefix_posting_bytes,
        );
        self.fuzzy_posting_bytes = self.fuzzy_posting_bytes.saturating_add(
            other.fuzzy_posting_bytes,
        );
        self.prefix_path_posting_bytes = self.prefix_path_posting_bytes.saturating_add(
            other.prefix_path_posting_bytes,
        );
        self.path_posting_bytes = self.path_posting_bytes.saturating_add(
            other.path_posting_bytes,
        );
        self.project_posting_bytes = self.project_posting_bytes.saturating_add(
            other.project_posting_bytes,
        );
        self.fixed_overhead_bytes = self.fixed_overhead_bytes.saturating_add(
            other.fixed_overhead_bytes,
        );
    }
}

// ---------------------------------------------------------------------------
// Room of a segment

/// The room of distinct texts: numbers of elements, and bytes of text.
#[derive(Debug, Clone, Copy, PartialEq, Eq, Structural)]
pub struct IndexRoom {
    pub records: usize,
    pub buckets: usize,
    /// Numbers in the lists of the buckets.
    pub filed: usize,
    pub text: usize,
}

impl IndexRoom {
    /// Bytes of all but the texts: the records, the hash table and the lists of
    /// its buckets.
    pub open spec fn record_bytes(self) -> int {
        sat_sum(
            sat_sum(
                sat_prod(self.records as int, layout::size_of::<String>() as int),
                table_bytes(self.buckets as int, layout::size_of::<(u64, Vec<usize>)>() as int),
            ),
            sat_prod(self.filed as int, layout::size_of::<usize>() as int),
        )
    }

    /// Bytes of the records and of the texts.
    pub open spec fn spec_bytes(self) -> int {
        sat_sum(self.record_bytes(), self.text as int)
    }

    fn measure_records(&self) -> (r: usize)
        ensures
            r == self.record_bytes(),
    {
        times(self.records, size_of::<String>()).saturating_add(
            hash_table_bytes::<u64, Vec<usize>>(self.buckets),
        ).saturating_add(times(self.filed, size_of::<usize>()))
    }

    pub fn bytes(&self) -> (r: usize)
        ensures
            r == self.spec_bytes(),
    {
        self.measure_records().saturating_add(self.text)
    }
}

/// The room of posting lists.
#[derive(Debug, Clone, Copy, PartialEq, Eq, Structural)]
pub struct PostingRoom {
    pub offsets: usize,
    pub indices: usize,
}

impl PostingRoom {
    pub open spec fn spec_bytes(self) -> int {
        sat_sum(
            sat_prod(self.offsets as int, layout::size_of::<u32>() as int),
            sat_prod(self.indices as int, layout::size_of::<u32>() as int),
        )
    }

    pub fn bytes(&self) -> (r: usize)
        ensures
            r == self.spec_bytes(),
    {
        times(self.offsets, size_of::<u32>()).saturating_add(
            times(self.indices, size_of::<u32>()),
        )
    }
}

/// The room of the index of one family.
#[derive(Debug, Clone, Copy, PartialEq, Eq, Structural)]
pub struct FamilyRoom {
    pub sorted: usize,
    pub heads: PostingRoom,
    pub token_ranges: usize,
    pub token_names: usize,
    pub prefix_pairs: usize,
    pub prefix_projects: usize,
    pub prefix_tokens: usize,
    pub prefix_lists: usize,
    /// Numbers in the lists of prefix positions.
    pub prefix_positions: usize,
    pub paths: PostingRoom,
    pub projects: PostingRoom,
}

impl FamilyRoom {
    pub open spec fn sorted_bytes(self) -> int {
        sat_prod(self.sorted as int, layout::size_of::<usize>() as int)
    }

    pub open spec fn fuzzy_bytes(self) -> int {
        sat_sum(
            table_bytes(
                self.token_ranges as int,
                layout::size_of::<(u32, CompactPostingRange)>() as int,
            ),
            sat_prod(self.token_names as int, layout::size_of::<u32>() as int),
        )
    }

    pub open spec fn prefix_bytes(self) -> int {
        sat_sum(
            sat_sum(
                sat_sum(
                    sat_sum(
                        sat_prod(
                            self.prefix_pairs as int,
                            layout::size_of::<CompactPrefixPathPair>() as int,
                        ),
                        table_bytes(
                            self.prefix_projects as int,
                            layout::size_of::<(u32, usize)>() as int,
                        ),
                    ),
                    sat_prod(self.prefix_tokens as int, layout::size_of::<u32>() as int),
                ),
                sat_prod(self.prefix_lists as int, layout::size_of::<Vec<u32>>() as int),
            ),
            sat_prod(self.prefix_positions as int, layout::size_of::<u32>() as int),
        )
    }

    fn measure_sorted(&self) -> (r: usize)
        ensures
            r == self.sorted_bytes(),
    {
        times(self.sorted, size_of::<usize>())
    }

    fn measure_fuzzy(&self) -> (r: usize)
        ensures
            r == self.fuzzy_bytes(),
    {
        hash_table_bytes::<u32, CompactPostingRange>(self.token_ranges).saturating_add(
            times(self.token_names, size_of::<u32>()),
        )
    }

    fn measure_prefixes(&self) -> (r: usize)
        ensures
            r == self.prefix_bytes(),
    {
        times(self.prefix_pairs, size_of::<CompactPrefixPathPair>()).saturating_add(
            hash_table_bytes::<u32, usize>(self.prefix_projects),
        ).saturating_add(times(self.prefix_tokens, size_of::<u32>())).saturating_add(
            times(self.prefix_lists, size_of::<Vec<u32>>()),
        ).saturating_add(times(self.prefix_positions, size_of::<u32>()))
    }
}

/// The room that the parts of a segment take: numbers of elements, and bytes
/// of text.
#[derive(Debug, Clone, Copy, PartialEq, Eq, Structural)]
pub struct SegmentRoom {
    pub entries: usize,
    pub names: IndexRoom,
    pub lowers: usize,
    pub lower_text: usize,
    pub paths: IndexRoom,
    pub path_counts: usize,
    pub path_flags: usize,
    pub sole_paths: usize,
    pub projects: usize,
    pub project_text: usize,
    pub c_family: FamilyRoom,
    pub go_family: FamilyRoom,
}

/// What the room of a segment comes to. Names are held by the segment alone,
/// so no byte of them is shared.
pub open spec fn breakdown_of(room: SegmentRoom, r: NameSegmentMemoryBreakdown) -> bool {
    let (c, g) = (room.c_family, room.go_family);
    &&& r.declaration_entry_bytes == sat_prod(
        room.entries as int,
        layout::size_of::<CompactNameEntry>() as int,
    )
    &&& r.name_record_bytes == sat_sum(
        room.names.record_bytes(),
        sat_prod(room.lowers as int, layout::size_of::<Vec<u8>>() as int),
    )
    &&& r.original_name_bytes == room.names.text
    &&& r.lowercase_name_bytes == room.lower_text
    &&& r.shared_name_bytes == 0
    &&& r.path_metadata_bytes == sat_sum(
        sat_sum(
            sat_sum(
                room.paths.spec_bytes(),
                sat_prod(room.path_counts as int, layout::size_of::<usize>() as int),
            ),
            sat_prod(room.path_flags as int, layout::size_of::<bool>() as int),
        ),
        sat_prod(room.sole_paths as int, layout::size_of::<u32>() as int),
    )
    &&& r.project_metadata_bytes == sat_sum(
        sat_prod(room.projects as int, layout::size_of::<ProjectKey>() as int),
        room.project_text as int,
    )
    &&& r.sorting_index_bytes == sat_sum(c.sorted_bytes(), g.sorted_bytes())
    &&& r.short_prefix_posting_bytes == sat_sum(c.heads.spec_bytes(), g.heads.spec_bytes())
    &&& r.fuzzy_posting_bytes == sat_sum(c.fuzzy_bytes(), g.fuzzy_bytes())
    &&& r.prefix_path_posting_bytes == sat_sum(c.prefix_bytes(), g.prefix_bytes())
    &&& r.path_posting_bytes == sat_sum(c.paths.spec_bytes(), g.paths.spec_bytes())
    &&& r.project_posting_bytes == sat_sum(c.projects.spec_bytes(), g.projects.spec_bytes())
    &&& r.fixed_overhead_bytes == layout::size_of::<IndexedSegment>()
}

impl SegmentRoom {
    /// The estimates for a segment that takes this room.
    pub fn breakdown(&self) -> (r: NameSegmentMemoryBreakdown)
        ensures
            breakdown_of(*self, r),
    {
        let c = &self.c_family;
        let g = &self.go_family;
        NameSegmentMemoryBreakdown {
            declaration_entry_bytes: times(self.entries, size_of::<CompactNameEntry>()),
            name_record_bytes: self.names.measure_records().saturating_add(
                times(self.lowers, size_of::<Vec<u8>>()),
            ),
            original_name_bytes: self.names.text,
            lowercase_name_bytes: self.lower_text,
            shared_name_bytes: 0,
            path_metadata_bytes: self.paths.bytes().saturating_add(
                times(self.path_counts, size_of::<usize>()),
            ).saturating_add(times(self.path_flags, size_of::<bool>())).saturating_add(
                times(self.sole_paths, size_of::<u32>()),
            ),
            project_metadata_bytes: times(self.projects, size_of::<ProjectKey>()).saturating_add(
                self.project_text,
            ),
            sorting_index_bytes: c.measure_sorted().saturating_add(g.measure_sorted()),
            short_prefix_posting_bytes: c.heads.bytes().saturating_add(g.heads.bytes()),
            fuzzy_posting_bytes: c.measure_fuzzy().saturating_add(g.measure_fuzzy()),
            prefix_path_posting_bytes: c.measure_prefixes().saturating_add(g.measure_prefixes()),
            path_posting_bytes: c.paths.bytes().saturating_add(g.paths.bytes()),
            project_posting_bytes: c.projects.bytes().saturating_add(g.projects.bytes()),
            fixed_overhead_bytes: size_of::<IndexedSegment>(),
        }
    }
}

// ---------------------------------------------------------------------------
// Measuring

/// Bytes of the first `n` texts, or the largest number.
pub open spec fn text_bytes(s: Seq<Seq<char>>, n: int) -> int
    decreases n,
{
    if n <= 0 {
        0
    } else {
        sat_sum(text_bytes(s, n - 1), encode_utf8(s[n - 1]).len() as int)
    }
}

fn measure_texts(index: &TextIndex) -> (r: usize)
    ensures
        r == text_bytes(index@, index@.len() as int),
{
    let mut total: usize = 0;
    let mut i: usize = 0;
    while i < index.len()
        invariant
            i <= index@.len(),
            total == text_bytes(index@, i as int),
        decreases index@.len() - i,
    {
        total = total.saturating_add(index.get(i).as_bytes().len());
        i = i + 1;
    }
    total
}

/// Bytes of the first `n` folded names, or the largest number.
pub open spec fn folded_bytes(s: Seq<Vec<u8>>, n: int) -> int
    decreases n,
{
    if n <= 0 {
        0
    } else {
        sat_sum(folded_bytes(s, n - 1), s[n - 1]@.len() as int)
    }
}

fn measure_lowers(lowers: &Vec<Vec<u8>>) -> (r: usize)
    ensures
        r == folded_bytes(lowers@, lowers@.len() as int),
{
    let mut total: usize = 0;
    let mut i: usize = 0;
    while i < lowers.len()
        invariant
            i <= lowers@.len(),
            total == folded_bytes(lowers@, i as int),
        decreases lowers@.len() - i,
    {
        total = total.saturating_add(lowers[i].len());
        i = i + 1;
    }
    total
}

/// Bytes of the texts of the first `n` projects, or the largest number.
pub open spec fn project_bytes(s: Seq<ProjectKey>, n: int) -> int
    decreases n,
{
    if n <= 0 {
        0
    } else {
        sat_sum(
            sat_sum(
                project_bytes(s, n - 1),
                encode_utf8(s[n - 1].workspace_root_id@).len() as int,
            ),
            encode_utf8(s[n - 1].project_path@).len() as int,
        )
    }
}

fn measure_projects(projects: &Vec<ProjectKey>) -> (r: usize)
    ensures
        r == project_bytes(projects@, projects@.len() as int),
{
    let mut total: usize = 0;
    let mut i: usize = 0;
    while i < projects.len()
        invariant
            i <= projects@.len(),
            total == project_bytes(projects@, i as int),
        decreases projects@.len() - i,
    {
        total = total.saturating_add(
            projects[i].workspace_root_id.as_str().as_bytes().len(),
        ).saturating_add(projects[i].project_path.as_str().as_bytes().len());
        i = i + 1;
    }
    total
}

/// The sum of the first `n` numbers, or the largest number.
pub open spec fn sat_numbers(s: Seq<usize>, n: int) -> int
    decreases n,
{
    if n <= 0 {
        0
    } else {
        sat_sum(sat_numbers(s, n - 1), s[n - 1] as int)
    }
}

proof fn same_numbers(a: Seq<usize>, b: Seq<usize>, n: int)
    requires
        0 <= n <= a.len(),
        n <= b.len(),
        forall|k: int| 0 <= k < n ==> a[k] == b[k],
    ensures
        sat_numbers(a, n) == sat_numbers(b, n),
    decreases n,
{
    if n > 0 {
        same_numbers(a, b, n - 1);
    }
}

/// `rooms` are the rooms of the first lists.
pub open spec fn are_vec_rooms(lists: Seq<Vec<u32>>, rooms: Seq<usize>) -> bool {
    rooms.len() <= lists.len() && forall|k: int|
        0 <= k < rooms.len() ==> is_vec_room(lists[k], #[trigger] rooms[k])
}

/// `n` is the room of all lists together.
pub open spec fn is_room_of_lists(lists: Seq<Vec<u32>>, n: usize) -> bool {
    exists|rooms: Seq<usize>| #[trigger]
        are_vec_rooms(lists, rooms) && rooms.len() == lists.len() && n == sat_numbers(
            rooms,
            rooms.len() as int,
        )
}

fn measure_lists(lists: &Vec<Vec<u32>>) -> (r: usize)
    ensures
        is_room_of_lists(lists@, r),
{
    let ghost mut rooms: Seq<usize> = Seq::empty();
    let mut total: usize = 0;
    let mut i: usize = 0;
    while i < lists.len()
        invariant
            i <= lists@.len(),
            rooms.len() == i,
            are_vec_rooms(lists@, rooms),
            total == sat_numbers(rooms, i as int),
        decreases lists@.len() - i,
    {
        let room: usize = vec_room(&lists[i]);
        proof {
            let more = rooms.push(room);
            same_numbers(rooms, more, i as int);
            assert forall|k: int| 0 <= k < more.len() implies is_vec_room(
                lists@[k],
                #[trigger] more[k],
            ) by {
                if k < i {
                    assert(more[k] == rooms[k]);
                }
            }
            rooms = more;
        }
        total = total.saturating_add(room);
        i = i + 1;
    }
    total
}

/// `rooms` are the rooms of the buckets that the first texts lead, nothing for
/// a text that leads none.
pub open spec fn are_bucket_rooms(index: TextIndex, rooms: Seq<usize>) -> bool {
    rooms.len() <= index@.len() && forall|i: int|
        0 <= i < rooms.len() ==> is_bucket_room(index, i, #[trigger] rooms[i])
}

pub open spec fn is_bucket_room(index: TextIndex, i: int, n: usize) -> bool {
    if index.leads(i) {
        is_vec_room(index.buckets@[text_hash(index@[i])], n)
    } else {
        n == 0
    }
}

/// `n` is the room of the lists in the buckets together.
pub open spec fn is_room_of_buckets(index: TextIndex, n: usize) -> bool {
    exists|rooms: Seq<usize>| #[trigger]
        are_bucket_rooms(index, rooms) && rooms.len() == index@.len() && n == sat_numbers(
            rooms,
            rooms.len() as int,
        )
}

fn measure_buckets(index: &TextIndex) -> (r: usize)
    ensures
        is_room_of_buckets(*index, r),
{
    let ghost mut rooms: Seq<usize> = Seq::empty();
    let mut total: usize = 0;
    let mut i: usize = 0;
    while i < index.len()
        invariant
            i <= index@.len(),
            rooms.len() == i,
            are_bucket_rooms(*index, rooms),
            total == sat_numbers(rooms, i as int),
        decreases index@.len() - i,
    {
        let room: usize = match index.led_bucket(i) {
            Some(bucket) => vec_room(bucket),
            None => 0,
        };
        proof {
            let more = rooms.push(room);
            same_numbers(rooms, more, i as int);
            assert forall|k: int| 0 <= k < more.len() implies is_bucket_room(
                *index,
                k,
                #[trigger] more[k],
            ) by {
                if k < i {
                    assert(more[k] == rooms[k]);
                }
            }
            rooms = more;
        }
        total = total.saturating_add(room);
        i = i + 1;
    }
    total
}

/// `room` is the room of distinct texts.
pub open spec fn covers_index(room: IndexRoom, index: TextIndex) -> bool {
    &&& is_vec_room(index.texts, room.records)
    &&& is_map_room(index.buckets, room.buckets)
    &&& is_room_of_buckets(index, room.filed)
    &&& room.text == text_bytes(index@, index@.len() as int)
}

fn measure_index(index: &TextIndex) -> (r: IndexRoom)
    ensures
        covers_index(r, *index),
{
    IndexRoom {
        records: vec_room(&index.texts),
        buckets: map_room(&index.buckets),
        filed: measure_buckets(index),
        text: measure_texts(index),
    }
}

pub open spec fn covers_postings(room: PostingRoom, p: CompactPathPostings) -> bool {
    is_vec_room(p.offsets, room.offsets) && is_vec_room(p.indices, room.indices)
}

fn measure_postings(p: &CompactPathPostings) -> (r: PostingRoom)
    ensures
        covers_postings(r, *p),
{
    PostingRoom { offsets: vec_room(&p.offsets), indices: vec_room(&p.indices) }
}

/// `room` is the room of the index of a family.
pub open spec fn covers_family(room: FamilyRoom, f: FamilyIndex) -> bool {
    let positions = f.prefix_paths.project_positions;
    &&& is_vec_room(f.sorted, room.sorted)
    &&& covers_postings(room.heads, f.heads)
    &&& is_map_room(f.fuzzy.ranges, room.token_ranges)
    &&& is_vec_room(f.fuzzy.name_ids, room.token_names)
    &&& is_vec_room(f.prefix_paths.pairs, room.prefix_pairs)
    &&& is_map_room(positions.slots, room.prefix_projects)
    &&& is_vec_room(positions.tokens, room.prefix_tokens)
    &&& is_vec_room(positions.lists, room.prefix_lists)
    &&& is_room_of_lists(positions.lists@, room.prefix_positions)
    &&& covers_postings(room.paths, f.paths)
    &&& covers_postings(room.projects, f.projects)
}

fn measure_family(f: &FamilyIndex) -> (r: FamilyRoom)
    ensures
        covers_family(r, *f),
{
    let positions = &f.prefix_paths.project_positions;
    FamilyRoom {
        sorted: vec_room(&f.sorted),
        heads: measure_postings(&f.heads),
        token_ranges: map_room(&f.fuzzy.ranges),
        token_names: vec_room(&f.fuzzy.name_ids),
        prefix_pairs: vec_room(&f.prefix_paths.pairs),
        prefix_projects: map_room(&positions.slots),
        prefix_tokens: vec_room(&positions.tokens),
        prefix_lists: vec_room(&positions.lists),
        prefix_positions: measure_lists(&positions.lists),
        paths: measure_postings(&f.paths),
        projects: measure_postings(&f.projects),
    }
}

/// `room` is the room of a segment: every capacity is the one that was asked
/// for, and texts are counted exactly.
pub open spec fn covers(room: SegmentRoom, s: IndexedSegment) -> bool {
    &&& is_vec_room(s.names.entries, room.entries)
    &&& covers_index(room.names, s.names.names)
    &&& is_vec_room(s.names.lowers, room.lowers)
    &&& room.lower_text == folded_bytes(s.names.lowers@, s.names.lowers@.len() as int)
    &&& covers_index(room.paths, s.names.paths)
    &&& is_vec_room(s.names.path_counts, room.path_counts)
    &&& is_vec_room(s.names.path_is_external, room.path_flags)
    &&& is_vec_room(s.index.sole_path_by_name, room.sole_paths)
    &&& is_vec_room(s.names.projects, room.projects)
    &&& room.project_text == project_bytes(s.names.projects@, s.names.projects@.len() as int)
    &&& covers_family(room.c_family, s.index.c_family)
    &&& covers_family(room.go_family, s.index.go_family)
}

/// `n` is an estimate for a segment.
pub open spec fn is_estimate(s: IndexedSegment, n: int) -> bool {
    exists|room: SegmentRoom, b: NameSegmentMemoryBreakdown|
        covers(room, s) && #[trigger] breakdown_of(room, b) && n == b.total()
}

impl IndexedSegment {
    /// The room that a segment takes now.
    pub fn measure(&self) -> (r: SegmentRoom)
        ensures
            covers(r, *self),
    {
        SegmentRoom {
            entries: vec_room(&self.names.entries),
            names: measure_index(&self.names.names),
            lowers: vec_room(&self.names.lowers),
            lower_text: measure_lowers(&self.names.lowers),
            paths: measure_index(&self.names.paths),
            path_counts: vec_room(&self.names.path_counts),
            path_flags: vec_room(&self.names.path_is_external),
            sole_paths: vec_room(&self.index.sole_path_by_name),
            projects: vec_room(&self.names.projects),
            project_text: measure_projects(&self.names.projects),
            c_family: measure_family(&self.index.c_family),
            go_family: measure_family(&self.index.go_family),
        }
    }

    /// Estimates for the parts of a segment.
    pub fn memory_breakdown(&self) -> (r: NameSegmentMemoryBreakdown)
        ensures
            exists|room: SegmentRoom| covers(room, *self) && #[trigger] breakdown_of(room, r),
    {
        let room = self.measure();
        let r = room.breakdown();
        assert(breakdown_of(room, r));
        r
    }

    /// An estimate for a segment.
    pub fn accounted_bytes(&self) -> (r: usize)
        ensures
            is_estimate(*self, r as int),
    {
        self.memory_breakdown().bytes()
    }
}

// ---------------------------------------------------------------------------
// Tables

/// `sizes` are estimates for the first of the deltas.
pub open spec fn are_estimates(t: NameTable, sizes: Seq<int>) -> bool {
    forall|k: int|
        0 <= k < sizes.len() ==> is_estimate(*t.deltas@[k], #[trigger] sizes[k])
}

/// Estimates for the base and, together, for the first `n` deltas.
pub open spec fn is_split(t: NameTable, base: int, deltas: int, n: int) -> bool {
    is_estimate(*t.base, base) && exists|sizes: Seq<int>| #[trigger]
        are_estimates(t, sizes) && sizes.len() == n && deltas == sat_total(sizes, n)
}

proof fn split_step(t: NameTable, base: int, before: int, last: int, n: int)
    requires
        0 < n <= t.deltas@.len(),
        is_split(t, base, before, n - 1),
        is_estimate(*t.deltas@[n - 1], last),
    ensures
        is_split(t, base, sat_sum(before, last), n),
{
    let sizes = choose|sizes: Seq<int>| #[trigger]
        are_estimates(t, sizes) && sizes.len() == n - 1 && before == sat_total(sizes, n - 1);
    let longer = sizes.push(last);
    assert(are_estimates(t, longer)) by {
        assert forall|k: int| 0 <= k < longer.len() implies is_estimate(
            *t.deltas@[k],
            #[trigger] longer[k],
        ) by {
            if k < n - 1 {
                assert(is_estimate(*t.deltas@[k], sizes[k]));
            }
        }
    }
    same_totals(sizes, longer, n - 1);
}

proof fn same_totals(a: Seq<int>, b: Seq<int>, n: int)
    requires
        0 <= n <= a.len(),
        n <= b.len(),
        forall|k: int| 0 <= k < n ==> a[k] == b[k],
    ensures
        sat_total(a, n) == sat_total(b, n),
    decreases n,
{
    if n > 0 {
        same_totals(a, b, n - 1);
    }
}

/// Bytes of a map: its paths as they are held, and its values.
pub open spec fn map_bytes<V>(keys: IndexRoom, values: usize) -> int {
    sat_sum(keys.spec_bytes(), sat_prod(values as int, layout::size_of::<V>() as int))
}

/// `n` is an estimate for a map.
pub open spec fn is_map_estimate<V>(m: PathMap<V>, n: int) -> bool {
    exists|keys: IndexRoom, values: usize|
        covers_index(keys, m.keys) && is_vec_room(m.values, values) && n == #[trigger] map_bytes::<
            V,
        >(keys, values)
}

fn measure_path_map<V>(m: &PathMap<V>) -> (r: usize)
    ensures
        is_map_estimate(*m, r as int),
{
    let keys = measure_index(&m.keys);
    let values: usize = vec_room(&m.values);
    let r: usize = keys.bytes().saturating_add(times(values, size_of::<V>()));
    assert(r == map_bytes::<V>(keys, values));
    r
}

/// Bytes that a shared value takes beside itself: two counters.
pub open spec fn counter_bytes() -> int {
    sat_prod(layout::size_of::<usize>() as int, 2)
}

/// What the estimate for a table is made of: the room of its lists, and the
/// estimates for its parts.
pub struct TableRoom {
    pub base: usize,
    pub delta_segments: usize,
    /// Number of deltas.
    pub delta_count: usize,
    pub deltas: usize,
    pub offsets: usize,
    pub path_overrides: usize,
    pub direct_include_overrides: usize,
    pub files: usize,
    pub heuristic_files: usize,
}

impl TableRoom {
    /// The bytes of a table, together.
    pub open spec fn total(self) -> int {
        sat_total(
            seq![
                self.base as int,
                self.delta_segments as int,
                layout::size_of::<NameTable>() as int,
                sat_prod(self.deltas as int, layout::size_of::<Arc<IndexedSegment>>() as int),
                self.path_overrides as int,
                sat_prod(self.offsets as int, layout::size_of::<usize>() as int),
                self.direct_include_overrides as int,
                self.files as int,
                self.heuristic_files as int,
                layout::size_of::<ReachScope>() as int,
                // The base and the reach are shared, as every delta is.
                sat_prod(counter_bytes(), 2),
                sat_prod(counter_bytes(), self.delta_count as int),
            ],
            12,
        )
    }

    fn bytes(&self) -> (r: usize)
        ensures
            r == self.total(),
    {
        proof {
            reveal_with_fuel(sat_total, 13);
        }
        let counters: usize = times(size_of::<usize>(), 2);
        self.base.saturating_add(self.delta_segments).saturating_add(
            size_of::<NameTable>(),
        ).saturating_add(times(self.deltas, size_of::<Arc<IndexedSegment>>())).saturating_add(
            self.path_overrides,
        ).saturating_add(times(self.offsets, size_of::<usize>())).saturating_add(
            self.direct_include_overrides,
        ).saturating_add(self.files).saturating_add(self.heuristic_files).saturating_add(
            size_of::<ReachScope>(),
        ).saturating_add(times(counters, 2)).saturating_add(times(counters, self.delta_count))
    }
}

/// `room` has estimates for the parts of a table, and the room of its lists.
pub open spec fn covers_table(room: TableRoom, t: NameTable) -> bool {
    let reach = t.all_workspace_reach;
    &&& is_split(t, room.base as int, room.delta_segments as int, t.deltas@.len() as int)
    &&& room.delta_count == t.deltas@.len()
    &&& is_vec_room(t.deltas, room.deltas)
    &&& is_vec_room(t.delta_offsets, room.offsets)
    &&& is_map_estimate(t.path_overrides, room.path_overrides as int)
    &&& is_map_estimate(t.direct_include_overrides, room.direct_include_overrides as int)
    &&& is_index_estimate(reach.files.held(), room.files as int)
    &&& is_index_estimate(reach.heuristic_files.held(), room.heuristic_files as int)
}

impl NameTable {
    /// Estimates for the base and for all deltas together, and the number of
    /// deltas. What lies outside the segments is not part of them.
    pub fn accounted_segment_split(&self) -> (r: (usize, usize, usize))
        ensures
            is_split(*self, r.0 as int, r.1 as int, self.deltas@.len() as int),
            r.2 == self.deltas@.len(),
    {
        let base: usize = self.base.accounted_bytes();
        let mut deltas: usize = 0;
        let mut i: usize = 0;
        assert(are_estimates(*self, Seq::empty()));
        while i < self.deltas.len()
            invariant
                i <= self.deltas@.len(),
                is_split(*self, base as int, deltas as int, i as int),
            decreases self.deltas@.len() - i,
        {
            let last: usize = self.deltas[i].accounted_bytes();
            let ghost before = deltas as int;
            proof {
                split_step(*self, base as int, before, last as int, i + 1);
            }
            deltas = deltas.saturating_add(last);
            i = i + 1;
        }
        (base, deltas, self.deltas.len())
    }

    /// An estimate for the table: its segments and what lies outside them.
    pub fn accounted_bytes(&self) -> (r: usize)
        ensures
            exists|room: TableRoom| covers_table(room, *self) && r == #[trigger] room.total(),
    {
        let (base, delta_segments, _) = self.accounted_segment_split();
        let room = TableRoom {
            base,
            delta_segments,
            delta_count: self.deltas.len(),
            deltas: vec_room(&self.deltas),
            offsets: vec_room(&self.delta_offsets),
            path_overrides: measure_path_map(&self.path_overrides),
            direct_include_overrides: measure_path_map(&self.direct_include_overrides),
            files: self.all_workspace_reach.files.accounted_bytes(),
            heuristic_files: self.all_workspace_reach.heuristic_files.accounted_bytes(),
        };
        assert(covers_table(room, *self));
        room.bytes()
    }
}

/// `n` is an estimate for distinct texts.
pub open spec fn is_index_estimate(index: TextIndex, n: int) -> bool {
    exists|room: IndexRoom| covers_index(room, index) && n == #[trigger] room.spec_bytes()
}

/// An estimate for distinct texts: their records, their hash table and the
/// texts.
pub fn text_index_bytes(index: &TextIndex) -> (r: usize)
    ensures
        is_index_estimate(*index, r as int),
{
    let room = measure_index(index);
    assert(covers_index(room, *index));
    room.bytes()
}

} // verus!
