//! Completion candidates from the text of the current file.

use vstd::prelude::*;
use vstd::utf8::encode_utf8;

use crate::chars::{
    ascii_string, byte_in_ident, byte_is_space, byte_starts_ident, bytes_as_chars, is_ident_continue,
    is_ident_start, is_space_byte, same_text, spells,
};
use crate::facts::{
    FactSource, FileSemanticIndex, FileSymbol, Occurrence, RecordFact, SymbolKind, SymbolRole,
    TypeAlias,
};
use crate::order::{
    is_text_before, sort_stable, stable_sort, stable_sort_is_in_order, stable_sort_is_permutation,
    stable_sort_maps, stable_sort_takes_from, strict_weak, text_before, text_before_is_total,
    text_before_is_transitive, Order, Ordered,
};
use crate::text::{
    byte_offset_at, completion_word_score, position_index, utf8_offset, word_score,
};

verus! {

pub const MAX_PROXIMITY_SCORE: i32 = 200;

#[derive(Debug, Clone, PartialEq, Eq)]
pub struct CurrentFileOverlayCandidate {
    pub name: String,
    pub kind: SymbolKind,
    pub detail: Option<String>,
    pub match_score: i32,
    pub proximity_score: i32,
    pub source_start_byte: usize,
    pub semantic: bool,
}

/// A candidate with its texts as sequences and its distance from the cursor.
pub struct Overlay {
    pub name: Seq<char>,
    pub kind: SymbolKind,
    pub detail: Seq<char>,
    pub match_score: int,
    pub proximity: int,
    pub start: int,
    pub semantic: bool,
    pub distance: int,
}

struct OverlayItem {
    name: String,
    kind: SymbolKind,
    detail: &'static str,
    match_score: i32,
    proximity: i32,
    start: usize,
    semantic: bool,
    distance: u128,
}

impl View for OverlayItem {
    type V = Overlay;

    closed spec fn view(&self) -> Overlay {
        Overlay {
            name: self.name@,
            kind: self.kind,
            detail: self.detail@,
            match_score: self.match_score as int,
            proximity: self.proximity as int,
            start: self.start as int,
            semantic: self.semantic,
            distance: self.distance as int,
        }
    }
}

closed spec fn item_views(s: Seq<OverlayItem>) -> Seq<Overlay> {
    s.map_values(|o: OverlayItem| o@)
}

/// How far a place is from the cursor; places behind it count as farther than
/// any before it.
pub open spec fn distance_from(start: int, cursor: int) -> int {
    if start <= cursor {
        cursor - start
    } else {
        start - cursor + cursor + 1
    }
}

fn source_distance(start: usize, cursor: usize) -> (r: u128)
    ensures
        r == distance_from(start as int, cursor as int),
{
    if start <= cursor {
        (cursor - start) as u128
    } else {
        (start - cursor) as u128 + cursor as u128 + 1
    }
}

// ---------------------------------------------------------------------------
// Usage

/// How often and how near a name is used before the cursor.
pub struct Usage {
    pub name: Seq<char>,
    pub count: int,
    pub nearest: int,
}

struct UsageStats {
    name: String,
    count: usize,
    nearest: usize,
}

impl View for UsageStats {
    type V = Usage;

    closed spec fn view(&self) -> Usage {
        Usage { name: self.name@, count: self.count as int, nearest: self.nearest as int }
    }
}

closed spec fn usage_views(s: Seq<UsageStats>) -> Seq<Usage> {
    s.map_values(|u: UsageStats| u@)
}

/// The entry of a name, from `i` on.
pub open spec fn usage_from(s: Seq<Usage>, name: Seq<char>, i: int) -> Option<int>
    decreases s.len() - i,
{
    if i < 0 || i >= s.len() {
        None
    } else if s[i].name == name {
        Some(i)
    } else {
        usage_from(s, name, i + 1)
    }
}

/// One more use of a name at `start`.
pub open spec fn with_usage(s: Seq<Usage>, name: Seq<char>, start: int) -> Seq<Usage> {
    match usage_from(s, name, 0) {
        Some(k) => s.update(
            k,
            Usage {
                name: s[k].name,
                count: s[k].count + 1,
                nearest: if start > s[k].nearest {
                    start
                } else {
                    s[k].nearest
                },
            },
        ),
        None => s.push(Usage { name, count: 1, nearest: start }),
    }
}

fn find_usage(stats: &Vec<UsageStats>, name: &str) -> (r: Option<usize>)
    ensures
        match r {
            Some(k) => usage_from(usage_views(stats@), name@, 0) == Some(k as int) && k
                < stats@.len(),
            None => usage_from(usage_views(stats@), name@, 0) is None,
        },
{
    let ghost all = usage_views(stats@);
    let mut i: usize = 0;
    while i < stats.len()
        invariant
            i <= stats@.len(),
            all == usage_views(stats@),
            usage_from(all, name@, 0) == usage_from(all, name@, i as int),
        decreases stats@.len() - i,
    {
        assert(all[i as int] == stats@[i as int]@);
        if same_text(stats[i].name.as_str(), name) {
            return Some(i);
        }
        i = i + 1;
    }
    None
}

spec fn counts_within(s: Seq<UsageStats>, n: int) -> bool {
    forall|k: int| 0 <= k < s.len() ==> (#[trigger] s[k]).count <= n
}

fn record_usage(stats: &mut Vec<UsageStats>, name: String, start: usize, Ghost(n): Ghost<int>)
    requires
        counts_within(old(stats)@, n),
        n < usize::MAX,
        n >= 0,
    ensures
        usage_views(final(stats)@) == with_usage(usage_views(old(stats)@), name@, start as int),
        counts_within(final(stats)@, n + 1),
{
    let ghost before = usage_views(stats@);
    let ghost text = name@;
    match find_usage(stats, name.as_str()) {
        Some(k) => {
            assert(stats@[k as int].count <= n);
            assert(before[k as int] == stats@[k as int]@);
            let ghost items = stats@;
            let count: usize = stats[k].count;
            stats[k].count = count + 1;
            if start > stats[k].nearest {
                stats[k].nearest = start;
            }
            assert(usage_views(stats@) =~= with_usage(before, text, start as int));
            assert forall|j: int| 0 <= j < stats@.len() implies (#[trigger] stats@[j]).count <= n
                + 1 by {
                if j != k {
                    assert(stats@[j] == items[j]);
                }
            }
        },
        None => {
            stats.push(UsageStats { name, count: 1, nearest: start });
            assert(usage_views(stats@) =~= with_usage(before, text, start as int));
        },
    }
}

/// A use counts when it ends before the cursor, is not the prefix that is being
/// typed, and could complete it.
pub open spec fn use_counts(name: Seq<char>, end: int, cursor: int, prefix: Seq<char>) -> bool {
    end <= cursor && !(end == cursor && name == prefix) && word_score(
        encode_utf8(prefix),
        encode_utf8(name),
    ) is Some
}

pub open spec fn end_of(start: usize, name: Seq<char>) -> int {
    if start + encode_utf8(name).len() > usize::MAX {
        usize::MAX as int
    } else {
        start + encode_utf8(name).len()
    }
}

/// The uses among the first `n` occurrences.
pub open spec fn occurrence_usage(
    occurrences: Seq<Occurrence>,
    cursor: int,
    prefix: Seq<char>,
    n: int,
) -> Seq<Usage>
    decreases n,
{
    if n <= 0 {
        Seq::empty()
    } else {
        let o = occurrences[n - 1];
        let before = occurrence_usage(occurrences, cursor, prefix, n - 1);
        if use_counts(o.name@, end_of(o.start_byte, o.name@), cursor, prefix) {
            with_usage(before, o.name@, o.start_byte as int)
        } else {
            before
        }
    }
}

fn is_use(name: &str, end: usize, cursor: usize, prefix: &str) -> (r: bool)
    ensures
        r == use_counts(name@, end as int, cursor as int, prefix@),
{
    end <= cursor && !(end == cursor && same_text(name, prefix)) && completion_word_score(
        prefix,
        name,
        0,
    ).is_some()
}

fn occurrence_usage_stats(index: &FileSemanticIndex, cursor: usize, prefix: &str) -> (r: Vec<
    UsageStats,
>)
    ensures
        usage_views(r@) == occurrence_usage(
            index.occurrences@,
            cursor as int,
            prefix@,
            index.occurrences@.len() as int,
        ),
{
    let mut stats: Vec<UsageStats> = Vec::new();
    let total: usize = index.occurrences.len();
    let mut i: usize = 0;
    assert(usage_views(stats@) =~= Seq::empty());
    while i < total
        invariant
            i <= total,
            total == index.occurrences@.len(),
            counts_within(stats@, i as int),
            usage_views(stats@) == occurrence_usage(
                index.occurrences@,
                cursor as int,
                prefix@,
                i as int,
            ),
        decreases total - i,
    {
        let o = &index.occurrences[i];
        let end: usize = o.start_byte.saturating_add(o.name.as_str().as_bytes().len());
        if is_use(o.name.as_str(), end, cursor, prefix) {
            record_usage(&mut stats, o.name.clone(), o.start_byte, Ghost(i as int));
        } else {
            assert forall|k: int| 0 <= k < stats@.len() implies (#[trigger] stats@[k]).count <= i
                + 1 by {
                assert(stats@[k].count <= i);
            }
        }
        i = i + 1;
    }
    stats
}

// ---------------------------------------------------------------------------
// Identifiers in the raw text

/// End of the identifier bytes at `i`, up to `end`.
pub open spec fn ident_end(bytes: Seq<u8>, i: int, end: int) -> int
    decreases end - i,
{
    if 0 <= i < end && byte_in_ident(bytes[i]) {
        ident_end(bytes, i + 1, end)
    } else {
        i
    }
}

/// The identifiers of `[i, end)`.
pub open spec fn identifiers_from(bytes: Seq<u8>, i: int, end: int) -> Seq<(int, int)>
    decreases end - i,
{
    if i < 0 || i >= end {
        Seq::empty()
    } else if byte_starts_ident(bytes[i]) {
        let stop = ident_end(bytes, i + 1, end);
        if i < stop <= end {
            seq![(i, stop)] + identifiers_from(bytes, stop, end)
        } else {
            Seq::empty()
        }
    } else {
        identifiers_from(bytes, i + 1, end)
    }
}

pub open spec fn spelled_at(bytes: Seq<u8>, span: (int, int)) -> Seq<char> {
    bytes_as_chars(bytes.subrange(span.0, span.1))
}

/// The uses among identifier spans from `k` on.
pub open spec fn span_usage(
    bytes: Seq<u8>,
    spans: Seq<(int, int)>,
    cursor: int,
    prefix: Seq<char>,
    acc: Seq<Usage>,
    k: int,
) -> Seq<Usage>
    decreases spans.len() - k,
{
    if k < 0 || k >= spans.len() {
        acc
    } else {
        let name = spelled_at(bytes, spans[k]);
        span_usage(
            bytes,
            spans,
            cursor,
            prefix,
            if use_counts(name, spans[k].1, cursor, prefix) {
                with_usage(acc, name, spans[k].0)
            } else {
                acc
            },
            k + 1,
        )
    }
}

fn find_ident_end(bytes: &[u8], from: usize, end: usize) -> (r: usize)
    requires
        from <= end <= bytes@.len(),
    ensures
        r == ident_end(bytes@, from as int, end as int),
        from <= r <= end,
{
    let mut i: usize = from;
    while i < end && is_ident_continue(bytes[i])
        invariant
            from <= i <= end <= bytes@.len(),
            ident_end(bytes@, from as int, end as int) == ident_end(bytes@, i as int, end as int),
        decreases end - i,
    {
        i = i + 1;
    }
    i
}

pub open spec fn int_spans(s: Seq<(usize, usize)>) -> Seq<(int, int)> {
    Seq::new(s.len(), |i: int| (s[i].0 as int, s[i].1 as int))
}

fn identifier_spans_before_cursor(bytes: &[u8], end: usize) -> (r: Vec<(usize, usize)>)
    requires
        end <= bytes@.len(),
    ensures
        int_spans(r@) == identifiers_from(bytes@, 0, end as int),
        forall|k: int| 0 <= k < r@.len() ==> (#[trigger] r@[k]).0 <= r@[k].1 <= end,
        r@.len() <= end,
{
    let mut spans: Vec<(usize, usize)> = Vec::new();
    let mut i: usize = 0;
    assert(int_spans(spans@) + identifiers_from(bytes@, 0, end as int) =~= identifiers_from(
        bytes@,
        0,
        end as int,
    ));
    while i < end
        invariant
            i <= end <= bytes@.len(),
            spans@.len() <= i,
            int_spans(spans@) + identifiers_from(bytes@, i as int, end as int) == identifiers_from(
                bytes@,
                0,
                end as int,
            ),
            forall|k: int| 0 <= k < spans@.len() ==> (#[trigger] spans@[k]).0 <= spans@[k].1 <= end,
        decreases end - i,
    {
        if is_ident_start(bytes[i]) {
            let stop: usize = find_ident_end(bytes, i + 1, end);
            let ghost before = int_spans(spans@);
            spans.push((i, stop));
            proof {
                assert(int_spans(spans@) =~= before.push((i as int, stop as int)));
                let rest = identifiers_from(bytes@, stop as int, end as int);
                assert(int_spans(spans@) + rest =~= before + (seq![(i as int, stop as int)]
                    + rest));
            }
            i = stop;
        } else {
            i = i + 1;
        }
    }
    assert(int_spans(spans@) + identifiers_from(bytes@, i as int, end as int) =~= int_spans(
        spans@,
    ));
    spans
}

fn raw_identifier_usage_stats(bytes: &[u8], cursor: usize, prefix: &str) -> (r: Vec<UsageStats>)
    requires
        cursor <= bytes@.len(),
    ensures
        usage_views(r@) == span_usage(
            bytes@,
            identifiers_from(bytes@, 0, cursor as int),
            cursor as int,
            prefix@,
            Seq::empty(),
            0,
        ),
{
    let spans = identifier_spans_before_cursor(bytes, cursor);
    let ghost all = identifiers_from(bytes@, 0, cursor as int);
    let mut stats: Vec<UsageStats> = Vec::new();
    let mut k: usize = 0;
    assert(usage_views(stats@) =~= Seq::empty());
    while k < spans.len()
        invariant
            k <= spans@.len() <= cursor <= bytes@.len(),
            all == int_spans(spans@),
            forall|j: int| 0 <= j < spans@.len() ==> (#[trigger] spans@[j]).0 <= spans@[j].1 <= cursor,
            counts_within(stats@, k as int),
            span_usage(bytes@, all, cursor as int, prefix@, Seq::empty(), 0) == span_usage(
                bytes@,
                all,
                cursor as int,
                prefix@,
                usage_views(stats@),
                k as int,
            ),
        decreases spans@.len() - k,
    {
        let (start, stop) = spans[k];
        assert(all[k as int] == (start as int, stop as int));
        let name = ascii_string(bytes, start, stop);
        if is_use(name.as_str(), stop, cursor, prefix) {
            record_usage(&mut stats, name, start, Ghost(k as int));
        } else {
            assert forall|j: int| 0 <= j < stats@.len() implies (#[trigger] stats@[j]).count <= k
                + 1 by {
                assert(stats@[j].count <= k);
            }
        }
        k = k + 1;
    }
    stats
}

// ---------------------------------------------------------------------------
// C++ aliases

pub open spec fn keyword_here(bytes: Seq<u8>, i: int, end: int) -> bool {
    i + 5 <= end && bytes.subrange(i, i + 5) == encode_utf8("using"@) && (i == 0
        || !byte_in_ident(bytes[i - 1])) && (i + 5 >= end || !byte_in_ident(bytes[i + 5]))
}

pub open spec fn spaces_until(bytes: Seq<u8>, i: int, end: int) -> int
    decreases end - i,
{
    if 0 <= i < end && byte_is_space(bytes[i]) {
        spaces_until(bytes, i + 1, end)
    } else {
        i
    }
}

/// The names that `using name =` gives in `[i, end)`.
pub open spec fn using_from(bytes: Seq<u8>, i: int, end: int) -> Seq<(int, int)>
    decreases end + 1 - i,
{
    if i < 0 || i >= end {
        Seq::empty()
    } else if !keyword_here(bytes, i, end) {
        using_from(bytes, i + 1, end)
    } else {
        let start = spaces_until(bytes, i + 5, end);
        if start >= end || !byte_starts_ident(bytes[start]) {
            using_from(bytes, i + 5, end)
        } else {
            let stop = ident_end(bytes, start + 1, end);
            let after = spaces_until(bytes, stop, end);
            if !(i < after <= end) {
                Seq::empty()
            } else if after < end && bytes[after] == 0x3D {
                seq![(start, stop)] + using_from(bytes, after + 1, end)
            } else {
                using_from(bytes, after + 1, end)
            }
        }
    }
}

fn keyword_at(bytes: &[u8], i: usize, end: usize) -> (r: bool)
    requires
        i < end <= bytes@.len(),
    ensures
        r == keyword_here(bytes@, i as int, end as int),
{
    end - i >= 5 && spells(bytes, i, i + 5, "using") && (i == 0 || !is_ident_continue(
        bytes[i - 1],
    )) && (i + 5 >= end || !is_ident_continue(bytes[i + 5]))
}

fn skip_ascii_whitespace(bytes: &[u8], from: usize, end: usize) -> (r: usize)
    requires
        from <= end <= bytes@.len(),
    ensures
        r == spaces_until(bytes@, from as int, end as int),
        from <= r <= end,
{
    let mut i: usize = from;
    while i < end && is_space_byte(bytes[i])
        invariant
            from <= i <= end <= bytes@.len(),
            spaces_until(bytes@, from as int, end as int) == spaces_until(
                bytes@,
                i as int,
                end as int,
            ),
        decreases end - i,
    {
        i = i + 1;
    }
    i
}

fn cpp_using_aliases_before_cursor(bytes: &[u8], end: usize) -> (r: Vec<(usize, usize)>)
    requires
        end <= bytes@.len(),
    ensures
        int_spans(r@) == using_from(bytes@, 0, end as int),
        forall|k: int| 0 <= k < r@.len() ==> (#[trigger] r@[k]).0 <= r@[k].1 <= end,
{
    let mut spans: Vec<(usize, usize)> = Vec::new();
    let mut i: usize = 0;
    assert(int_spans(spans@) + using_from(bytes@, 0, end as int) =~= using_from(
        bytes@,
        0,
        end as int,
    ));
    while i < end
        invariant
            i <= end + 1,
            end <= bytes@.len(),
            int_spans(spans@) + using_from(bytes@, i as int, end as int) == using_from(
                bytes@,
                0,
                end as int,
            ),
            forall|k: int| 0 <= k < spans@.len() ==> (#[trigger] spans@[k]).0 <= spans@[k].1 <= end,
        decreases end + 1 - i,
    {
        if !keyword_at(bytes, i, end) {
            i = i + 1;
        } else {
            let start: usize = skip_ascii_whitespace(bytes, i + 5, end);
            if start >= end || !is_ident_start(bytes[start]) {
                i = i + 5;
            } else {
                let stop: usize = find_ident_end(bytes, start + 1, end);
                let after: usize = skip_ascii_whitespace(bytes, stop, end);
                if after < end && bytes[after] == 0x3D {
                    let ghost before = int_spans(spans@);
                    spans.push((start, stop));
                    proof {
                        assert(int_spans(spans@) =~= before.push((start as int, stop as int)));
                        let rest = using_from(bytes@, after + 1, end as int);
                        assert(int_spans(spans@) + rest =~= before + (seq![
                            (start as int, stop as int),
                        ] + rest));
                    }
                }
                if after >= end {
                    proof {
                        assert(using_from(bytes@, after + 1, end as int) =~= Seq::empty());
                        assert(using_from(bytes@, end as int, end as int) =~= Seq::empty());
                    }
                    i = end;
                } else {
                    i = after + 1;
                }
            }
        }
    }
    assert(int_spans(spans@) + using_from(bytes@, i as int, end as int) =~= int_spans(spans@));
    spans
}

// ---------------------------------------------------------------------------
// Candidates

/// Nearness and frequency of a use.
pub open spec fn proximity(count: int, nearest: int, cursor: int) -> int {
    let distance = if nearest <= cursor {
        cursor - nearest
    } else {
        0
    };
    let near: int = if distance <= 32 {
        120
    } else if distance <= 128 {
        90
    } else if distance <= 512 {
        60
    } else if distance <= 2048 {
        30
    } else {
        10
    };
    let often: int = if count <= 1 {
        0
    } else if count >= 5 {
        80
    } else {
        (count - 1) * 20
    };
    near + often
}

fn proximity_score(stats: &UsageStats, cursor: usize) -> (r: i32)
    ensures
        r == proximity(stats@.count, stats@.nearest, cursor as int),
        0 <= r <= MAX_PROXIMITY_SCORE,
{
    let distance: usize = cursor.saturating_sub(stats.nearest);
    let near: i32 = if distance <= 32 {
        120
    } else if distance <= 128 {
        90
    } else if distance <= 512 {
        60
    } else if distance <= 2048 {
        30
    } else {
        10
    };
    let often: i32 = if stats.count <= 1 {
        0
    } else if stats.count >= 5 {
        80
    } else {
        ((stats.count - 1) as i32) * 20
    };
    near + often
}

/// The proximity of a name, 0 for one that is not used.
pub open spec fn proximity_of(stats: Seq<Usage>, name: Seq<char>, cursor: int) -> int {
    match usage_from(stats, name, 0) {
        Some(k) => proximity(stats[k].count, stats[k].nearest, cursor),
        None => 0,
    }
}

/// `a` is a better candidate for a name than `b`.
pub open spec fn better(a: Overlay, b: Overlay) -> bool {
    if a.semantic != b.semantic {
        a.semantic
    } else if a.match_score != b.match_score {
        a.match_score > b.match_score
    } else if a.proximity != b.proximity {
        a.proximity > b.proximity
    } else {
        a.distance < b.distance
    }
}

/// Candidates by quality, best first, then by name.
pub struct OverlayOrder;

impl Order<Overlay> for OverlayOrder {
    open spec fn before(a: Overlay, b: Overlay) -> bool {
        if better(a, b) {
            true
        } else if better(b, a) {
            false
        } else {
            text_before(a.name, b.name)
        }
    }
}

impl Order<OverlayItem> for OverlayOrder {
    closed spec fn before(a: OverlayItem, b: OverlayItem) -> bool {
        <OverlayOrder as Order<Overlay>>::before(a@, b@)
    }
}

fn is_better(a: &OverlayItem, b: &OverlayItem) -> (r: bool)
    ensures
        r == better(a@, b@),
{
    if a.semantic != b.semantic {
        a.semantic
    } else if a.match_score != b.match_score {
        a.match_score > b.match_score
    } else if a.proximity != b.proximity {
        a.proximity > b.proximity
    } else {
        a.distance < b.distance
    }
}

impl Ordered<OverlayItem> for OverlayOrder {
    fn is_before(a: &OverlayItem, b: &OverlayItem) -> (r: bool) {
        if is_better(a, b) {
            true
        } else if is_better(b, a) {
            false
        } else {
            is_text_before(a.name.as_str(), b.name.as_str())
        }
    }
}

/// The candidate of a name, from `i` on.
pub open spec fn named_from(s: Seq<Overlay>, name: Seq<char>, i: int) -> Option<int>
    decreases s.len() - i,
{
    if i < 0 || i >= s.len() {
        None
    } else if s[i].name == name {
        Some(i)
    } else {
        named_from(s, name, i + 1)
    }
}

/// The best candidate of each name, `c` among them.
pub open spec fn with_best(s: Seq<Overlay>, c: Overlay) -> Seq<Overlay> {
    match named_from(s, c.name, 0) {
        Some(k) => if better(c, s[k]) {
            s.update(k, c)
        } else {
            s
        },
        None => s.push(c),
    }
}

fn keep_best(items: &mut Vec<OverlayItem>, item: OverlayItem)
    ensures
        item_views(final(items)@) == with_best(item_views(old(items)@), item@),
{
    let ghost all = item_views(items@);
    let ghost c = item@;
    let mut i: usize = 0;
    while i < items.len()
        invariant
            i <= items@.len(),
            all == item_views(items@),
            items@ == old(items)@,
            c == item@,
            named_from(all, c.name, 0) == named_from(all, c.name, i as int),
        decreases items@.len() - i,
    {
        assert(all[i as int] == items@[i as int]@);
        if same_text(items[i].name.as_str(), item.name.as_str()) {
            if is_better(&item, &items[i]) {
                items.set(i, item);
                assert(item_views(items@) =~= all.update(i as int, c));
            }
            return;
        }
        i = i + 1;
    }
    items.push(item);
    assert(item_views(items@) =~= all.push(c));
}

/// A name declared in the file, as a candidate.
pub open spec fn declared(
    name: Seq<char>,
    kind: SymbolKind,
    start: int,
    prefix: Seq<char>,
    stats: Seq<Usage>,
    cursor: int,
) -> Option<Overlay> {
    match word_score(encode_utf8(prefix), encode_utf8(name)) {
        Some(score) => Some(
            Overlay {
                name,
                kind,
                detail: "current"@,
                match_score: score,
                proximity: proximity_of(stats, name, cursor),
                start,
                semantic: true,
                distance: distance_from(start, cursor),
            },
        ),
        None => None,
    }
}

pub open spec fn with_declared(s: Seq<Overlay>, c: Option<Overlay>) -> Seq<Overlay> {
    match c {
        Some(o) => with_best(s, o),
        None => s,
    }
}

fn keep_declared(
    items: &mut Vec<OverlayItem>,
    name: &str,
    kind: SymbolKind,
    start: usize,
    prefix: &str,
    stats: &Vec<UsageStats>,
    cursor: usize,
)
    ensures
        item_views(final(items)@) == with_declared(
            item_views(old(items)@),
            declared(
                name@,
                kind,
                start as int,
                prefix@,
                usage_views(stats@),
                cursor as int,
            ),
        ),
{
    let match_score: i32 = match completion_word_score(prefix, name, 0) {
        Some(score) => score,
        None => {
            return;
        },
    };
    let near: i32 = match find_usage(stats, name) {
        Some(k) => {
            assert(usage_views(stats@)[k as int] == stats@[k as int]@);
            proximity_score(&stats[k], cursor)
        },
        None => 0,
    };
    let item = OverlayItem {
        name: name.to_owned(),
        kind,
        detail: "current",
        match_score,
        proximity: near,
        start,
        semantic: true,
        distance: source_distance(start, cursor),
    };
    keep_best(items, item);
}

/// Declarations that the overlay offers.
pub open spec fn offered(kind: SymbolKind, role: SymbolRole) -> bool {
    match kind {
        SymbolKind::Function => role == SymbolRole::Definition || role == SymbolRole::Declaration,
        SymbolKind::Macro | SymbolKind::Type | SymbolKind::EnumConstant
        | SymbolKind::GlobalVariable => role == SymbolRole::Definition,
        SymbolKind::Field => false,
    }
}

fn is_overlay_symbol(kind: SymbolKind, role: SymbolRole) -> (r: bool)
    ensures
        r == offered(kind, role),
{
    match kind {
        SymbolKind::Function => role == SymbolRole::Definition || role == SymbolRole::Declaration,
        SymbolKind::Macro | SymbolKind::Type | SymbolKind::EnumConstant
        | SymbolKind::GlobalVariable => role == SymbolRole::Definition,
        SymbolKind::Field => false,
    }
}

/// What the candidates are made of.
pub struct Setting {
    pub prefix: Seq<char>,
    pub stats: Seq<Usage>,
    pub cursor: int,
}

pub open spec fn after_symbols(symbols: Seq<FileSymbol>, at: Setting, n: int) -> Seq<Overlay>
    decreases n,
{
    if n <= 0 {
        Seq::empty()
    } else {
        let before = after_symbols(symbols, at, n - 1);
        let s = symbols[n - 1];
        if offered(s.kind, s.role) {
            with_declared(
                before,
                declared(s.name@, s.kind, s.start_byte as int, at.prefix, at.stats, at.cursor),
            )
        } else {
            before
        }
    }
}

pub open spec fn after_aliases(
    base: Seq<Overlay>,
    aliases: Seq<TypeAlias>,
    at: Setting,
    n: int,
) -> Seq<Overlay>
    decreases n,
{
    if n <= 0 {
        base
    } else {
        let a = aliases[n - 1];
        with_declared(
            after_aliases(base, aliases, at, n - 1),
            declared(
                a.alias@,
                SymbolKind::Type,
                a.start_byte as int,
                at.prefix,
                at.stats,
                at.cursor,
            ),
        )
    }
}

pub open spec fn after_using(
    base: Seq<Overlay>,
    bytes: Seq<u8>,
    spans: Seq<(int, int)>,
    at: Setting,
    n: int,
) -> Seq<Overlay>
    decreases n,
{
    if n <= 0 {
        base
    } else {
        with_declared(
            after_using(base, bytes, spans, at, n - 1),
            declared(
                spelled_at(bytes, spans[n - 1]),
                SymbolKind::Type,
                spans[n - 1].0,
                at.prefix,
                at.stats,
                at.cursor,
            ),
        )
    }
}

pub open spec fn after_records(
    base: Seq<Overlay>,
    records: Seq<RecordFact>,
    at: Setting,
    n: int,
) -> Seq<Overlay>
    decreases n,
{
    if n <= 0 {
        base
    } else {
        let r = records[n - 1];
        with_declared(
            after_records(base, records, at, n - 1),
            declared(
                r.display_name@,
                SymbolKind::Type,
                r.start_byte as int,
                at.prefix,
                at.stats,
                at.cursor,
            ),
        )
    }
}

/// A word that is only used, as a candidate.
pub open spec fn used(u: Usage, prefix: Seq<char>, cursor: int) -> Option<Overlay> {
    match word_score(encode_utf8(prefix), encode_utf8(u.name)) {
        Some(score) => Some(
            Overlay {
                name: u.name,
                kind: SymbolKind::GlobalVariable,
                detail: "text"@,
                match_score: score,
                proximity: proximity(u.count, u.nearest, cursor),
                start: u.nearest,
                semantic: false,
                distance: distance_from(u.nearest, cursor),
            },
        ),
        None => None,
    }
}

pub open spec fn after_uses(
    base: Seq<Overlay>,
    uses: Seq<Usage>,
    prefix: Seq<char>,
    cursor: int,
    n: int,
) -> Seq<Overlay>
    decreases n,
{
    if n <= 0 {
        base
    } else {
        with_declared(
            after_uses(base, uses, prefix, cursor, n - 1),
            used(uses[n - 1], prefix, cursor),
        )
    }
}

/// The facts are too poor for uses to be taken from them.
pub open spec fn reads_raw_text(index: FileSemanticIndex) -> bool {
    index.occurrences@.len() == 0 || index.diagnostics.fallback_used
        || index.diagnostics.ast_source == FactSource::LexicalFallback
}

fn should_use_raw_scan(index: &FileSemanticIndex) -> (r: bool)
    ensures
        r == reads_raw_text(*index),
{
    index.occurrences.len() == 0 || index.diagnostics.fallback_used
        || index.diagnostics.ast_source == FactSource::LexicalFallback
}

/// All candidates, the best of each name, unsorted.
pub open spec fn overlays(
    index: FileSemanticIndex,
    bytes: Seq<u8>,
    cursor: int,
    prefix: Seq<char>,
) -> Seq<Overlay> {
    let stats = occurrence_usage(
        index.occurrences@,
        cursor,
        prefix,
        index.occurrences@.len() as int,
    );
    let at = Setting { prefix, stats, cursor };
    let a = after_symbols(index.symbols@, at, index.symbols@.len() as int);
    let b = after_aliases(a, index.aliases@, at, index.aliases@.len() as int);
    let spans = using_from(bytes, 0, cursor);
    let c = after_using(b, bytes, spans, at, spans.len() as int);
    let d = after_records(c, index.records@, at, index.records@.len() as int);
    let uses = if reads_raw_text(index) {
        span_usage(bytes, identifiers_from(bytes, 0, cursor), cursor, prefix, Seq::empty(), 0)
    } else {
        stats
    };
    after_uses(d, uses, prefix, cursor, uses.len() as int)
}

/// A candidate as it is returned.
pub open spec fn is_candidate(c: CurrentFileOverlayCandidate, o: Overlay) -> bool {
    &&& c.name@ == o.name
    &&& c.kind == o.kind
    &&& c.detail is Some
    &&& c.detail->0@ == o.detail
    &&& c.match_score == o.match_score
    &&& c.proximity_score == o.proximity
    &&& c.source_start_byte == o.start
    &&& c.semantic == o.semantic
}

/// The best `limit` candidates.
pub open spec fn best_overlays(s: Seq<Overlay>, limit: int) -> Seq<Overlay> {
    let sorted = stable_sort::<Overlay, OverlayOrder>(s);
    if sorted.len() > limit {
        sorted.subrange(0, limit)
    } else {
        sorted
    }
}

/// Completion candidates of the current file: what it declares, then words
/// used before the cursor, each name once.
pub fn current_file_overlay_candidates(
    index: &FileSemanticIndex,
    text: &str,
    line: u32,
    character: u32,
    prefix: &str,
    limit: usize,
) -> (r: Vec<CurrentFileOverlayCandidate>)
    ensures
        ({
            let cursor = utf8_offset(
                text@,
                position_index(text@, line as int, character as int),
            ) as int;
            let best = best_overlays(
                overlays(*index, encode_utf8(text@), cursor, prefix@),
                limit as int,
            );
            &&& r@.len() == best.len()
            &&& forall|i: int| 0 <= i < r@.len() ==> is_candidate(#[trigger] r@[i], best[i])
        }),
{
    let cursor: usize = byte_offset_at(text, line, character);
    let bytes = text.as_bytes();
    let stats = occurrence_usage_stats(index, cursor, prefix);
    let ghost at = Setting {
        prefix: prefix@,
        stats: usage_views(stats@),
        cursor: cursor as int,
    };
    let mut items: Vec<OverlayItem> = Vec::new();
    assert(item_views(items@) =~= Seq::empty());
    let mut i: usize = 0;
    while i < index.symbols.len()
        invariant
            i <= index.symbols@.len(),
            at == (Setting {
                prefix: prefix@,
                stats: usage_views(stats@),
                cursor: cursor as int,
            }),
            item_views(items@) == after_symbols(index.symbols@, at, i as int),
        decreases index.symbols@.len() - i,
    {
        let symbol = &index.symbols[i];
        if is_overlay_symbol(symbol.kind, symbol.role) {
            keep_declared(
                &mut items,
                symbol.name.as_str(),
                symbol.kind,
                symbol.start_byte,
                prefix,
                &stats,
                cursor,
            );
        }
        i = i + 1;
    }
    let ghost a = item_views(items@);
    i = 0;
    while i < index.aliases.len()
        invariant
            i <= index.aliases@.len(),
            at == (Setting {
                prefix: prefix@,
                stats: usage_views(stats@),
                cursor: cursor as int,
            }),
            item_views(items@) == after_aliases(a, index.aliases@, at, i as int),
        decreases index.aliases@.len() - i,
    {
        let alias = &index.aliases[i];
        keep_declared(
            &mut items,
            alias.alias.as_str(),
            SymbolKind::Type,
            alias.start_byte,
            prefix,
            &stats,
            cursor,
        );
        i = i + 1;
    }
    let ghost b = item_views(items@);
    let spans = cpp_using_aliases_before_cursor(bytes, cursor);
    let ghost all = using_from(bytes@, 0, cursor as int);
    i = 0;
    while i < spans.len()
        invariant
            i <= spans@.len(),
            cursor <= bytes@.len(),
            all == int_spans(spans@),
            forall|k: int| 0 <= k < spans@.len() ==> (#[trigger] spans@[k]).0 <= spans@[k].1
                <= cursor,
            at == (Setting {
                prefix: prefix@,
                stats: usage_views(stats@),
                cursor: cursor as int,
            }),
            item_views(items@) == after_using(b, bytes@, all, at, i as int),
        decreases spans@.len() - i,
    {
        let (start, stop) = spans[i];
        assert(all[i as int] == (start as int, stop as int));
        let name = ascii_string(bytes, start, stop);
        keep_declared(
            &mut items,
            name.as_str(),
            SymbolKind::Type,
            start,
            prefix,
            &stats,
            cursor,
        );
        i = i + 1;
    }
    let ghost c = item_views(items@);
    i = 0;
    while i < index.records.len()
        invariant
            i <= index.records@.len(),
            at == (Setting {
                prefix: prefix@,
                stats: usage_views(stats@),
                cursor: cursor as int,
            }),
            item_views(items@) == after_records(c, index.records@, at, i as int),
        decreases index.records@.len() - i,
    {
        let record = &index.records[i];
        keep_declared(
            &mut items,
            record.display_name.as_str(),
            SymbolKind::Type,
            record.start_byte,
            prefix,
            &stats,
            cursor,
        );
        i = i + 1;
    }
    let ghost d = item_views(items@);
    let uses = if should_use_raw_scan(index) {
        raw_identifier_usage_stats(bytes, cursor, prefix)
    } else {
        stats
    };
    keep_uses(&mut items, &uses, prefix, cursor);
    assert(item_views(items@) == overlays(*index, bytes@, cursor as int, prefix@));
    finish_overlays(items, limit)
}

fn keep_uses(items: &mut Vec<OverlayItem>, uses: &Vec<UsageStats>, prefix: &str, cursor: usize)
    ensures
        item_views(final(items)@) == after_uses(
            item_views(old(items)@),
            usage_views(uses@),
            prefix@,
            cursor as int,
            uses@.len() as int,
        ),
{
    let ghost base = item_views(items@);
    let ghost all = usage_views(uses@);
    let mut i: usize = 0;
    while i < uses.len()
        invariant
            i <= uses@.len(),
            all == usage_views(uses@),
            item_views(items@) == after_uses(base, all, prefix@, cursor as int, i as int),
        decreases uses@.len() - i,
    {
        let u = &uses[i];
        assert(all[i as int] == uses@[i as int]@);
        match completion_word_score(prefix, u.name.as_str(), 0) {
            Some(match_score) => {
                let item = OverlayItem {
                    name: u.name.clone(),
                    kind: SymbolKind::GlobalVariable,
                    detail: "text",
                    match_score,
                    proximity: proximity_score(u, cursor),
                    start: u.nearest,
                    semantic: false,
                    distance: source_distance(u.nearest, cursor),
                };
                keep_best(items, item);
            },
            None => {},
        }
        i = i + 1;
    }
}

fn finish_overlays(items: Vec<OverlayItem>, limit: usize) -> (r: Vec<CurrentFileOverlayCandidate>)
    ensures
        r@.len() == best_overlays(item_views(items@), limit as int).len(),
        forall|i: int|
            0 <= i < r@.len() ==> is_candidate(
                #[trigger] r@[i],
                best_overlays(item_views(items@), limit as int)[i],
            ),
{
    let ghost best = best_overlays(item_views(items@), limit as int);
    proof {
        stable_sort_maps::<OverlayItem, Overlay, OverlayOrder, OverlayOrder>(
            items@,
            |o: OverlayItem| o@,
        );
    }
    let mut sorted = items;
    sort_stable::<OverlayItem, OverlayOrder>(&mut sorted);
    let ghost order = item_views(sorted@);
    let mut out: Vec<CurrentFileOverlayCandidate> = Vec::new();
    let mut i: usize = 0;
    while i < sorted.len() && i < limit
        invariant
            i <= sorted@.len(),
            i <= limit,
            order == item_views(sorted@),
            out@.len() == i,
            forall|k: int| 0 <= k < i ==> is_candidate(#[trigger] out@[k], order[k]),
        decreases sorted@.len() - i,
    {
        let o = &sorted[i];
        assert(order[i as int] == sorted@[i as int]@);
        out.push(
            CurrentFileOverlayCandidate {
                name: o.name.clone(),
                kind: o.kind,
                detail: Some(o.detail.to_owned()),
                match_score: o.match_score,
                proximity_score: o.proximity,
                source_start_byte: o.start,
                semantic: o.semantic,
            },
        );
        i = i + 1;
    }
    assert(order.len() == sorted@.len());
    out
}

// ---------------------------------------------------------------------------
// Laws

/// No name stands for two candidates.
pub open spec fn names_unique(s: Seq<Overlay>) -> bool {
    forall|i: int, j: int|
        0 <= i < j < s.len() ==> (#[trigger] s[i]).name != (#[trigger] s[j]).name
}

proof fn named_facts(s: Seq<Overlay>, name: Seq<char>, i: int)
    requires
        0 <= i <= s.len(),
    ensures
        match named_from(s, name, i) {
            Some(k) => i <= k < s.len() && s[k].name == name,
            None => forall|k: int| i <= k < s.len() ==> (#[trigger] s[k]).name != name,
        },
    decreases s.len() - i,
{
    if i < s.len() && s[i].name != name {
        named_facts(s, name, i + 1);
    }
}

/// Adding a candidate keeps names unique, and leaves for its name a candidate
/// that it is not better than.
pub proof fn best_of_each_name_is_kept(s: Seq<Overlay>, c: Overlay)
    requires
        names_unique(s),
    ensures
        names_unique(with_best(s, c)),
        exists|k: int|
            0 <= k < with_best(s, c).len() && (#[trigger] with_best(s, c)[k]).name == c.name
                && !better(c, with_best(s, c)[k]),
{
    named_facts(s, c.name, 0);
    let r = with_best(s, c);
    match named_from(s, c.name, 0) {
        Some(k) => {
            assert(r[k].name == c.name && !better(c, r[k]));
            assert forall|i: int, j: int| 0 <= i < j < r.len() implies (#[trigger] r[i]).name != (
            #[trigger] r[j]).name by {
                assert(s[i].name != s[j].name);
            }
        },
        None => {
            assert(r[s.len() as int].name == c.name);
            assert forall|i: int, j: int| 0 <= i < j < r.len() implies (#[trigger] r[i]).name != (
            #[trigger] r[j]).name by {
                assert(r[i] == s[i]);
                if j < s.len() {
                    assert(r[j] == s[j]);
                }
            }
        },
    }
}

/// A candidate says how its name matches, how near it is used, and where it is
/// from.
pub open spec fn is_sound(o: Overlay, prefix: Seq<char>) -> bool {
    &&& word_score(encode_utf8(prefix), encode_utf8(o.name)) == Some(o.match_score)
    &&& 0 <= o.proximity <= MAX_PROXIMITY_SCORE
    &&& o.detail == if o.semantic {
        "current"@
    } else {
        "text"@
    }
}

/// Sound candidates, none of them twice.
spec fn well_kept(s: Seq<Overlay>, prefix: Seq<char>) -> bool {
    names_unique(s) && forall|i: int| 0 <= i < s.len() ==> is_sound(#[trigger] s[i], prefix)
}

proof fn declared_keeps(s: Seq<Overlay>, c: Option<Overlay>, prefix: Seq<char>)
    requires
        well_kept(s, prefix),
        c is Some ==> is_sound(c->0, prefix),
    ensures
        well_kept(with_declared(s, c), prefix),
{
    match c {
        Some(o) => {
            best_of_each_name_is_kept(s, o);
            named_facts(s, o.name, 0);
        },
        None => {},
    }
}

proof fn symbols_keep(symbols: Seq<FileSymbol>, at: Setting, n: int)
    ensures
        well_kept(after_symbols(symbols, at, n), at.prefix),
    decreases n,
{
    if n > 0 {
        symbols_keep(symbols, at, n - 1);
        let s = symbols[n - 1];
        declared_keeps(
            after_symbols(symbols, at, n - 1),
            declared(s.name@, s.kind, s.start_byte as int, at.prefix, at.stats, at.cursor),
            at.prefix,
        );
    }
}

proof fn aliases_keep(base: Seq<Overlay>, aliases: Seq<TypeAlias>, at: Setting, n: int)
    requires
        well_kept(base, at.prefix),
    ensures
        well_kept(after_aliases(base, aliases, at, n), at.prefix),
    decreases n,
{
    if n > 0 {
        aliases_keep(base, aliases, at, n - 1);
        let a = aliases[n - 1];
        declared_keeps(
            after_aliases(base, aliases, at, n - 1),
            declared(
                a.alias@,
                SymbolKind::Type,
                a.start_byte as int,
                at.prefix,
                at.stats,
                at.cursor,
            ),
            at.prefix,
        );
    }
}

proof fn using_keeps(
    base: Seq<Overlay>,
    bytes: Seq<u8>,
    spans: Seq<(int, int)>,
    at: Setting,
    n: int,
)
    requires
        well_kept(base, at.prefix),
    ensures
        well_kept(after_using(base, bytes, spans, at, n), at.prefix),
    decreases n,
{
    if n > 0 {
        using_keeps(base, bytes, spans, at, n - 1);
        declared_keeps(
            after_using(base, bytes, spans, at, n - 1),
            declared(
                spelled_at(bytes, spans[n - 1]),
                SymbolKind::Type,
                spans[n - 1].0,
                at.prefix,
                at.stats,
                at.cursor,
            ),
            at.prefix,
        );
    }
}

proof fn records_keep(base: Seq<Overlay>, records: Seq<RecordFact>, at: Setting, n: int)
    requires
        well_kept(base, at.prefix),
    ensures
        well_kept(after_records(base, records, at, n), at.prefix),
    decreases n,
{
    if n > 0 {
        records_keep(base, records, at, n - 1);
        let r = records[n - 1];
        declared_keeps(
            after_records(base, records, at, n - 1),
            declared(
                r.display_name@,
                SymbolKind::Type,
                r.start_byte as int,
                at.prefix,
                at.stats,
                at.cursor,
            ),
            at.prefix,
        );
    }
}

proof fn uses_keep(
    base: Seq<Overlay>,
    uses: Seq<Usage>,
    prefix: Seq<char>,
    cursor: int,
    n: int,
)
    requires
        well_kept(base, prefix),
    ensures
        well_kept(after_uses(base, uses, prefix, cursor, n), prefix),
    decreases n,
{
    if n > 0 {
        uses_keep(base, uses, prefix, cursor, n - 1);
        declared_keeps(
            after_uses(base, uses, prefix, cursor, n - 1),
            used(uses[n - 1], prefix, cursor),
            prefix,
        );
    }
}

proof fn sorting_keeps_unique(s: Seq<Overlay>, limit: int)
    requires
        names_unique(s),
        0 <= limit,
    ensures
        names_unique(best_overlays(s, limit)),
        best_overlays(s, limit).len() <= limit,
{
    broadcast use vstd::seq_lib::group_to_multiset_ensures;

    let sorted = stable_sort::<Overlay, OverlayOrder>(s);
    stable_sort_is_permutation::<Overlay, OverlayOrder>(s);
    assert(s.no_duplicates()) by {
        assert forall|i: int, j: int|
            0 <= i < s.len() && 0 <= j < s.len() && i != j implies s[i] != s[j] by {
            if i < j {
                assert(s[i].name != s[j].name);
            } else {
                assert(s[j].name != s[i].name);
            }
        }
    }
    s.lemma_multiset_has_no_duplicates();
    sorted.lemma_multiset_has_no_duplicates_conv();
    assert forall|i: int, j: int| 0 <= i < j < sorted.len() implies (#[trigger] sorted[i]).name != (
    #[trigger] sorted[j]).name by {
        stable_sort_takes_from::<Overlay, OverlayOrder>(s, i);
        stable_sort_takes_from::<Overlay, OverlayOrder>(s, j);
        let m = choose|m: int| 0 <= m < s.len() && s[m] == sorted[i];
        let n = choose|n: int| 0 <= n < s.len() && s[n] == sorted[j];
        assert(sorted[i] != sorted[j]);
        if m < n {
            assert(s[m].name != s[n].name);
        } else {
            assert(s[n].name != s[m].name);
        }
    }
    let best = best_overlays(s, limit);
    assert forall|i: int, j: int| 0 <= i < j < best.len() implies (#[trigger] best[i]).name != (
    #[trigger] best[j]).name by {
        assert(best[i] == sorted[i] && best[j] == sorted[j]);
    }
}

proof fn overlays_well_kept(
    index: FileSemanticIndex,
    bytes: Seq<u8>,
    cursor: int,
    prefix: Seq<char>,
)
    ensures
        well_kept(overlays(index, bytes, cursor, prefix), prefix),
{
    let stats = occurrence_usage(
        index.occurrences@,
        cursor,
        prefix,
        index.occurrences@.len() as int,
    );
    let at = Setting { prefix, stats, cursor };
    let a = after_symbols(index.symbols@, at, index.symbols@.len() as int);
    symbols_keep(index.symbols@, at, index.symbols@.len() as int);
    let b = after_aliases(a, index.aliases@, at, index.aliases@.len() as int);
    aliases_keep(a, index.aliases@, at, index.aliases@.len() as int);
    let spans = using_from(bytes, 0, cursor);
    let c = after_using(b, bytes, spans, at, spans.len() as int);
    using_keeps(b, bytes, spans, at, spans.len() as int);
    let d = after_records(c, index.records@, at, index.records@.len() as int);
    records_keep(c, index.records@, at, index.records@.len() as int);
    let uses = if reads_raw_text(index) {
        span_usage(bytes, identifiers_from(bytes, 0, cursor), cursor, prefix, Seq::empty(), 0)
    } else {
        stats
    };
    uses_keep(d, uses, prefix, cursor, uses.len() as int);
}

/// The overlay offers each name once, and no more candidates than asked for.
pub proof fn overlay_offers_each_name_once(
    index: FileSemanticIndex,
    bytes: Seq<u8>,
    cursor: int,
    prefix: Seq<char>,
    limit: int,
)
    requires
        0 <= limit,
    ensures
        names_unique(best_overlays(overlays(index, bytes, cursor, prefix), limit)),
        best_overlays(overlays(index, bytes, cursor, prefix), limit).len() <= limit,
{
    overlays_well_kept(index, bytes, cursor, prefix);
    sorting_keeps_unique(overlays(index, bytes, cursor, prefix), limit);
}

/// The order of candidates is a strict weak order.
pub proof fn overlay_order_is_strict_weak()
    ensures
        strict_weak::<Overlay, OverlayOrder>(),
{
    assert forall|a: Overlay, b: Overlay| <OverlayOrder as Order<Overlay>>::before(
        a,
        b,
    ) implies !#[trigger] <OverlayOrder as Order<Overlay>>::before(b, a) by {
        text_before_is_total(a.name, b.name);
    }
    assert forall|a: Overlay, b: Overlay, c: Overlay|
        !(#[trigger] <OverlayOrder as Order<Overlay>>::before(a, b)) && !(
        #[trigger] <OverlayOrder as Order<Overlay>>::before(
            b,
            c,
        )) implies !<OverlayOrder as Order<Overlay>>::before(a, c) by {
        let (x, y, z) = (a.name, b.name, c.name);
        text_before_is_total(x, y);
        text_before_is_total(y, z);
        text_before_is_total(x, z);
        if text_before(y, x) && text_before(z, y) {
            text_before_is_transitive(z, y, x);
        }
    }
}

/// Every candidate has the score of its name, a nearness in bounds and a detail
/// that says where it is from; what the file declares stands before what is
/// only used in it; and a smaller limit gives the first of them.
pub proof fn overlay_is_sound_and_declared_first(
    index: FileSemanticIndex,
    bytes: Seq<u8>,
    cursor: int,
    prefix: Seq<char>,
    limit: int,
    fewer: int,
)
    requires
        0 <= fewer <= limit,
    ensures
        ({
            let best = best_overlays(overlays(index, bytes, cursor, prefix), limit);
            let less = best_overlays(overlays(index, bytes, cursor, prefix), fewer);
            &&& forall|i: int| 0 <= i < best.len() ==> is_sound(#[trigger] best[i], prefix)
            &&& forall|i: int, j: int|
                0 <= i < j < best.len() && (#[trigger] best[j]).semantic ==> (
                #[trigger] best[i]).semantic
            &&& less == if best.len() > fewer {
                best.subrange(0, fewer)
            } else {
                best
            }
        }),
{
    let s = overlays(index, bytes, cursor, prefix);
    let sorted = stable_sort::<Overlay, OverlayOrder>(s);
    let best = best_overlays(s, limit);
    overlays_well_kept(index, bytes, cursor, prefix);
    overlay_order_is_strict_weak();
    stable_sort_is_in_order::<Overlay, OverlayOrder>(s);
    stable_sort_is_permutation::<Overlay, OverlayOrder>(s);
    assert forall|i: int| 0 <= i < best.len() implies is_sound(#[trigger] best[i], prefix) by {
        assert(best[i] == sorted[i]);
        stable_sort_takes_from::<Overlay, OverlayOrder>(s, i);
        let m = choose|m: int| 0 <= m < s.len() && s[m] == sorted[i];
        assert(is_sound(s[m], prefix));
    }
    assert forall|i: int, j: int| 0 <= i < j < best.len() && (#[trigger] best[j]).semantic implies (
    #[trigger] best[i]).semantic by {
        assert(best[i] == sorted[i] && best[j] == sorted[j]);
        assert(!<OverlayOrder as Order<Overlay>>::before(sorted[j], sorted[i]));
    }
    if sorted.len() > fewer {
        assert(best_overlays(s, fewer) =~= best.subrange(0, fewer));
    }
}

} // verus!
