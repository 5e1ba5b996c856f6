//! What holds of positions, prefixes and words in every line.

use vstd::prelude::*;
use vstd::utf8::encode_utf8;

use crate::chars::{char_in_ident, char_starts_ident, utf16_width};
use crate::signature_laws::{
    call_ignores_what_follows, prefix_ignores_what_follows, run_end_facts, run_start_facts,
};
use crate::signatures::call_at;
use crate::text::{
    ident_run_end, ident_run_start, line_end, line_limit, line_start, position_index,
    prefix_before, utf16_index_from, utf8_offset, utf8_offset_is_byte_offset, word_touching,
};

verus! {

// ---------------------------------------------------------------------------
// Columns

/// UTF-16 length of the first `k` characters: the column before character `k`.
pub open spec fn column_of(s: Seq<char>, k: int) -> int
    decreases k,
{
    if k <= 0 {
        0
    } else {
        column_of(s, k - 1) + utf16_width(s[k - 1])
    }
}

proof fn columns_grow(s: Seq<char>, i: int, k: int)
    requires
        0 <= i <= k <= s.len(),
    ensures
        column_of(s, k) - column_of(s, i) >= k - i,
    decreases k,
{
    if i < k {
        columns_grow(s, i, k - 1);
    }
}

proof fn index_from(s: Seq<char>, i: int, k: int)
    requires
        0 <= i <= k <= s.len(),
    ensures
        utf16_index_from(s, i, column_of(s, k) - column_of(s, i)) == k,
    decreases k - i,
{
    if i < k {
        columns_grow(s, i + 1, k);
        index_from(s, i + 1, k);
    }
}

/// The column before a character leads back to the character.
pub proof fn column_leads_back(s: Seq<char>, k: int)
    requires
        0 <= k <= s.len(),
    ensures
        utf16_index_from(s, 0, column_of(s, k)) == k,
{
    index_from(s, 0, k);
}

proof fn columns_agree(a: Seq<char>, b: Seq<char>, k: int)
    requires
        0 <= k <= a.len(),
        k <= b.len(),
        a.subrange(0, k) == b.subrange(0, k),
    ensures
        column_of(a, k) == column_of(b, k),
    decreases k,
{
    if k > 0 {
        assert(a.subrange(0, k)[k - 1] == a[k - 1]);
        assert(b.subrange(0, k)[k - 1] == b[k - 1]);
        assert(a.subrange(0, k - 1) =~= a.subrange(0, k).subrange(0, k - 1));
        assert(b.subrange(0, k - 1) =~= b.subrange(0, k).subrange(0, k - 1));
        columns_agree(a, b, k - 1);
    }
}

// ---------------------------------------------------------------------------
// Prefixes

/// `p` is the longest run of identifier characters that ends before character
/// `k`, and starts as an identifier does.
pub open spec fn is_typed_run(s: Seq<char>, k: int, p: Seq<char>) -> bool {
    let start = k - p.len();
    &&& 0 <= start < k <= s.len()
    &&& p == s.subrange(start, k)
    &&& char_starts_ident(s[start])
    &&& forall|i: int| start <= i < k ==> char_in_ident(#[trigger] s[i])
    &&& start > 0 ==> !char_in_ident(s[start - 1])
}

/// A completion prefix is the longest identifier run before its column, the
/// word there begins with it, and what follows the column plays no part.
pub proof fn prefix_is_what_was_typed(line: Seq<char>, other: Seq<char>, k: int)
    requires
        0 <= k <= line.len(),
        k <= other.len(),
        line.subrange(0, k) == other.subrange(0, k),
        prefix_before(line, utf16_index_from(line, 0, column_of(line, k))) is Some,
    ensures
        ({
            let c = column_of(line, k);
            let p = prefix_before(line, utf16_index_from(line, 0, c));
            let w = word_touching(line, utf16_index_from(line, 0, c));
            &&& is_typed_run(line, k, p->0)
            &&& w is Some
            &&& p->0.len() <= w->0.len()
            &&& w->0.subrange(0, p->0.len() as int) == p->0
            &&& prefix_before(other, utf16_index_from(other, 0, c)) == p
        }),
{
    let p = prefix_before(line, k)->0;
    column_leads_back(line, k);
    column_leads_back(other, k);
    columns_agree(line, other, k);
    prefix_ignores_what_follows(line, other, k);
    run_start_facts(line, k);
    let start = ident_run_start(line, k);
    assert(p == line.subrange(start, k));
    let at = if k < line.len() && char_in_ident(line[k]) {
        k
    } else {
        k - 1
    };
    assert(char_in_ident(line[k - 1]));
    assert(ident_run_start(line, at) == start);
    run_end_facts(line, at + 1);
    let end = ident_run_end(line, at + 1);
    let w = line.subrange(start, end);
    assert(w.subrange(0, p.len() as int) =~= p);
}

// ---------------------------------------------------------------------------
// Positions

/// Line breaks before character `k`: its line.
pub open spec fn line_of(s: Seq<char>, k: int) -> int
    decreases k,
{
    if k <= 0 {
        0
    } else {
        line_of(s, k - 1) + if s[k - 1] == '\n' {
            1int
        } else {
            0int
        }
    }
}

/// Start of the line of character `k`.
pub open spec fn start_of(s: Seq<char>, k: int) -> int
    decreases k,
{
    if k <= 0 {
        0
    } else if s[k - 1] == '\n' {
        k
    } else {
        start_of(s, k - 1)
    }
}

proof fn start_facts(s: Seq<char>, k: int)
    requires
        0 <= k <= s.len(),
    ensures
        0 <= start_of(s, k) <= k,
        line_of(s, start_of(s, k)) == line_of(s, k),
        forall|i: int| start_of(s, k) <= i < k ==> s[i] != '\n',
        start_of(s, k) > 0 ==> s[start_of(s, k) - 1] == '\n',
    decreases k,
{
    if k > 0 && s[k - 1] != '\n' {
        start_facts(s, k - 1);
    }
}

proof fn lines_grow(s: Seq<char>, i: int, k: int)
    requires
        0 <= i <= k <= s.len(),
    ensures
        line_of(s, i) <= line_of(s, k),
    decreases k,
{
    if i < k {
        lines_grow(s, i, k - 1);
    }
}

proof fn line_found(s: Seq<char>, i: int, k: int)
    requires
        0 <= i <= start_of(s, k),
        k <= s.len(),
        0 <= k,
    ensures
        line_start(s, i, line_of(s, k) - line_of(s, i)) == start_of(s, k),
    decreases start_of(s, k) - i,
{
    let start = start_of(s, k);
    start_facts(s, k);
    if i < start {
        lines_grow(s, i, start - 1);
        assert(line_of(s, start) == line_of(s, start - 1) + 1);
        line_found(s, i + 1, k);
    }
}

proof fn line_reaches(s: Seq<char>, i: int, k: int)
    requires
        0 <= i <= k <= s.len(),
        forall|j: int| i <= j < k ==> s[j] != '\n',
    ensures
        k <= line_end(s, i) <= s.len(),
    decreases s.len() - i,
{
    if i < s.len() && s[i] != '\n' {
        line_reaches(s, i + 1, if k > i {
            k
        } else {
            i + 1
        });
    }
}

/// The byte offset of the position of a character is the length of the text
/// before it.
pub proof fn position_leads_back(s: Seq<char>, k: int)
    requires
        0 <= k <= s.len(),
    ensures
        ({
            let column = column_of(s, k) - column_of(s, start_of(s, k));
            &&& position_index(s, line_of(s, k), column) == k
            &&& utf8_offset(s, position_index(s, line_of(s, k), column)) == encode_utf8(
                s.subrange(0, k),
            ).len()
        }),
{
    let start = start_of(s, k);
    start_facts(s, k);
    line_found(s, 0, k);
    line_reaches(s, start, k);
    let head = s.subrange(0, line_limit(s, start));
    head_columns(s, line_limit(s, start), k);
    head_columns(s, line_limit(s, start), start);
    index_from(head, start, k);
    offset_is_length(s, k);
}

proof fn head_columns(s: Seq<char>, n: int, k: int)
    requires
        0 <= k <= n <= s.len(),
    ensures
        column_of(s.subrange(0, n), k) == column_of(s, k),
    decreases k,
{
    if k > 0 {
        head_columns(s, n, k - 1);
    }
}

proof fn head_offsets(s: Seq<char>, n: int, k: int)
    requires
        0 <= k <= n <= s.len(),
    ensures
        utf8_offset(s.subrange(0, n), k) == utf8_offset(s, k),
    decreases k,
{
    if k > 0 {
        head_offsets(s, n, k - 1);
    }
}

proof fn offset_is_length(s: Seq<char>, k: int)
    requires
        0 <= k <= s.len(),
    ensures
        utf8_offset(s, k) == encode_utf8(s.subrange(0, k)).len(),
{
    head_offsets(s, k, k);
    utf8_offset_is_byte_offset(s.subrange(0, k), k);
}

proof fn index_in_bounds(s: Seq<char>, i: int, units: int)
    requires
        0 <= i <= s.len(),
    ensures
        i <= utf16_index_from(s, i, units) <= s.len(),
    decreases s.len() - i,
{
    if i < s.len() && utf16_width(s[i]) <= units {
        index_in_bounds(s, i + 1, units - utf16_width(s[i]));
    }
}

proof fn line_in_bounds(s: Seq<char>, i: int, line: int)
    requires
        0 <= i <= s.len(),
    ensures
        i <= line_start(s, i, line) <= s.len(),
    decreases s.len() - i,
{
    if line > 0 && i < s.len() {
        if s[i] == '\n' {
            line_in_bounds(s, i + 1, line - 1);
        } else {
            line_in_bounds(s, i + 1, line);
        }
    }
}

/// Every position has the byte offset of a character, or of the end: the text
/// is never cut within one.
pub proof fn offsets_are_between_characters(s: Seq<char>, line: int, column: int)
    ensures
        0 <= position_index(s, line, column) <= s.len(),
        utf8_offset(s, position_index(s, line, column)) == encode_utf8(
            s.subrange(0, position_index(s, line, column)),
        ).len(),
{
    let start = line_start(s, 0, line);
    line_in_bounds(s, 0, line);
    line_reaches(s, start, start);
    let head = s.subrange(0, line_limit(s, start));
    index_in_bounds(head, start, column);
    offset_is_length(s, position_index(s, line, column));
}

/// The call at a position depends on the text before the position alone.
pub proof fn call_ignores_text_behind(a: Seq<char>, b: Seq<char>, line: int, column: int)
    requires
        ({
            let (m, n) = (
                utf8_offset(a, position_index(a, line, column)) as int,
                utf8_offset(b, position_index(b, line, column)) as int,
            );
            m <= usize::MAX && encode_utf8(a).subrange(0, m) == encode_utf8(b).subrange(0, n)
        }),
    ensures
        call_at(encode_utf8(a), utf8_offset(a, position_index(a, line, column)) as int) == call_at(
            encode_utf8(b),
            utf8_offset(b, position_index(b, line, column)) as int,
        ),
{
    let m = utf8_offset(a, position_index(a, line, column)) as int;
    let n = utf8_offset(b, position_index(b, line, column)) as int;
    offsets_are_between_characters(a, line, column);
    offsets_are_between_characters(b, line, column);
    utf8_offset_is_byte_offset(a, position_index(a, line, column));
    utf8_offset_is_byte_offset(b, position_index(b, line, column));
    let (x, y) = (encode_utf8(a), encode_utf8(b));
    assert(x.subrange(0, m).len() == m && y.subrange(0, n).len() == n);
    assert forall|k: int| 0 <= k < m implies x[k] == y[k] by {
        assert(x.subrange(0, m)[k] == x[k]);
        assert(y.subrange(0, n)[k] == y[k]);
    }
    call_ignores_what_follows(x, y, m);
}

} // verus!
