//! What the parameters of a signature are, told by its brackets and commas.

use vstd::prelude::*;
use vstd::utf8::decode_utf8;

use crate::call_laws::{is_blank_byte, is_name, is_word_byte};
use crate::chars::{char_is_space, first_occurrence, space_run_start, trim, trim_end};
use crate::signature_laws::{neat_spans, parameters_are_neat};
use crate::signatures::{
    close_paren, first_byte, ink_end, label_of, list_bounds, list_bounds_for, name_start,
    parameters_between, pointer_declarator, previous_ink, spaces_end, span_end, span_start,
    spans_from, with_span, ParameterSpan,
};

verus! {

// ---------------------------------------------------------------------------
// Brackets and commas

/// How many more of `open` than of `close` stand in `[from, k)`.
pub open spec fn level(bytes: Seq<u8>, from: int, k: int, open: u8, close: u8) -> int
    decreases k - from,
{
    if k <= from {
        0
    } else {
        level(bytes, from, k - 1, open, close) + if bytes[k - 1] == open {
            1int
        } else if bytes[k - 1] == close {
            -1int
        } else {
            0int
        }
    }
}

/// No bracket is open at `k`.
pub open spec fn is_flat(bytes: Seq<u8>, from: int, k: int) -> bool {
    level(bytes, from, k, 0x28, 0x29) == 0 && level(bytes, from, k, 0x5B, 0x5D) == 0 && level(
        bytes,
        from,
        k,
        0x7B,
        0x7D,
    ) == 0
}

/// More brackets of a kind are closed before `k` than opened.
pub open spec fn is_sunk(bytes: Seq<u8>, from: int, k: int) -> bool {
    level(bytes, from, k, 0x28, 0x29) < 0 || level(bytes, from, k, 0x5B, 0x5D) < 0 || level(
        bytes,
        from,
        k,
        0x7B,
        0x7D,
    ) < 0
}

/// Every bracket of `[from, to)` is closed in it, and none that it did not
/// open.
pub open spec fn is_balanced(bytes: Seq<u8>, from: int, to: int) -> bool {
    is_flat(bytes, from, to) && forall|k: int| from <= k <= to ==> !#[trigger] is_sunk(bytes, from, k)
}

/// A comma outside all brackets.
pub open spec fn parts_at(bytes: Seq<u8>, from: int, k: int) -> bool {
    bytes[k] == 0x2C && is_flat(bytes, from, k)
}

/// Number of such commas in `[from, k)`.
pub open spec fn parting_commas(bytes: Seq<u8>, from: int, k: int) -> nat
    decreases k - from,
{
    if k <= from {
        0
    } else {
        parting_commas(bytes, from, k - 1) + if parts_at(bytes, from, k - 1) {
            1nat
        } else {
            0nat
        }
    }
}

/// `k` ends a part of `[from, to)`: its bounds and the commas that part it do.
pub open spec fn is_edge(bytes: Seq<u8>, from: int, to: int, k: int) -> bool {
    k == from - 1 || k == to || (from <= k < to && parts_at(bytes, from, k))
}

pub open spec fn has_ink(bytes: Seq<u8>, a: int, b: int) -> bool {
    exists|k: int| a <= k < b && !is_blank_byte(#[trigger] bytes[k])
}

/// Every part has something but white space in it.
pub open spec fn parts_have_ink(bytes: Seq<u8>, from: int, to: int) -> bool {
    forall|a: int, b: int|
        from - 1 <= a < b <= to && #[trigger] is_edge(bytes, from, to, a) && #[trigger] is_edge(
            bytes,
            from,
            to,
            b,
        ) ==> has_ink(bytes, a + 1, b)
}

pub open spec fn in_span(spans: Seq<ParameterSpan>, k: int) -> bool {
    exists|i: int| 0 <= i < spans.len() && (#[trigger] spans[i]).start <= k < spans[i].end
}

/// The spans hold all of `[from, to)` but white space and the commas that part
/// it, and none of those commas.
pub open spec fn cover(bytes: Seq<u8>, from: int, to: int, spans: Seq<ParameterSpan>) -> bool {
    &&& forall|k: int|
        from <= k < to && !is_blank_byte(#[trigger] bytes[k]) && !parts_at(bytes, from, k)
            ==> in_span(spans, k)
    &&& forall|k: int|
        from <= k < to && #[trigger] parts_at(bytes, from, k) ==> !in_span(spans, k)
}

// ---------------------------------------------------------------------------
// Spans

proof fn trims_blank(bytes: Seq<u8>, s: int, e: int)
    requires
        0 <= s <= e <= bytes.len(),
    ensures
        s <= span_start(bytes, s, e) <= e,
        forall|k: int| s <= k < span_start(bytes, s, e) ==> is_blank_byte(#[trigger] bytes[k]),
        span_start(bytes, s, e) < e ==> !is_blank_byte(bytes[span_start(bytes, s, e)]),
        s <= span_end(bytes, s, e) <= e,
        forall|k: int| span_end(bytes, s, e) <= k < e ==> is_blank_byte(#[trigger] bytes[k]),
    decreases e - s,
{
    if s < e {
        trims_blank(bytes, s + 1, e);
        trims_blank(bytes, s, e - 1);
    }
}

/// Reading a list up to `i`, with a part begun at `part`.
spec fn split_so_far(
    bytes: Seq<u8>,
    from: int,
    i: int,
    part: int,
    paren: nat,
    bracket: nat,
    brace: nat,
    spans: Seq<ParameterSpan>,
) -> bool {
    &&& from <= part <= i <= bytes.len()
    &&& paren == level(bytes, from, i, 0x28, 0x29)
    &&& bracket == level(bytes, from, i, 0x5B, 0x5D)
    &&& brace == level(bytes, from, i, 0x7B, 0x7D)
    &&& part == from || (from < part && parts_at(bytes, from, part - 1))
    &&& forall|k: int| part <= k < i ==> !#[trigger] parts_at(bytes, from, k)
    &&& cover(bytes, from, part, spans)
    &&& forall|j: int| 0 <= j < spans.len() ==> (#[trigger] spans[j]).end <= part
}

proof fn part_added(
    bytes: Seq<u8>,
    from: int,
    part: int,
    i: int,
    spans: Seq<ParameterSpan>,
)
    requires
        0 <= from <= part <= i <= bytes.len() <= u32::MAX,
        forall|k: int| part <= k < i ==> !#[trigger] parts_at(bytes, from, k),
        cover(bytes, from, part, spans),
        forall|j: int| 0 <= j < spans.len() ==> (#[trigger] spans[j]).end <= part,
    ensures
        cover(bytes, from, i, with_span(bytes, part, i, spans)),
        forall|j: int|
            0 <= j < with_span(bytes, part, i, spans).len() ==> (#[trigger] with_span(
                bytes,
                part,
                i,
                spans,
            )[j]).end <= i,
        with_span(bytes, part, i, spans).len() == spans.len() + if has_ink(bytes, part, i) {
            1int
        } else {
            0int
        },
{
    let start = span_start(bytes, part, i);
    let end = span_end(bytes, start, i);
    let r = with_span(bytes, part, i, spans);
    trims_blank(bytes, part, i);
    trims_blank(bytes, start, i);
    if start < i {
        assert(has_ink(bytes, part, i));
        assert(start < end) by {
            if end <= start {
                assert(is_blank_byte(bytes[start]));
            }
        }
        assert(r[spans.len() as int].start == start && r[spans.len() as int].end == end);
    }
    assert forall|k: int|
        from <= k < i && !is_blank_byte(#[trigger] bytes[k]) && !parts_at(
            bytes,
            from,
            k,
        ) implies in_span(r, k) by {
        if k < part {
            assert(in_span(spans, k));
            let j = choose|j: int| 0 <= j < spans.len() && (#[trigger] spans[j]).start <= k
                < spans[j].end;
            assert(r[j] == spans[j]);
        } else {
            assert(start <= k < end);
        }
    }
    assert forall|k: int| from <= k < i && #[trigger] parts_at(bytes, from, k) implies !in_span(
        r,
        k,
    ) by {
        assert(k < part);
        if in_span(r, k) {
            let j = choose|j: int| 0 <= j < r.len() && (#[trigger] r[j]).start <= k < r[j].end;
            assert(r[j] == spans[j]);
            assert(in_span(spans, k));
        }
    }
    assert forall|j: int| 0 <= j < r.len() implies (#[trigger] r[j]).end <= i by {
        if j < spans.len() {
            assert(r[j] == spans[j]);
        }
    }
}

proof fn split_facts(
    bytes: Seq<u8>,
    from: int,
    i: int,
    end: int,
    part: int,
    paren: nat,
    bracket: nat,
    brace: nat,
    spans: Seq<ParameterSpan>,
)
    requires
        0 <= from,
        i <= end <= bytes.len() <= u32::MAX,
        split_so_far(bytes, from, i, part, paren, bracket, brace, spans),
        forall|k: int| from <= k <= i ==> !#[trigger] is_sunk(bytes, from, k),
    ensures
        ({
            let r = spans_from(bytes, i, end, part, paren, bracket, brace, spans);
            &&& r is Some <==> is_balanced(bytes, from, end)
            &&& r is Some ==> cover(bytes, from, end, r->0)
            &&& r is Some && parts_have_ink(bytes, from, end) ==> r->0.len() == spans.len()
                + parting_commas(bytes, from, end) - parting_commas(bytes, from, i) + 1
        }),
    decreases end - i,
{
    if i >= end {
        part_added(bytes, from, part, end, spans);
        if parts_have_ink(bytes, from, end) {
            assert(is_edge(bytes, from, end, part - 1) && is_edge(bytes, from, end, end));
        }
    } else {
        let b = bytes[i];
        let (p, q, c) = (
            level(bytes, from, i + 1, 0x28, 0x29),
            level(bytes, from, i + 1, 0x5B, 0x5D),
            level(bytes, from, i + 1, 0x7B, 0x7D),
        );
        if p < 0 || q < 0 || c < 0 {
            assert(is_sunk(bytes, from, i + 1));
            assert(!is_balanced(bytes, from, end));
        } else {
            assert(!is_sunk(bytes, from, i + 1));
            assert forall|k: int| from <= k <= i + 1 implies !#[trigger] is_sunk(
                bytes,
                from,
                k,
            ) by {
                if k <= i {
                    assert(!is_sunk(bytes, from, k));
                }
            }
            commas_between(bytes, from, i + 1, end);
            if parts_at(bytes, from, i) {
                let next = with_span(bytes, part, i, spans);
                part_added(bytes, from, part, i, spans);
                assert(cover(bytes, from, i + 1, next)) by {
                    assert(!in_span(next, i));
                }
                if parts_have_ink(bytes, from, end) {
                    assert(is_edge(bytes, from, end, part - 1) && is_edge(bytes, from, end, i));
                }
                split_facts(bytes, from, i + 1, end, i + 1, paren, bracket, brace, next);
            } else {
                split_facts(
                    bytes,
                    from,
                    i + 1,
                    end,
                    part,
                    p as nat,
                    q as nat,
                    c as nat,
                    spans,
                );
            }
        }
    }
}

proof fn commas_between(bytes: Seq<u8>, from: int, i: int, end: int)
    requires
        from <= i <= end,
    ensures
        parting_commas(bytes, from, i) <= parting_commas(bytes, from, end),
    decreases end - i,
{
    if i < end {
        commas_between(bytes, from, i, end - 1);
    }
}

/// The parameters of a list are its parts between the commas outside brackets,
/// without the white space around them: the spans hold every byte but white
/// space and those commas, and where no part is blank there is one more of
/// them than of the commas. A list whose brackets do not balance has none.
pub proof fn parameters_are_the_parts(bytes: Seq<u8>, open: int, close: int)
    requires
        0 <= open < close <= bytes.len() <= u32::MAX,
        trim(decode_utf8(bytes.subrange(open + 1, close))).len() > 0,
        trim(decode_utf8(bytes.subrange(open + 1, close))) != "void"@,
    ensures
        ({
            let r = parameters_between(bytes, Some((open, close)));
            &&& neat_spans(bytes, r, open + 1, close)
            &&& is_balanced(bytes, open + 1, close) ==> cover(bytes, open + 1, close, r)
            &&& is_balanced(bytes, open + 1, close) && parts_have_ink(bytes, open + 1, close)
                ==> r.len() == parting_commas(bytes, open + 1, close) + 1
            &&& !is_balanced(bytes, open + 1, close) ==> r.len() == 0
        }),
{
    parameters_are_neat(bytes, open, close);
    assert(!is_sunk(bytes, open + 1, open + 1));
    split_facts(bytes, open + 1, open + 1, close, open + 1, 0, 0, 0, Seq::empty());
}

/// A list of nothing, and one of `void`, has no parameters.
pub proof fn void_has_no_parameters(bytes: Seq<u8>, open: int, close: int)
    requires
        trim(decode_utf8(bytes.subrange(open + 1, close))).len() == 0 || trim(
            decode_utf8(bytes.subrange(open + 1, close)),
        ) == "void"@,
    ensures
        parameters_between(bytes, Some((open, close))).len() == 0,
        parameters_between(bytes, None).len() == 0,
{
}

// ---------------------------------------------------------------------------
// Finding the list

/// The parentheses of `[from, to)` balance.
pub open spec fn parens_balance(bytes: Seq<u8>, from: int, to: int) -> bool {
    level(bytes, from, to, 0x28, 0x29) == 0 && forall|k: int|
        from <= k <= to ==> #[trigger] level(bytes, from, k, 0x28, 0x29) >= 0
}

proof fn close_found(bytes: Seq<u8>, from: int, i: int, to: int)
    requires
        0 <= from <= i <= to < bytes.len(),
        parens_balance(bytes, from, to),
        bytes[to] == 0x29,
    ensures
        close_paren(bytes, i, (level(bytes, from, i, 0x28, 0x29) + 1) as nat) == Some(to),
    decreases to - i,
{
    assert(level(bytes, from, i, 0x28, 0x29) >= 0);
    if i < to {
        assert(level(bytes, from, i + 1, 0x28, 0x29) >= 0);
        close_found(bytes, from, i + 1, to);
    }
}

proof fn first_found(bytes: Seq<u8>, b: u8, i: int, at: int)
    requires
        0 <= i <= at < bytes.len(),
        bytes[at] == b,
        forall|k: int| i <= k < at ==> #[trigger] bytes[k] != b,
    ensures
        first_byte(bytes, b, i) == Some(at),
    decreases at - i,
{
    if i < at {
        first_found(bytes, b, i + 1, at);
    }
}

proof fn ink_end_at(bytes: Seq<u8>, from: int, to: int)
    requires
        0 <= from <= to <= bytes.len(),
        forall|k: int| from <= k < to ==> is_blank_byte(#[trigger] bytes[k]),
        from > 0 ==> !is_blank_byte(bytes[from - 1]),
    ensures
        ink_end(bytes, to) == from,
    decreases to,
{
    if from < to {
        assert(is_blank_byte(bytes[to - 1]));
        ink_end_at(bytes, from, to - 1);
    }
}

proof fn name_start_at(bytes: Seq<u8>, from: int, to: int)
    requires
        0 <= from <= to <= bytes.len(),
        forall|k: int| from <= k < to ==> is_word_byte(#[trigger] bytes[k]),
        from > 0 ==> !is_word_byte(bytes[from - 1]),
    ensures
        name_start(bytes, to) == from,
    decreases to,
{
    if from < to {
        assert(is_word_byte(bytes[to - 1]));
        name_start_at(bytes, from, to - 1);
    }
}

proof fn ink_before(bytes: Seq<u8>, end: int)
    requires
        0 <= end <= bytes.len(),
    ensures
        0 <= ink_end(bytes, end) <= end,
    decreases end,
{
    if end > 0 {
        ink_before(bytes, end - 1);
    }
}

/// Without a parenthesis before it, a name is no pointer declarator.
proof fn no_declarator(bytes: Seq<u8>, start: int)
    requires
        0 <= start <= bytes.len(),
        forall|k: int| 0 <= k < start ==> #[trigger] bytes[k] != 0x28,
    ensures
        !pointer_declarator(bytes, start),
{
    ink_before(bytes, start);
    match previous_ink(bytes, start) {
        Some(p) => {
            ink_before(bytes, p);
        },
        None => {},
    }
}

/// The list of a label is what stands between the first parenthesis, behind a
/// name that touches it, and the parenthesis that closes it.
pub proof fn list_is_the_first(bytes: Seq<u8>, start: int, open: int, close: int)
    requires
        0 <= start < open < close < bytes.len(),
        forall|k: int| 0 <= k < open ==> #[trigger] bytes[k] != 0x28,
        is_name(bytes.subrange(start, open)),
        start > 0 ==> !is_word_byte(bytes[start - 1]),
        bytes[open] == 0x28,
        bytes[close] == 0x29,
        parens_balance(bytes, open + 1, close),
    ensures
        list_bounds(bytes) == Some((open, close)),
{
    let name = bytes.subrange(start, open);
    first_found(bytes, 0x28, 0, open);
    assert forall|k: int| start <= k < open implies is_word_byte(#[trigger] bytes[k]) by {
        assert(is_word_byte(name[k - start]));
    }
    assert(bytes[start] == name[0]);
    ink_end_at(bytes, open, open);
    name_start_at(bytes, start, open);
    no_declarator(bytes, start);
    close_found(bytes, open + 1, open + 1, close);
}

/// Without a parenthesis, or where no name touches the first one, a label has
/// no list.
pub proof fn no_name_no_list(bytes: Seq<u8>, open: int)
    requires
        0 <= open <= bytes.len(),
        forall|k: int| 0 <= k < open ==> #[trigger] bytes[k] != 0x28,
        open < bytes.len() ==> bytes[open] == 0x28 && (open == 0 || !is_word_byte(
            bytes[open - 1],
        )),
    ensures
        list_bounds(bytes) is None,
{
    if open < bytes.len() {
        first_found(bytes, 0x28, 0, open);
    } else {
        none_found(bytes, 0x28, 0);
    }
}

proof fn none_found(bytes: Seq<u8>, b: u8, i: int)
    requires
        0 <= i,
        forall|k: int| 0 <= k < bytes.len() ==> #[trigger] bytes[k] != b,
    ensures
        first_byte(bytes, b, i) is None,
    decreases bytes.len() - i,
{
    if i < bytes.len() {
        none_found(bytes, b, i + 1);
    }
}

proof fn occurrence_at(hay: Seq<u8>, needle: Seq<u8>, from: int, at: int)
    requires
        0 <= from <= at,
        at + needle.len() <= hay.len(),
        hay.subrange(at, at + needle.len()) == needle,
        forall|k: int|
            from <= k < at ==> #[trigger] hay.subrange(k, k + needle.len()) != needle,
    ensures
        first_occurrence(hay, needle, from) == Some(at),
    decreases at - from,
{
    if from < at {
        assert(hay.subrange(from, from + needle.len()) != needle);
        occurrence_at(hay, needle, from + 1, at);
    }
}

proof fn spaces_over(bytes: Seq<u8>, from: int, to: int)
    requires
        0 <= from <= to < bytes.len(),
        forall|k: int| from <= k < to ==> is_blank_byte(#[trigger] bytes[k]),
        !is_blank_byte(bytes[to]),
    ensures
        spaces_end(bytes, from) == to,
    decreases to - from,
{
    if from < to {
        spaces_over(bytes, from + 1, to);
    }
}

/// The list of a name is what stands behind its first occurrence, white space
/// aside, where that is a whole word and no parenthesis stands before it.
pub proof fn list_is_behind_the_name(
    bytes: Seq<u8>,
    name: Seq<u8>,
    at: int,
    open: int,
    close: int,
)
    requires
        name.len() > 0,
        0 <= at,
        at + name.len() <= open < close < bytes.len(),
        bytes.subrange(at, at + name.len()) == name,
        forall|k: int| 0 <= k < at ==> #[trigger] bytes.subrange(k, k + name.len()) != name,
        forall|k: int| 0 <= k < at ==> #[trigger] bytes[k] != 0x28,
        at > 0 ==> !is_word_byte(bytes[at - 1]),
        !is_word_byte(bytes[at + name.len()]),
        forall|k: int| at + name.len() <= k < open ==> is_blank_byte(#[trigger] bytes[k]),
        bytes[open] == 0x28,
        bytes[close] == 0x29,
        parens_balance(bytes, open + 1, close),
    ensures
        list_bounds_for(bytes, name, 0) == Some((open, close)),
{
    occurrence_at(bytes, name, 0, at);
    spaces_over(bytes, at + name.len(), open);
    no_declarator(bytes, at);
    close_found(bytes, open + 1, open + 1, close);
}

// ---------------------------------------------------------------------------
// Labels

proof fn trims_to(s: Seq<char>, gap: Seq<char>)
    requires
        forall|k: int| 0 <= k < gap.len() ==> char_is_space(#[trigger] gap[k]),
        s.len() == 0 || !char_is_space(s.last()),
    ensures
        trim_end(s + gap) == s,
    decreases gap.len(),
{
    let t = s + gap;
    run_back(t, s.len() as int, t.len() as int);
    assert(t.subrange(0, s.len() as int) =~= s);
}

proof fn run_back(t: Seq<char>, from: int, to: int)
    requires
        0 <= from <= to <= t.len(),
        forall|k: int| from <= k < to ==> char_is_space(#[trigger] t[k]),
        from > 0 ==> !char_is_space(t[from - 1]),
    ensures
        space_run_start(t, to) == from,
    decreases to,
{
    if from < to {
        assert(char_is_space(t[to - 1]));
        run_back(t, from, to - 1);
    }
}

/// A signature is its own label; where a brace opens a body at its end, the
/// label is what stands before the brace, white space aside.
pub proof fn label_is_before_the_body(s: Seq<char>, gap: Seq<char>, tail: Seq<char>)
    requires
        s.len() > 0,
        !char_is_space(s.last()),
        s.last() != '{',
        forall|k: int| 0 <= k < gap.len() ==> char_is_space(#[trigger] gap[k]),
        forall|k: int| 0 <= k < tail.len() ==> char_is_space(#[trigger] tail[k]),
    ensures
        label_of(s + tail) == s + tail,
        label_of(s + gap + seq!['{'] + tail) == s,
{
    trims_to(s, tail);
    let body = s + gap + seq!['{'];
    assert(body + tail =~= s + gap + seq!['{'] + tail);
    assert(body.last() == '{');
    trims_to(body, tail);
    assert(body.drop_last() =~= s + gap);
    trims_to(s, gap);
}

} // verus!
