//! What holds of every call context and of every parameter list.

use vstd::prelude::*;

use crate::chars::{byte_in_ident, byte_is_space, char_in_ident, char_starts_ident};
use crate::signatures::{
    after_code_byte, angles_close, call_at, called_before, identifier_before, ink_end,
    innermost_call, literal_step, marked, name_start, open_frames, owners_start,
    parameters_between, previous_ink, previous_ink_is, scope_operator_before, span_end, span_start,
    spans_from, target_before, target_within, template_opens, with_span, without_spaces,
    DelimFrame, LexState, ParameterSpan,
};
use crate::text::{ident_run_end, ident_run_start, prefix_before, word_touching};

verus! {

// ---------------------------------------------------------------------------
// Words

/// A run of identifier characters reaches back as far as there are any.
pub proof fn run_start_facts(s: Seq<char>, i: int)
    requires
        0 <= i <= s.len(),
    ensures
        0 <= ident_run_start(s, i) <= i,
        forall|k: int| ident_run_start(s, i) <= k < i ==> char_in_ident(s[k]),
        ident_run_start(s, i) > 0 ==> !char_in_ident(s[ident_run_start(s, i) - 1]),
    decreases i,
{
    if 0 < i && char_in_ident(s[i - 1]) {
        run_start_facts(s, i - 1);
    }
}

/// A run of identifier characters reaches on as far as there are any.
pub proof fn run_end_facts(s: Seq<char>, i: int)
    requires
        0 <= i <= s.len(),
    ensures
        i <= ident_run_end(s, i) <= s.len(),
        forall|k: int| i <= k < ident_run_end(s, i) ==> char_in_ident(s[k]),
        ident_run_end(s, i) < s.len() ==> !char_in_ident(s[ident_run_end(s, i)]),
    decreases s.len() - i,
{
    if i < s.len() && char_in_ident(s[i]) {
        run_end_facts(s, i + 1);
    }
}

/// `[start, end)` is a whole identifier of the line that touches `target`.
pub open spec fn is_word_at(s: Seq<char>, target: int, start: int, end: int) -> bool {
    &&& 0 <= start <= target <= end <= s.len()
    &&& start < end
    &&& char_starts_ident(s[start])
    &&& forall|k: int| start <= k < end ==> char_in_ident(s[k])
    &&& start > 0 ==> !char_in_ident(s[start - 1])
    &&& end < s.len() ==> !char_in_ident(s[end])
}

/// The word at a cursor is a whole identifier that touches it.
pub proof fn word_is_whole_identifier(s: Seq<char>, target: int)
    requires
        0 <= target <= s.len(),
        word_touching(s, target) is Some,
    ensures
        exists|start: int, end: int| #[trigger]
            is_word_at(s, target, start, end) && word_touching(s, target) == Some(
                s.subrange(start, end),
            ),
{
    let at = if target < s.len() && char_in_ident(s[target]) {
        target
    } else {
        target - 1
    };
    run_start_facts(s, at);
    run_end_facts(s, at + 1);
    let (start, end) = (ident_run_start(s, at), ident_run_end(s, at + 1));
    assert(is_word_at(s, target, start, end)) by {
        assert forall|k: int| start <= k < end implies char_in_ident(s[k]) by {
            if k == at {
                assert(char_in_ident(s[at]));
            }
        }
    }
}

proof fn run_start_agrees(a: Seq<char>, b: Seq<char>, i: int)
    requires
        0 <= i <= a.len(),
        i <= b.len(),
        forall|k: int| 0 <= k < i ==> a[k] == b[k],
    ensures
        ident_run_start(a, i) == ident_run_start(b, i),
    decreases i,
{
    if i > 0 && char_in_ident(a[i - 1]) {
        run_start_agrees(a, b, i - 1);
    }
}

/// What a completion searches for depends on the text before the cursor
/// alone.
pub proof fn prefix_ignores_what_follows(a: Seq<char>, b: Seq<char>, target: int)
    requires
        0 <= target <= a.len(),
        target <= b.len(),
        a.subrange(0, target) == b.subrange(0, target),
    ensures
        prefix_before(a, target) == prefix_before(b, target),
{
    assert forall|k: int| 0 <= k < target implies a[k] == b[k] by {
        assert(a.subrange(0, target)[k] == a[k]);
        assert(b.subrange(0, target)[k] == b[k]);
    }
    run_start_agrees(a, b, target);
    run_start_facts(a, target);
    let start = ident_run_start(a, target);
    assert(a.subrange(start, target) =~= b.subrange(start, target));
}

// ---------------------------------------------------------------------------
// Call contexts

/// Two texts are the same in their first `n` bytes.
pub open spec fn agree(a: Seq<u8>, b: Seq<u8>, n: int) -> bool {
    &&& 0 <= n <= a.len()
    &&& n <= b.len()
    &&& forall|k: int| 0 <= k < n ==> a[k] == b[k]
}

proof fn ink_end_agrees(a: Seq<u8>, b: Seq<u8>, n: int, end: int)
    requires
        agree(a, b, n),
        0 <= end <= n,
    ensures
        ink_end(a, end) == ink_end(b, end),
        0 <= ink_end(a, end) <= end,
    decreases end,
{
    if end > 0 && byte_is_space(a[end - 1]) {
        ink_end_agrees(a, b, n, end - 1);
    }
}

proof fn name_start_agrees(a: Seq<u8>, b: Seq<u8>, n: int, end: int)
    requires
        agree(a, b, n),
        0 <= end <= n,
    ensures
        name_start(a, end) == name_start(b, end),
        0 <= name_start(a, end) <= end,
    decreases end,
{
    if end > 0 && byte_in_ident(a[end - 1]) {
        name_start_agrees(a, b, n, end - 1);
    }
}

proof fn previous_agrees(a: Seq<u8>, b: Seq<u8>, n: int, before: int)
    requires
        agree(a, b, n),
        0 <= before <= n,
    ensures
        previous_ink(a, before) == previous_ink(b, before),
        previous_ink(a, before) is Some ==> 0 <= previous_ink(a, before)->0 < before,
        forall|byte: u8| previous_ink_is(a, before, byte) == previous_ink_is(b, before, byte),
{
    ink_end_agrees(a, b, n, before);
}

proof fn identifier_agrees(a: Seq<u8>, b: Seq<u8>, n: int, end: int)
    requires
        agree(a, b, n),
        0 <= end <= n,
    ensures
        identifier_before(a, end) == identifier_before(b, end),
        identifier_before(a, end) is Some ==> 0 <= identifier_before(a, end)->0 < ink_end(a, end),
        0 <= ink_end(a, end) <= end,
        ink_end(a, end) == ink_end(b, end),
{
    ink_end_agrees(a, b, n, end);
    name_start_agrees(a, b, n, ink_end(a, end));
}

proof fn owners_agree(a: Seq<u8>, b: Seq<u8>, n: int, cursor: int)
    requires
        agree(a, b, n),
        0 <= cursor <= n,
    ensures
        owners_start(a, cursor) == owners_start(b, cursor),
        0 <= owners_start(a, cursor) <= cursor,
    decreases cursor,
{
    previous_agrees(a, b, n, cursor);
    match previous_ink(a, cursor) {
        Some(second) => {
            previous_agrees(a, b, n, second);
            match scope_operator_before(a, cursor) {
                Some(colon) => {
                    identifier_agrees(a, b, n, colon);
                    match identifier_before(a, colon) {
                        Some(owner) => {
                            owners_agree(a, b, n, owner);
                        },
                        None => {},
                    }
                },
                None => {},
            }
        },
        None => {},
    }
}

proof fn called_agrees(a: Seq<u8>, b: Seq<u8>, n: int, open: int)
    requires
        agree(a, b, n),
        0 <= open <= n <= usize::MAX,
    ensures
        called_before(a, open) == called_before(b, open),
        called_before(a, open) is Some ==> target_within(called_before(a, open)->0, open),
{
    identifier_agrees(a, b, n, open);
    match identifier_before(a, open) {
        Some(start) => {
            previous_agrees(a, b, n, start);
            owners_agree(a, b, n, start);
            match previous_ink(a, start) {
                Some(p) => {
                    previous_agrees(a, b, n, p);
                },
                None => {},
            }
            assert(target_before(a, open) == target_before(b, open));
            let t = target_before(a, open)->0;
            assert(a.subrange(t.name_start as int, t.end as int) =~= b.subrange(
                t.name_start as int,
                t.end as int,
            ));
        },
        None => {},
    }
}

proof fn angles_agree(a: Seq<u8>, b: Seq<u8>, open: int, i: int, limit: int, depth: nat)
    requires
        agree(a, b, limit),
        0 <= i,
    ensures
        angles_close(a, open, i, limit, depth) == angles_close(b, open, i, limit, depth),
    decreases limit - i,
{
    if i < limit {
        if a[i] == 0x3C {
            angles_agree(a, b, open, i + 1, limit, depth + 1);
        } else if a[i] == 0x3E {
            if depth > 1 {
                angles_agree(a, b, open, i + 1, limit, (depth - 1) as nat);
            }
        } else {
            angles_agree(a, b, open, i + 1, limit, depth);
        }
    }
}

proof fn template_agrees(a: Seq<u8>, b: Seq<u8>, open: int, limit: int)
    requires
        agree(a, b, limit),
        0 <= open < limit,
    ensures
        template_opens(a, open, limit) == template_opens(b, open, limit),
{
    identifier_agrees(a, b, limit, open);
    angles_agree(a, b, open, open + 1, limit, 1);
}

/// The targets of all frames lie before `n`.
spec fn targets_within(stack: Seq<DelimFrame>, n: int) -> bool {
    forall|k: int| 0 <= k < stack.len() ==> frame_within(#[trigger] stack[k], n)
}

spec fn frame_within(frame: DelimFrame, n: int) -> bool {
    match frame {
        DelimFrame::Paren { target: Some(t), .. } => target_within(t, n),
        _ => true,
    }
}

proof fn innermost_facts(stack: Seq<DelimFrame>, n: int)
    requires
        0 <= n <= stack.len(),
    ensures
        innermost_call(stack, n) is Some ==> 0 <= innermost_call(stack, n)->0 < n,
    decreases n,
{
    if n > 0 && !stack[n - 1].is_call() {
        innermost_facts(stack, n - 1);
    }
}

proof fn code_byte_agrees(a: Seq<u8>, b: Seq<u8>, limit: int, i: int, stack: Seq<DelimFrame>)
    requires
        agree(a, b, limit),
        limit <= usize::MAX,
        0 <= i < limit,
        targets_within(stack, limit),
    ensures
        after_code_byte(a, limit, i, stack) == after_code_byte(b, limit, i, stack),
        targets_within(after_code_byte(a, limit, i, stack), limit),
        targets_within(marked(stack), limit),
{
    called_agrees(a, b, limit, i);
    template_agrees(a, b, i, limit);
    innermost_facts(stack, stack.len() as int);
    let m = marked(stack);
    assert forall|k: int| 0 <= k < m.len() implies frame_within(#[trigger] m[k], limit) by {
        assert(frame_within(stack[k], limit));
    }
    let r = after_code_byte(a, limit, i, stack);
    assert forall|k: int| 0 <= k < r.len() implies frame_within(#[trigger] r[k], limit) by {
        if k < m.len() {
            assert(frame_within(m[k], limit));
        }
        if k < stack.len() {
            assert(frame_within(stack[k], limit));
        }
    }
}

proof fn frames_agree(
    a: Seq<u8>,
    b: Seq<u8>,
    limit: int,
    i: int,
    lex: LexState,
    stack: Seq<DelimFrame>,
)
    requires
        agree(a, b, limit),
        limit <= usize::MAX,
        0 <= i,
        targets_within(stack, limit),
    ensures
        open_frames(a, limit, i, lex, stack) == open_frames(b, limit, i, lex, stack),
        targets_within(open_frames(a, limit, i, lex, stack), limit),
    decreases limit + 1 - i,
{
    if i < limit {
        let byte = a[i];
        let next = if i + 1 < limit {
            a[i + 1]
        } else {
            0
        };
        match lex {
            LexState::Code => {
                code_byte_agrees(a, b, limit, i, stack);
                if byte == 0x2F && next == 0x2F {
                    frames_agree(a, b, limit, i + 2, LexState::LineComment, stack);
                } else if byte == 0x2F && next == 0x2A {
                    frames_agree(a, b, limit, i + 2, LexState::BlockComment, stack);
                } else if byte == 0x22 {
                    frames_agree(
                        a,
                        b,
                        limit,
                        i + 1,
                        LexState::Str { escaped: false },
                        marked(stack),
                    );
                } else if byte == 0x27 {
                    frames_agree(
                        a,
                        b,
                        limit,
                        i + 1,
                        LexState::Char { escaped: false },
                        marked(stack),
                    );
                } else {
                    frames_agree(
                        a,
                        b,
                        limit,
                        i + 1,
                        LexState::Code,
                        after_code_byte(a, limit, i, stack),
                    );
                }
            },
            LexState::Str { escaped } => {
                match literal_step(escaped, byte, 0x22) {
                    Some(e) => {
                        frames_agree(a, b, limit, i + 1, LexState::Str { escaped: e }, stack);
                    },
                    None => {
                        frames_agree(a, b, limit, i + 1, LexState::Code, stack);
                    },
                }
            },
            LexState::Char { escaped } => {
                match literal_step(escaped, byte, 0x27) {
                    Some(e) => {
                        frames_agree(a, b, limit, i + 1, LexState::Char { escaped: e }, stack);
                    },
                    None => {
                        frames_agree(a, b, limit, i + 1, LexState::Code, stack);
                    },
                }
            },
            LexState::LineComment => {
                frames_agree(a, b, limit, i + 1, LexState::Code, stack);
                frames_agree(a, b, limit, i + 1, LexState::LineComment, stack);
            },
            LexState::BlockComment => {
                frames_agree(a, b, limit, i + 2, LexState::Code, stack);
                frames_agree(a, b, limit, i + 1, LexState::BlockComment, stack);
            },
        }
    }
}

proof fn spaceless_agrees(a: Seq<u8>, b: Seq<u8>, n: int, from: int, to: int)
    requires
        agree(a, b, n),
        0 <= from,
        to <= n,
    ensures
        without_spaces(a, from, to) == without_spaces(b, from, to),
    decreases to - from,
{
    if from < to {
        spaceless_agrees(a, b, n, from, to - 1);
    }
}

/// The call at a cursor depends on the text before it alone.
pub proof fn call_ignores_what_follows(a: Seq<u8>, b: Seq<u8>, limit: int)
    requires
        agree(a, b, limit),
        limit <= usize::MAX,
    ensures
        call_at(a, limit) == call_at(b, limit),
{
    frames_agree(a, b, limit, 0, LexState::Code, Seq::empty());
    let stack = open_frames(a, limit, 0, LexState::Code, Seq::empty());
    innermost_facts(stack, stack.len() as int);
    match innermost_call(stack, stack.len() as int) {
        Some(k) => {
            assert(frame_within(stack[k], limit));
            match stack[k] {
                DelimFrame::Paren { target: Some(t), .. } => {
                    assert(a.subrange(t.name_start as int, t.end as int) =~= b.subrange(
                        t.name_start as int,
                        t.end as int,
                    ));
                    match t.qualified_start {
                        Some(q) => {
                            spaceless_agrees(a, b, limit, q as int, t.end as int);
                        },
                        None => {},
                    }
                },
                _ => {},
            }
        },
        None => {},
    }
}

// ---------------------------------------------------------------------------
// Parameters

/// `[start, end)` lies in `[from, to)` and has no white space at its ends.
pub open spec fn neat_span(bytes: Seq<u8>, span: ParameterSpan, from: int, to: int) -> bool {
    &&& from <= span.start < span.end <= to
    &&& !byte_is_space(bytes[span.start as int])
    &&& !byte_is_space(bytes[span.end - 1])
}

/// Neat spans in order, with something between any two of them.
pub open spec fn neat_spans(
    bytes: Seq<u8>,
    spans: Seq<ParameterSpan>,
    from: int,
    to: int,
) -> bool {
    &&& forall|i: int| 0 <= i < spans.len() ==> neat_span(bytes, #[trigger] spans[i], from, to)
    &&& forall|i: int, j: int|
        0 <= i < j < spans.len() ==> (#[trigger] spans[i]).end < (#[trigger] spans[j]).start
}

proof fn span_start_facts(bytes: Seq<u8>, s: int, e: int)
    requires
        0 <= s <= e <= bytes.len(),
    ensures
        s <= span_start(bytes, s, e) <= e,
        span_start(bytes, s, e) < e ==> !byte_is_space(bytes[span_start(bytes, s, e)]),
    decreases e - s,
{
    if s < e && byte_is_space(bytes[s]) {
        span_start_facts(bytes, s + 1, e);
    }
}

proof fn span_end_facts(bytes: Seq<u8>, s: int, e: int)
    requires
        0 <= s <= e <= bytes.len(),
    ensures
        s <= span_end(bytes, s, e) <= e,
        s < span_end(bytes, s, e) ==> !byte_is_space(bytes[span_end(bytes, s, e) - 1]),
    decreases e - s,
{
    if s < e && byte_is_space(bytes[e - 1]) {
        span_end_facts(bytes, s, e - 1);
    }
}

proof fn with_span_facts(bytes: Seq<u8>, s: int, e: int, spans: Seq<ParameterSpan>, from: int)
    requires
        0 <= from <= s <= e <= bytes.len() <= u32::MAX,
        neat_spans(bytes, spans, from, s),
        forall|i: int| 0 <= i < spans.len() ==> (#[trigger] spans[i]).end < s,
    ensures
        neat_spans(bytes, with_span(bytes, s, e, spans), from, e),
{
    span_start_facts(bytes, s, e);
    let start = span_start(bytes, s, e);
    span_end_facts(bytes, start, e);
    let r = with_span(bytes, s, e, spans);
    assert forall|i: int| 0 <= i < r.len() implies neat_span(bytes, #[trigger] r[i], from, e) by {
        if i < spans.len() {
            assert(neat_span(bytes, spans[i], from, s));
        }
    }
    assert forall|i: int, j: int| 0 <= i < j < r.len() implies (#[trigger] r[i]).end < (
    #[trigger] r[j]).start by {
        assert(r[i] == spans[i]);
        if j < spans.len() {
            assert(r[j] == spans[j]);
        }
    }
}

proof fn spans_facts(
    bytes: Seq<u8>,
    i: int,
    end: int,
    part: int,
    paren: nat,
    bracket: nat,
    brace: nat,
    spans: Seq<ParameterSpan>,
    from: int,
)
    requires
        0 <= from <= part <= i <= end <= bytes.len() <= u32::MAX,
        neat_spans(bytes, spans, from, part),
        forall|k: int| 0 <= k < spans.len() ==> (#[trigger] spans[k]).end < part,
    ensures
        spans_from(bytes, i, end, part, paren, bracket, brace, spans) is Some ==> neat_spans(
            bytes,
            spans_from(bytes, i, end, part, paren, bracket, brace, spans)->0,
            from,
            end,
        ),
    decreases end - i,
{
    if i >= end {
        with_span_facts(bytes, part, end, spans, from);
    } else if bytes[i] == 0x28 {
        spans_facts(bytes, i + 1, end, part, paren + 1, bracket, brace, spans, from);
    } else if bytes[i] == 0x29 {
        if paren > 0 {
            spans_facts(bytes, i + 1, end, part, (paren - 1) as nat, bracket, brace, spans, from);
        }
    } else if bytes[i] == 0x5B {
        spans_facts(bytes, i + 1, end, part, paren, bracket + 1, brace, spans, from);
    } else if bytes[i] == 0x5D {
        if bracket > 0 {
            spans_facts(bytes, i + 1, end, part, paren, (bracket - 1) as nat, brace, spans, from);
        }
    } else if bytes[i] == 0x7B {
        spans_facts(bytes, i + 1, end, part, paren, bracket, brace + 1, spans, from);
    } else if bytes[i] == 0x7D {
        if brace > 0 {
            spans_facts(bytes, i + 1, end, part, paren, bracket, (brace - 1) as nat, spans, from);
        }
    } else if bytes[i] == 0x2C && paren == 0 && bracket == 0 && brace == 0 {
        with_span_facts(bytes, part, i, spans, from);
        let next = with_span(bytes, part, i, spans);
        assert forall|k: int| 0 <= k < next.len() implies (#[trigger] next[k]).end < i + 1 by {
            assert(neat_span(bytes, next[k], from, i));
        }
        assert(neat_spans(bytes, next, from, i + 1)) by {
            assert forall|k: int| 0 <= k < next.len() implies neat_span(
                bytes,
                #[trigger] next[k],
                from,
                i + 1,
            ) by {
                assert(neat_span(bytes, next[k], from, i));
            }
        }
        spans_facts(bytes, i + 1, end, i + 1, paren, bracket, brace, next, from);
    } else {
        spans_facts(bytes, i + 1, end, part, paren, bracket, brace, spans, from);
    }
}

/// The parameters of a list stand in it in order, apart from one another and
/// without white space at their ends.
pub proof fn parameters_are_neat(bytes: Seq<u8>, open: int, close: int)
    requires
        0 <= open < close <= bytes.len() <= u32::MAX,
    ensures
        neat_spans(bytes, parameters_between(bytes, Some((open, close))), open + 1, close),
{
    spans_facts(bytes, open + 1, close, open + 1, 0, 0, 0, Seq::empty(), open + 1);
}

} // verus!
