//! What the call at a cursor is, told by how the text before it is written.

use vstd::prelude::*;
use vstd::utf8::encode_utf8;

use crate::call_model::CallForm;
use crate::chars::byte_is_space;
use crate::signatures::{
    after_code_byte, call_at, call_of, called_before, identifier_before, ink_end, innermost_call,
    inside_angle, marked, name_start, open_frames, owners_start, sat_u32, target_before,
    without_spaces, DelimFrame, FrameKind, LexState,
};

verus! {

// ---------------------------------------------------------------------------
// Code as it is written

/// White space.
pub open spec fn is_blank_byte(b: u8) -> bool {
    b == 0x20 || b == 0x09 || b == 0x0A || b == 0x0C || b == 0x0D
}

/// A letter, a digit or an underscore.
pub open spec fn is_word_byte(b: u8) -> bool {
    0x61 <= b <= 0x7A || 0x41 <= b <= 0x5A || 0x30 <= b <= 0x39 || b == 0x5F
}

/// A name: word bytes, the first of them no digit.
pub open spec fn is_name(s: Seq<u8>) -> bool {
    &&& s.len() > 0
    &&& !(0x30 <= s[0] <= 0x39)
    &&& forall|i: int| 0 <= i < s.len() ==> is_word_byte(#[trigger] s[i])
}

/// A piece of code: a byte outside literals and comments, a literal or a
/// comment.
pub enum Piece {
    Byte(u8),
    Str(Seq<u8>),
    Chr(Seq<u8>),
    Line(Seq<u8>),
    Block(Seq<u8>),
}

/// The contents of a literal: no quote but behind a backslash, and no backslash
/// at the end.
pub open spec fn is_quotable(s: Seq<u8>, quote: u8) -> bool
    decreases s.len(),
{
    if s.len() == 0 {
        true
    } else if s[0] == 0x5C {
        s.len() >= 2 && is_quotable(s.subrange(2, s.len() as int), quote)
    } else {
        s[0] != quote && is_quotable(s.subrange(1, s.len() as int), quote)
    }
}

impl Piece {
    pub open spec fn text(self) -> Seq<u8> {
        match self {
            Piece::Byte(b) => seq![b],
            Piece::Str(s) => seq![0x22u8] + s + seq![0x22u8],
            Piece::Chr(s) => seq![0x27u8] + s + seq![0x27u8],
            Piece::Line(s) => seq![0x2Fu8, 0x2Fu8] + s + seq![0x0Au8],
            Piece::Block(s) => seq![0x2Fu8, 0x2Au8] + s + seq![0x2Au8, 0x2Fu8],
        }
    }

    /// The piece is written as it should be. A byte that may open a literal, a
    /// comment or a template argument list is none on its own.
    pub open spec fn is_proper(self) -> bool {
        match self {
            Piece::Byte(b) => b != 0x22 && b != 0x27 && b != 0x2F && b != 0x3C,
            Piece::Str(s) => is_quotable(s, 0x22),
            Piece::Chr(s) => is_quotable(s, 0x27),
            Piece::Line(s) => forall|i: int| 0 <= i < s.len() ==> #[trigger] s[i] != 0x0A,
            Piece::Block(s) => forall|i: int|
                0 <= i < s.len() - 1 ==> !(#[trigger] s[i] == 0x2A && s[i + 1] == 0x2F),
        }
    }

    /// The piece begins an argument: it is no white space and no comment. A
    /// `>` on its own begins none.
    pub open spec fn is_ink(self) -> bool {
        match self {
            Piece::Byte(b) => !is_blank_byte(b) && b != 0x3E,
            Piece::Str(_) | Piece::Chr(_) => true,
            Piece::Line(_) | Piece::Block(_) => false,
        }
    }
}

/// The text of the first `n` pieces.
pub open spec fn text_below(pieces: Seq<Piece>, n: int) -> Seq<u8>
    decreases n,
{
    if n <= 0 {
        Seq::empty()
    } else {
        text_below(pieces, n - 1) + pieces[n - 1].text()
    }
}

pub open spec fn text_of(pieces: Seq<Piece>) -> Seq<u8> {
    text_below(pieces, pieces.len() as int)
}

pub open spec fn are_proper(pieces: Seq<Piece>) -> bool {
    forall|i: int| 0 <= i < pieces.len() ==> (#[trigger] pieces[i]).is_proper()
}

/// The brackets open behind the first `n` pieces, outermost first; nothing
/// where a closing bracket fits none.
pub open spec fn brackets_below(pieces: Seq<Piece>, n: int) -> Option<Seq<u8>>
    decreases n,
{
    if n <= 0 {
        Some(Seq::empty())
    } else {
        match (brackets_below(pieces, n - 1), pieces[n - 1]) {
            (Some(open), Piece::Byte(b)) => if b == 0x28 || b == 0x5B || b == 0x7B {
                Some(open.push(b))
            } else if b == 0x29 || b == 0x5D || b == 0x7D {
                if open.len() > 0 && closes(open.last(), b) {
                    Some(open.drop_last())
                } else {
                    None
                }
            } else {
                Some(open)
            },
            (open, _) => open,
        }
    }
}

pub open spec fn closes(open: u8, close: u8) -> bool {
    (open == 0x28 && close == 0x29) || (open == 0x5B && close == 0x5D) || (open == 0x7B && close
        == 0x7D)
}

/// Piece `i` is a comma outside all brackets, literals and comments.
pub open spec fn is_top_comma(pieces: Seq<Piece>, i: int) -> bool {
    pieces[i] == Piece::Byte(0x2C) && brackets_below(pieces, i) == Some(Seq::<u8>::empty())
}

/// Number of such commas among the first `n` pieces.
pub open spec fn top_commas(pieces: Seq<Piece>, n: int) -> nat
    decreases n,
{
    if n <= 0 {
        0
    } else {
        top_commas(pieces, n - 1) + if is_top_comma(pieces, n - 1) {
            1nat
        } else {
            0nat
        }
    }
}

/// Whether something is written behind the last such comma.
pub open spec fn is_begun(pieces: Seq<Piece>, n: int) -> bool
    decreases n,
{
    n > 0 && !is_top_comma(pieces, n - 1) && (pieces[n - 1].is_ink() || is_begun(pieces, n - 1))
}

/// A word that opens a parenthesis without being called.
pub open spec fn is_keyword(s: Seq<u8>) -> bool {
    s == encode_utf8("if"@) || s == encode_utf8("for"@) || s == encode_utf8("while"@) || s
        == encode_utf8("switch"@) || s == encode_utf8("return"@) || s == encode_utf8("sizeof"@)
        || s == encode_utf8("defined"@)
}

// ---------------------------------------------------------------------------
// Reading pieces

spec fn after_piece(
    bytes: Seq<u8>,
    limit: int,
    i: int,
    p: Piece,
    stack: Seq<DelimFrame>,
) -> Seq<DelimFrame> {
    match p {
        Piece::Byte(_) => after_code_byte(bytes, limit, i, stack),
        Piece::Str(_) | Piece::Chr(_) => marked(stack),
        Piece::Line(_) | Piece::Block(_) => stack,
    }
}

/// The bytes from `i` on are those of `s`.
spec fn reads(bytes: Seq<u8>, i: int, s: Seq<u8>) -> bool {
    0 <= i && i + s.len() <= bytes.len() && forall|k: int|
        0 <= k < s.len() ==> bytes[i + k] == #[trigger] s[k]
}

proof fn literal_read(
    bytes: Seq<u8>,
    limit: int,
    i: int,
    s: Seq<u8>,
    quote: u8,
    stack: Seq<DelimFrame>,
)
    requires
        reads(bytes, i, s),
        i + s.len() < limit <= bytes.len(),
        bytes[i + s.len()] == quote,
        quote == 0x22 || quote == 0x27,
        is_quotable(s, quote),
    ensures
        ({
            let lex = if quote == 0x22 {
                LexState::Str { escaped: false }
            } else {
                LexState::Char { escaped: false }
            };
            open_frames(bytes, limit, i, lex, stack) == open_frames(
                bytes,
                limit,
                i + s.len() + 1,
                LexState::Code,
                stack,
            )
        }),
    decreases s.len(),
{
    reveal_with_fuel(open_frames, 3);
    if s.len() > 0 {
        assert(bytes[i] == s[0]);
        if s[0] == 0x5C {
            let rest = s.subrange(2, s.len() as int);
            assert(bytes[i + 1] == s[1]);
            assert(reads(bytes, i + 2, rest)) by {
                assert forall|k: int| 0 <= k < rest.len() implies bytes[i + 2 + k]
                    == #[trigger] rest[k] by {
                    assert(bytes[i + (k + 2)] == s[k + 2]);
                }
            }
            literal_read(bytes, limit, i + 2, rest, quote, stack);
        } else {
            let rest = s.subrange(1, s.len() as int);
            assert(reads(bytes, i + 1, rest)) by {
                assert forall|k: int| 0 <= k < rest.len() implies bytes[i + 1 + k]
                    == #[trigger] rest[k] by {
                    assert(bytes[i + (k + 1)] == s[k + 1]);
                }
            }
            literal_read(bytes, limit, i + 1, rest, quote, stack);
        }
    }
}

proof fn line_read(bytes: Seq<u8>, limit: int, i: int, s: Seq<u8>, stack: Seq<DelimFrame>)
    requires
        reads(bytes, i, s),
        i + s.len() < limit <= bytes.len(),
        bytes[i + s.len()] == 0x0A,
        forall|k: int| 0 <= k < s.len() ==> #[trigger] s[k] != 0x0A,
    ensures
        open_frames(bytes, limit, i, LexState::LineComment, stack) == open_frames(
            bytes,
            limit,
            i + s.len() + 1,
            LexState::Code,
            stack,
        ),
    decreases s.len(),
{
    if s.len() > 0 {
        assert(bytes[i + 0] == s[0]);
        let rest = s.subrange(1, s.len() as int);
        assert(reads(bytes, i + 1, rest)) by {
            assert forall|k: int| 0 <= k < rest.len() implies bytes[i + 1 + k]
                == #[trigger] rest[k] by {
                assert(bytes[i + (k + 1)] == s[k + 1]);
            }
        }
        line_read(bytes, limit, i + 1, rest, stack);
    }
}

proof fn block_read(bytes: Seq<u8>, limit: int, i: int, s: Seq<u8>, stack: Seq<DelimFrame>)
    requires
        reads(bytes, i, s),
        i + s.len() + 1 < limit <= bytes.len(),
        bytes[i + s.len()] == 0x2A,
        bytes[i + s.len() + 1] == 0x2F,
        forall|k: int| 0 <= k < s.len() - 1 ==> !(#[trigger] s[k] == 0x2A && s[k + 1] == 0x2F),
    ensures
        open_frames(bytes, limit, i, LexState::BlockComment, stack) == open_frames(
            bytes,
            limit,
            i + s.len() + 2,
            LexState::Code,
            stack,
        ),
    decreases s.len(),
{
    if s.len() > 0 {
        assert(bytes[i + 0] == s[0]);
        let rest = s.subrange(1, s.len() as int);
        assert(reads(bytes, i + 1, rest)) by {
            assert forall|k: int| 0 <= k < rest.len() implies bytes[i + 1 + k]
                == #[trigger] rest[k] by {
                assert(bytes[i + (k + 1)] == s[k + 1]);
            }
        }
        if s.len() > 1 {
            assert(bytes[i + 1] == s[1]);
        }
        assert forall|k: int| 0 <= k < rest.len() - 1 implies !(#[trigger] rest[k] == 0x2A
            && rest[k + 1] == 0x2F) by {
            assert(rest[k] == s[k + 1]);
        }
        block_read(bytes, limit, i + 1, rest, stack);
    }
}

proof fn piece_read(bytes: Seq<u8>, limit: int, i: int, p: Piece, stack: Seq<DelimFrame>)
    requires
        reads(bytes, i, p.text()),
        i + p.text().len() <= limit <= bytes.len(),
        p.is_proper(),
    ensures
        open_frames(bytes, limit, i, LexState::Code, stack) == open_frames(
            bytes,
            limit,
            i + p.text().len(),
            LexState::Code,
            after_piece(bytes, limit, i, p, stack),
        ),
{
    let t = p.text();
    assert(bytes[i + 0] == t[0]);
    match p {
        Piece::Byte(b) => {
            assert(t[0] == b);
        },
        Piece::Str(s) => {
            inner_reads(bytes, i, t, s, 1);
            assert(bytes[i + (1 + s.len())] == t[(1 + s.len()) as int]);
            literal_read(bytes, limit, i + 1, s, 0x22, marked(stack));
        },
        Piece::Chr(s) => {
            inner_reads(bytes, i, t, s, 1);
            assert(bytes[i + (1 + s.len())] == t[(1 + s.len()) as int]);
            literal_read(bytes, limit, i + 1, s, 0x27, marked(stack));
        },
        Piece::Line(s) => {
            inner_reads(bytes, i, t, s, 2);
            assert(bytes[i + 1] == t[1]);
            assert(bytes[i + (2 + s.len())] == t[(2 + s.len()) as int]);
            line_read(bytes, limit, i + 2, s, stack);
        },
        Piece::Block(s) => {
            inner_reads(bytes, i, t, s, 2);
            assert(bytes[i + 1] == t[1]);
            assert(bytes[i + (2 + s.len())] == t[(2 + s.len()) as int]);
            assert(bytes[i + (3 + s.len())] == t[(3 + s.len()) as int]);
            block_read(bytes, limit, i + 2, s, stack);
        },
    }
}

proof fn inner_reads(bytes: Seq<u8>, i: int, t: Seq<u8>, s: Seq<u8>, skip: int)
    requires
        reads(bytes, i, t),
        0 <= skip,
        skip + s.len() <= t.len(),
        forall|k: int| 0 <= k < s.len() ==> t[skip + k] == #[trigger] s[k],
    ensures
        reads(bytes, i + skip, s),
{
    assert forall|k: int| 0 <= k < s.len() implies bytes[i + skip + k] == #[trigger] s[k] by {
        assert(bytes[i + (skip + k)] == t[skip + k]);
    }
}

/// The stack behind the first `n` pieces, which are read from `at` on.
spec fn stack_below(
    bytes: Seq<u8>,
    limit: int,
    at: int,
    pieces: Seq<Piece>,
    n: int,
    stack: Seq<DelimFrame>,
) -> Seq<DelimFrame>
    decreases n,
{
    if n <= 0 {
        stack
    } else {
        after_piece(
            bytes,
            limit,
            at + text_below(pieces, n - 1).len(),
            pieces[n - 1],
            stack_below(bytes, limit, at, pieces, n - 1, stack),
        )
    }
}

proof fn pieces_read(
    bytes: Seq<u8>,
    limit: int,
    at: int,
    pieces: Seq<Piece>,
    n: int,
    stack: Seq<DelimFrame>,
)
    requires
        0 <= n <= pieces.len(),
        are_proper(pieces),
        reads(bytes, at, text_below(pieces, n)),
        at + text_below(pieces, n).len() <= limit <= bytes.len(),
    ensures
        open_frames(bytes, limit, at, LexState::Code, stack) == open_frames(
            bytes,
            limit,
            at + text_below(pieces, n).len(),
            LexState::Code,
            stack_below(bytes, limit, at, pieces, n, stack),
        ),
    decreases n,
{
    if n > 0 {
        let before = text_below(pieces, n - 1);
        let t = text_below(pieces, n);
        let p = pieces[n - 1];
        inner_reads(bytes, at, t, before, 0);
        inner_reads(bytes, at, t, p.text(), before.len() as int);
        pieces_read(bytes, limit, at, pieces, n - 1, stack);
        piece_read(
            bytes,
            limit,
            at + before.len(),
            p,
            stack_below(bytes, limit, at, pieces, n - 1, stack),
        );
    }
}

// ---------------------------------------------------------------------------
// What stands open

spec fn no_angle(stack: Seq<DelimFrame>) -> bool {
    forall|k: int| 0 <= k < stack.len() ==> #[trigger] stack[k] != DelimFrame::Angle
}

spec fn no_call(stack: Seq<DelimFrame>) -> bool {
    forall|k: int| 0 <= k < stack.len() ==> !(#[trigger] stack[k]).is_call()
}

proof fn innermost_within(stack: Seq<DelimFrame>, n: int)
    requires
        0 <= n <= stack.len(),
    ensures
        match innermost_call(stack, n) {
            Some(k) => 0 <= k < n && stack[k].is_call() && forall|j: int|
                k < j < n ==> !(#[trigger] stack[j]).is_call(),
            None => forall|j: int| 0 <= j < n ==> !(#[trigger] stack[j]).is_call(),
        },
    decreases n,
{
    if n > 0 && !stack[n - 1].is_call() {
        innermost_within(stack, n - 1);
    }
}

proof fn angle_free_piece(bytes: Seq<u8>, limit: int, i: int, p: Piece, stack: Seq<DelimFrame>)
    requires
        no_angle(stack),
        p.is_proper(),
        reads(bytes, i, p.text()),
    ensures
        no_angle(after_piece(bytes, limit, i, p, stack)),
{
    innermost_within(stack, stack.len() as int);
    match p {
        Piece::Byte(b) => {
            assert(p.text()[0] == b);
            assert(bytes[i + 0] == b);
        },
        _ => {},
    }
}

proof fn angle_free(
    bytes: Seq<u8>,
    limit: int,
    at: int,
    pieces: Seq<Piece>,
    n: int,
    stack: Seq<DelimFrame>,
)
    requires
        0 <= n <= pieces.len(),
        are_proper(pieces),
        no_angle(stack),
        reads(bytes, at, text_below(pieces, n)),
    ensures
        no_angle(stack_below(bytes, limit, at, pieces, n, stack)),
    decreases n,
{
    if n > 0 {
        let before = text_below(pieces, n - 1);
        inner_reads(bytes, at, text_below(pieces, n), before, 0);
        inner_reads(
            bytes,
            at,
            text_below(pieces, n),
            pieces[n - 1].text(),
            before.len() as int,
        );
        angle_free(bytes, limit, at, pieces, n - 1, stack);
        angle_free_piece(
            bytes,
            limit,
            at + before.len(),
            pieces[n - 1],
            stack_below(bytes, limit, at, pieces, n - 1, stack),
        );
    }
}

spec fn kind_of(b: u8) -> FrameKind {
    if b == 0x28 {
        FrameKind::Paren
    } else if b == 0x5B {
        FrameKind::Bracket
    } else {
        FrameKind::Brace
    }
}

/// Behind `n` pieces of the arguments of the call on top of `base`.
spec fn stands(
    base: Seq<DelimFrame>,
    call: DelimFrame,
    pieces: Seq<Piece>,
    n: int,
    stack: Seq<DelimFrame>,
) -> bool {
    let open = brackets_below(pieces, n)->0;
    &&& stack.len() == base.len() + 1 + open.len()
    &&& forall|k: int| 0 <= k < base.len() ==> #[trigger] stack[k] == base[k]
    &&& call is Paren
    &&& stack[base.len() as int] == (DelimFrame::Paren {
        target: call->target,
        active_argument: sat_u32(top_commas(pieces, n) as int),
        current_argument_has_token: is_begun(pieces, n),
        unsupported_template_argument: false,
    })
    &&& forall|k: int|
        0 <= k < open.len() ==> (#[trigger] stack[base.len() + 1 + k]).spec_kind() == kind_of(
            open[k],
        )
    &&& forall|k: int|
        0 <= k < open.len() ==> (#[trigger] open[k] == 0x28 || open[k] == 0x5B || open[k] == 0x7B)
    &&& open.len() > 0 ==> is_begun(pieces, n)
    &&& no_angle(stack)
}

#[verifier::rlimit(60)]
proof fn piece_stands(
    bytes: Seq<u8>,
    limit: int,
    i: int,
    base: Seq<DelimFrame>,
    call: DelimFrame,
    pieces: Seq<Piece>,
    n: int,
    stack: Seq<DelimFrame>,
)
    requires
        0 <= n < pieces.len(),
        brackets_below(pieces, n + 1) is Some,
        stands(base, call, pieces, n, stack),
        call.is_call(),
        pieces[n].is_proper(),
        reads(bytes, i, pieces[n].text()),
    ensures
        stands(
            base,
            call,
            pieces,
            n + 1,
            after_piece(bytes, limit, i, pieces[n], stack),
        ),
{
    let p = pieces[n];
    let at = base.len() as int;
    let open = brackets_below(pieces, n)->0;
    let next = after_piece(bytes, limit, i, p, stack);
    innermost_within(stack, stack.len() as int);
    let k = innermost_call(stack, stack.len() as int)->0;
    assert(stack[at].is_call());
    assert(innermost_call(stack, stack.len() as int) is Some && k >= at);
    angle_free_piece(bytes, limit, i, p, stack);
    assert(!inside_angle(stack));
    match p {
        Piece::Byte(b) => {
            assert(p.text()[0] == b);
            assert(bytes[i + 0] == b);
            assert(byte_is_space(b) == is_blank_byte(b));
            if b == 0x29 || b == 0x5D || b == 0x7D {
                assert(stack.last() == stack[at + 1 + (open.len() - 1)]);
                assert(stack.last().spec_kind() == kind_of(open.last()));
                assert(next == stack.drop_last());
            } else if b == 0x2C {
                if open.len() == 0 {
                    assert(open =~= Seq::<u8>::empty());
                    assert(is_top_comma(pieces, n));
                } else {
                    assert(open.len() != Seq::<u8>::empty().len());
                    assert(!is_top_comma(pieces, n));
                    assert(stack.last() == stack[at + 1 + (open.len() - 1)]);
                }
            } else {
                assert(!is_top_comma(pieces, n));
            }
        },
        _ => {
            assert(!is_top_comma(pieces, n));
        },
    }
}

proof fn pieces_stand(
    bytes: Seq<u8>,
    limit: int,
    at: int,
    base: Seq<DelimFrame>,
    call: DelimFrame,
    pieces: Seq<Piece>,
    n: int,
)
    requires
        0 <= n <= pieces.len(),
        are_proper(pieces),
        brackets_below(pieces, n) is Some,
        no_angle(base),
        call.is_call(),
        call is Paren,
        call == (DelimFrame::Paren {
            target: call->target,
            active_argument: 0,
            current_argument_has_token: false,
            unsupported_template_argument: false,
        }),
        reads(bytes, at, text_below(pieces, n)),
    ensures
        stands(
            base,
            call,
            pieces,
            n,
            stack_below(bytes, limit, at, pieces, n, base.push(call)),
        ),
    decreases n,
{
    if n > 0 {
        let before = text_below(pieces, n - 1);
        let t = text_below(pieces, n);
        inner_reads(bytes, at, t, before, 0);
        inner_reads(bytes, at, t, pieces[n - 1].text(), before.len() as int);
        pieces_stand(bytes, limit, at, base, call, pieces, n - 1);
        piece_stands(
            bytes,
            limit,
            at + before.len(),
            base,
            call,
            pieces,
            n - 1,
            stack_below(bytes, limit, at, pieces, n - 1, base.push(call)),
        );
    }
}

// ---------------------------------------------------------------------------
// Names

/// Bytes as pieces, one each.
pub open spec fn pieces_of(s: Seq<u8>) -> Seq<Piece> {
    Seq::new(s.len(), |i: int| Piece::Byte(s[i]))
}

/// Bytes read as characters.
pub open spec fn letters(s: Seq<u8>) -> Seq<char> {
    Seq::new(s.len(), |i: int| s[i] as char)
}

pub open spec fn are_blank(s: Seq<u8>) -> bool {
    forall|i: int| 0 <= i < s.len() ==> is_blank_byte(#[trigger] s[i])
}

/// Text without the white space at its end.
pub open spec fn without_tail(s: Seq<u8>) -> Seq<u8>
    decreases s.len(),
{
    if s.len() > 0 && is_blank_byte(s.last()) {
        without_tail(s.drop_last())
    } else {
        s
    }
}

/// A text behind which a name begins: it does not end inside a word.
pub open spec fn ends_apart(s: Seq<u8>) -> bool {
    s.len() == 0 || !is_word_byte(s.last())
}

proof fn bytes_text(s: Seq<u8>, n: int)
    requires
        0 <= n <= s.len(),
    ensures
        text_below(pieces_of(s), n) == s.subrange(0, n),
    decreases n,
{
    if n > 0 {
        bytes_text(s, n - 1);
        assert(s.subrange(0, n) =~= s.subrange(0, n - 1) + seq![s[n - 1]]);
    } else {
        assert(s.subrange(0, 0) =~= Seq::<u8>::empty());
    }
}

proof fn bytes_text_of(s: Seq<u8>)
    ensures
        text_of(pieces_of(s)) == s,
{
    bytes_text(s, s.len() as int);
    assert(s.subrange(0, s.len() as int) =~= s);
}

proof fn bytes_proper(s: Seq<u8>)
    requires
        forall|i: int|
            0 <= i < s.len() ==> is_word_byte(#[trigger] s[i]) || is_blank_byte(s[i]) || s[i]
                == 0x28 || s[i] == 0x3A,
    ensures
        are_proper(pieces_of(s)),
{
    let ps = pieces_of(s);
    assert forall|i: int| 0 <= i < ps.len() implies (#[trigger] ps[i]).is_proper() by {
        assert(is_word_byte(s[i]) || is_blank_byte(s[i]) || s[i] == 0x28 || s[i] == 0x3A);
    }
}

proof fn ink_end_over(bytes: Seq<u8>, from: int, to: int)
    requires
        0 <= from <= to <= bytes.len(),
        forall|k: int| from <= k < to ==> is_blank_byte(#[trigger] bytes[k]),
        from > 0 ==> !is_blank_byte(bytes[from - 1]),
    ensures
        ink_end(bytes, to) == from,
    decreases to,
{
    if from < to {
        assert(is_blank_byte(bytes[to - 1]));
        ink_end_over(bytes, from, to - 1);
    }
}

proof fn name_start_over(bytes: Seq<u8>, from: int, to: int)
    requires
        0 <= from <= to <= bytes.len(),
        forall|k: int| from <= k < to ==> is_word_byte(#[trigger] bytes[k]),
        from > 0 ==> !is_word_byte(bytes[from - 1]),
    ensures
        name_start(bytes, to) == from,
    decreases to,
{
    if from < to {
        assert(is_word_byte(bytes[to - 1]));
        name_start_over(bytes, from, to - 1);
    }
}

/// The name in `[start, end)` is what stands before `open`.
proof fn name_found(bytes: Seq<u8>, start: int, end: int, open: int)
    requires
        0 <= start < end <= open <= bytes.len(),
        is_name(bytes.subrange(start, end)),
        start > 0 ==> !is_word_byte(bytes[start - 1]),
        forall|k: int| end <= k < open ==> is_blank_byte(#[trigger] bytes[k]),
    ensures
        ink_end(bytes, open) == end,
        identifier_before(bytes, open) == Some(start),
{
    let name = bytes.subrange(start, end);
    assert forall|k: int| start <= k < end implies is_word_byte(#[trigger] bytes[k]) by {
        assert(is_word_byte(name[k - start]));
    }
    assert(bytes[start] == name[0]);
    ink_end_over(bytes, end, open);
    name_start_over(bytes, start, end);
}

/// A part of the text, by place.
proof fn part_reads(bytes: Seq<u8>, whole: Seq<u8>, at: int, part: Seq<u8>)
    requires
        reads(bytes, 0, whole),
        0 <= at,
        at + part.len() <= whole.len(),
        whole.subrange(at, at + part.len()) == part,
    ensures
        reads(bytes, at, part),
        bytes.subrange(at, at + part.len()) == part,
{
    assert forall|k: int| 0 <= k < part.len() implies bytes[at + k] == #[trigger] part[k] by {
        assert(part[k] == whole.subrange(at, at + part.len())[k]);
        assert(bytes[0 + (at + k)] == whole[at + k]);
    }
    assert(bytes.subrange(at, at + part.len()) =~= part);
}

/// What a call opens with: the text before it, its name, and white space.
pub open spec fn opening(lead: Seq<Piece>, name: Seq<u8>, gap: Seq<u8>) -> Seq<u8> {
    text_of(lead) + name + gap + seq![0x28u8]
}

/// Reading the opening of a call: some frames without templates, and the
/// parenthesis on top of them.
proof fn opening_read(
    bytes: Seq<u8>,
    limit: int,
    lead: Seq<Piece>,
    name: Seq<u8>,
    gap: Seq<u8>,
) -> (base: Seq<DelimFrame>)
    requires
        are_proper(lead),
        is_name(name),
        are_blank(gap),
        ends_apart(text_of(lead)),
        reads(bytes, 0, opening(lead, name, gap)),
        opening(lead, name, gap).len() <= limit <= bytes.len(),
    ensures
        no_angle(base),
        ({
            let open = opening(lead, name, gap).len() - 1;
            open_frames(bytes, limit, 0, LexState::Code, Seq::empty()) == open_frames(
                bytes,
                limit,
                open + 1,
                LexState::Code,
                base.push(
                    DelimFrame::Paren {
                        target: called_before(bytes, open),
                        active_argument: 0,
                        current_argument_has_token: false,
                        unsupported_template_argument: false,
                    },
                ),
            )
        }),
        no_call(stack_below(bytes, limit, 0, lead, lead.len() as int, Seq::empty())) ==> base
            == stack_below(bytes, limit, 0, lead, lead.len() as int, Seq::empty()),
{
    let whole = opening(lead, name, gap);
    let (a, b, c) = (text_of(lead).len() as int, name.len() as int, gap.len() as int);
    let none = Seq::<DelimFrame>::empty();
    assert(whole.subrange(0, a) =~= text_of(lead));
    assert(whole.subrange(a, a + b) =~= name);
    assert(whole.subrange(a + b, a + b + c) =~= gap);
    part_reads(bytes, whole, 0, text_of(lead));
    part_reads(bytes, whole, a, name);
    part_reads(bytes, whole, a + b, gap);
    bytes_text_of(name);
    bytes_text_of(gap);
    bytes_proper(name);
    bytes_proper(gap);
    let s1 = stack_below(bytes, limit, 0, lead, lead.len() as int, none);
    pieces_read(bytes, limit, 0, lead, lead.len() as int, none);
    angle_free(bytes, limit, 0, lead, lead.len() as int, none);
    let s2 = stack_below(bytes, limit, a, pieces_of(name), b, s1);
    pieces_read(bytes, limit, a, pieces_of(name), b, s1);
    angle_free(bytes, limit, a, pieces_of(name), b, s1);
    let s3 = stack_below(bytes, limit, a + b, pieces_of(gap), c, s2);
    pieces_read(bytes, limit, a + b, pieces_of(gap), c, s2);
    angle_free(bytes, limit, a + b, pieces_of(gap), c, s2);
    let paren = Piece::Byte(0x28u8);
    assert(bytes[0 + (a + b + c)] == whole[a + b + c]);
    assert(paren.text() =~= seq![0x28u8]);
    piece_read(bytes, limit, a + b + c, paren, s3);
    let base = marked(s3);
    innermost_within(s3, s3.len() as int);
    assert(no_angle(base));
    if no_call(s1) {
        plain_keeps(bytes, limit, a, pieces_of(name), b, s1);
        plain_keeps(bytes, limit, a + b, pieces_of(gap), c, s1);
    }
    base
}

/// Names and white space change no frame where no call is open.
proof fn plain_keeps(
    bytes: Seq<u8>,
    limit: int,
    at: int,
    pieces: Seq<Piece>,
    n: int,
    stack: Seq<DelimFrame>,
)
    requires
        0 <= n <= pieces.len(),
        forall|i: int|
            0 <= i < pieces.len() ==> (#[trigger] pieces[i]) is Byte && (is_word_byte(
                pieces[i]->Byte_0,
            ) || is_blank_byte(pieces[i]->Byte_0)),
        no_call(stack),
        reads(bytes, at, text_below(pieces, n)),
    ensures
        stack_below(bytes, limit, at, pieces, n, stack) == stack,
    decreases n,
{
    if n > 0 {
        let before = text_below(pieces, n - 1);
        let t = text_below(pieces, n);
        let p = pieces[n - 1];
        inner_reads(bytes, at, t, before, 0);
        inner_reads(bytes, at, t, p.text(), before.len() as int);
        assert(p.text()[0] == p->Byte_0);
        assert(bytes[at + before.len() + 0] == p.text()[0]);
        plain_keeps(bytes, limit, at, pieces, n - 1, stack);
        innermost_within(stack, stack.len() as int);
    }
}

// ---------------------------------------------------------------------------
// Laws

/// The text before the cursor: the opening of a call of a name, and arguments
/// in which every bracket is closed but square ones and braces.
pub open spec fn is_call_text(
    text: Seq<u8>,
    lead: Seq<Piece>,
    name: Seq<u8>,
    gap: Seq<u8>,
    args: Seq<Piece>,
) -> bool {
    &&& text == opening(lead, name, gap) + text_of(args)
    &&& are_proper(lead)
    &&& ends_apart(text_of(lead))
    &&& is_name(name)
    &&& are_blank(gap)
    &&& are_proper(args)
    &&& brackets_below(args, args.len() as int) is Some
    &&& !brackets_below(args, args.len() as int)->0.contains(0x28u8)
}

proof fn call_read(
    bytes: Seq<u8>,
    limit: int,
    lead: Seq<Piece>,
    name: Seq<u8>,
    gap: Seq<u8>,
    args: Seq<Piece>,
)
    requires
        0 <= limit <= bytes.len() <= usize::MAX,
        is_call_text(bytes.subrange(0, limit), lead, name, gap, args),
        !is_keyword(name),
    ensures
        reads(bytes, 0, opening(lead, name, gap)),
        call_at(bytes, limit) == call_of(
            bytes,
            DelimFrame::Paren {
                target: target_before(bytes, opening(lead, name, gap).len() - 1),
                active_argument: sat_u32(top_commas(args, args.len() as int) as int),
                current_argument_has_token: is_begun(args, args.len() as int),
                unsupported_template_argument: false,
            },
        ),
{
    let head = opening(lead, name, gap);
    let whole = head + text_of(args);
    let n = args.len() as int;
    let open = head.len() - 1;
    assert(reads(bytes, 0, whole)) by {
        assert forall|k: int| 0 <= k < whole.len() implies bytes[0 + k] == #[trigger] whole[k] by {
            assert(bytes.subrange(0, limit)[k] == bytes[k]);
        }
    }
    assert(whole.len() == limit);
    assert(whole.subrange(0, open + 1) =~= head);
    assert(whole.subrange(open + 1, limit) =~= text_of(args));
    part_reads(bytes, whole, 0, head);
    part_reads(bytes, whole, open + 1, text_of(args));
    let base = opening_read(bytes, limit, lead, name, gap);
    opened_by(bytes, lead, name, gap);
    let call = DelimFrame::Paren {
        target: called_before(bytes, open),
        active_argument: 0,
        current_argument_has_token: false,
        unsupported_template_argument: false,
    };
    let last = stack_below(bytes, limit, open + 1, args, n, base.push(call));
    pieces_read(bytes, limit, open + 1, args, n, base.push(call));
    pieces_stand(bytes, limit, open + 1, base, call, args, n);
    assert(open_frames(bytes, limit, 0, LexState::Code, Seq::empty()) == last);
    innermost_within(last, last.len() as int);
    let k = innermost_call(last, last.len() as int)->0;
    assert(last[base.len() as int].is_call());
    let brackets = brackets_below(args, n)->0;
    assert(k == base.len()) by {
        if k > base.len() {
            let j = k - base.len() - 1;
            assert(last[base.len() + 1 + j].spec_kind() == kind_of(brackets[j]));
            assert(brackets.contains(brackets[j]));
            assert(brackets[j] == 0x28 || brackets[j] == 0x5B || brackets[j] == 0x7B);
        }
    }
}

/// Signature help finds the call that is written before the cursor, whatever
/// code stands before it and whatever follows: the call has the name that was
/// written, its active argument is the number of commas outside brackets,
/// literals and comments, and as many arguments are there at least, one more
/// where something is written behind the last comma.
pub proof fn call_counts_top_commas(
    bytes: Seq<u8>,
    limit: int,
    lead: Seq<Piece>,
    name: Seq<u8>,
    gap: Seq<u8>,
    args: Seq<Piece>,
)
    requires
        0 <= limit <= bytes.len() <= usize::MAX,
        is_call_text(bytes.subrange(0, limit), lead, name, gap, args),
        !is_keyword(name),
        top_commas(args, args.len() as int) < u32::MAX,
    ensures
        ({
            let n = args.len() as int;
            let r = call_at(bytes, limit);
            &&& r is Some
            &&& r->0.name == letters(name)
            &&& r->0.active_argument == top_commas(args, n)
            &&& r->0.argument_state is Partial
            &&& r->0.argument_state->Partial_active_argument == top_commas(args, n)
            &&& r->0.argument_state->Partial_minimum_arity == top_commas(args, n) + if is_begun(
                args,
                n,
            ) {
                1int
            } else {
                0int
            }
        }),
{
    call_read(bytes, limit, lead, name, gap, args);
    opened_by(bytes, lead, name, gap);
    assert(call_at(bytes, limit)->0.name =~= letters(name));
}

proof fn tail_is_ink(bytes: Seq<u8>, s: Seq<u8>)
    requires
        reads(bytes, 0, s),
    ensures
        ink_end(bytes, s.len() as int) == without_tail(s).len(),
        reads(bytes, 0, without_tail(s)),
    decreases s.len(),
{
    if s.len() > 0 {
        assert(bytes[0 + (s.len() - 1)] == s[s.len() - 1]);
        if is_blank_byte(s.last()) {
            inner_reads(bytes, 0, s, s.drop_last(), 0);
            tail_is_ink(bytes, s.drop_last());
        }
    }
}

/// The form of a call is read off from what stands before its name: a dot, an
/// arrow, or something that neither selects nor qualifies.
pub proof fn call_form_is_written_before(
    bytes: Seq<u8>,
    limit: int,
    lead: Seq<Piece>,
    name: Seq<u8>,
    gap: Seq<u8>,
    args: Seq<Piece>,
)
    requires
        0 <= limit <= bytes.len() <= usize::MAX,
        is_call_text(bytes.subrange(0, limit), lead, name, gap, args),
        !is_keyword(name),
    ensures
        ({
            let before = without_tail(text_of(lead));
            let m = before.len();
            let r = call_at(bytes, limit)->0;
            &&& m > 0 && before[m - 1] == 0x2E ==> r.form == CallForm::MemberDot
                && r.qualified_name is None
            &&& m > 1 && before[m - 1] == 0x3E && before[m - 2] == 0x2D ==> r.form
                == CallForm::MemberArrow && r.qualified_name is None
            &&& m == 0 || (before[m - 1] != 0x2E && before[m - 1] != 0x3E && before[m - 1] != 0x3A)
                ==> r.form == CallForm::DirectName && r.qualified_name is None
        }),
{
    let before = without_tail(text_of(lead));
    let m = before.len() as int;
    let start = text_of(lead).len() as int;
    call_read(bytes, limit, lead, name, gap, args);
    opened_by(bytes, lead, name, gap);
    inner_reads(bytes, 0, opening(lead, name, gap), text_of(lead), 0);
    tail_is_ink(bytes, text_of(lead));
    if m > 0 {
        assert(bytes[0 + (m - 1)] == before[m - 1]);
    }
    if m > 1 {
        assert(bytes[0 + (m - 2)] == before[m - 2]);
        if before[m - 2] == 0x2D {
            ink_end_over(bytes, m - 1, m - 1);
        }
    }
}

/// Owners, each followed by `::`.
pub open spec fn owners_text(owners: Seq<Seq<u8>>, n: int) -> Seq<u8>
    decreases n,
{
    if n <= 0 {
        Seq::empty()
    } else {
        owners_text(owners, n - 1) + owners[n - 1] + seq![0x3Au8, 0x3Au8]
    }
}

proof fn owners_found(bytes: Seq<u8>, before: Seq<u8>, owners: Seq<Seq<u8>>, n: int)
    requires
        0 <= n <= owners.len(),
        forall|k: int| 0 <= k < owners.len() ==> is_name(#[trigger] owners[k]),
        reads(bytes, 0, before + owners_text(owners, n)),
        ends_apart(before),
        without_tail(before).len() == 0 || without_tail(before).last() != 0x3A,
    ensures
        owners_start(bytes, (before + owners_text(owners, n)).len() as int) == before.len(),
    decreases n,
{
    let whole = before + owners_text(owners, n);
    let at = whole.len() as int;
    if n > 0 {
        let rest = before + owners_text(owners, n - 1);
        let owner = owners[n - 1];
        let a = rest.len() as int;
        assert(is_name(owner));
        assert(whole =~= rest + owner + seq![0x3Au8, 0x3Au8]);
        assert(whole.subrange(0, a) =~= rest);
        assert(whole.subrange(a, a + owner.len()) =~= owner);
        part_reads(bytes, whole, 0, rest);
        part_reads(bytes, whole, a, owner);
        assert(bytes[0 + (at - 1)] == whole[at - 1]);
        assert(bytes[0 + (at - 2)] == whole[at - 2]);
        ink_end_over(bytes, at, at);
        ink_end_over(bytes, at - 1, at - 1);
        if a > 0 {
            assert(bytes[0 + (a - 1)] == rest[a - 1]);
            if n - 1 > 0 {
                assert(rest[a - 1] == 0x3A);
            } else {
                assert(rest =~= before);
            }
        }
        name_found(bytes, a, at - 2, at - 2);
        owners_found(bytes, before, owners, n - 1);
    } else {
        assert(whole =~= before);
        tail_is_ink(bytes, before);
        let m = without_tail(before).len() as int;
        if m > 0 {
            assert(bytes[0 + (m - 1)] == without_tail(before)[m - 1]);
        }
    }
}

proof fn spaceless(bytes: Seq<u8>, from: int, to: int)
    requires
        0 <= from <= to <= bytes.len(),
        forall|k: int| from <= k < to ==> !is_blank_byte(#[trigger] bytes[k]),
    ensures
        without_spaces(bytes, from, to) == letters(bytes.subrange(from, to)),
    decreases to - from,
{
    if from < to {
        spaceless(bytes, from, to - 1);
        assert(letters(bytes.subrange(from, to)) =~= letters(bytes.subrange(from, to - 1)).push(
            bytes[to - 1] as char,
        ));
    } else {
        assert(letters(bytes.subrange(from, to)) =~= Seq::<char>::empty());
    }
}

proof fn owners_spaceless(owners: Seq<Seq<u8>>, n: int)
    requires
        0 <= n <= owners.len(),
        forall|k: int| 0 <= k < owners.len() ==> is_name(#[trigger] owners[k]),
    ensures
        forall|k: int|
            0 <= k < owners_text(owners, n).len() ==> !is_blank_byte(
                #[trigger] owners_text(owners, n)[k],
            ),
        n > 0 ==> owners_text(owners, n).len() > 0,
    decreases n,
{
    if n > 0 {
        owners_spaceless(owners, n - 1);
        let before = owners_text(owners, n - 1);
        let t = owners_text(owners, n);
        let owner = owners[n - 1];
        assert(is_name(owner));
        assert forall|k: int| 0 <= k < t.len() implies !is_blank_byte(#[trigger] t[k]) by {
            if k < before.len() {
                assert(t[k] == before[k]);
            } else if k < before.len() + owner.len() {
                assert(t[k] == owner[k - before.len()]);
                assert(is_word_byte(owner[k - before.len()]));
            }
        }
    }
}

/// A name behind owners is called by its qualified name, all owners in order.
pub proof fn qualified_call_keeps_its_owners(
    bytes: Seq<u8>,
    limit: int,
    lead: Seq<Piece>,
    before: Seq<u8>,
    owners: Seq<Seq<u8>>,
    name: Seq<u8>,
    gap: Seq<u8>,
    args: Seq<Piece>,
)
    requires
        0 <= limit <= bytes.len() <= usize::MAX,
        is_call_text(bytes.subrange(0, limit), lead, name, gap, args),
        !is_keyword(name),
        text_of(lead) == before + owners_text(owners, owners.len() as int),
        owners.len() > 0,
        forall|k: int| 0 <= k < owners.len() ==> is_name(#[trigger] owners[k]),
        ends_apart(before),
        without_tail(before).len() == 0 || without_tail(before).last() != 0x3A,
    ensures
        call_at(bytes, limit)->0.form == CallForm::QualifiedName,
        call_at(bytes, limit)->0.qualified_name == Some(
            letters(owners_text(owners, owners.len() as int) + name),
        ),
{
    let n = owners.len() as int;
    let path = owners_text(owners, n);
    let head = opening(lead, name, gap);
    let start = text_of(lead).len() as int;
    let end = start + name.len();
    call_read(bytes, limit, lead, name, gap, args);
    opened_by(bytes, lead, name, gap);
    inner_reads(bytes, 0, head, text_of(lead), 0);
    owners_found(bytes, before, owners, n);
    owners_spaceless(owners, n);
    assert(path.last() == 0x3A);
    assert(bytes[0 + (start - 1)] == text_of(lead)[start - 1]);
    ink_end_over(bytes, start, start);
    let from = before.len() as int;
    let whole = path + name;
    assert(head.subrange(from, end) =~= whole);
    part_reads(bytes, head, from, whole);
    assert forall|k: int| from <= k < end implies !is_blank_byte(#[trigger] bytes[k]) by {
        assert(bytes[from + (k - from)] == whole[k - from]);
        if k - from < path.len() {
            assert(whole[k - from] == path[k - from]);
        } else {
            assert(whole[k - from] == name[k - from - path.len()]);
            assert(is_word_byte(name[k - from - path.len()]));
        }
    }
    spaceless(bytes, from, end);
}

/// Frames that no call opened, as brackets stand open.
spec fn stands_bare(
    base: Seq<DelimFrame>,
    pieces: Seq<Piece>,
    n: int,
    stack: Seq<DelimFrame>,
) -> bool {
    let open = brackets_below(pieces, n)->0;
    &&& stack.len() == base.len() + open.len()
    &&& forall|k: int|
        0 <= k < base.len() ==> #[trigger] stack[k].is_call() == base[k].is_call()
    &&& forall|k: int|
        0 <= k < open.len() ==> (#[trigger] stack[base.len() + k]).spec_kind() == kind_of(open[k])
    &&& forall|k: int|
        0 <= k < open.len() ==> (#[trigger] open[k] == 0x28 || open[k] == 0x5B || open[k] == 0x7B)
    &&& no_angle(stack)
}

proof fn pieces_stand_bare(
    bytes: Seq<u8>,
    limit: int,
    at: int,
    base: Seq<DelimFrame>,
    pieces: Seq<Piece>,
    n: int,
)
    requires
        0 <= n <= pieces.len(),
        are_proper(pieces),
        brackets_below(pieces, n) is Some,
        no_angle(base),
        reads(bytes, at, text_below(pieces, n)),
    ensures
        stands_bare(base, pieces, n, stack_below(bytes, limit, at, pieces, n, base)),
    decreases n,
{
    if n > 0 {
        let before = text_below(pieces, n - 1);
        let t = text_below(pieces, n);
        let p = pieces[n - 1];
        inner_reads(bytes, at, t, before, 0);
        inner_reads(bytes, at, t, p.text(), before.len() as int);
        pieces_stand_bare(bytes, limit, at, base, pieces, n - 1);
        let stack = stack_below(bytes, limit, at, pieces, n - 1, base);
        let open = brackets_below(pieces, n - 1)->0;
        let next = stack_below(bytes, limit, at, pieces, n, base);
        innermost_within(stack, stack.len() as int);
        angle_free_piece(bytes, limit, at + before.len(), p, stack);
        assert(!inside_angle(stack));
        match p {
            Piece::Byte(b) => {
                assert(p.text()[0] == b);
                assert(bytes[at + before.len() + 0] == b);
                if b == 0x29 || b == 0x5D || b == 0x7D {
                    assert(stack.last() == stack[base.len() + (open.len() - 1)]);
                    assert(next == stack.drop_last());
                }
            },
            _ => {},
        }
    }
}

/// Where no parenthesis is open, no call is.
pub proof fn closed_text_has_no_call(bytes: Seq<u8>, limit: int, pieces: Seq<Piece>)
    requires
        0 <= limit <= bytes.len() <= usize::MAX,
        bytes.subrange(0, limit) == text_of(pieces),
        are_proper(pieces),
        brackets_below(pieces, pieces.len() as int) is Some,
        !brackets_below(pieces, pieces.len() as int)->0.contains(0x28u8),
    ensures
        call_at(bytes, limit) is None,
{
    let n = pieces.len() as int;
    let none = Seq::<DelimFrame>::empty();
    assert(reads(bytes, 0, text_of(pieces))) by {
        assert forall|k: int| 0 <= k < text_of(pieces).len() implies bytes[0 + k]
            == #[trigger] text_of(pieces)[k] by {
            assert(bytes.subrange(0, limit)[k] == bytes[k]);
        }
    }
    assert(text_of(pieces).len() == limit);
    pieces_read(bytes, limit, 0, pieces, n, none);
    pieces_stand_bare(bytes, limit, 0, none, pieces, n);
    let last = stack_below(bytes, limit, 0, pieces, n, none);
    let open = brackets_below(pieces, n)->0;
    innermost_within(last, last.len() as int);
    assert forall|k: int| 0 <= k < last.len() implies !(#[trigger] last[k]).is_call() by {
        assert(last[none.len() + k].spec_kind() == kind_of(open[k]));
        assert(open.contains(open[k]));
        assert(open[k] == 0x28 || open[k] == 0x5B || open[k] == 0x7B);
    }
}

/// A keyword is not called: behind it, and behind text in which no parenthesis
/// is open, there is no call.
pub proof fn keyword_is_not_called(
    bytes: Seq<u8>,
    limit: int,
    lead: Seq<Piece>,
    name: Seq<u8>,
    gap: Seq<u8>,
    args: Seq<Piece>,
)
    requires
        0 <= limit <= bytes.len() <= usize::MAX,
        is_call_text(bytes.subrange(0, limit), lead, name, gap, args),
        is_keyword(name),
        brackets_below(lead, lead.len() as int) is Some,
        !brackets_below(lead, lead.len() as int)->0.contains(0x28u8),
    ensures
        call_at(bytes, limit) is None,
{
    let head = opening(lead, name, gap);
    let whole = head + text_of(args);
    let n = args.len() as int;
    let m = lead.len() as int;
    let open = head.len() - 1;
    let none = Seq::<DelimFrame>::empty();
    assert(reads(bytes, 0, whole)) by {
        assert forall|k: int| 0 <= k < whole.len() implies bytes[0 + k] == #[trigger] whole[k] by {
            assert(bytes.subrange(0, limit)[k] == bytes[k]);
        }
    }
    assert(whole.len() == limit);
    assert(whole.subrange(0, open + 1) =~= head);
    assert(whole.subrange(open + 1, limit) =~= text_of(args));
    part_reads(bytes, whole, 0, head);
    part_reads(bytes, whole, open + 1, text_of(args));
    inner_reads(bytes, 0, head, text_of(lead), 0);
    let first = stack_below(bytes, limit, 0, lead, m, none);
    let opens = brackets_below(lead, m)->0;
    pieces_stand_bare(bytes, limit, 0, none, lead, m);
    assert(no_call(first)) by {
        assert forall|k: int| 0 <= k < first.len() implies !(#[trigger] first[k]).is_call() by {
            assert(first[none.len() + k].spec_kind() == kind_of(opens[k]));
            assert(opens.contains(opens[k]));
            assert(opens[k] == 0x28 || opens[k] == 0x5B || opens[k] == 0x7B);
        }
    }
    let base = opening_read(bytes, limit, lead, name, gap);
    opened_by(bytes, lead, name, gap);
    let frame = DelimFrame::Paren {
        target: called_before(bytes, open),
        active_argument: 0,
        current_argument_has_token: false,
        unsupported_template_argument: false,
    };
    let bottom = base.push(frame);
    pieces_read(bytes, limit, open + 1, args, n, bottom);
    pieces_stand_bare(bytes, limit, open + 1, bottom, args, n);
    let last = stack_below(bytes, limit, open + 1, args, n, bottom);
    let inner = brackets_below(args, n)->0;
    innermost_within(last, last.len() as int);
    assert forall|k: int| 0 <= k < last.len() implies !(#[trigger] last[k]).is_call() by {
        if k < bottom.len() {
            assert(last[k].is_call() == bottom[k].is_call());
        } else {
            let j = k - bottom.len();
            assert(last[bottom.len() + j].spec_kind() == kind_of(inner[j]));
            assert(inner.contains(inner[j]));
            assert(inner[j] == 0x28 || inner[j] == 0x5B || inner[j] == 0x7B);
        }
    }
}

/// The parenthesis of an opening is that of a call of its name.
proof fn opened_by(bytes: Seq<u8>, lead: Seq<Piece>, name: Seq<u8>, gap: Seq<u8>)
    requires
        bytes.len() <= usize::MAX,
        is_name(name),
        are_blank(gap),
        ends_apart(text_of(lead)),
        reads(bytes, 0, opening(lead, name, gap)),
    ensures
        ({
            let open = opening(lead, name, gap).len() - 1;
            let start = text_of(lead).len() as int;
            let end = start + name.len();
            &&& bytes.subrange(start, end) == name
            &&& ink_end(bytes, open) == end
            &&& identifier_before(bytes, open) == Some(start)
            &&& target_before(bytes, open) is Some
            &&& target_before(bytes, open)->0.name_start == start
            &&& target_before(bytes, open)->0.end == end
            &&& called_before(bytes, open) == (if is_keyword(name) {
                None
            } else {
                target_before(bytes, open)
            })
        }),
{
    let whole = opening(lead, name, gap);
    let (a, b, c) = (text_of(lead).len() as int, name.len() as int, gap.len() as int);
    assert(whole.subrange(0, a) =~= text_of(lead));
    assert(whole.subrange(a, a + b) =~= name);
    assert(whole.subrange(a + b, a + b + c) =~= gap);
    part_reads(bytes, whole, 0, text_of(lead));
    part_reads(bytes, whole, a, name);
    part_reads(bytes, whole, a + b, gap);
    if a > 0 {
        assert(bytes[0 + (a - 1)] == text_of(lead)[a - 1]);
    }
    assert forall|k: int| a + b <= k < a + b + c implies is_blank_byte(#[trigger] bytes[k]) by {
        assert(bytes[a + b + (k - a - b)] == gap[k - a - b]);
    }
    name_found(bytes, a, a + b, a + b + c);
}

} // verus!
