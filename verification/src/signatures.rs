//! Call contexts under a cursor and parameter spans of signature labels.

use vstd::prelude::*;
use vstd::utf8::{decode_utf8, encode_utf8};

use crate::call_model::CallForm;
use crate::callables::arity::ArgumentState;
use crate::chars::{
    ascii_string, byte_in_ident, byte_is_space, byte_starts_ident, bytes_as_chars, chars_of,
    find_bytes, first_occurrence, is_ident_continue, is_ident_start, is_space_byte, is_word,
    opt_text, spells, string_of, text_between_ascii, trim, trim_end, trimmed, trimmed_end,
};
use crate::model::DefinitionCandidate;
use crate::text::{byte_offset_at, position_index, utf8_offset};

verus! {

pub const SIGNATURE_HELP_LIMIT: usize = 10;

/// The innermost call whose argument list the cursor stands in.
#[derive(Debug, Clone, PartialEq, Eq)]
pub struct CallContext {
    pub name: String,
    pub qualified_name: Option<String>,
    pub form: CallForm,
    pub active_argument: u32,
    pub argument_state: ArgumentState,
}

/// Byte range of one parameter in a signature label.
#[derive(Debug, Clone, Copy, PartialEq, Eq, Structural)]
pub struct ParameterSpan {
    pub start: u32,
    pub end: u32,
}

#[derive(Debug, Clone, PartialEq, Eq)]
pub struct SignatureParts {
    pub label: String,
    pub parameters: Vec<ParameterSpan>,
}

#[derive(Debug, Clone, PartialEq, Eq)]
pub struct RankedSignatureCandidate {
    pub candidate: DefinitionCandidate,
    pub signature: String,
}

// ---------------------------------------------------------------------------
// Looking backwards

/// End of the text before `end`, white space aside.
pub open spec fn ink_end(bytes: Seq<u8>, end: int) -> int
    decreases end,
{
    if 0 < end <= bytes.len() && byte_is_space(bytes[end - 1]) {
        ink_end(bytes, end - 1)
    } else {
        end
    }
}

/// Start of the identifier bytes that end before `end`.
pub open spec fn name_start(bytes: Seq<u8>, end: int) -> int
    decreases end,
{
    if 0 < end <= bytes.len() && byte_in_ident(bytes[end - 1]) {
        name_start(bytes, end - 1)
    } else {
        end
    }
}

/// Position of the last byte before `before` that is not white space.
pub open spec fn previous_ink(bytes: Seq<u8>, before: int) -> Option<int> {
    let end = ink_end(bytes, before);
    if end <= 0 || before > bytes.len() {
        None
    } else {
        Some(end - 1)
    }
}

/// Start of the identifier before `end`, white space between them aside.
pub open spec fn identifier_before(bytes: Seq<u8>, end: int) -> Option<int> {
    let e = ink_end(bytes, end);
    let s = name_start(bytes, e);
    if s == e || !byte_starts_ident(bytes[s]) {
        None
    } else {
        Some(s)
    }
}

pub open spec fn previous_ink_is(bytes: Seq<u8>, before: int, byte: u8) -> bool {
    match previous_ink(bytes, before) {
        Some(i) => bytes[i] == byte,
        None => false,
    }
}

fn ink_end_before(bytes: &[u8], end: usize) -> (r: usize)
    requires
        end <= bytes@.len(),
    ensures
        r == ink_end(bytes@, end as int),
        r <= end,
        forall|k: int| r <= k < end ==> byte_is_space(bytes@[k]),
        r > 0 ==> !byte_is_space(bytes@[r - 1]),
{
    let mut i: usize = end;
    while i > 0 && is_space_byte(bytes[i - 1])
        invariant
            i <= end <= bytes@.len(),
            ink_end(bytes@, end as int) == ink_end(bytes@, i as int),
            forall|k: int| i <= k < end ==> byte_is_space(bytes@[k]),
        decreases i,
    {
        i = i - 1;
    }
    i
}

fn name_start_before(bytes: &[u8], end: usize) -> (r: usize)
    requires
        end <= bytes@.len(),
    ensures
        r == name_start(bytes@, end as int),
        r <= end,
{
    let mut i: usize = end;
    while i > 0 && is_ident_continue(bytes[i - 1])
        invariant
            i <= end <= bytes@.len(),
            name_start(bytes@, end as int) == name_start(bytes@, i as int),
        decreases i,
    {
        i = i - 1;
    }
    i
}

fn previous_non_ws_index(bytes: &[u8], before: usize) -> (r: Option<usize>)
    requires
        before <= bytes@.len(),
    ensures
        match r {
            Some(i) => previous_ink(bytes@, before as int) == Some(i as int) && i < before,
            None => previous_ink(bytes@, before as int) is None,
        },
{
    let end: usize = ink_end_before(bytes, before);
    if end == 0 {
        None
    } else {
        Some(end - 1)
    }
}

fn previous_non_ws_is(bytes: &[u8], before: usize, byte: u8) -> (r: bool)
    requires
        before <= bytes@.len(),
    ensures
        r == previous_ink_is(bytes@, before as int, byte),
{
    match previous_non_ws_index(bytes, before) {
        Some(i) => bytes[i] == byte,
        None => false,
    }
}

fn identifier_start_before(bytes: &[u8], open_paren: usize) -> (r: Option<usize>)
    requires
        open_paren <= bytes@.len(),
    ensures
        match r {
            Some(i) => identifier_before(bytes@, open_paren as int) == Some(i as int) && i
                < open_paren,
            None => identifier_before(bytes@, open_paren as int) is None,
        },
{
    let end: usize = ink_end_before(bytes, open_paren);
    let start: usize = name_start_before(bytes, end);
    if start == end || !is_ident_start(bytes[start]) {
        return None;
    }
    Some(start)
}

// ---------------------------------------------------------------------------
// Call targets

/// What is called before an opening parenthesis: the name in
/// `[name_start, end)` and, for a qualified name, where its first owner
/// starts.
#[derive(Debug, Clone, Copy, PartialEq, Eq, Structural)]
pub struct CallTarget {
    pub name_start: usize,
    pub end: usize,
    pub qualified_start: Option<usize>,
    pub form: CallForm,
}

/// First colon of the `::` before `cursor`.
pub open spec fn scope_operator_before(bytes: Seq<u8>, cursor: int) -> Option<int> {
    match previous_ink(bytes, cursor) {
        Some(second) => if bytes[second] == 0x3A {
            match previous_ink(bytes, second) {
                Some(first) => if bytes[first] == 0x3A {
                    Some(first)
                } else {
                    None
                },
                None => None,
            }
        } else {
            None
        },
        None => None,
    }
}

/// Start of the owners that qualify the name at `cursor`; `cursor` itself
/// where nothing qualifies it.
pub open spec fn owners_start(bytes: Seq<u8>, cursor: int) -> int
    decreases cursor,
{
    match scope_operator_before(bytes, cursor) {
        Some(colon) => match identifier_before(bytes, colon) {
            Some(owner) => if 0 <= owner < cursor {
                owners_start(bytes, owner)
            } else {
                cursor
            },
            None => cursor,
        },
        None => cursor,
    }
}

/// The target of the call whose argument list opens at `open`.
pub open spec fn target_before(bytes: Seq<u8>, open: int) -> Option<CallTarget> {
    let end = ink_end(bytes, open);
    match identifier_before(bytes, open) {
        None => None,
        Some(start) => {
            let previous = previous_ink(bytes, start);
            let owners = owners_start(bytes, start);
            let (qualified_start, form) = if previous_ink_is(bytes, start, 0x2E) {
                (None, CallForm::MemberDot)
            } else if previous_ink_is(bytes, start, 0x3E) && previous_ink_is(
                bytes,
                previous->0,
                0x2D,
            ) {
                (None, CallForm::MemberArrow)
            } else if owners < start {
                (Some(owners as usize), CallForm::QualifiedName)
            } else {
                (None, CallForm::DirectName)
            };
            Some(
                CallTarget {
                    name_start: start as usize,
                    end: end as usize,
                    qualified_start,
                    form,
                },
            )
        },
    }
}

pub open spec fn target_within(t: CallTarget, limit: int) -> bool {
    t.name_start <= t.end <= limit && (t.qualified_start is Some ==> t.qualified_start->0
        <= t.name_start)
}

fn owners_start_before(bytes: &[u8], start: usize) -> (r: usize)
    requires
        start <= bytes@.len(),
    ensures
        r == owners_start(bytes@, start as int),
        r <= start,
{
    let mut cursor: usize = start;
    loop
        invariant
            cursor <= start <= bytes@.len(),
            owners_start(bytes@, start as int) == owners_start(bytes@, cursor as int),
        decreases cursor,
    {
        let second: usize = match previous_non_ws_index(bytes, cursor) {
            Some(i) => i,
            None => {
                return cursor;
            },
        };
        if bytes[second] != 0x3A {
            return cursor;
        }
        let first: usize = match previous_non_ws_index(bytes, second) {
            Some(i) => i,
            None => {
                return cursor;
            },
        };
        if bytes[first] != 0x3A {
            return cursor;
        }
        match identifier_start_before(bytes, first) {
            Some(owner) => {
                cursor = owner;
            },
            None => {
                return cursor;
            },
        }
    }
}

fn partial_call_target_before(bytes: &[u8], open_paren: usize) -> (r: Option<CallTarget>)
    requires
        open_paren <= bytes@.len(),
    ensures
        r == target_before(bytes@, open_paren as int),
        r is Some ==> target_within(r->0, open_paren as int),
{
    let end: usize = ink_end_before(bytes, open_paren);
    let start: usize = match identifier_start_before(bytes, open_paren) {
        Some(start) => start,
        None => {
            return None;
        },
    };
    proof {
        name_start_is_before(bytes@, end as int);
    }
    let owners: usize = owners_start_before(bytes, start);
    let previous = previous_non_ws_index(bytes, start);
    let arrow = match previous {
        Some(i) => bytes[i] == 0x3E && previous_non_ws_is(bytes, i, 0x2D),
        None => false,
    };
    if previous_non_ws_is(bytes, start, 0x2E) {
        return Some(
            CallTarget {
                name_start: start,
                end,
                qualified_start: None,
                form: CallForm::MemberDot,
            },
        );
    }
    if arrow {
        return Some(
            CallTarget {
                name_start: start,
                end,
                qualified_start: None,
                form: CallForm::MemberArrow,
            },
        );
    }
    if owners < start {
        Some(
            CallTarget {
                name_start: start,
                end,
                qualified_start: Some(owners),
                form: CallForm::QualifiedName,
            },
        )
    } else {
        Some(
            CallTarget {
                name_start: start,
                end,
                qualified_start: None,
                form: CallForm::DirectName,
            },
        )
    }
}

proof fn name_start_is_before(bytes: Seq<u8>, end: int)
    requires
        0 <= end <= bytes.len(),
    ensures
        0 <= name_start(bytes, end) <= end,
    decreases end,
{
    if 0 < end && byte_in_ident(bytes[end - 1]) {
        name_start_is_before(bytes, end - 1);
    }
}

/// A word that opens a parenthesis without being called.
pub open spec fn control_keyword(word: Seq<u8>) -> bool {
    word == encode_utf8("if"@) || word == encode_utf8("for"@) || word == encode_utf8("while"@)
        || word == encode_utf8("switch"@) || word == encode_utf8("return"@) || word == encode_utf8(
        "sizeof"@,
    ) || word == encode_utf8("defined"@)
}

fn is_control_keyword(bytes: &[u8], start: usize, end: usize) -> (r: bool)
    requires
        start <= end <= bytes@.len(),
    ensures
        r == control_keyword(bytes@.subrange(start as int, end as int)),
{
    spells(bytes, start, end, "if") || spells(bytes, start, end, "for") || spells(
        bytes,
        start,
        end,
        "while",
    ) || spells(bytes, start, end, "switch") || spells(bytes, start, end, "return") || spells(
        bytes,
        start,
        end,
        "sizeof",
    ) || spells(bytes, start, end, "defined")
}

// ---------------------------------------------------------------------------
// Templates

/// Whether a template name may end before the `<` at `open`: a name that
/// touches it, or a name behind `::`.
pub open spec fn template_name_before(bytes: Seq<u8>, open: int) -> bool {
    match identifier_before(bytes, open) {
        Some(start) => byte_in_ident(bytes[open - 1]) || (start >= 2 && bytes[start - 2] == 0x3A
            && bytes[start - 1] == 0x3A),
        None => false,
    }
}

/// Reading from `i` with `depth` angle brackets open: whether they close
/// before the text or the statement ends, with something between them.
pub open spec fn angles_close(bytes: Seq<u8>, open: int, i: int, limit: int, depth: nat) -> bool
    decreases limit - i,
{
    if i >= limit {
        false
    } else if bytes[i] == 0x3C {
        angles_close(bytes, open, i + 1, limit, depth + 1)
    } else if bytes[i] == 0x3E {
        if depth <= 1 {
            i > open + 1
        } else {
            angles_close(bytes, open, i + 1, limit, (depth - 1) as nat)
        }
    } else if depth == 1 && (bytes[i] == 0x3B || bytes[i] == 0x0A || bytes[i] == 0x29 || bytes[i]
        == 0x5D || bytes[i] == 0x7D) {
        false
    } else {
        angles_close(bytes, open, i + 1, limit, depth)
    }
}

/// Whether the `<` at `open` opens a template argument list.
pub open spec fn template_opens(bytes: Seq<u8>, open: int, limit: int) -> bool {
    template_name_before(bytes, open) && angles_close(bytes, open, open + 1, limit, 1)
}

fn template_name_before_angle(bytes: &[u8], open_angle: usize) -> (r: bool)
    requires
        open_angle < bytes@.len(),
    ensures
        r == template_name_before(bytes@, open_angle as int),
{
    match identifier_start_before(bytes, open_angle) {
        Some(start) => {
            is_ident_continue(bytes[open_angle - 1]) || (start >= 2 && bytes[start - 2] == 0x3A
                && bytes[start - 1] == 0x3A)
        },
        None => false,
    }
}

fn looks_like_template_start(bytes: &[u8], open_angle: usize, limit: usize) -> (r: bool)
    requires
        open_angle < limit <= bytes@.len(),
    ensures
        r == template_opens(bytes@, open_angle as int, limit as int),
{
    if !template_name_before_angle(bytes, open_angle) {
        return false;
    }
    let mut depth: usize = 1;
    let mut i: usize = open_angle + 1;
    while i < limit
        invariant
            open_angle < i <= limit <= bytes@.len(),
            1 <= depth <= i - open_angle,
            template_opens(bytes@, open_angle as int, limit as int) == angles_close(
                bytes@,
                open_angle as int,
                i as int,
                limit as int,
                depth as nat,
            ),
        decreases limit - i,
    {
        let byte = bytes[i];
        if byte == 0x3C {
            depth = depth + 1;
        } else if byte == 0x3E {
            if depth <= 1 {
                return i > open_angle + 1;
            }
            depth = depth - 1;
        } else if depth == 1 && (byte == 0x3B || byte == 0x0A || byte == 0x29 || byte == 0x5D || byte
            == 0x7D) {
            return false;
        }
        i = i + 1;
    }
    false
}

// ---------------------------------------------------------------------------
// The scan for the innermost call

#[derive(Debug, Clone, Copy, PartialEq, Eq, Structural)]
pub enum LexState {
    Code,
    Str { escaped: bool },
    Char { escaped: bool },
    LineComment,
    BlockComment,
}

/// A count of arguments, or the largest number.
pub open spec fn sat_u32(n: int) -> u32 {
    if n > u32::MAX {
        u32::MAX
    } else {
        n as u32
    }
}

#[derive(Debug, Clone, Copy, PartialEq, Eq, Structural)]
pub enum DelimFrame {
    Paren {
        target: Option<CallTarget>,
        active_argument: u32,
        current_argument_has_token: bool,
        unsupported_template_argument: bool,
    },
    Bracket,
    Brace,
    Angle,
}

#[derive(Debug, Clone, Copy, PartialEq, Eq, Structural)]
pub enum FrameKind {
    Paren,
    Bracket,
    Brace,
    Angle,
}

impl DelimFrame {
    pub open spec fn spec_kind(self) -> FrameKind {
        match self {
            DelimFrame::Paren { .. } => FrameKind::Paren,
            DelimFrame::Bracket => FrameKind::Bracket,
            DelimFrame::Brace => FrameKind::Brace,
            DelimFrame::Angle => FrameKind::Angle,
        }
    }

    fn kind(&self) -> (r: FrameKind)
        ensures
            r == self.spec_kind(),
    {
        match self {
            DelimFrame::Paren { .. } => FrameKind::Paren,
            DelimFrame::Bracket => FrameKind::Bracket,
            DelimFrame::Brace => FrameKind::Brace,
            DelimFrame::Angle => FrameKind::Angle,
        }
    }

    /// The frame is the argument list of a call.
    pub open spec fn is_call(self) -> bool {
        match self {
            DelimFrame::Paren { target, .. } => target is Some,
            _ => false,
        }
    }

    fn opens_call(&self) -> (r: bool)
        ensures
            r == self.is_call(),
    {
        match self {
            DelimFrame::Paren { target, .. } => target.is_some(),
            _ => false,
        }
    }

    /// The frame with a token seen in its current argument.
    pub open spec fn with_token(self) -> DelimFrame {
        match self {
            DelimFrame::Paren {
                target,
                active_argument,
                current_argument_has_token,
                unsupported_template_argument,
            } => DelimFrame::Paren {
                target,
                active_argument,
                current_argument_has_token: true,
                unsupported_template_argument,
            },
            other => other,
        }
    }

    /// The frame with its commas no longer trusted.
    pub open spec fn with_template(self) -> DelimFrame {
        match self {
            DelimFrame::Paren {
                target,
                active_argument,
                current_argument_has_token,
                unsupported_template_argument,
            } => DelimFrame::Paren {
                target,
                active_argument,
                current_argument_has_token,
                unsupported_template_argument: true,
            },
            other => other,
        }
    }

    /// The frame at its next argument.
    pub open spec fn with_next_argument(self) -> DelimFrame {
        match self {
            DelimFrame::Paren {
                target,
                active_argument,
                current_argument_has_token,
                unsupported_template_argument,
            } => DelimFrame::Paren {
                target,
                active_argument: sat_u32(active_argument + 1),
                current_argument_has_token: false,
                unsupported_template_argument,
            },
            other => other,
        }
    }

    /// The called name lies before byte `n`.
    pub open spec fn target_before(self, n: int) -> bool {
        match self {
            DelimFrame::Paren { target, .. } => target is Some ==> target_within(target->0, n),
            _ => true,
        }
    }
}

/// The innermost call frame among the first `n`.
pub open spec fn innermost_call(stack: Seq<DelimFrame>, n: int) -> Option<int>
    decreases n,
{
    if n <= 0 || n > stack.len() {
        None
    } else if stack[n - 1].is_call() {
        Some(n - 1)
    } else {
        innermost_call(stack, n - 1)
    }
}

pub open spec fn marked(stack: Seq<DelimFrame>) -> Seq<DelimFrame> {
    match innermost_call(stack, stack.len() as int) {
        Some(k) => stack.update(k, stack[k].with_token()),
        None => stack,
    }
}

pub open spec fn popped(stack: Seq<DelimFrame>, kind: FrameKind) -> Seq<DelimFrame> {
    if stack.len() > 0 && stack.last().spec_kind() == kind {
        stack.drop_last()
    } else {
        stack
    }
}

pub open spec fn inside_angle(stack: Seq<DelimFrame>) -> bool {
    exists|k: int| 0 <= k < stack.len() && stack[k] == DelimFrame::Angle
}

/// The stack after a comma: inside a template argument list the innermost
/// call's commas become unreliable, else the call on top moves on.
pub open spec fn after_comma(stack: Seq<DelimFrame>) -> Seq<DelimFrame> {
    if inside_angle(stack) {
        match innermost_call(stack, stack.len() as int) {
            Some(k) => stack.update(k, stack[k].with_template()),
            None => stack,
        }
    } else if stack.len() > 0 && stack.last().is_call() {
        stack.update(stack.len() - 1, stack.last().with_next_argument())
    } else {
        stack
    }
}

/// The target of the call that a parenthesis at `open` opens, control
/// keywords aside.
pub open spec fn called_before(bytes: Seq<u8>, open: int) -> Option<CallTarget> {
    match target_before(bytes, open) {
        Some(t) => if control_keyword(bytes.subrange(t.name_start as int, t.end as int)) {
            None
        } else {
            Some(t)
        },
        None => None,
    }
}

/// The open delimiters after the code byte at `i`.
pub open spec fn after_code_byte(
    bytes: Seq<u8>,
    limit: int,
    i: int,
    stack: Seq<DelimFrame>,
) -> Seq<DelimFrame> {
    let b = bytes[i];
    if b == 0x28 {
        marked(stack).push(
            DelimFrame::Paren {
                target: called_before(bytes, i),
                active_argument: 0,
                current_argument_has_token: false,
                unsupported_template_argument: false,
            },
        )
    } else if b == 0x29 {
        popped(stack, FrameKind::Paren)
    } else if b == 0x5B {
        marked(stack).push(DelimFrame::Bracket)
    } else if b == 0x5D {
        popped(stack, FrameKind::Bracket)
    } else if b == 0x7B {
        marked(stack).push(DelimFrame::Brace)
    } else if b == 0x7D {
        popped(stack, FrameKind::Brace)
    } else if b == 0x3C && template_opens(bytes, i, limit) {
        marked(stack).push(DelimFrame::Angle)
    } else if b == 0x3E {
        popped(stack, FrameKind::Angle)
    } else if b == 0x2C {
        after_comma(stack)
    } else if byte_is_space(b) {
        stack
    } else {
        marked(stack)
    }
}

/// What a literal that ends with `quote` does with one byte: whether the next
/// one is escaped, `None` when the literal ends.
pub open spec fn literal_step(escaped: bool, byte: u8, quote: u8) -> Option<bool> {
    if escaped {
        Some(false)
    } else if byte == 0x5C {
        Some(true)
    } else if byte == quote {
        None
    } else {
        Some(false)
    }
}

/// The delimiters open at `limit`, reading on from `i`.
pub open spec fn open_frames(
    bytes: Seq<u8>,
    limit: int,
    i: int,
    lex: LexState,
    stack: Seq<DelimFrame>,
) -> Seq<DelimFrame>
    decreases limit + 1 - i,
{
    if i >= limit {
        stack
    } else {
        let b = bytes[i];
        let next = if i + 1 < limit {
            bytes[i + 1]
        } else {
            0
        };
        match lex {
            LexState::Code => if b == 0x2F && next == 0x2F {
                open_frames(bytes, limit, i + 2, LexState::LineComment, stack)
            } else if b == 0x2F && next == 0x2A {
                open_frames(bytes, limit, i + 2, LexState::BlockComment, stack)
            } else if b == 0x22 {
                open_frames(bytes, limit, i + 1, LexState::Str { escaped: false }, marked(stack))
            } else if b == 0x27 {
                open_frames(bytes, limit, i + 1, LexState::Char { escaped: false }, marked(stack))
            } else {
                open_frames(
                    bytes,
                    limit,
                    i + 1,
                    LexState::Code,
                    after_code_byte(bytes, limit, i, stack),
                )
            },
            LexState::Str { escaped } => match literal_step(escaped, b, 0x22) {
                Some(escaped) => open_frames(
                    bytes,
                    limit,
                    i + 1,
                    LexState::Str { escaped },
                    stack,
                ),
                None => open_frames(bytes, limit, i + 1, LexState::Code, stack),
            },
            LexState::Char { escaped } => match literal_step(escaped, b, 0x27) {
                Some(escaped) => open_frames(
                    bytes,
                    limit,
                    i + 1,
                    LexState::Char { escaped },
                    stack,
                ),
                None => open_frames(bytes, limit, i + 1, LexState::Code, stack),
            },
            LexState::LineComment => if b == 0x0A {
                open_frames(bytes, limit, i + 1, LexState::Code, stack)
            } else {
                open_frames(bytes, limit, i + 1, LexState::LineComment, stack)
            },
            LexState::BlockComment => if b == 0x2A && next == 0x2F {
                open_frames(bytes, limit, i + 2, LexState::Code, stack)
            } else {
                open_frames(bytes, limit, i + 1, LexState::BlockComment, stack)
            },
        }
    }
}

/// The bytes in `[from, to)` without white space, as text.
pub open spec fn without_spaces(bytes: Seq<u8>, from: int, to: int) -> Seq<char>
    decreases to - from,
{
    if from >= to {
        Seq::empty()
    } else if byte_is_space(bytes[to - 1]) {
        without_spaces(bytes, from, to - 1)
    } else {
        without_spaces(bytes, from, to - 1).push(bytes[to - 1] as char)
    }
}

/// A call context as sequences of characters.
pub struct Call {
    pub name: Seq<char>,
    pub qualified_name: Option<Seq<char>>,
    pub form: CallForm,
    pub active_argument: u32,
    pub argument_state: ArgumentState,
}

impl View for CallContext {
    type V = Call;

    open spec fn view(&self) -> Call {
        Call {
            name: self.name@,
            qualified_name: opt_text(self.qualified_name),
            form: self.form,
            active_argument: self.active_argument,
            argument_state: self.argument_state,
        }
    }
}

pub open spec fn call_of(bytes: Seq<u8>, frame: DelimFrame) -> Option<Call> {
    match frame {
        DelimFrame::Paren {
            target: Some(t),
            active_argument,
            current_argument_has_token,
            unsupported_template_argument,
        } => Some(
            Call {
                name: bytes_as_chars(bytes.subrange(t.name_start as int, t.end as int)),
                qualified_name: match t.qualified_start {
                    Some(q) => Some(without_spaces(bytes, q as int, t.end as int)),
                    None => None,
                },
                form: t.form,
                active_argument,
                argument_state: if unsupported_template_argument {
                    ArgumentState::Unknown
                } else {
                    ArgumentState::Partial {
                        minimum_arity: sat_u32(
                            active_argument + if current_argument_has_token {
                                1int
                            } else {
                                0int
                            },
                        ),
                        active_argument,
                    }
                },
            },
        ),
        _ => None,
    }
}

/// The innermost call open at byte `limit`.
pub open spec fn call_at(bytes: Seq<u8>, limit: int) -> Option<Call> {
    let stack = open_frames(bytes, limit, 0, LexState::Code, Seq::empty());
    match innermost_call(stack, stack.len() as int) {
        Some(k) => call_of(bytes, stack[k]),
        None => None,
    }
}

pub open spec fn opt_call(r: Option<CallContext>) -> Option<Call> {
    match r {
        Some(c) => Some(c@),
        None => None,
    }
}

fn innermost_call_index(stack: &Vec<DelimFrame>) -> (r: Option<usize>)
    ensures
        match r {
            Some(k) => innermost_call(stack@, stack@.len() as int) == Some(k as int) && k
                < stack@.len() && stack@[k as int].is_call(),
            None => innermost_call(stack@, stack@.len() as int) is None,
        },
{
    let mut n: usize = stack.len();
    while n > 0
        invariant
            n <= stack@.len(),
            innermost_call(stack@, stack@.len() as int) == innermost_call(stack@, n as int),
        decreases n,
    {
        if stack[n - 1].opens_call() {
            return Some(n - 1);
        }
        n = n - 1;
    }
    None
}

fn mark_argument_token(stack: &mut Vec<DelimFrame>)
    ensures
        final(stack)@ == marked(old(stack)@),
{
    match innermost_call_index(stack) {
        Some(k) => {
            let frame = match stack[k] {
                DelimFrame::Paren { target, active_argument, unsupported_template_argument, .. } =>
                DelimFrame::Paren {
                    target,
                    active_argument,
                    current_argument_has_token: true,
                    unsupported_template_argument,
                },
                other => other,
            };
            stack.set(k, frame);
        },
        None => {},
    }
}

fn pop_matching(stack: &mut Vec<DelimFrame>, kind: FrameKind)
    ensures
        final(stack)@ == popped(old(stack)@, kind),
{
    let n: usize = stack.len();
    if n > 0 && stack[n - 1].kind() == kind {
        let _ = stack.pop();
    }
}

fn has_angle(stack: &Vec<DelimFrame>) -> (r: bool)
    ensures
        r == inside_angle(stack@),
{
    let mut i: usize = 0;
    while i < stack.len()
        invariant
            i <= stack@.len(),
            forall|k: int| 0 <= k < i ==> stack@[k] != DelimFrame::Angle,
        decreases stack@.len() - i,
    {
        if stack[i].kind() == FrameKind::Angle {
            assert(stack@[i as int] == DelimFrame::Angle);
            return true;
        }
        i = i + 1;
    }
    false
}

fn pass_comma(stack: &mut Vec<DelimFrame>)
    ensures
        final(stack)@ == after_comma(old(stack)@),
{
    let n: usize = stack.len();
    if has_angle(stack) {
        match innermost_call_index(stack) {
            Some(k) => {
                let frame = match stack[k] {
                    DelimFrame::Paren {
                        target,
                        active_argument,
                        current_argument_has_token,
                        ..
                    } => DelimFrame::Paren {
                        target,
                        active_argument,
                        current_argument_has_token,
                        unsupported_template_argument: true,
                    },
                    other => other,
                };
                stack.set(k, frame);
            },
            None => {},
        }
    } else if n > 0 && stack[n - 1].opens_call() {
        let frame = match stack[n - 1] {
            DelimFrame::Paren { target, active_argument, unsupported_template_argument, .. } =>
            DelimFrame::Paren {
                target,
                active_argument: active_argument.saturating_add(1),
                current_argument_has_token: false,
                unsupported_template_argument,
            },
            other => other,
        };
        stack.set(n - 1, frame);
    }
}

fn called_target_before(bytes: &[u8], open: usize) -> (r: Option<CallTarget>)
    requires
        open <= bytes@.len(),
    ensures
        r == called_before(bytes@, open as int),
        r is Some ==> target_within(r->0, open as int),
{
    match partial_call_target_before(bytes, open) {
        Some(t) => {
            if is_control_keyword(bytes, t.name_start, t.end) {
                None
            } else {
                Some(t)
            }
        },
        None => None,
    }
}

pub open spec fn frames_within(stack: Seq<DelimFrame>, n: int) -> bool {
    forall|k: int| 0 <= k < stack.len() ==> (#[trigger] stack[k]).target_before(n)
}

fn read_code_byte(bytes: &[u8], limit: usize, i: usize, stack: &mut Vec<DelimFrame>)
    requires
        i < limit <= bytes@.len(),
        frames_within(old(stack)@, i as int),
    ensures
        final(stack)@ == after_code_byte(bytes@, limit as int, i as int, old(stack)@),
        frames_within(final(stack)@, i + 1),
{
    let b = bytes[i];
    if b == 0x28 {
        mark_argument_token(stack);
        let target = called_target_before(bytes, i);
        stack.push(
            DelimFrame::Paren {
                target,
                active_argument: 0,
                current_argument_has_token: false,
                unsupported_template_argument: false,
            },
        );
    } else if b == 0x29 {
        pop_matching(stack, FrameKind::Paren);
    } else if b == 0x5B {
        mark_argument_token(stack);
        stack.push(DelimFrame::Bracket);
    } else if b == 0x5D {
        pop_matching(stack, FrameKind::Bracket);
    } else if b == 0x7B {
        mark_argument_token(stack);
        stack.push(DelimFrame::Brace);
    } else if b == 0x7D {
        pop_matching(stack, FrameKind::Brace);
    } else if b == 0x3C && looks_like_template_start(bytes, i, limit) {
        mark_argument_token(stack);
        stack.push(DelimFrame::Angle);
    } else if b == 0x3E {
        pop_matching(stack, FrameKind::Angle);
    } else if b == 0x2C {
        pass_comma(stack);
    } else if !is_space_byte(b) {
        mark_argument_token(stack);
    }
    proof {
        let before = old(stack)@;
        innermost_call_in_range(before, before.len() as int);
        frames_marked(before, i as int);
        let grown = marked(before);
        assert forall|k: int| 0 <= k < stack@.len() implies (#[trigger] stack@[k]).target_before(
            i + 1,
        ) by {
            if k < before.len() {
                assert(before[k].target_before(i as int));
                assert(grown[k].target_before(i as int));
            }
        }
    }
}

fn next_in_literal(escaped: bool, byte: u8, quote: u8) -> (r: Option<bool>)
    ensures
        r == literal_step(escaped, byte, quote),
{
    if escaped {
        Some(false)
    } else if byte == 0x5C {
        Some(true)
    } else if byte == quote {
        None
    } else {
        Some(false)
    }
}

fn text_without_spaces(bytes: &[u8], from: usize, to: usize) -> (r: String)
    requires
        from <= to <= bytes@.len(),
    ensures
        r@ == without_spaces(bytes@, from as int, to as int),
{
    let mut out = String::new();
    let mut i: usize = from;
    while i < to
        invariant
            from <= i <= to <= bytes@.len(),
            out@ == without_spaces(bytes@, from as int, i as int),
        decreases to - i,
    {
        if !is_space_byte(bytes[i]) {
            out.push(bytes[i] as char);
        }
        i = i + 1;
    }
    out
}

/// The call whose argument list the cursor stands in: its name, form and
/// active argument. Strings, characters and comments are passed over, only
/// top-level commas count, and commas inside a template argument list leave
/// the argument state unknown.
pub fn call_context_at(text: &str, line: u32, character: u32) -> (r: Option<CallContext>)
    ensures
        opt_call(r) == call_at(
            encode_utf8(text@),
            utf8_offset(text@, position_index(text@, line as int, character as int)) as int,
        ),
{
    let limit: usize = byte_offset_at(text, line, character);
    let bytes = text.as_bytes();
    let mut stack: Vec<DelimFrame> = Vec::new();
    let mut lex = LexState::Code;
    let mut i: usize = 0;
    while i < limit
        invariant
            i <= limit + 1,
            limit <= bytes@.len(),
            frames_within(stack@, i as int),
            i < limit || frames_within(stack@, limit as int),
            open_frames(bytes@, limit as int, 0, LexState::Code, Seq::empty()) == open_frames(
                bytes@,
                limit as int,
                i as int,
                lex,
                stack@,
            ),
        decreases limit + 1 - i,
    {
        let b = bytes[i];
        let next: u8 = if i + 1 < limit {
            bytes[i + 1]
        } else {
            0
        };
        let ghost before = stack@;
        proof {
            frames_grow(stack@, i as int, i + 2);
            frames_grow(stack@, i as int, i + 1);
        }
        match lex {
            LexState::Code => {
                if b == 0x2F && next == 0x2F {
                    lex = LexState::LineComment;
                    i = i + 1;
                } else if b == 0x2F && next == 0x2A {
                    lex = LexState::BlockComment;
                    i = i + 1;
                } else if b == 0x22 {
                    mark_argument_token(&mut stack);
                    proof {
                        frames_marked(before, i + 1);
                    }
                    lex = LexState::Str { escaped: false };
                } else if b == 0x27 {
                    mark_argument_token(&mut stack);
                    proof {
                        frames_marked(before, i + 1);
                    }
                    lex = LexState::Char { escaped: false };
                } else {
                    read_code_byte(bytes, limit, i, &mut stack);
                }
            },
            LexState::Str { escaped } => {
                lex = match next_in_literal(escaped, b, 0x22) {
                    Some(escaped) => LexState::Str { escaped },
                    None => LexState::Code,
                };
            },
            LexState::Char { escaped } => {
                lex = match next_in_literal(escaped, b, 0x27) {
                    Some(escaped) => LexState::Char { escaped },
                    None => LexState::Code,
                };
            },
            LexState::LineComment => {
                if b == 0x0A {
                    lex = LexState::Code;
                }
            },
            LexState::BlockComment => {
                if b == 0x2A && next == 0x2F {
                    lex = LexState::Code;
                    i = i + 1;
                }
            },
        }
        i = i + 1;
    }
    match innermost_call_index(&stack) {
        Some(k) => {
            assert(stack@[k as int].target_before(limit as int));
            match stack[k] {
                DelimFrame::Paren {
                    target: Some(t),
                    active_argument,
                    current_argument_has_token,
                    unsupported_template_argument,
                } => {
                    let qualified_name = match t.qualified_start {
                        Some(q) => Some(text_without_spaces(bytes, q, t.end)),
                        None => None,
                    };
                    let started: u32 = if current_argument_has_token {
                        1
                    } else {
                        0
                    };
                    Some(
                        CallContext {
                            name: ascii_string(bytes, t.name_start, t.end),
                            qualified_name,
                            form: t.form,
                            active_argument,
                            argument_state: if unsupported_template_argument {
                                ArgumentState::Unknown
                            } else {
                                ArgumentState::Partial {
                                    minimum_arity: active_argument.saturating_add(started),
                                    active_argument,
                                }
                            },
                        },
                    )
                },
                _ => None,
            }
        },
        None => None,
    }
}

proof fn innermost_call_in_range(stack: Seq<DelimFrame>, n: int)
    requires
        n <= stack.len(),
    ensures
        match innermost_call(stack, n) {
            Some(k) => 0 <= k < n && stack[k].is_call(),
            None => true,
        },
    decreases n,
{
    if n > 0 && !stack[n - 1].is_call() {
        innermost_call_in_range(stack, n - 1);
    }
}

proof fn frames_grow(stack: Seq<DelimFrame>, n: int, m: int)
    requires
        frames_within(stack, n),
        n <= m,
    ensures
        frames_within(stack, m),
{
    assert forall|k: int| 0 <= k < stack.len() implies (#[trigger] stack[k]).target_before(
        m,
    ) by {
        assert(stack[k].target_before(n));
    }
}

proof fn frames_marked(stack: Seq<DelimFrame>, n: int)
    requires
        frames_within(stack, n),
    ensures
        frames_within(marked(stack), n),
{
    let after = marked(stack);
    innermost_call_in_range(stack, stack.len() as int);
    assert forall|k: int| 0 <= k < after.len() implies (#[trigger] after[k]).target_before(
        n,
    ) by {
        assert(stack[k].target_before(n));
    }
}

// ---------------------------------------------------------------------------
// Signature labels

/// The label of a signature: without a brace that opens a body at its end.
pub open spec fn label_of(signature: Seq<char>) -> Seq<char> {
    let t = trim_end(signature);
    if t.len() > 0 && t.last() == '{' {
        trim_end(t.drop_last())
    } else {
        signature
    }
}

/// First position at or after `i` that holds `byte`.
pub open spec fn first_byte(bytes: Seq<u8>, byte: u8, i: int) -> Option<int>
    decreases bytes.len() - i,
{
    if i < 0 || i >= bytes.len() {
        None
    } else if bytes[i] == byte {
        Some(i)
    } else {
        first_byte(bytes, byte, i + 1)
    }
}

/// Position of the parenthesis that closes `depth` open ones, reading from
/// `i`.
pub open spec fn close_paren(bytes: Seq<u8>, i: int, depth: nat) -> Option<int>
    decreases bytes.len() - i,
{
    if i < 0 || i >= bytes.len() {
        None
    } else if bytes[i] == 0x28 {
        close_paren(bytes, i + 1, depth + 1)
    } else if bytes[i] == 0x29 {
        if depth <= 1 {
            Some(i)
        } else {
            close_paren(bytes, i + 1, (depth - 1) as nat)
        }
    } else {
        close_paren(bytes, i + 1, depth)
    }
}

/// The name at `start` is declared as `(*name` or `(&name`.
pub open spec fn pointer_declarator(bytes: Seq<u8>, start: int) -> bool {
    match previous_ink(bytes, start) {
        Some(p) => (bytes[p] == 0x2A || bytes[p] == 0x26) && previous_ink_is(bytes, p, 0x28),
        None => false,
    }
}

/// A plain function name touches the parenthesis at `open`.
pub open spec fn plain_name_before(bytes: Seq<u8>, open: int) -> bool {
    open > 0 && byte_in_ident(bytes[open - 1]) && match identifier_before(bytes, open) {
        Some(start) => !pointer_declarator(bytes, start),
        None => false,
    }
}

pub open spec fn list_from(bytes: Seq<u8>, open: int) -> Option<(int, int)> {
    match close_paren(bytes, open + 1, 1) {
        Some(close) => Some((open, close)),
        None => None,
    }
}

/// The parameter list of a label: its first parenthesis, if a plain function
/// name stands before it, and the one that closes it.
pub open spec fn list_bounds(bytes: Seq<u8>) -> Option<(int, int)> {
    match first_byte(bytes, 0x28, 0) {
        Some(open) => if plain_name_before(bytes, open) {
            list_from(bytes, open)
        } else {
            None
        },
        None => None,
    }
}

/// Position after the white space at `i`.
pub open spec fn spaces_end(bytes: Seq<u8>, i: int) -> int
    decreases bytes.len() - i,
{
    if 0 <= i < bytes.len() && byte_is_space(bytes[i]) {
        spaces_end(bytes, i + 1)
    } else {
        i
    }
}

/// The parameter list behind an occurrence of the name in `[at, end)`.
pub open spec fn list_behind(bytes: Seq<u8>, at: int, end: int) -> Option<(int, int)> {
    let open = spaces_end(bytes, end);
    if (at == 0 || !byte_in_ident(bytes[at - 1])) && (end == bytes.len() || !byte_in_ident(
        bytes[end],
    )) && !pointer_declarator(bytes, at) && open < bytes.len() && bytes[open] == 0x28 {
        list_from(bytes, open)
    } else {
        None
    }
}

/// The parameter list of the first occurrence of `name`, from `from` on, that
/// is a whole word with a closed list behind it.
pub open spec fn list_bounds_for(bytes: Seq<u8>, name: Seq<u8>, from: int) -> Option<(int, int)>
    decreases bytes.len() - from,
{
    match first_occurrence(bytes, name, from) {
        Some(at) => match list_behind(bytes, at, at + name.len()) {
            Some(bounds) => Some(bounds),
            None => if from < at + name.len() <= bytes.len() {
                list_bounds_for(bytes, name, at + name.len())
            } else {
                None
            },
        },
        None => None,
    }
}

pub open spec fn span_start(bytes: Seq<u8>, s: int, e: int) -> int
    decreases e - s,
{
    if 0 <= s < e && byte_is_space(bytes[s]) {
        span_start(bytes, s + 1, e)
    } else {
        s
    }
}

pub open spec fn span_end(bytes: Seq<u8>, s: int, e: int) -> int
    decreases e - s,
{
    if s < e && byte_is_space(bytes[e - 1]) {
        span_end(bytes, s, e - 1)
    } else {
        e
    }
}

/// `spans` and the part `[s, e)` without the white space at its ends, unless
/// nothing is left of it.
pub open spec fn with_span(bytes: Seq<u8>, s: int, e: int, spans: Seq<ParameterSpan>) -> Seq<
    ParameterSpan,
> {
    let from = span_start(bytes, s, e);
    let to = span_end(bytes, from, e);
    if from < to {
        spans.push(ParameterSpan { start: from as u32, end: to as u32 })
    } else {
        spans
    }
}

/// The parts of `[part, end)` between commas outside all brackets, read on
/// from `i`; nothing when brackets do not balance.
pub open spec fn spans_from(
    bytes: Seq<u8>,
    i: int,
    end: int,
    part: int,
    paren: nat,
    bracket: nat,
    brace: nat,
    spans: Seq<ParameterSpan>,
) -> Option<Seq<ParameterSpan>>
    decreases end - i,
{
    if i >= end {
        if paren == 0 && bracket == 0 && brace == 0 {
            Some(with_span(bytes, part, end, spans))
        } else {
            None
        }
    } else if bytes[i] == 0x28 {
        spans_from(bytes, i + 1, end, part, paren + 1, bracket, brace, spans)
    } else if bytes[i] == 0x29 {
        if paren == 0 {
            None
        } else {
            spans_from(bytes, i + 1, end, part, (paren - 1) as nat, bracket, brace, spans)
        }
    } else if bytes[i] == 0x5B {
        spans_from(bytes, i + 1, end, part, paren, bracket + 1, brace, spans)
    } else if bytes[i] == 0x5D {
        if bracket == 0 {
            None
        } else {
            spans_from(bytes, i + 1, end, part, paren, (bracket - 1) as nat, brace, spans)
        }
    } else if bytes[i] == 0x7B {
        spans_from(bytes, i + 1, end, part, paren, bracket, brace + 1, spans)
    } else if bytes[i] == 0x7D {
        if brace == 0 {
            None
        } else {
            spans_from(bytes, i + 1, end, part, paren, bracket, (brace - 1) as nat, spans)
        }
    } else if bytes[i] == 0x2C && paren == 0 && bracket == 0 && brace == 0 {
        spans_from(
            bytes,
            i + 1,
            end,
            i + 1,
            paren,
            bracket,
            brace,
            with_span(bytes, part, i, spans),
        )
    } else {
        spans_from(bytes, i + 1, end, part, paren, bracket, brace, spans)
    }
}

/// The parameters of the list between `open` and `close`.
pub open spec fn parameters_between(bytes: Seq<u8>, bounds: Option<(int, int)>) -> Seq<
    ParameterSpan,
> {
    match bounds {
        Some((open, close)) => {
            let inner = trim(decode_utf8(bytes.subrange(open + 1, close)));
            if inner.len() == 0 || inner == "void"@ {
                Seq::empty()
            } else {
                match spans_from(bytes, open + 1, close, open + 1, 0, 0, 0, Seq::empty()) {
                    Some(spans) => spans,
                    None => Seq::empty(),
                }
            }
        },
        None => Seq::empty(),
    }
}

fn label_without_brace(signature: &str) -> (r: String)
    ensures
        r@ == label_of(signature@),
{
    let chars = chars_of(signature);
    let t = trimmed_end(&chars);
    let n: usize = t.len();
    if n > 0 && t[n - 1] == '{' {
        let body = vstd::slice::slice_subrange(t, 0, n - 1);
        assert(body@ =~= t@.drop_last());
        string_of(trimmed_end(body))
    } else {
        string_of(&chars)
    }
}

/// Split a signature into its label and the byte spans of its parameters.
/// Lists that are empty, `void` or not balanced have no parameters.
pub fn signature_parts(signature: &str) -> (r: SignatureParts)
    ensures
        r.label@ == label_of(signature@),
        r.parameters@ == parameters_between(
            encode_utf8(label_of(signature@)),
            list_bounds(encode_utf8(label_of(signature@))),
        ),
{
    let label = label_without_brace(signature);
    let bounds = parameter_list_bounds(label.as_str());
    signature_parts_from_bounds(label, bounds)
}

/// As `signature_parts`, with the list that follows the word `name`.
pub fn signature_parts_for_name(signature: &str, name: &str) -> (r: SignatureParts)
    ensures
        r.label@ == label_of(signature@),
        r.parameters@ == parameters_between(
            encode_utf8(label_of(signature@)),
            if encode_utf8(name@).len() == 0 {
                None
            } else {
                list_bounds_for(encode_utf8(label_of(signature@)), encode_utf8(name@), 0)
            },
        ),
{
    let label = label_without_brace(signature);
    let bounds = parameter_list_bounds_for_name(label.as_str(), name);
    signature_parts_from_bounds(label, bounds)
}

pub open spec fn opt_pair(r: Option<(usize, usize)>) -> Option<(int, int)> {
    match r {
        Some((a, b)) => Some((a as int, b as int)),
        None => None,
    }
}

pub open spec fn is_list(bytes: Seq<u8>, r: Option<(usize, usize)>) -> bool {
    match r {
        Some((open, close)) => open < close < bytes.len() && bytes[open as int] == 0x28
            && bytes[close as int] == 0x29,
        None => true,
    }
}

fn signature_parts_from_bounds(label: String, bounds: Option<(usize, usize)>) -> (r: SignatureParts)
    requires
        is_list(encode_utf8(label@), bounds),
    ensures
        r.label@ == label@,
        r.parameters@ == parameters_between(encode_utf8(label@), opt_pair(bounds)),
{
    let (open, close) = match bounds {
        Some((open, close)) => (open, close),
        None => {
            return SignatureParts { label, parameters: Vec::new() };
        },
    };
    let no_list = {
        let inner = chars_of(text_between_ascii(label.as_str(), open, close));
        let t = trimmed(&inner);
        t.len() == 0 || is_word(t, "void")
    };
    if no_list {
        return SignatureParts { label, parameters: Vec::new() };
    }
    let spans = split_parameter_spans(label.as_str().as_bytes(), open + 1, close);
    match spans {
        Some(parameters) => SignatureParts { label, parameters },
        None => SignatureParts { label, parameters: Vec::new() },
    }
}

fn parameter_list_bounds(label: &str) -> (r: Option<(usize, usize)>)
    ensures
        opt_pair(r) == list_bounds(encode_utf8(label@)),
        is_list(encode_utf8(label@), r),
{
    let bytes = label.as_bytes();
    let mut open: usize = 0;
    while open < bytes.len() && bytes[open] != 0x28
        invariant
            open <= bytes@.len(),
            first_byte(bytes@, 0x28, 0) == first_byte(bytes@, 0x28, open as int),
        decreases bytes@.len() - open,
    {
        open = open + 1;
    }
    if open >= bytes.len() || !is_plain_function_name_before(bytes, open) {
        return None;
    }
    match matching_close_paren(bytes, open) {
        Some(close) => Some((open, close)),
        None => None,
    }
}

fn parameter_list_bounds_for_name(label: &str, name: &str) -> (r: Option<(usize, usize)>)
    ensures
        opt_pair(r) == (if encode_utf8(name@).len() == 0 {
            None
        } else {
            list_bounds_for(encode_utf8(label@), encode_utf8(name@), 0)
        }),
        is_list(encode_utf8(label@), r),
{
    let bytes = label.as_bytes();
    let wanted = name.as_bytes();
    if wanted.len() == 0 {
        return None;
    }
    let len: usize = bytes.len();
    let mut from: usize = 0;
    loop
        invariant
            from <= bytes@.len(),
            len == bytes@.len(),
            wanted@.len() > 0,
            wanted@ == encode_utf8(name@),
            bytes@ == encode_utf8(label@),
            list_bounds_for(bytes@, wanted@, 0) == list_bounds_for(bytes@, wanted@, from as int),
        decreases bytes@.len() - from,
    {
        let at: usize = match find_bytes(bytes, wanted, from) {
            Some(at) => at,
            None => {
                return None;
            },
        };
        proof {
            occurrence_not_before(bytes@, wanted@, from as int);
        }
        let end: usize = at + wanted.len();
        let whole = (at == 0 || !is_ident_continue(bytes[at - 1])) && (end == bytes.len()
            || !is_ident_continue(bytes[end]));
        if whole && !is_function_pointer_declarator_name(bytes, at) {
            let open: usize = skip_ascii_whitespace(bytes, end);
            if open < bytes.len() && bytes[open] == 0x28 {
                match matching_close_paren(bytes, open) {
                    Some(close) => {
                        return Some((open, close));
                    },
                    None => {},
                }
            }
        }
        from = end;
    }
}

proof fn occurrence_not_before(hay: Seq<u8>, needle: Seq<u8>, from: int)
    ensures
        match first_occurrence(hay, needle, from) {
            Some(at) => from <= at,
            None => true,
        },
    decreases hay.len() - from + 1,
{
    if 0 <= from && from + needle.len() <= hay.len() {
        occurrence_not_before(hay, needle, from + 1);
    }
}

fn matching_close_paren(bytes: &[u8], open: usize) -> (r: Option<usize>)
    requires
        open < bytes@.len(),
    ensures
        match r {
            Some(close) => close_paren(bytes@, open + 1, 1) == Some(close as int) && open < close
                < bytes@.len() && bytes@[close as int] == 0x29,
            None => close_paren(bytes@, open + 1, 1) is None,
        },
{
    let len: usize = bytes.len();
    let mut depth: usize = 1;
    let mut i: usize = open + 1;
    while i < len
        invariant
            open < i <= len,
            len == bytes@.len(),
            1 <= depth <= i - open,
            close_paren(bytes@, open + 1, 1) == close_paren(bytes@, i as int, depth as nat),
        decreases len - i,
    {
        if bytes[i] == 0x28 {
            depth = depth + 1;
        } else if bytes[i] == 0x29 {
            if depth <= 1 {
                return Some(i);
            }
            depth = depth - 1;
        }
        i = i + 1;
    }
    None
}

fn is_plain_function_name_before(bytes: &[u8], open_paren: usize) -> (r: bool)
    requires
        open_paren < bytes@.len(),
    ensures
        r == plain_name_before(bytes@, open_paren as int),
{
    if open_paren == 0 || !is_ident_continue(bytes[open_paren - 1]) {
        return false;
    }
    match identifier_start_before(bytes, open_paren) {
        Some(start) => !is_function_pointer_declarator_name(bytes, start),
        None => false,
    }
}

fn is_function_pointer_declarator_name(bytes: &[u8], name_start: usize) -> (r: bool)
    requires
        name_start <= bytes@.len(),
    ensures
        r == pointer_declarator(bytes@, name_start as int),
{
    match previous_non_ws_index(bytes, name_start) {
        Some(p) => (bytes[p] == 0x2A || bytes[p] == 0x26) && previous_non_ws_is(bytes, p, 0x28),
        None => false,
    }
}

fn skip_ascii_whitespace(bytes: &[u8], idx: usize) -> (r: usize)
    requires
        idx <= bytes@.len(),
    ensures
        r == spaces_end(bytes@, idx as int),
        idx <= r <= bytes@.len(),
{
    let mut i: usize = idx;
    while i < bytes.len() && is_space_byte(bytes[i])
        invariant
            idx <= i <= bytes@.len(),
            spaces_end(bytes@, idx as int) == spaces_end(bytes@, i as int),
        decreases bytes@.len() - i,
    {
        i = i + 1;
    }
    i
}

fn split_parameter_spans(bytes: &[u8], start: usize, end: usize) -> (r: Option<Vec<ParameterSpan>>)
    requires
        start <= end <= bytes@.len(),
    ensures
        match r {
            Some(spans) => spans_from(
                bytes@,
                start as int,
                end as int,
                start as int,
                0,
                0,
                0,
                Seq::empty(),
            ) == Some(spans@),
            None => spans_from(
                bytes@,
                start as int,
                end as int,
                start as int,
                0,
                0,
                0,
                Seq::empty(),
            ) is None,
        },
{
    let mut spans: Vec<ParameterSpan> = Vec::new();
    let mut part: usize = start;
    let mut paren: usize = 0;
    let mut bracket: usize = 0;
    let mut brace: usize = 0;
    let mut i: usize = start;
    while i < end
        invariant
            start <= part <= i <= end <= bytes@.len(),
            paren <= i,
            bracket <= i,
            brace <= i,
            spans_from(bytes@, start as int, end as int, start as int, 0, 0, 0, Seq::empty())
                == spans_from(
                bytes@,
                i as int,
                end as int,
                part as int,
                paren as nat,
                bracket as nat,
                brace as nat,
                spans@,
            ),
        decreases end - i,
    {
        let b = bytes[i];
        if b == 0x28 {
            paren = paren + 1;
        } else if b == 0x29 {
            if paren == 0 {
                return None;
            }
            paren = paren - 1;
        } else if b == 0x5B {
            bracket = bracket + 1;
        } else if b == 0x5D {
            if bracket == 0 {
                return None;
            }
            bracket = bracket - 1;
        } else if b == 0x7B {
            brace = brace + 1;
        } else if b == 0x7D {
            if brace == 0 {
                return None;
            }
            brace = brace - 1;
        } else if b == 0x2C && paren == 0 && bracket == 0 && brace == 0 {
            push_trimmed_span(bytes, part, i, &mut spans);
            part = i + 1;
        }
        i = i + 1;
    }
    if paren != 0 || bracket != 0 || brace != 0 {
        return None;
    }
    push_trimmed_span(bytes, part, end, &mut spans);
    Some(spans)
}

#[verifier::truncate]
fn low_u32(n: usize) -> (r: u32)
    ensures
        r == n as u32,
{
    n as u32
}

fn push_trimmed_span(bytes: &[u8], start: usize, end: usize, spans: &mut Vec<ParameterSpan>)
    requires
        start <= end <= bytes@.len(),
    ensures
        final(spans)@ == with_span(bytes@, start as int, end as int, old(spans)@),
{
    let mut s: usize = start;
    while s < end && is_space_byte(bytes[s])
        invariant
            start <= s <= end <= bytes@.len(),
            span_start(bytes@, start as int, end as int) == span_start(
                bytes@,
                s as int,
                end as int,
            ),
        decreases end - s,
    {
        s = s + 1;
    }
    let mut e: usize = end;
    while e > s && is_space_byte(bytes[e - 1])
        invariant
            s <= e <= end <= bytes@.len(),
            span_end(bytes@, s as int, end as int) == span_end(bytes@, s as int, e as int),
        decreases e - s,
    {
        e = e - 1;
    }
    if s < e {
        spans.push(ParameterSpan { start: low_u32(s), end: low_u32(e) });
    }
}

} // verus!
