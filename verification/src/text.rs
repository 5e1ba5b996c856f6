//! Cursor text: identifiers, completion prefixes and member-access chains
//! around an LSP position.

use vstd::prelude::*;
use vstd::slice::slice_subrange;
use vstd::utf8::encode_utf8;

use crate::chars::{
    byte_is_alpha, byte_is_digit, byte_is_lower, byte_is_upper, bytes_lower, char_in_ident,
    char_starts_ident, chars_of, find_bytes, first_occurrence, in_ident,
    is_alpha_byte, is_digit_byte, is_lower_byte, is_upper_byte, skip_ws_back, lower_bytes, occurs_at, skip_ws,
    matches_at, opt_text, same_bytes, space_run_end, space_run_start, starts_ident, string_between, texts, utf16_width, utf8_len,
    utf8_width,
};
use crate::query::{MIN_PREFIX_LEN, SHORT_PREFIX_MIN_LEN};

verus! {

// ---------------------------------------------------------------------------
// Positions

/// The character reached from `i` by moving right while the UTF-16 width
/// passed over stays within `units`.
pub open spec fn utf16_index_from(s: Seq<char>, i: int, units: int) -> int
    decreases s.len() - i,
{
    if i < 0 || i >= s.len() || utf16_width(s[i]) > units {
        i
    } else {
        utf16_index_from(s, i + 1, units - utf16_width(s[i]))
    }
}

/// Start of the identifier run that ends before `i`.
pub open spec fn ident_run_start(s: Seq<char>, i: int) -> int
    decreases i,
{
    if 0 < i <= s.len() && char_in_ident(s[i - 1]) {
        ident_run_start(s, i - 1)
    } else {
        i
    }
}

/// End of the identifier run that starts at `i`.
pub open spec fn ident_run_end(s: Seq<char>, i: int) -> int
    decreases s.len() - i,
{
    if 0 <= i < s.len() && char_in_ident(s[i]) {
        ident_run_end(s, i + 1)
    } else {
        i
    }
}

fn char_index_at_utf16(chars: &[char], character: u32) -> (r: usize)
    ensures
        r == utf16_index_from(chars@, 0, character as int),
        r <= chars@.len(),
{
    index_at_utf16_between(chars, 0, chars.len(), character)
}

/// As `char_index_at_utf16`, on the characters in `[from, to)`.
fn index_at_utf16_between(chars: &[char], from: usize, to: usize, character: u32) -> (r: usize)
    requires
        from <= to <= chars@.len(),
    ensures
        r == utf16_index_from(chars@.subrange(0, to as int), from as int, character as int),
        from <= r <= to,
        to == chars@.len() ==> r == utf16_index_from(chars@, from as int, character as int),
{
    let mut units: u32 = character;
    let mut idx: usize = from;
    let ghost s = chars@.subrange(0, to as int);
    assert(to == chars@.len() ==> s =~= chars@);
    while idx < to
        invariant
            from <= idx <= to <= chars@.len(),
            s == chars@.subrange(0, to as int),
            utf16_index_from(s, from as int, character as int) == utf16_index_from(
                s,
                idx as int,
                units as int,
            ),
            to == chars@.len() ==> s == chars@,
        decreases to - idx,
    {
        let width: u32 = if (chars[idx] as u32) < 0x10000 {
            1
        } else {
            2
        };
        if width > units {
            return idx;
        }
        units = units - width;
        idx = idx + 1;
    }
    idx
}

fn ident_start_before(chars: &[char], end: usize) -> (r: usize)
    requires
        end <= chars@.len(),
    ensures
        r == ident_run_start(chars@, end as int),
        r <= end,
        forall|k: int| r <= k < end ==> char_in_ident(chars@[k]),
{
    let mut start: usize = end;
    while start > 0 && in_ident(chars[start - 1])
        invariant
            start <= end <= chars@.len(),
            ident_run_start(chars@, end as int) == ident_run_start(chars@, start as int),
            forall|k: int| start <= k < end ==> char_in_ident(chars@[k]),
        decreases start,
    {
        start = start - 1;
    }
    start
}

pub fn ident_end_after(chars: &[char], start: usize) -> (r: usize)
    requires
        start <= chars@.len(),
    ensures
        r == ident_run_end(chars@, start as int),
        start <= r <= chars@.len(),
{
    let mut end: usize = start;
    while end < chars.len() && in_ident(chars[end])
        invariant
            start <= end <= chars@.len(),
            ident_run_end(chars@, start as int) == ident_run_end(chars@, end as int),
        decreases chars@.len() - end,
    {
        end = end + 1;
    }
    end
}

// ---------------------------------------------------------------------------
// Words

/// The identifier that touches character `target`: the run under the cursor,
/// else the run that ends right before it, unless it starts with a digit.
pub open spec fn word_touching(s: Seq<char>, target: int) -> Option<Seq<char>> {
    let on = target < s.len() && char_in_ident(s[target]);
    let after = target > 0 && char_in_ident(s[target - 1]);
    if !on && !after {
        None
    } else {
        let at = if on {
            target
        } else {
            target - 1
        };
        let start = ident_run_start(s, at);
        let end = ident_run_end(s, at + 1);
        if char_starts_ident(s[start]) {
            Some(s.subrange(start, end))
        } else {
            None
        }
    }
}

/// Extract the identifier at an LSP position within a single line.
/// `character` is a UTF-16 code-unit offset.
pub fn word_at(line_text: &str, character: u32) -> (r: Option<String>)
    ensures
        opt_text(r) == word_touching(
            line_text@,
            utf16_index_from(line_text@, 0, character as int),
        ),
{
    let chars = chars_of(line_text);
    let target: usize = char_index_at_utf16(&chars, character);
    let at: usize = if target < chars.len() && in_ident(chars[target]) {
        target
    } else if target > 0 && in_ident(chars[target - 1]) {
        target - 1
    } else {
        return None;
    };
    let start: usize = ident_start_before(&chars, at);
    let end: usize = ident_end_after(&chars, at + 1);
    if starts_ident(chars[start]) {
        Some(string_between(&chars, start, end))
    } else {
        None
    }
}

/// The identifier prefix that ends right before character `target`.
pub open spec fn prefix_before(s: Seq<char>, target: int) -> Option<Seq<char>> {
    let start = ident_run_start(s, target);
    if start < target && char_starts_ident(s[start]) {
        Some(s.subrange(start, target))
    } else {
        None
    }
}

/// Extract the identifier prefix immediately before an LSP cursor position.
/// What follows the cursor plays no part: completion searches for what has
/// been typed.
pub fn completion_prefix_at(line_text: &str, character: u32) -> (r: Option<String>)
    ensures
        opt_text(r) == prefix_before(
            line_text@,
            utf16_index_from(line_text@, 0, character as int),
        ),
{
    let chars = chars_of(line_text);
    let target: usize = char_index_at_utf16(&chars, character);
    let start: usize = ident_start_before(&chars, target);
    if start < target && starts_ident(chars[start]) {
        Some(string_between(&chars, start, target))
    } else {
        None
    }
}

// ---------------------------------------------------------------------------
// Member access

/// Start of the `.` or `->` that stands before `prefix_start`, white space
/// aside.
pub open spec fn member_operator_start(s: Seq<char>, prefix_start: int) -> Option<int> {
    let op_end = space_run_start(s, prefix_start);
    if op_end >= 1 && s[op_end - 1] == '.' {
        Some(op_end - 1)
    } else if op_end >= 2 && s[op_end - 2] == '-' && s[op_end - 1] == '>' {
        Some(op_end - 2)
    } else {
        None
    }
}

pub open spec fn opt_index(r: Option<usize>) -> Option<int> {
    match r {
        Some(i) => Some(i as int),
        None => None,
    }
}

fn member_operator_before_prefix(chars: &[char], prefix_start: usize) -> (r: Option<usize>)
    requires
        prefix_start <= chars@.len(),
    ensures
        opt_index(r) == member_operator_start(chars@, prefix_start as int),
        r is Some ==> r->0 <= chars@.len(),
{
    let op_end: usize = skip_ws_back(chars, prefix_start);
    if op_end >= 1 && chars[op_end - 1] == '.' {
        Some(op_end - 1)
    } else if op_end >= 2 && chars[op_end - 2] == '-' && chars[op_end - 1] == '>' {
        Some(op_end - 2)
    } else {
        None
    }
}

/// Whether the completion prefix stands after `.` or `->`.
pub fn is_member_completion_context(line_text: &str, character: u32) -> (r: bool)
    ensures
        r == (member_operator_start(
            line_text@,
            ident_run_start(line_text@, utf16_index_from(line_text@, 0, character as int)),
        ) is Some),
{
    let chars = chars_of(line_text);
    let target: usize = char_index_at_utf16(&chars, character);
    let start: usize = ident_start_before(&chars, target);
    member_operator_before_prefix(&chars, start).is_some()
}

/// A receiver and the members already selected from it.
#[derive(Debug, Clone, PartialEq, Eq)]
pub struct MemberAccessChain {
    pub receiver: String,
    pub completed_members: Vec<String>,
}

/// A member-access chain as sequences of characters.
pub struct Chain {
    pub receiver: Seq<char>,
    pub members: Seq<Seq<char>>,
}

impl View for MemberAccessChain {
    type V = Chain;

    open spec fn view(&self) -> Chain {
        Chain { receiver: self.receiver@, members: texts(self.completed_members@) }
    }
}

pub open spec fn opt_chain(r: Option<MemberAccessChain>) -> Option<Chain> {
    match r {
        Some(c) => Some(c@),
        None => None,
    }
}

/// Position after the quoted text whose contents start at `i`; a backslash
/// hides the character after it.
pub open spec fn quoted_end(s: Seq<char>, quote: char, i: int) -> int
    decreases s.len() + 1 - i,
{
    if i < 0 || i >= s.len() {
        s.len() as int
    } else if s[i] == '\\' {
        quoted_end(s, quote, i + 2)
    } else if s[i] == quote {
        i + 1
    } else {
        quoted_end(s, quote, i + 1)
    }
}

fn skip_quoted(chars: &[char], quote_start: usize) -> (r: usize)
    requires
        quote_start < chars@.len(),
    ensures
        r == quoted_end(chars@, chars@[quote_start as int], quote_start + 1),
        quote_start < r <= chars@.len(),
{
    let quote = chars[quote_start];
    let mut cursor: usize = quote_start + 1;
    while cursor < chars.len()
        invariant
            quote_start < cursor <= chars@.len(),
            quoted_end(chars@, quote, quote_start + 1) == quoted_end(chars@, quote, cursor as int),
            quote == chars@[quote_start as int],
        decreases chars@.len() - cursor,
    {
        if chars[cursor] == '\\' {
            assert(chars@.len() - cursor <= 2 ==> quoted_end(chars@, quote, cursor + 2)
                == chars@.len());
            if chars.len() - cursor <= 2 {
                return chars.len();
            }
            cursor = cursor + 2;
        } else if chars[cursor] == quote {
            return cursor + 1;
        } else {
            cursor = cursor + 1;
        }
    }
    chars.len()
}

/// Position of the first line break at or after `i`.
pub open spec fn line_end(s: Seq<char>, i: int) -> int
    decreases s.len() - i,
{
    if 0 <= i < s.len() && s[i] != '\n' {
        line_end(s, i + 1)
    } else {
        i
    }
}

pub fn find_line_end(chars: &[char], from: usize) -> (r: usize)
    requires
        from <= chars@.len(),
    ensures
        r == line_end(chars@, from as int),
        from <= r <= chars@.len(),
{
    let mut i: usize = from;
    while i < chars.len() && chars[i] != '\n'
        invariant
            from <= i <= chars@.len(),
            line_end(chars@, from as int) == line_end(chars@, i as int),
        decreases chars@.len() - i,
    {
        i = i + 1;
    }
    i
}

/// Position after the `*/` that ends a block comment whose text starts at
/// `i`, the end of the text if there is none.
pub open spec fn block_comment_end(s: Seq<char>, i: int) -> int
    decreases s.len() - i,
{
    if i < 0 || i + 1 >= s.len() {
        s.len() as int
    } else if s[i] == '*' && s[i + 1] == '/' {
        i + 2
    } else {
        block_comment_end(s, i + 1)
    }
}

pub fn find_block_comment_end(chars: &[char], from: usize) -> (r: usize)
    requires
        from <= chars@.len(),
    ensures
        r == block_comment_end(chars@, from as int),
        from <= r <= chars@.len(),
{
    let mut i: usize = from;
    while chars.len() - i > 1
        invariant
            from <= i <= chars@.len(),
            block_comment_end(chars@, from as int) == block_comment_end(chars@, i as int),
        decreases chars@.len() - i,
    {
        if chars[i] == '*' && chars[i + 1] == '/' {
            return i + 2;
        }
        i = i + 1;
    }
    chars.len()
}

/// Position after the `close` that balances `depth` open delimiters, reading
/// from `i`. Quoted text and comments are passed over; a `(` that is not
/// itself the delimiter must be balanced too.
pub open spec fn balanced_end(s: Seq<char>, i: int, depth: nat, open: char, close: char) -> Option<
    int,
>
    decreases s.len() - i,
{
    if i < 0 || i >= s.len() {
        None
    } else if s[i] == '"' || s[i] == '\'' {
        let next = quoted_end(s, s[i], i + 1);
        if i < next <= s.len() {
            balanced_end(s, next, depth, open, close)
        } else {
            None
        }
    } else if s[i] == '/' && i + 1 < s.len() && s[i + 1] == '/' {
        let next = line_end(s, i + 2);
        if i < next <= s.len() {
            balanced_end(s, next, depth, open, close)
        } else {
            None
        }
    } else if s[i] == '/' && i + 1 < s.len() && s[i + 1] == '*' {
        let next = block_comment_end(s, i + 2);
        if i < next <= s.len() {
            balanced_end(s, next, depth, open, close)
        } else {
            None
        }
    } else if s[i] == open {
        balanced_end(s, i + 1, depth + 1, open, close)
    } else if s[i] == close {
        if depth <= 1 {
            Some(i + 1)
        } else {
            balanced_end(s, i + 1, (depth - 1) as nat, open, close)
        }
    } else if s[i] == '(' {
        match balanced_end(s, i + 1, 1, '(', ')') {
            Some(next) => if i < next <= s.len() {
                balanced_end(s, next, depth, open, close)
            } else {
                None
            },
            None => None,
        }
    } else {
        balanced_end(s, i + 1, depth, open, close)
    }
}

fn skip_balanced(chars: &[char], open_pos: usize, open: char, close: char) -> (r: Option<usize>)
    requires
        open_pos < chars@.len(),
        chars@[open_pos as int] == open,
    ensures
        opt_index(r) == balanced_end(chars@, open_pos + 1, 1, open, close),
        r is Some ==> open_pos < r->0 <= chars@.len(),
    decreases chars@.len() - open_pos,
{
    let len: usize = chars.len();
    let mut depth: usize = 1;
    let mut cursor: usize = open_pos + 1;
    while cursor < len
        invariant
            open_pos < cursor <= len,
            len == chars@.len(),
            1 <= depth <= cursor,
            balanced_end(chars@, open_pos + 1, 1, open, close) == balanced_end(
                chars@,
                cursor as int,
                depth as nat,
                open,
                close,
            ),
        decreases chars@.len() - cursor,
    {
        let ch = chars[cursor];
        if ch == '"' || ch == '\'' {
            cursor = skip_quoted(chars, cursor);
        } else if ch == '/' && chars.len() - cursor > 1 && chars[cursor + 1] == '/' {
            cursor = find_line_end(chars, cursor + 2);
        } else if ch == '/' && chars.len() - cursor > 1 && chars[cursor + 1] == '*' {
            cursor = find_block_comment_end(chars, cursor + 2);
        } else if ch == open {
            depth = depth + 1;
            cursor = cursor + 1;
        } else if ch == close {
            cursor = cursor + 1;
            if depth <= 1 {
                return Some(cursor);
            }
            depth = depth - 1;
        } else if ch == '(' {
            match skip_balanced(chars, cursor, '(', ')') {
                Some(next) => {
                    cursor = next;
                },
                None => {
                    return None;
                },
            }
        } else {
            cursor = cursor + 1;
        }
    }
    None
}

/// Position after the leading `*` and `&` operators.
pub open spec fn unary_run_end(s: Seq<char>, i: int) -> int
    decreases s.len() - i,
{
    if 0 <= i < s.len() && (s[i] == '*' || s[i] == '&') {
        let next = space_run_end(s, i + 1);
        if i < next <= s.len() {
            unary_run_end(s, next)
        } else {
            i
        }
    } else {
        i
    }
}

/// The identifier at `i`, with the position after it.
pub open spec fn identifier_at(s: Seq<char>, i: int) -> Option<(Seq<char>, int)> {
    if 0 <= i < s.len() && char_starts_ident(s[i]) {
        let end = ident_run_end(s, i + 1);
        Some((s.subrange(i, end), end))
    } else {
        None
    }
}

/// The subscripts and member selections that follow a receiver, read from
/// `i`: what they select, and the position after them.
pub open spec fn selections_from(s: Seq<char>, i: int, members: Seq<Seq<char>>) -> Option<
    (Seq<Seq<char>>, int),
>
    decreases s.len() - i,
{
    let at = space_run_end(s, i);
    if at < i || at < 0 || at >= s.len() {
        Some((members, at))
    } else if s[at] == '[' {
        match balanced_end(s, at + 1, 1, '[', ']') {
            Some(next) => if at < next <= s.len() {
                selections_from(s, next, members)
            } else {
                None
            },
            None => None,
        }
    } else if s[at] == '.' || (s[at] == '-' && at + 1 < s.len() && s[at + 1] == '>') {
        let after = if s[at] == '.' {
            at + 1
        } else {
            at + 2
        };
        match identifier_at(s, space_run_end(s, after)) {
            Some((name, next)) => if at < next <= s.len() {
                selections_from(s, next, members.push(name))
            } else {
                None
            },
            None => None,
        }
    } else {
        Some((members, at))
    }
}

/// The member chain that starts at `i`, with the position after it: unary
/// operators, a receiver (a name, or a chain in parentheses), selections.
pub open spec fn chain_from(s: Seq<char>, i: int) -> Option<(Chain, int)>
    decreases s.len() - i,
{
    let at = unary_run_end(s, space_run_end(s, i));
    if at < i || at < 0 || at >= s.len() {
        None
    } else if s[at] == '(' {
        match chain_from(s, at + 1) {
            Some((inner, inner_end)) => {
                let close = space_run_end(s, inner_end);
                if 0 <= close < s.len() && s[close] == ')' {
                    match selections_from(s, close + 1, inner.members) {
                        Some((members, next)) => Some(
                            (Chain { receiver: inner.receiver, members }, next),
                        ),
                        None => None,
                    }
                } else {
                    None
                }
            },
            None => None,
        }
    } else {
        match identifier_at(s, at) {
            Some((receiver, after)) => match selections_from(s, after, Seq::empty()) {
                Some((members, next)) => Some((Chain { receiver, members }, next)),
                None => None,
            },
            None => None,
        }
    }
}

/// The chain that spans all of `s`, white space aside.
pub open spec fn whole_chain(s: Seq<char>) -> Option<Chain> {
    match chain_from(s, space_run_end(s, 0)) {
        Some((chain, next)) => if space_run_end(s, next) == s.len() {
            Some(chain)
        } else {
            None
        },
        None => None,
    }
}

/// The first chain that spans from some start at or after `from` up to
/// `op_pos`. A chain does not start inside a name or behind a selector.
pub open spec fn first_chain(s: Seq<char>, from: int, op_pos: int) -> Option<Chain>
    decreases op_pos - from,
{
    if from < 0 || from >= op_pos {
        None
    } else if from > 0 && (char_in_ident(s[from - 1]) || s[from - 1] == '.' || s[from - 1] == '>'
        || s[from - 1] == ']' || s[from - 1] == ')') {
        first_chain(s, from + 1, op_pos)
    } else {
        match whole_chain(s.subrange(from, op_pos)) {
            Some(chain) => Some(chain),
            None => first_chain(s, from + 1, op_pos),
        }
    }
}

/// The chain before the member prefix that ends at `target`.
pub open spec fn chain_before(s: Seq<char>, target: int) -> Option<Chain> {
    match member_operator_start(s, ident_run_start(s, target)) {
        Some(op_pos) => first_chain(s, 0, op_pos),
        None => None,
    }
}

/// Extract a bounded C member chain before the current member prefix: plain
/// identifiers with array subscripts, parentheses and unary `*`/`&`, such as
/// `a.b[i].`, `p->items[n]->` or `(*p).x.`. Calls, casts and arithmetic are
/// not chains.
pub fn member_access_chain_at(line_text: &str, character: u32) -> (r: Option<MemberAccessChain>)
    ensures
        opt_chain(r) == chain_before(
            line_text@,
            utf16_index_from(line_text@, 0, character as int),
        ),
{
    let chars = chars_of(line_text);
    let target: usize = char_index_at_utf16(&chars, character);
    let start: usize = ident_start_before(&chars, target);
    let op_pos: usize = match member_operator_before_prefix(&chars, start) {
        Some(op_pos) => op_pos,
        None => {
            return None;
        },
    };
    let mut from: usize = 0;
    while from < op_pos
        invariant
            from <= op_pos <= chars@.len(),
            first_chain(chars@, 0, op_pos as int) == first_chain(
                chars@,
                from as int,
                op_pos as int,
            ),
            chars@ == line_text@,
            chain_before(chars@, utf16_index_from(line_text@, 0, character as int)) == first_chain(
                chars@,
                0,
                op_pos as int,
            ),
        decreases op_pos - from,
    {
        let inside = from > 0 && {
            let c = chars[from - 1];
            in_ident(c) || c == '.' || c == '>' || c == ']' || c == ')'
        };
        if !inside {
            let chain = parse_member_chain_expr(
                slice_subrange(chars.as_slice(), from, op_pos),
            );
            if chain.is_some() {
                return chain;
            }
        }
        from = from + 1;
    }
    None
}

fn parse_member_chain_expr(chars: &[char]) -> (r: Option<MemberAccessChain>)
    ensures
        opt_chain(r) == whole_chain(chars@),
{
    let cursor: usize = skip_ws(chars, 0);
    match parse_chain_expr(chars, cursor) {
        Some((chain, next)) => {
            if skip_ws(chars, next) == chars.len() {
                Some(chain)
            } else {
                None
            }
        },
        None => None,
    }
}

fn parse_chain_expr(chars: &[char], from: usize) -> (r: Option<(MemberAccessChain, usize)>)
    requires
        from <= chars@.len(),
    ensures
        match r {
            Some((chain, next)) => chain_from(chars@, from as int) == Some((chain@, next as int))
                && from <= next <= chars@.len(),
            None => chain_from(chars@, from as int) is None,
        },
    decreases chars@.len() - from,
{
    let mut cursor: usize = skip_ws(chars, from);
    let ghost first = cursor as int;
    while cursor < chars.len() && (chars[cursor] == '*' || chars[cursor] == '&')
        invariant
            from <= first <= cursor <= chars@.len(),
            unary_run_end(chars@, first) == unary_run_end(chars@, cursor as int),
        decreases chars@.len() - cursor,
    {
        cursor = skip_ws(chars, cursor + 1);
    }
    if cursor >= chars.len() {
        return None;
    }
    if chars[cursor] == '(' {
        match parse_chain_expr(chars, cursor + 1) {
            Some((inner, inner_end)) => {
                let close: usize = skip_ws(chars, inner_end);
                if close < chars.len() && chars[close] == ')' {
                    parse_selections(chars, close + 1, inner)
                } else {
                    None
                }
            },
            None => None,
        }
    } else {
        match parse_identifier(chars, cursor) {
            Some((receiver, next)) => {
                let chain = MemberAccessChain { receiver, completed_members: Vec::new() };
                assert(chain@.members =~= Seq::<Seq<char>>::empty());
                parse_selections(chars, next, chain)
            },
            None => None,
        }
    }
}

/// Extend `chain` by the selections that start at `from`.
fn parse_selections(chars: &[char], from: usize, chain: MemberAccessChain) -> (r: Option<
    (MemberAccessChain, usize),
>)
    requires
        from <= chars@.len(),
    ensures
        match r {
            Some((out, next)) => selections_from(chars@, from as int, chain@.members) == Some(
                (out@.members, next as int),
            ) && out@.receiver == chain@.receiver && from <= next <= chars@.len(),
            None => selections_from(chars@, from as int, chain@.members) is None,
        },
{
    let mut out = chain;
    let mut cursor: usize = from;
    loop
        invariant
            from <= cursor <= chars@.len(),
            out@.receiver == chain@.receiver,
            selections_from(chars@, from as int, chain@.members) == selections_from(
                chars@,
                cursor as int,
                out@.members,
            ),
        decreases chars@.len() - cursor,
    {
        let at: usize = skip_ws(chars, cursor);
        if at >= chars.len() {
            return Some((out, at));
        }
        if chars[at] == '[' {
            match skip_balanced(chars, at, '[', ']') {
                Some(next) => {
                    cursor = next;
                },
                None => {
                    return None;
                },
            }
        } else {
            let after: usize = if chars[at] == '.' {
                at + 1
            } else if chars[at] == '-' && chars.len() - at > 1 && chars[at + 1] == '>' {
                at + 2
            } else {
                return Some((out, at));
            };
            match parse_identifier(chars, skip_ws(chars, after)) {
                Some((member, next)) => {
                    let ghost members = out@.members;
                    let ghost name = member@;
                    out.completed_members.push(member);
                    assert(out@.members =~= members.push(name));
                    cursor = next;
                },
                None => {
                    return None;
                },
            }
        }
    }
}

fn parse_identifier(chars: &[char], cursor: usize) -> (r: Option<(String, usize)>)
    requires
        cursor <= chars@.len(),
    ensures
        match r {
            Some((name, next)) => identifier_at(chars@, cursor as int) == Some(
                (name@, next as int),
            ) && cursor < next <= chars@.len(),
            None => identifier_at(chars@, cursor as int) is None,
        },
{
    if cursor >= chars.len() || !starts_ident(chars[cursor]) {
        return None;
    }
    let end: usize = ident_end_after(chars, cursor + 1);
    Some((string_between(chars, cursor, end), end))
}

/// The single receiver name before the `.`/`->` at the cursor, when nothing
/// is selected from it yet.
pub fn member_receiver_name(line_text: &str, character: u32) -> (r: Option<String>)
    ensures
        opt_text(r) == match chain_before(
            line_text@,
            utf16_index_from(line_text@, 0, character as int),
        ) {
            Some(chain) => if chain.members.len() == 0 {
                Some(chain.receiver)
            } else {
                None
            },
            None => None,
        },
{
    match member_access_chain_at(line_text, character) {
        Some(chain) => {
            if chain.completed_members.len() == 0 {
                Some(chain.receiver)
            } else {
                None
            }
        },
        None => None,
    }
}

// ---------------------------------------------------------------------------
// Byte offsets

/// Start of line `line`, counted from `i` on; the end of the text when there
/// are fewer lines.
pub open spec fn line_start(s: Seq<char>, i: int, line: int) -> int
    decreases s.len() - i,
{
    if line <= 0 || i < 0 || i >= s.len() {
        i
    } else if s[i] == '\n' {
        line_start(s, i + 1, line - 1)
    } else {
        line_start(s, i + 1, line)
    }
}

/// Position after the line break that ends the line at `i`.
pub open spec fn line_limit(s: Seq<char>, i: int) -> int {
    let end = line_end(s, i);
    if end < s.len() {
        end + 1
    } else {
        s.len() as int
    }
}

/// The character at an LSP position.
pub open spec fn position_index(s: Seq<char>, line: int, character: int) -> int {
    let start = line_start(s, 0, line);
    utf16_index_from(s.subrange(0, line_limit(s, start)), start, character)
}

/// UTF-8 length of the first `k` characters.
pub open spec fn utf8_offset(s: Seq<char>, k: int) -> nat
    decreases k,
{
    if k <= 0 || k > s.len() {
        0
    } else {
        utf8_offset(s, k - 1) + utf8_width(s[k - 1])
    }
}

proof fn encode_len(s: Seq<char>, k: int)
    requires
        0 <= k <= s.len(),
    ensures
        utf8_offset(s, k) + encode_utf8(s.subrange(k, s.len() as int)).len() == encode_utf8(
            s,
        ).len(),
    decreases k,
{
    if k == 0 {
        assert(s.subrange(0, s.len() as int) =~= s);
    } else {
        encode_len(s, k - 1);
        let rest = s.subrange(k - 1, s.len() as int);
        assert(rest.drop_first() =~= s.subrange(k, s.len() as int));
        assert(rest[0] == s[k - 1]);
    }
}

/// UTF-8 offsets count exactly the bytes of the text before a character.
pub proof fn utf8_offset_is_byte_offset(s: Seq<char>, k: int)
    requires
        0 <= k <= s.len(),
    ensures
        utf8_offset(s, k) <= encode_utf8(s).len(),
        k == s.len() ==> utf8_offset(s, k) == encode_utf8(s).len(),
{
    encode_len(s, k);
    if k == s.len() {
        assert(s.subrange(k, s.len() as int) =~= Seq::<char>::empty());
        assert(encode_utf8(Seq::<char>::empty()).len() == 0);
    }
}

/// Byte offset of an LSP position (line and UTF-16 column) within `text`.
pub fn byte_offset_at(text: &str, line: u32, character: u32) -> (r: usize)
    ensures
        r == utf8_offset(text@, position_index(text@, line as int, character as int)),
        r <= encode_utf8(text@).len(),
{
    let total: usize = text.as_bytes().len();
    let chars = chars_of(text);
    let mut left: u32 = line;
    let mut start: usize = 0;
    while left > 0 && start < chars.len()
        invariant
            start <= chars@.len(),
            line_start(chars@, 0, line as int) == line_start(chars@, start as int, left as int),
        decreases chars@.len() - start,
    {
        if chars[start] == '\n' {
            left = left - 1;
        }
        start = start + 1;
    }
    let end: usize = find_line_end(&chars, start);
    let limit: usize = if end < chars.len() {
        end + 1
    } else {
        chars.len()
    };
    let index: usize = index_at_utf16_between(&chars, start, limit, character);
    let mut offset: usize = 0;
    let mut i: usize = 0;
    while i < index
        invariant
            i <= index <= chars@.len(),
            chars@ == text@,
            offset == utf8_offset(text@, i as int),
            total == encode_utf8(text@).len(),
        decreases index - i,
    {
        proof {
            utf8_offset_is_byte_offset(text@, i + 1);
        }
        offset = offset + utf8_len(chars[i]);
        i = i + 1;
    }
    proof {
        utf8_offset_is_byte_offset(text@, index as int);
    }
    offset
}

// ---------------------------------------------------------------------------
// Word scores

/// Whether a word boundary of an identifier stands before byte `i`: the
/// start, after an underscore, at a case step, or where digits follow
/// letters.
pub open spec fn boundary_at(bytes: Seq<u8>, i: int) -> bool {
    i == 0 || (bytes[i - 1] == 0x5F && bytes[i] != 0x5F) || (byte_is_lower(bytes[i - 1])
        && byte_is_upper(bytes[i])) || (byte_is_alpha(bytes[i - 1]) && byte_is_digit(bytes[i]))
}

pub fn is_boundary(bytes: &[u8], i: usize) -> (r: bool)
    requires
        i < bytes@.len(),
    ensures
        r == boundary_at(bytes@, i as int),
{
    if i == 0 {
        return true;
    }
    let prev = bytes[i - 1];
    let cur = bytes[i];
    (prev == 0x5F && cur != 0x5F) || (is_lower_byte(prev) && is_upper_byte(cur)) || (is_alpha_byte(
        prev,
    ) && is_digit_byte(cur))
}

/// Score of a word for a prefix, both as bytes, before the locality bonus.
pub open spec fn word_score(prefix: Seq<u8>, word: Seq<u8>) -> Option<int> {
    let needle = bytes_lower(prefix);
    let hay = bytes_lower(word);
    if needle.len() < MIN_PREFIX_LEN || hay.len() < MIN_PREFIX_LEN {
        None
    } else if hay == needle {
        Some(700)
    } else if occurs_at(hay, needle, 0) {
        Some(550)
    } else {
        match first_occurrence(hay, needle, 0) {
            Some(at) => if needle.len() < SHORT_PREFIX_MIN_LEN && !boundary_at(word, at) {
                None
            } else {
                Some(250)
            },
            None => None,
        }
    }
}

/// Score a current-file word completion candidate: exact, prefix, then
/// substring matches. Prefixes of one or two characters reject substrings
/// that do not start at a word boundary.
pub fn completion_word_score(prefix: &str, word: &str, locality_bonus: i32) -> (r: Option<i32>)
    requires
        locality_bonus <= i32::MAX - 700,
    ensures
        match word_score(encode_utf8(prefix@), encode_utf8(word@)) {
            Some(base) => r == Some((base + locality_bonus) as i32),
            None => r is None,
        },
{
    let needle = lower_bytes(prefix.as_bytes());
    let hay = lower_bytes(word.as_bytes());
    if needle.len() < MIN_PREFIX_LEN || hay.len() < MIN_PREFIX_LEN {
        return None;
    }
    if same_bytes(&hay, &needle) {
        return Some(700 + locality_bonus);
    }
    if matches_at(&hay, &needle, 0) {
        return Some(550 + locality_bonus);
    }
    match find_bytes(&hay, &needle, 0) {
        Some(at) => {
            if needle.len() < SHORT_PREFIX_MIN_LEN && !is_boundary(word.as_bytes(), at) {
                None
            } else {
                Some(250 + locality_bonus)
            }
        },
        None => None,
    }
}

} // verus!
