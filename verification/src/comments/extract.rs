//! Which comment belongs to a declaration.
//!
//! Extraction returns raw comment text and its placement; markers and tags are
//! left as they are.

use vstd::prelude::*;
use vstd::slice::slice_subrange;

use crate::chars::{
    char_starts_ident, chars_of, first_occurrence, in_ident, same_chars, starts_ident, string_of,
    trim, trim_end, trim_start, trimmed, trimmed_end, trimmed_start,
};
use crate::comments::model::{
    opt_raw, CommentAnchor, CommentPlacement, CommentRenderOptions, CommentStyle, Raw, RawComment,
};
use crate::lines::{
    begins, contains_text, find_text, holds, join_lines, joined, line_views, lines_of, push_all,
    push_text, split_lines, starts_with, to_vec,
};
use crate::text::{block_comment_end, find_block_comment_end, ident_run_end};

verus! {

// ---------------------------------------------------------------------------
// Reading code

/// Inside a literal: its quote, and whether the next character is escaped.
pub type Literal = Option<(char, bool)>;

/// The literal state after `c`, inside a literal.
pub open spec fn literal_after(quote: char, escaped: bool, c: char) -> Literal {
    if escaped {
        Some((quote, false))
    } else if c == '\\' {
        Some((quote, true))
    } else if c == quote {
        None
    } else {
        Some((quote, false))
    }
}

fn next_literal(quote: char, escaped: bool, c: char) -> (r: Literal)
    ensures
        r == literal_after(quote, escaped, c),
{
    if escaped {
        Some((quote, false))
    } else if c == '\\' {
        Some((quote, true))
    } else if c == quote {
        None
    } else {
        Some((quote, false))
    }
}

pub open spec fn opens_group(c: char) -> bool {
    c == '(' || c == '[' || c == '{'
}

pub open spec fn closes_group(c: char) -> bool {
    c == ')' || c == ']' || c == '}'
}

fn is_opener(c: char) -> (r: bool)
    ensures
        r == opens_group(c),
{
    c == '(' || c == '[' || c == '{'
}

fn is_closer(c: char) -> (r: bool)
    ensures
        r == closes_group(c),
{
    c == ')' || c == ']' || c == '}'
}

pub open spec fn either(a: Option<int>, b: Option<int>) -> Option<int> {
    if a is Some {
        a
    } else {
        b
    }
}

/// The comment that trails the code of a line, read on from `i`: the last one
/// behind a `;` outside all brackets, else the first of the line.
pub open spec fn trailing_comment(
    s: Seq<char>,
    i: int,
    lit: Literal,
    depth: int,
    terminated: bool,
    after: Option<int>,
    first: Option<int>,
) -> Option<int>
    decreases s.len() - i,
{
    if i < 0 || i >= s.len() {
        either(after, first)
    } else {
        match lit {
            Some((quote, escaped)) => trailing_comment(
                s,
                i + 1,
                literal_after(quote, escaped, s[i]),
                depth,
                terminated,
                after,
                first,
            ),
            None => if s[i] == '"' || s[i] == '\'' {
                trailing_comment(s, i + 1, Some((s[i], false)), depth, terminated, after, first)
            } else if opens_group(s[i]) {
                trailing_comment(s, i + 1, lit, depth + 1, terminated, after, first)
            } else if closes_group(s[i]) {
                trailing_comment(s, i + 1, lit, depth - 1, terminated, after, first)
            } else if s[i] == ';' && depth == 0 {
                trailing_comment(s, i + 1, lit, depth, true, after, first)
            } else if s[i] == '/' && i + 1 < s.len() && (s[i + 1] == '/' || s[i + 1] == '*') {
                let now_first = either(first, Some(i));
                let now_after = if terminated {
                    Some(i)
                } else {
                    after
                };
                let next = block_comment_end(s, i + 2);
                if s[i + 1] == '/' {
                    either(now_after, now_first)
                } else if i < next <= s.len() {
                    trailing_comment(s, next, lit, depth, terminated, now_after, now_first)
                } else {
                    None
                }
            } else {
                trailing_comment(s, i + 1, lit, depth, terminated, after, first)
            },
        }
    }
}

pub open spec fn comment_start(s: Seq<char>) -> Option<int> {
    trailing_comment(s, 0, None, 0, false, None, None)
}

pub open spec fn opt_int(r: Option<usize>) -> Option<int> {
    match r {
        Some(i) => Some(i as int),
        None => None,
    }
}

fn find_trailing_comment_start(line: &[char]) -> (r: Option<usize>)
    ensures
        opt_int(r) == comment_start(line@),
        r is Some ==> r->0 < line@.len(),
{
    let len: usize = line.len();
    let mut i: usize = 0;
    let mut lit: Literal = None;
    let mut depth: i128 = 0;
    let mut terminated = false;
    let mut after: Option<usize> = None;
    let mut first: Option<usize> = None;
    while i < len
        invariant
            i <= len,
            len == line@.len(),
            -(i as int) <= depth <= i,
            after is Some ==> after->0 < len,
            first is Some ==> first->0 < len,
            comment_start(line@) == trailing_comment(
                line@,
                i as int,
                lit,
                depth as int,
                terminated,
                opt_int(after),
                opt_int(first),
            ),
        decreases len - i,
    {
        let c = line[i];
        match lit {
            Some((quote, escaped)) => {
                lit = next_literal(quote, escaped, c);
                i = i + 1;
            },
            None => {
                if c == '"' || c == '\'' {
                    lit = Some((c, false));
                    i = i + 1;
                } else if is_opener(c) {
                    depth = depth + 1;
                    i = i + 1;
                } else if is_closer(c) {
                    depth = depth - 1;
                    i = i + 1;
                } else if c == ';' && depth == 0 {
                    terminated = true;
                    i = i + 1;
                } else if c == '/' && len - i > 1 && (line[i + 1] == '/' || line[i + 1] == '*') {
                    if first.is_none() {
                        first = Some(i);
                    }
                    if terminated {
                        after = Some(i);
                    }
                    if line[i + 1] == '/' {
                        return if after.is_some() {
                            after
                        } else {
                            first
                        };
                    }
                    i = find_block_comment_end(line, i + 2);
                } else {
                    i = i + 1;
                }
            },
        }
    }
    if after.is_some() {
        after
    } else {
        first
    }
}

/// End of the last word `name` outside literals, read on from `i`.
pub open spec fn last_word_end(
    s: Seq<char>,
    name: Seq<char>,
    i: int,
    lit: Literal,
    last: Option<int>,
) -> Option<int>
    decreases s.len() - i,
{
    if i < 0 || i >= s.len() {
        last
    } else {
        match lit {
            Some((quote, escaped)) => last_word_end(
                s,
                name,
                i + 1,
                literal_after(quote, escaped, s[i]),
                last,
            ),
            None => if s[i] == '"' || s[i] == '\'' {
                last_word_end(s, name, i + 1, Some((s[i], false)), last)
            } else if char_starts_ident(s[i]) {
                let end = ident_run_end(s, i + 1);
                if i < end <= s.len() {
                    last_word_end(
                        s,
                        name,
                        end,
                        lit,
                        if s.subrange(i, end) == name {
                            Some(end)
                        } else {
                            last
                        },
                    )
                } else {
                    None
                }
            } else {
                last_word_end(s, name, i + 1, lit, last)
            },
        }
    }
}

fn find_last_ident_end(s: &[char], name: &[char]) -> (r: Option<usize>)
    ensures
        opt_int(r) == (if name@.len() == 0 {
            None
        } else {
            last_word_end(s@, name@, 0, None, None)
        }),
        r is Some ==> r->0 <= s@.len(),
{
    if name.len() == 0 {
        return None;
    }
    let mut i: usize = 0;
    let mut lit: Literal = None;
    let mut last: Option<usize> = None;
    while i < s.len()
        invariant
            i <= s@.len(),
            last is Some ==> last->0 <= s@.len(),
            last_word_end(s@, name@, 0, None, None) == last_word_end(
                s@,
                name@,
                i as int,
                lit,
                opt_int(last),
            ),
        decreases s@.len() - i,
    {
        let c = s[i];
        match lit {
            Some((quote, escaped)) => {
                lit = next_literal(quote, escaped, c);
                i = i + 1;
            },
            None => {
                if c == '"' || c == '\'' {
                    lit = Some((c, false));
                    i = i + 1;
                } else if starts_ident(c) {
                    let start: usize = i;
                    i = i + 1;
                    while i < s.len() && in_ident(s[i])
                        invariant
                            start < i <= s@.len(),
                            ident_run_end(s@, start + 1) == ident_run_end(s@, i as int),
                        decreases s@.len() - i,
                    {
                        i = i + 1;
                    }
                    if same_chars(slice_subrange(s, start, i), name) {
                        last = Some(i);
                    }
                } else {
                    i = i + 1;
                }
            },
        }
    }
    last
}

/// The first `target` outside all brackets, read on from `i`.
pub open spec fn top_level_from(s: Seq<char>, target: char, i: int, depth: int) -> Option<int>
    decreases s.len() - i,
{
    if i < 0 || i >= s.len() {
        None
    } else if opens_group(s[i]) {
        top_level_from(s, target, i + 1, depth + 1)
    } else if closes_group(s[i]) {
        top_level_from(s, target, i + 1, depth - 1)
    } else if s[i] == target && depth == 0 {
        Some(i)
    } else {
        top_level_from(s, target, i + 1, depth)
    }
}

pub open spec fn top_level(s: Seq<char>, target: char) -> Option<int> {
    top_level_from(s, target, 0, 0)
}

fn find_top_level_char(s: &[char], target: char) -> (r: Option<usize>)
    ensures
        opt_int(r) == top_level(s@, target),
        r is Some ==> r->0 < s@.len(),
{
    let len: usize = s.len();
    let mut i: usize = 0;
    let mut depth: i128 = 0;
    while i < len
        invariant
            i <= len,
            len == s@.len(),
            -(i as int) <= depth <= i,
            top_level(s@, target) == top_level_from(s@, target, i as int, depth as int),
        decreases len - i,
    {
        let c = s[i];
        if is_opener(c) {
            depth = depth + 1;
        } else if is_closer(c) {
            depth = depth - 1;
        } else if c == target && depth == 0 {
            return Some(i);
        }
        i = i + 1;
    }
    None
}

fn has_top_level_comma(s: &[char]) -> (r: bool)
    ensures
        r == (top_level(s@, ',') is Some),
{
    find_top_level_char(s, ',').is_some()
}

// ---------------------------------------------------------------------------
// Comment shapes

/// The style that the markers of a comment show.
pub open spec fn style_of(text: Seq<char>) -> CommentStyle {
    let t = trim_start(text);
    if begins(t, "/**"@) || begins(t, "/*!"@) {
        CommentStyle::DocBlock
    } else if begins(t, "/*"@) {
        CommentStyle::Block
    } else if begins(t, "///"@) || begins(t, "//!"@) {
        CommentStyle::DocLine
    } else {
        CommentStyle::Line
    }
}

fn comment_style_from_text(text: &[char]) -> (r: CommentStyle)
    ensures
        r == style_of(text@),
{
    let t = trimmed_start(text);
    if starts_with(t, "/**") || starts_with(t, "/*!") {
        CommentStyle::DocBlock
    } else if starts_with(t, "/*") {
        CommentStyle::Block
    } else if starts_with(t, "///") || starts_with(t, "//!") {
        CommentStyle::DocLine
    } else {
        CommentStyle::Line
    }
}

/// The line starts a line comment.
pub open spec fn line_comment(line: Seq<char>) -> bool {
    begins(trim_start(line), "//"@)
}

/// The line starts a block comment.
pub open spec fn block_start(line: Seq<char>) -> bool {
    begins(trim_start(line), "/*"@)
}

/// The line starts or continues a block comment.
pub open spec fn block_line(line: Seq<char>) -> bool {
    block_start(line) || begins(trim_start(line), "*"@)
}

/// The line ends a block comment.
pub open spec fn block_end(line: Seq<char>) -> bool {
    block_line(line) && holds(trim_start(line), "*/"@)
}

/// The line can stand inside a block comment.
pub open spec fn block_inside(line: Seq<char>) -> bool {
    trim_start(line).len() == 0 || block_line(line)
}

/// Something follows the first `*/` of the line.
pub open spec fn code_after_close(line: Seq<char>) -> bool {
    match first_occurrence(line, "*/"@, 0) {
        Some(i) => trim(line.subrange(i + 2, line.len() as int)).len() > 0,
        None => false,
    }
}

/// Something stands before the block comment that trails the line.
pub open spec fn code_before_block(line: Seq<char>) -> bool {
    !block_line(line) && match comment_start(line) {
        Some(i) => trim(line.subrange(0, i)).len() > 0 && block_start(
            line.subrange(i, line.len() as int),
        ),
        None => false,
    }
}

fn is_line_comment(line: &[char]) -> (r: bool)
    ensures
        r == line_comment(line@),
{
    starts_with(trimmed_start(line), "//")
}

fn is_block_start(line: &[char]) -> (r: bool)
    ensures
        r == block_start(line@),
{
    starts_with(trimmed_start(line), "/*")
}

fn is_block_comment_boundary(line: &[char]) -> (r: bool)
    ensures
        r == block_line(line@),
{
    is_block_start(line) || starts_with(trimmed_start(line), "*")
}

fn is_block_comment_end(line: &[char]) -> (r: bool)
    ensures
        r == block_end(line@),
{
    is_block_comment_boundary(line) && contains_text(trimmed_start(line), "*/")
}

fn is_block_comment_scan_line(line: &[char]) -> (r: bool)
    ensures
        r == block_inside(line@),
{
    trimmed_start(line).len() == 0 || is_block_comment_boundary(line)
}

fn has_trailing_code_after_block_close(line: &[char]) -> (r: bool)
    ensures
        r == code_after_close(line@),
{
    proof {
        reveal_strlit("*/");
    }
    match find_text(line, "*/") {
        Some(i) => trimmed(slice_subrange(line, i + 2, line.len())).len() > 0,
        None => false,
    }
}

fn line_has_code_before_block_comment(line: &[char]) -> (r: bool)
    ensures
        r == code_before_block(line@),
{
    if is_block_comment_boundary(line) {
        return false;
    }
    match find_trailing_comment_start(line) {
        Some(i) => trimmed(slice_subrange(line, 0, i)).len() > 0 && is_block_start(
            slice_subrange(line, i, line.len()),
        ),
        None => false,
    }
}

// ---------------------------------------------------------------------------
// Trailing comments

/// Position after the last `;` before `end`, else 0.
pub open spec fn statement_start(s: Seq<char>, end: int) -> int
    decreases end,
{
    if end <= 0 || end > s.len() {
        0
    } else if s[end - 1] == ';' {
        end
    } else {
        statement_start(s, end - 1)
    }
}

/// The comment behind `before` describes `name`: the last `name` is declared
/// by a statement of its own, one that declares nothing else, and nothing
/// follows that statement.
pub open spec fn describes(before: Seq<char>, name: Seq<char>) -> bool {
    let end = if name.len() == 0 {
        None
    } else {
        last_word_end(before, name, 0, None, None)
    };
    match end {
        None => false,
        Some(e) => {
            let after = before.subrange(e, before.len() as int);
            match top_level(after, ';') {
                None => false,
                Some(semi) => {
                    let statement = trim_start(
                        before.subrange(statement_start(before, e), e + semi + 1),
                    );
                    &&& top_level(after.subrange(0, semi), ',') is None
                    &&& top_level(statement, ',') is None
                    &&& trim(after.subrange(semi + 1, after.len() as int)).len() == 0
                },
            }
        },
    }
}

fn trailing_belongs_to_symbol(before: &[char], name: &[char]) -> (r: bool)
    ensures
        r == describes(before@, name@),
{
    let len: usize = before.len();
    let end: usize = match find_last_ident_end(before, name) {
        Some(end) => end,
        None => {
            return false;
        },
    };
    let after = slice_subrange(before, end, len);
    let semi: usize = match find_top_level_char(after, ';') {
        Some(semi) => semi,
        None => {
            return false;
        },
    };
    if has_top_level_comma(slice_subrange(after, 0, semi)) {
        return false;
    }
    let mut start: usize = end;
    while start > 0 && before[start - 1] != ';'
        invariant
            start <= end <= before@.len(),
            statement_start(before@, end as int) == statement_start(before@, start as int),
        decreases start,
    {
        start = start - 1;
    }
    let statement = trimmed_start(slice_subrange(before, start, end + semi + 1));
    if has_top_level_comma(statement) {
        return false;
    }
    trimmed(slice_subrange(after, semi + 1, after.len())).len() == 0
}

pub open spec fn found(
    text: Seq<char>,
    placement: CommentPlacement,
    start_line: int,
    end_line: int,
) -> Raw {
    Raw {
        text,
        placement,
        style: style_of(text),
        start_line: start_line as u32,
        end_line: end_line as u32,
        truncated: false,
    }
}

/// The comment behind the declaration on its own line.
pub open spec fn trailing(lines: Seq<Seq<char>>, cursor: int, name: Seq<char>) -> Option<Raw> {
    let line = lines[cursor];
    match comment_start(line) {
        Some(i) => {
            let text = trim_end(line.subrange(i, line.len() as int));
            if describes(line.subrange(0, i), name) && text.len() > 0 {
                Some(found(text, CommentPlacement::TrailingSameLine, cursor, cursor))
            } else {
                None
            }
        },
        None => None,
    }
}

fn raw_comment(text: &Vec<char>, placement: CommentPlacement, start_line: u32, end_line: u32) -> (r:
    RawComment)
    ensures
        r@ == found(text@, placement, start_line as int, end_line as int),
{
    RawComment {
        style: comment_style_from_text(text),
        placement,
        text: string_of(text),
        start_line,
        end_line,
        truncated: false,
    }
}

fn extract_trailing_same_line(lines: &Vec<Vec<char>>, cursor: usize, name: &[char]) -> (r: Option<
    RawComment,
>)
    requires
        cursor < lines@.len(),
        cursor <= u32::MAX,
    ensures
        opt_raw(r) == trailing(line_views(lines@), cursor as int, name@),
{
    let line = &lines[cursor];
    assert(line@ == line_views(lines@)[cursor as int]);
    let start: usize = match find_trailing_comment_start(line) {
        Some(start) => start,
        None => {
            return None;
        },
    };
    if !trailing_belongs_to_symbol(slice_subrange(line.as_slice(), 0, start), name) {
        return None;
    }
    let text = to_vec(trimmed_end(slice_subrange(line.as_slice(), start, line.len())));
    if text.len() == 0 {
        return None;
    }
    Some(
        raw_comment(&text, CommentPlacement::TrailingSameLine, cursor as u32, cursor as u32),
    )
}

// ---------------------------------------------------------------------------
// Inline leading comments

/// The line at or above `i` that opens the block comment which reaches down
/// to `i`.
pub open spec fn opening_line(lines: Seq<Seq<char>>, i: int) -> Option<int>
    decreases i,
{
    if block_start(lines[i]) {
        Some(i)
    } else if i <= 0 || !block_inside(lines[i]) {
        None
    } else {
        opening_line(lines, i - 1)
    }
}

/// The line up to and with its first `*/`.
pub open spec fn through_close(line: Seq<char>) -> Seq<char> {
    match first_occurrence(line, "*/"@, 0) {
        Some(i) => line.subrange(0, i + 2),
        None => line,
    }
}

/// Lines `[first, last]`, the last one cut behind its first `*/`.
pub open spec fn closed_block(lines: Seq<Seq<char>>, first: int, last: int) -> Seq<char> {
    joined(lines.subrange(first, last).push(through_close(lines[last])))
}

/// The block comment that ends in front of the declaration on its own line.
pub open spec fn inline_leading(lines: Seq<Seq<char>>, cursor: int) -> Option<Raw> {
    if !block_end(lines[cursor]) {
        None
    } else {
        match opening_line(lines, cursor) {
            Some(first) => if code_before_block(lines[first]) {
                None
            } else {
                Some(
                    found(
                        closed_block(lines, first, cursor),
                        CommentPlacement::InlineLeadingSameLine,
                        first,
                        cursor,
                    ),
                )
            },
            None => None,
        }
    }
}

fn extract_inline_leading_same_line(lines: &Vec<Vec<char>>, cursor: usize) -> (r: Option<
    RawComment,
>)
    requires
        cursor < lines@.len(),
        cursor <= u32::MAX,
    ensures
        opt_raw(r) == inline_leading(line_views(lines@), cursor as int),
{
    let ghost all = line_views(lines@);
    if !is_block_comment_end(&lines[cursor]) {
        return None;
    }
    let mut first: usize = cursor;
    loop
        invariant
            first <= cursor < lines@.len(),
            all == line_views(lines@),
            inline_leading(all, cursor as int) is Some ==> opening_line(all, cursor as int) is Some,
            opening_line(all, cursor as int) == opening_line(all, first as int),
        ensures
            first <= cursor,
            opening_line(all, cursor as int) == Some(first as int),
        decreases first,
    {
        if is_block_start(&lines[first]) {
            break;
        }
        if first == 0 || !is_block_comment_scan_line(&lines[first]) {
            return None;
        }
        first = first - 1;
    }
    if line_has_code_before_block_comment(&lines[first]) {
        return None;
    }
    let mut text = join_lines(lines, first, cursor);
    if first < cursor {
        text.push('\n');
    }
    let line = &lines[cursor];
    let end: usize = match find_text(line, "*/") {
        Some(i) => {
            proof {
                reveal_strlit("*/");
            }
            i + 2
        },
        None => line.len(),
    };
    push_all(&mut text, slice_subrange(line.as_slice(), 0, end));
    proof {
        let head = all.subrange(first as int, cursor as int);
        let last = through_close(all[cursor as int]);
        assert(line@.subrange(0, end as int) =~= last);
        assert(head.push(last).drop_last() =~= head);
        assert(text@ =~= closed_block(all, first as int, cursor as int));
    }
    Some(
        raw_comment(&text, CommentPlacement::InlineLeadingSameLine, first as u32, cursor as u32),
    )
}

// ---------------------------------------------------------------------------
// Leading comments

/// First of the line comments that reach down to line `i`.
pub open spec fn comment_run_start(lines: Seq<Seq<char>>, i: int) -> int
    decreases i,
{
    if i > 0 && line_comment(lines[i - 1]) {
        comment_run_start(lines, i - 1)
    } else {
        i
    }
}

/// As `opening_line`, where no line in between may hold code behind the end of
/// a comment.
pub open spec fn pure_opening_line(lines: Seq<Seq<char>>, i: int) -> Option<int>
    decreases i,
{
    if block_start(lines[i]) {
        if code_after_close(lines[i]) {
            None
        } else {
            Some(i)
        }
    } else if i <= 0 || !block_inside(lines[i]) || code_after_close(lines[i]) {
        None
    } else {
        pure_opening_line(lines, i - 1)
    }
}

/// The block comment that ends on line `end`.
pub open spec fn block_above(lines: Seq<Seq<char>>, end: int) -> Option<Raw> {
    if !block_end(lines[end]) {
        None
    } else {
        match pure_opening_line(lines, end) {
            Some(first) => if (end + 1 < lines.len() && code_after_close(lines[end]))
                || code_before_block(lines[end]) || code_before_block(lines[first]) {
                None
            } else {
                Some(
                    found(
                        joined(lines.subrange(first, end + 1)),
                        CommentPlacement::LeadingAbove,
                        first,
                        end,
                    ),
                )
            },
            None => None,
        }
    }
}

/// The comment that ends right above line `cursor`.
pub open spec fn leading(lines: Seq<Seq<char>>, cursor: int) -> Option<Raw> {
    if line_comment(lines[cursor - 1]) {
        let first = comment_run_start(lines, cursor - 1);
        Some(
            found(
                joined(lines.subrange(first, cursor)),
                CommentPlacement::LeadingAbove,
                first,
                cursor - 1,
            ),
        )
    } else if block_end(lines[cursor - 1]) {
        block_above(lines, cursor - 1)
    } else {
        None
    }
}

fn extract_leading_above(lines: &Vec<Vec<char>>, cursor: usize) -> (r: Option<RawComment>)
    requires
        0 < cursor < lines@.len(),
        cursor <= u32::MAX,
    ensures
        opt_raw(r) == leading(line_views(lines@), cursor as int),
{
    let ghost all = line_views(lines@);
    if is_line_comment(&lines[cursor - 1]) {
        let mut first: usize = cursor - 1;
        while first > 0 && is_line_comment(&lines[first - 1])
            invariant
                first < cursor < lines@.len(),
                all == line_views(lines@),
                comment_run_start(all, cursor - 1) == comment_run_start(all, first as int),
            decreases first,
        {
            first = first - 1;
        }
        let text = join_lines(lines, first, cursor);
        return Some(
            raw_comment(
                &text,
                CommentPlacement::LeadingAbove,
                first as u32,
                (cursor - 1) as u32,
            ),
        );
    }
    if is_block_comment_end(&lines[cursor - 1]) {
        return collect_block_comment_group(lines, cursor - 1);
    }
    None
}

fn collect_block_comment_group(lines: &Vec<Vec<char>>, end: usize) -> (r: Option<RawComment>)
    requires
        end < lines@.len(),
        end < u32::MAX,
    ensures
        opt_raw(r) == block_above(line_views(lines@), end as int),
{
    let ghost all = line_views(lines@);
    if !is_block_comment_end(&lines[end]) {
        return None;
    }
    let mut first: usize = end;
    loop
        invariant
            first <= end < lines@.len(),
            all == line_views(lines@),
            block_above(all, end as int) is Some ==> pure_opening_line(all, end as int) is Some,
            pure_opening_line(all, end as int) == pure_opening_line(all, first as int),
        ensures
            first <= end,
            pure_opening_line(all, end as int) == Some(first as int),
        decreases first,
    {
        if is_block_start(&lines[first]) {
            if has_trailing_code_after_block_close(&lines[first]) {
                return None;
            }
            break;
        }
        if first == 0 || !is_block_comment_scan_line(&lines[first])
            || has_trailing_code_after_block_close(&lines[first]) {
            return None;
        }
        first = first - 1;
    }
    if lines.len() - end > 1 && has_trailing_code_after_block_close(&lines[end]) {
        return None;
    }
    if line_has_code_before_block_comment(&lines[end]) || line_has_code_before_block_comment(
        &lines[first],
    ) {
        return None;
    }
    let text = join_lines(lines, first, end + 1);
    Some(raw_comment(&text, CommentPlacement::LeadingAbove, first as u32, end as u32))
}

// ---------------------------------------------------------------------------
// The line budget

/// The comment within a budget of lines. A block comment that loses its end
/// is closed again.
pub open spec fn clamped(raw: Raw, max_lines: int) -> Raw {
    let lines = lines_of(raw.text);
    if lines.len() <= max_lines {
        raw
    } else {
        let text = joined(lines.subrange(0, max_lines));
        let block = raw.style == CommentStyle::Block || raw.style == CommentStyle::DocBlock;
        Raw {
            text: if block && !holds(text, "*/"@) {
                text + "\n*/"@
            } else {
                text
            },
            truncated: true,
            ..raw
        }
    }
}

fn clamp_raw(raw: RawComment, options: &CommentRenderOptions) -> (r: RawComment)
    ensures
        r@ == clamped(raw@, options.max_comment_lines as int),
{
    let chars = chars_of(raw.text.as_str());
    let lines = split_lines(&chars);
    if lines.len() <= options.max_comment_lines {
        return raw;
    }
    let mut text = join_lines(&lines, 0, options.max_comment_lines);
    let block = raw.style == CommentStyle::Block || raw.style == CommentStyle::DocBlock;
    if block && !contains_text(&text, "*/") {
        push_text(&mut text, "\n*/");
    }
    RawComment {
        text: string_of(&text),
        placement: raw.placement,
        style: raw.style,
        start_line: raw.start_line,
        end_line: raw.end_line,
        truncated: true,
    }
}

// ---------------------------------------------------------------------------
// Extraction

/// The comment of the declaration of `name` on line `cursor`: behind it, else
/// in front of it on its line, else above it.
pub open spec fn attached(lines: Seq<Seq<char>>, cursor: int, name: Seq<char>) -> Option<Raw> {
    if cursor >= lines.len() {
        None
    } else if trailing(lines, cursor, name) is Some {
        trailing(lines, cursor, name)
    } else if inline_leading(lines, cursor) is Some {
        inline_leading(lines, cursor)
    } else if cursor > 0 {
        leading(lines, cursor)
    } else {
        None
    }
}

pub open spec fn opt_clamped(raw: Option<Raw>, max_lines: int) -> Option<Raw> {
    match raw {
        Some(r) => Some(clamped(r, max_lines)),
        None => None,
    }
}

/// Recover the raw comment of a declaration.
pub fn extract_comment(source: &str, anchor: &CommentAnchor, options: &CommentRenderOptions) -> (r:
    Option<RawComment>)
    ensures
        opt_raw(r) == opt_clamped(
            attached(lines_of(source@), anchor.start_line as int, anchor.symbol_name@),
            options.max_comment_lines as int,
        ),
{
    let chars = chars_of(source);
    let lines = split_lines(&chars);
    let name = chars_of(anchor.symbol_name.as_str());
    let cursor: usize = anchor.start_line as usize;
    if cursor >= lines.len() {
        return None;
    }
    match extract_trailing_same_line(&lines, cursor, &name) {
        Some(raw) => {
            return Some(clamp_raw(raw, options));
        },
        None => {},
    }
    match extract_inline_leading_same_line(&lines, cursor) {
        Some(raw) => {
            return Some(clamp_raw(raw, options));
        },
        None => {},
    }
    if cursor > 0 {
        match extract_leading_above(&lines, cursor) {
            Some(raw) => {
                return Some(clamp_raw(raw, options));
            },
            None => {},
        }
    }
    None
}

/// Number of line comments at the start of `lines`, from `i` on.
pub open spec fn line_comments_end(lines: Seq<Seq<char>>, i: int) -> int
    decreases lines.len() - i,
{
    if 0 <= i < lines.len() && line_comment(lines[i]) {
        line_comments_end(lines, i + 1)
    } else {
        i
    }
}

/// The comment that a stored signature starts with.
pub open spec fn signature_comment(signature: Seq<char>) -> Option<Raw> {
    let t = trim_start(signature);
    if begins(t, "/*"@) {
        match first_occurrence(t, "*/"@, 0) {
            Some(i) => Some(
                found(t.subrange(0, i + 2), CommentPlacement::SignatureFallback, 0, 0),
            ),
            None => None,
        }
    } else if begins(t, "//"@) {
        let lines = lines_of(t);
        let n = line_comments_end(lines, 0);
        if n == 0 {
            None
        } else {
            Some(
                found(
                    joined(lines.subrange(0, n)),
                    CommentPlacement::SignatureFallback,
                    0,
                    n - 1,
                ),
            )
        }
    } else {
        None
    }
}

#[verifier::truncate]
fn low_u32(n: usize) -> (r: u32)
    ensures
        r == n as u32,
{
    n as u32
}

/// Recover a leading comment that is part of a stored signature.
pub fn extract_signature_fallback(signature: &str) -> (r: Option<RawComment>)
    ensures
        opt_raw(r) == signature_comment(signature@),
{
    let chars = chars_of(signature);
    let t = trimmed_start(&chars);
    if starts_with(t, "/*") {
        proof {
            reveal_strlit("*/");
        }
        return match find_text(t, "*/") {
            Some(i) => {
                let text = to_vec(slice_subrange(t, 0, i + 2));
                Some(raw_comment(&text, CommentPlacement::SignatureFallback, 0, 0))
            },
            None => None,
        };
    }
    if starts_with(t, "//") {
        let lines = split_lines(t);
        let ghost all = line_views(lines@);
        let mut n: usize = 0;
        while n < lines.len() && is_line_comment(&lines[n])
            invariant
                n <= lines@.len(),
                all == line_views(lines@),
                line_comments_end(all, 0) == line_comments_end(all, n as int),
            decreases lines@.len() - n,
        {
            n = n + 1;
        }
        if n == 0 {
            return None;
        }
        let text = join_lines(&lines, 0, n);
        return Some(
            raw_comment(&text, CommentPlacement::SignatureFallback, 0, low_u32(n - 1)),
        );
    }
    None
}

} // verus!
