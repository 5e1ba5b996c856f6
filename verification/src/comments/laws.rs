//! What becomes of a comment, told by how it is written.

use vstd::prelude::*;

use crate::chain_laws::are_gaps;
use crate::chars::{
    char_is_space, occurs_at, space_run_end, space_run_start, trim, trim_end, trim_start,
};
use crate::comments::model::CommentStyle;
use crate::comments::parse::{
    bare_line, blank, cleaned, ink_from, ink_until, last_occurrence, line_text, margin_text,
    stripped, without_blank_edges, without_close, without_open,
};
use crate::lines::{begins, joined, line_between, lines_from, lines_of};
use crate::text::line_end;

verus! {

// ---------------------------------------------------------------------------
// Lines and white space

/// The text of the lines from `k` on, line breaks between them.
pub open spec fn text_from(lines: Seq<Seq<char>>, k: int) -> Seq<char>
    decreases lines.len() - k,
{
    if k < 0 || k >= lines.len() {
        Seq::empty()
    } else if k == lines.len() - 1 {
        lines[k]
    } else {
        lines[k] + seq!['\n'] + text_from(lines, k + 1)
    }
}

pub open spec fn put_together(lines: Seq<Seq<char>>) -> Seq<char> {
    text_from(lines, 0)
}

/// Lines that a text can be put together from and taken apart into again.
pub open spec fn are_lines(lines: Seq<Seq<char>>) -> bool {
    &&& lines.len() > 0
    &&& lines.last().len() > 0
    &&& forall|k: int| 0 <= k < lines.len() ==> is_line(#[trigger] lines[k])
}

/// A text without line breaks.
pub open spec fn is_line(line: Seq<char>) -> bool {
    &&& forall|i: int| 0 <= i < line.len() ==> #[trigger] line[i] != '\n'
    &&& line.len() > 0 ==> line.last() != '\r'
}

proof fn line_ends(s: Seq<char>, from: int, end: int)
    requires
        0 <= from <= end <= s.len(),
        forall|i: int| from <= i < end ==> #[trigger] s[i] != '\n',
        end < s.len() ==> s[end] == '\n',
    ensures
        line_end(s, from) == end,
    decreases end - from,
{
    if from < end {
        line_ends(s, from + 1, end);
    }
}

proof fn lines_read(lines: Seq<Seq<char>>, s: Seq<char>, from: int, k: int)
    requires
        are_lines(lines),
        0 <= k < lines.len(),
        0 <= from <= s.len(),
        s.subrange(from, s.len() as int) == text_from(lines, k),
    ensures
        lines_from(s, from) == lines.subrange(k, lines.len() as int),
    decreases lines.len() - k,
{
    let rest = s.subrange(from, s.len() as int);
    let line = lines[k];
    let end = from + line.len();
    assert(is_line(line));
    assert(rest.len() == s.len() - from);
    assert(rest.len() >= line.len()) by {
        assert(text_from(lines, k).len() >= line.len());
    }
    assert forall|i: int| from <= i < end implies #[trigger] s[i] != '\n' by {
        assert(s[i] == rest[i - from]);
        assert(rest[i - from] == line[i - from]);
    }
    assert(s.subrange(from, end) =~= line) by {
        assert forall|i: int| 0 <= i < line.len() implies s[from + i] == line[i] by {
            assert(s[from + i] == rest[i]);
        }
    }
    if line.len() > 0 {
        assert(s[end - 1] == rest[line.len() - 1]);
        assert(rest[line.len() - 1] == line.last());
    }
    if k == lines.len() - 1 {
        assert(end == s.len());
        line_ends(s, from, end);
        assert(line.len() > 0);
        assert(lines_from(s, from) =~= seq![line]);
        assert(lines.subrange(k, lines.len() as int) =~= seq![line]);
    } else {
        assert(s[end] == rest[line.len() as int]);
        assert(rest[line.len() as int] == '\n');
        line_ends(s, from, end);
        let more = s.subrange(end + 1, s.len() as int);
        assert(more =~= text_from(lines, k + 1)) by {
            assert(more =~= rest.subrange((line.len() + 1) as int, rest.len() as int));
        }
        lines_read(lines, s, end + 1, k + 1);
        assert(lines_from(s, from) == seq![line] + lines_from(s, end + 1));
        assert(lines.subrange(k, lines.len() as int) =~= seq![line] + lines.subrange(
            k + 1,
            lines.len() as int,
        ));
    }
}

/// A text that was put together from lines is taken apart into them.
pub proof fn lines_come_apart(lines: Seq<Seq<char>>)
    requires
        are_lines(lines),
    ensures
        lines_of(put_together(lines)) == lines,
{
    let s = put_together(lines);
    assert(s.subrange(0, s.len() as int) =~= s);
    lines_read(lines, s, 0, 0);
    assert(lines.subrange(0, lines.len() as int) =~= lines);
}

pub proof fn text_grows(lines: Seq<Seq<char>>, k: int)
    requires
        0 <= k < lines.len() - 1,
    ensures
        text_from(lines, k) == text_from(lines.drop_last(), k) + seq!['\n'] + lines.last(),
    decreases lines.len() - k,
{
    let short = lines.drop_last();
    if k < lines.len() - 2 {
        text_grows(lines, k + 1);
        assert(text_from(lines, k) =~= text_from(short, k) + seq!['\n'] + lines.last());
    } else {
        assert(text_from(lines, k + 1) == lines.last());
        assert(text_from(short, k) == lines[k]);
    }
}

/// Joining lines puts them together.
pub proof fn joined_is_put_together(lines: Seq<Seq<char>>)
    ensures
        joined(lines) == put_together(lines),
    decreases lines.len(),
{
    if lines.len() > 1 {
        joined_is_put_together(lines.drop_last());
        text_grows(lines, 0);
        assert(joined(lines) =~= put_together(lines));
    }
}

pub proof fn gap_before(gap: Seq<char>, t: Seq<char>)
    requires
        are_gaps(gap),
        t.len() > 0 ==> !char_is_space(t[0]),
    ensures
        trim_start(gap + t) == t,
{
    let s = gap + t;
    run_over(s, 0, gap.len() as int);
    assert(s.subrange(gap.len() as int, s.len() as int) =~= t);
}

proof fn run_over(s: Seq<char>, from: int, to: int)
    requires
        0 <= from <= to <= s.len(),
        forall|i: int| from <= i < to ==> char_is_space(#[trigger] s[i]),
        to < s.len() ==> !char_is_space(s[to]),
    ensures
        space_run_end(s, from) == to,
    decreases to - from,
{
    if from < to {
        run_over(s, from + 1, to);
    }
}

pub proof fn no_gap_behind(t: Seq<char>)
    requires
        t.len() > 0 ==> !char_is_space(t.last()),
    ensures
        trim_end(t) == t,
{
    assert(t.subrange(0, t.len() as int) =~= t);
}

proof fn run_start_in(s: Seq<char>, i: int)
    requires
        0 <= i <= s.len(),
    ensures
        0 <= space_run_start(s, i) <= i,
    decreases i,
{
    if i > 0 {
        run_start_in(s, i - 1);
    }
}

proof fn run_end_in(s: Seq<char>, i: int, ink: int)
    requires
        0 <= i <= ink < s.len(),
        !char_is_space(s[ink]),
    ensures
        i <= space_run_end(s, i) <= ink,
    decreases ink - i,
{
    if i < ink && char_is_space(s[i]) {
        run_end_in(s, i + 1, ink);
    }
}

/// A line whose last character is no white space is not blank.
proof fn ink_is_not_blank(t: Seq<char>)
    requires
        t.len() > 0,
        !char_is_space(t.last()),
    ensures
        !blank(t),
{
    run_end_in(t, 0, t.len() - 1);
    let u = trim_start(t);
    assert(u.last() == t.last());
    no_gap_behind(u);
}

pub proof fn edges_kept(lines: Seq<Seq<char>>, tail: Seq<Seq<char>>)
    requires
        lines.len() > 0,
        !blank(lines[0]),
        !blank(lines.last()),
        forall|i: int| 0 <= i < tail.len() ==> blank(#[trigger] tail[i]),
    ensures
        without_blank_edges(lines + tail) == lines,
{
    let all = lines + tail;
    assert(all[0] == lines[0]);
    assert(ink_from(all, 0) == 0);
    tail_dropped(all, lines.len() as int, all.len() as int);
    assert(all.subrange(0, lines.len() as int) =~= lines);
}

proof fn tail_dropped(all: Seq<Seq<char>>, n: int, end: int)
    requires
        0 < n <= end <= all.len(),
        !blank(all[n - 1]),
        forall|i: int| n <= i < end ==> blank(#[trigger] all[i]),
    ensures
        ink_until(all, 0, end) == n,
    decreases end,
{
    if n < end {
        assert(blank(all[end - 1]));
        tail_dropped(all, n, end - 1);
    }
}

proof fn head_dropped(all: Seq<Seq<char>>, i: int, n: int)
    requires
        0 <= i <= n < all.len(),
        !blank(all[n]),
        forall|k: int| i <= k < n ==> blank(#[trigger] all[k]),
    ensures
        ink_from(all, i) == n,
    decreases n - i,
{
    if i < n {
        head_dropped(all, i + 1, n);
    }
}

// ---------------------------------------------------------------------------
// Block comments

/// What opens a block comment.
pub open spec fn opens_block(marker: Seq<char>) -> bool {
    marker == seq!['/', '*', '*'] || marker == seq!['/', '*', '!'] || marker == seq!['/', '*']
}

/// A line of a comment: no white space at its end.
pub open spec fn is_text_line(line: Seq<char>) -> bool {
    is_line(line) && (line.len() > 0 ==> !char_is_space(line.last()))
}

/// Lines of a comment, the first and the last of them not empty.
pub open spec fn are_text_lines(lines: Seq<Seq<char>>) -> bool {
    &&& lines.len() > 0
    &&& lines[0].len() > 0
    &&& lines.last().len() > 0
    &&& forall|k: int| 0 <= k < lines.len() ==> is_text_line(#[trigger] lines[k])
}

/// A line behind the star in the margin.
pub open spec fn margin_line(indent: Seq<char>, line: Seq<char>) -> Seq<char> {
    indent + seq!['*', ' '] + line
}

/// Lines as a block comment, the first of them behind the opening marker.
pub open spec fn block_of(indent: Seq<char>, marker: Seq<char>, lines: Seq<Seq<char>>) -> Seq<
    Seq<char>,
> {
    Seq::new(
        lines.len() + 1,
        |k: int|
            if k == 0 {
                indent + marker + seq![' '] + lines[0]
            } else if k < lines.len() {
                margin_line(indent, lines[k])
            } else {
                indent + seq!['*', '/']
            },
    )
}

/// Lines as a block comment, all of them below the opening marker.
pub open spec fn block_below(
    indent: Seq<char>,
    marker: Seq<char>,
    lines: Seq<Seq<char>>,
) -> Seq<Seq<char>> {
    Seq::new(
        lines.len() + 2,
        |k: int|
            if k == 0 {
                indent + marker
            } else if k <= lines.len() {
                margin_line(indent, lines[k - 1])
            } else {
                indent + seq!['*', '/']
            },
    )
}

pub proof fn words_spelled()
    ensures
        "/**"@ =~= seq!['/', '*', '*'],
        "/*!"@ =~= seq!['/', '*', '!'],
        "/*"@ =~= seq!['/', '*'],
        "*/"@ =~= seq!['*', '/'],
        "*"@ =~= seq!['*'],
        " "@ =~= seq![' '],
        "///"@ =~= seq!['/', '/', '/'],
        "//!"@ =~= seq!['/', '/', '!'],
        "//"@ =~= seq!['/', '/'],
{
    reveal_strlit("/**");
    reveal_strlit("/*!");
    reveal_strlit("/*");
    reveal_strlit("*/");
    reveal_strlit("*");
    reveal_strlit(" ");
    reveal_strlit("///");
    reveal_strlit("//!");
    reveal_strlit("//");
}

pub proof fn begins_so(prefix: Seq<char>, rest: Seq<char>)
    ensures
        begins(prefix + rest, prefix),
        stripped(prefix + rest, prefix) == rest,
{
    let s = prefix + rest;
    assert(s.subrange(0, prefix.len() as int) =~= prefix);
    assert(s.subrange(prefix.len() as int, s.len() as int) =~= rest);
}

pub proof fn begins_otherwise(s: Seq<char>, prefix: Seq<char>, k: int)
    requires
        0 <= k < prefix.len(),
        k < s.len() ==> s[k] != prefix[k],
    ensures
        !begins(s, prefix),
{
    if begins(s, prefix) {
        assert(s.subrange(0, prefix.len() as int)[k] == s[k]);
    }
}

/// The opening marker is taken off.
proof fn opened(indent: Seq<char>, marker: Seq<char>, rest: Seq<char>)
    requires
        are_gaps(indent),
        opens_block(marker),
        rest.len() > 0 ==> rest[0] == ' ',
    ensures
        without_open(indent + marker + rest) == rest,
{
    words_spelled();
    let t = marker + rest;
    assert(indent + marker + rest =~= indent + t);
    gap_before(indent, t);
    begins_so(marker, rest);
    if marker == "/*!"@ {
        begins_otherwise(t, "/**"@, 2);
    } else if marker == "/*"@ {
        begins_otherwise(t, "/**"@, 2);
        begins_otherwise(t, "/*!"@, 2);
    }
}

/// The star in the margin is taken off.
proof fn unmargined(indent: Seq<char>, line: Seq<char>)
    requires
        are_gaps(indent),
        is_text_line(line),
    ensures
        margin_text(margin_line(indent, line)) == line,
{
    words_spelled();
    let t = seq!['*', ' '] + line;
    assert(margin_line(indent, line) =~= indent + t);
    gap_before(indent, t);
    assert(t =~= "*"@ + (seq![' '] + line));
    begins_so("*"@, seq![' '] + line);
    begins_so(" "@, line);
    no_gap_behind(line);
}

/// A line that no star stands before is kept.
proof fn unstarred(gap: Seq<char>, line: Seq<char>)
    requires
        are_gaps(gap),
        is_text_line(line),
        line.len() > 0 ==> !char_is_space(line[0]) && line[0] != '*',
    ensures
        margin_text(gap + line) == line,
{
    words_spelled();
    gap_before(gap, line);
    begins_otherwise(line, "*"@, 0);
    no_gap_behind(line);
}

proof fn last_is_at_the_end(s: Seq<char>, word: Seq<char>)
    requires
        word.len() == 2,
        occurs_at(s, word, s.len() - 2),
    ensures
        last_occurrence(s, word, s.len() as int) == Some(s.len() - 2),
{
    let n = s.len() as int;
    assert(!occurs_at(s, word, n - 1));
    assert(last_occurrence(s, word, n - 1) == Some(n - 2));
}

/// The closing marker is taken off.
proof fn closed(before: Seq<char>)
    ensures
        without_close(before + seq!['*', '/']) == before,
{
    let s = before + seq!['*', '/'];
    let n = s.len() as int;
    let word = "*/"@;
    assert(word =~= seq!['*', '/']) by {
        words_spelled();
    }
    assert(s.subrange(n - 2, n) =~= word);
    last_is_at_the_end(s, word);
    assert(s.subrange(0, n - 2) =~= before);
}

spec fn is_block(style: CommentStyle) -> bool {
    style == CommentStyle::Block || style == CommentStyle::DocBlock
}

proof fn block_lines_cleaned(raw: Seq<Seq<char>>, style: CommentStyle, lines: Seq<Seq<char>>)
    requires
        are_lines(raw),
        is_block(style),
        lines == Seq::new(raw.len(), |i: int| margin_text(bare_line(raw, i))),
    ensures
        cleaned(put_together(raw), style) == without_blank_edges(lines),
{
    lines_come_apart(raw);
}

proof fn empty_is_blank()
    ensures
        blank(Seq::<char>::empty()),
{
    assert(trim(Seq::<char>::empty()).len() == 0);
}

proof fn margin_is_line(indent: Seq<char>, line: Seq<char>)
    requires
        are_gaps(indent),
        is_text_line(line),
    ensures
        is_line(margin_line(indent, line)),
        margin_line(indent, line).len() > 0,
{
    let m = margin_line(indent, line);
    assert forall|i: int| 0 <= i < m.len() implies #[trigger] m[i] != '\n' by {
        if i < indent.len() {
            assert(m[i] == indent[i]);
        } else if i >= indent.len() + 2 {
            assert(m[i] == line[i - indent.len() - 2]);
        }
    }
    if line.len() > 0 {
        assert(m.last() == line.last());
    } else {
        assert(m.last() == ' ');
    }
}

proof fn close_is_line(indent: Seq<char>)
    requires
        are_gaps(indent),
    ensures
        is_line(indent + seq!['*', '/']),
{
    let m = indent + seq!['*', '/'];
    assert forall|i: int| 0 <= i < m.len() implies #[trigger] m[i] != '\n' by {
        if i < indent.len() {
            assert(m[i] == indent[i]);
        }
    }
    assert(m.last() == '/');
}

proof fn open_is_line(indent: Seq<char>, marker: Seq<char>, rest: Seq<char>)
    requires
        are_gaps(indent),
        opens_block(marker),
        is_line(rest),
    ensures
        is_line(indent + marker + rest),
{
    let m = indent + marker + rest;
    assert forall|i: int| 0 <= i < m.len() implies #[trigger] m[i] != '\n' by {
        if i < indent.len() {
            assert(m[i] == indent[i]);
        } else if i < indent.len() + marker.len() {
            assert(m[i] == marker[i - indent.len()]);
        } else {
            assert(m[i] == rest[i - indent.len() - marker.len()]);
        }
    }
    if rest.len() > 0 {
        assert(m.last() == rest.last());
    } else {
        assert(m.last() == marker.last());
    }
}

proof fn close_cleans(indent: Seq<char>)
    requires
        are_gaps(indent),
    ensures
        margin_text(without_close(indent + seq!['*', '/'])) == Seq::<char>::empty(),
{
    closed(indent);
    assert(indent + Seq::<char>::empty() =~= indent);
    unstarred(indent, Seq::empty());
}

proof fn spaced_line(line: Seq<char>)
    requires
        is_line(line),
        line.len() > 0,
    ensures
        is_line(seq![' '] + line),
{
    let s = seq![' '] + line;
    assert forall|i: int| 0 <= i < s.len() implies #[trigger] s[i] != '\n' by {
        if i > 0 {
            assert(s[i] == line[i - 1]);
        }
    }
    assert(s.last() == line.last());
}

/// A block comment is cleaned into the lines that it was written from: the
/// first one stands behind the opening marker, all others behind a star in the
/// margin, whatever the indentation and however many there are.
pub proof fn block_cleans_to_its_lines(
    indent: Seq<char>,
    marker: Seq<char>,
    lines: Seq<Seq<char>>,
    style: CommentStyle,
)
    requires
        are_gaps(indent),
        opens_block(marker),
        are_text_lines(lines),
        !char_is_space(lines[0][0]),
        lines[0][0] != '*',
        style == CommentStyle::Block || style == CommentStyle::DocBlock,
    ensures
        cleaned(put_together(block_of(indent, marker, lines)), style) == lines,
{
    let raw = block_of(indent, marker, lines);
    let n = lines.len() as int;
    let space = seq![' '];
    let first = space + lines[0];
    block_is_lines(indent, marker, lines);
    let none = Seq::<char>::empty();
    let all = lines.push(none);
    assert forall|i: int| 0 <= i < raw.len() implies #[trigger] margin_text(bare_line(raw, i))
        == all[i] by {
        if i == 0 {
            assert(raw[0] =~= indent + marker + first);
            opened(indent, marker, first);
            unstarred(space, lines[0]);
        } else if i < n {
            unmargined(indent, lines[i]);
        } else {
            close_cleans(indent);
        }
    }
    let got = Seq::new(raw.len(), |i: int| margin_text(bare_line(raw, i)));
    assert(got =~= lines + seq![none]);
    block_lines_cleaned(raw, style, got);
    ink_is_not_blank(lines[0]);
    ink_is_not_blank(lines.last());
    empty_is_blank();
    edges_kept(lines, seq![none]);
}

proof fn block_is_lines(indent: Seq<char>, marker: Seq<char>, lines: Seq<Seq<char>>)
    requires
        are_gaps(indent),
        opens_block(marker),
        are_text_lines(lines),
    ensures
        are_lines(block_of(indent, marker, lines)),
{
    let raw = block_of(indent, marker, lines);
    assert forall|k: int| 0 <= k < raw.len() implies is_line(#[trigger] raw[k]) by {
        if k == 0 {
            spaced_line(lines[0]);
            open_is_line(indent, marker, seq![' '] + lines[0]);
            assert(raw[0] =~= indent + marker + (seq![' '] + lines[0]));
        } else if k < lines.len() {
            margin_is_line(indent, lines[k]);
        } else {
            close_is_line(indent);
        }
    }
}

/// The same of a comment whose opening marker stands on a line of its own.
pub proof fn block_below_cleans_to_its_lines(
    indent: Seq<char>,
    marker: Seq<char>,
    lines: Seq<Seq<char>>,
    style: CommentStyle,
)
    requires
        are_gaps(indent),
        opens_block(marker),
        are_text_lines(lines),
        style == CommentStyle::Block || style == CommentStyle::DocBlock,
    ensures
        cleaned(put_together(block_below(indent, marker, lines)), style) == lines,
{
    let raw = block_below(indent, marker, lines);
    let n = lines.len() as int;
    let none = Seq::<char>::empty();
    assert forall|k: int| 0 <= k < raw.len() implies is_line(#[trigger] raw[k]) by {
        if k == 0 {
            open_is_line(indent, marker, none);
            assert(raw[0] =~= indent + marker + none);
        } else if k <= n {
            margin_is_line(indent, lines[k - 1]);
        } else {
            close_is_line(indent);
        }
    }
    let all = seq![none] + lines + seq![none];
    assert forall|i: int| 0 <= i < raw.len() implies #[trigger] margin_text(bare_line(raw, i))
        == all[i] by {
        if i == 0 {
            assert(raw[0] =~= indent + marker + none);
            opened(indent, marker, none);
            assert(none + none =~= none);
            unstarred(none, none);
        } else if i <= n {
            unmargined(indent, lines[i - 1]);
        } else {
            close_cleans(indent);
        }
    }
    let got = Seq::new(raw.len(), |i: int| margin_text(bare_line(raw, i)));
    assert(got =~= all);
    block_lines_cleaned(raw, style, got);
    ink_is_not_blank(lines[0]);
    ink_is_not_blank(lines.last());
    empty_is_blank();
    assert(all[1] == lines[0]);
    head_dropped(all, 0, 1);
    inner_tail(all, 1, n + 1, n + 2);
    assert(all.subrange(1, n + 1) =~= lines);
}

proof fn inner_tail(all: Seq<Seq<char>>, start: int, n: int, end: int)
    requires
        0 <= start < n <= end <= all.len(),
        !blank(all[n - 1]),
        forall|i: int| n <= i < end ==> blank(#[trigger] all[i]),
    ensures
        ink_until(all, start, end) == n,
    decreases end,
{
    if n < end {
        assert(blank(all[end - 1]));
        inner_tail(all, start, n, end - 1);
    }
}

/// The first line of a cleaned block comment is the text behind its opening
/// marker, whatever the lines below it hold.
pub proof fn block_begins_behind_its_marker(
    indent: Seq<char>,
    marker: Seq<char>,
    line: Seq<char>,
    rest: Seq<char>,
    style: CommentStyle,
)
    requires
        are_gaps(indent),
        opens_block(marker),
        is_text_line(line),
        line.len() > 0,
        !char_is_space(line[0]),
        line[0] != '*',
        rest.len() > 0,
        style == CommentStyle::Block || style == CommentStyle::DocBlock,
    ensures
        ({
            let lines = cleaned(indent + marker + seq![' '] + line + seq!['\n'] + rest, style);
            lines.len() > 0 && lines[0] == line
        }),
{
    let text = indent + marker + seq![' '] + line + seq!['\n'] + rest;
    let first = indent + marker + seq![' '] + line;
    let behind = seq![' '] + line;
    assert(first =~= indent + marker + behind);
    spaced_line(line);
    open_is_line(indent, marker, behind);
    let end = first.len() as int;
    assert forall|i: int| 0 <= i < end implies #[trigger] text[i] != '\n' by {
        assert(text[i] == first[i]);
    }
    line_ends(text, 0, end);
    assert(text.subrange(0, end) =~= first);
    assert(text[end - 1] == first.last());
    let raw = lines_of(text);
    let below = lines_from(text, end + 1);
    assert(line_between(text, 0, end) == first);
    assert(raw == seq![first] + below);
    assert(below.len() > 0);
    assert(raw[0] == first);
    opened(indent, marker, behind);
    unstarred(seq![' '], line);
    let got = Seq::new(raw.len(), |i: int| margin_text(bare_line(raw, i)));
    assert(got[0] == line);
    ink_is_not_blank(line);
    ink_stays(got, got.len() as int);
}

proof fn ink_stays(all: Seq<Seq<char>>, end: int)
    requires
        0 < end <= all.len(),
        !blank(all[0]),
    ensures
        0 < ink_until(all, 0, end) <= end,
    decreases end,
{
    if blank(all[end - 1]) {
        ink_stays(all, end - 1);
    }
}

/// A block comment on one line is cleaned into what stands between its
/// markers.
pub proof fn short_block_cleans_to_its_text(
    indent: Seq<char>,
    marker: Seq<char>,
    line: Seq<char>,
    style: CommentStyle,
)
    requires
        are_gaps(indent),
        opens_block(marker),
        is_text_line(line),
        line.len() > 0,
        !char_is_space(line[0]),
        line[0] != '*',
        style == CommentStyle::Block || style == CommentStyle::DocBlock,
    ensures
        cleaned(indent + marker + seq![' '] + line + seq![' ', '*', '/'], style) == seq![line],
{
    let text = indent + marker + seq![' '] + line + seq![' ', '*', '/'];
    let rest = seq![' '] + line + seq![' ', '*', '/'];
    let raw = seq![text];
    assert(text =~= indent + marker + rest);
    assert(is_line(rest)) by {
        assert forall|i: int| 0 <= i < rest.len() implies #[trigger] rest[i] != '\n' by {
            if 1 <= i < line.len() + 1 {
                assert(rest[i] == line[i - 1]);
            }
        }
        assert(rest.last() == '/');
    }
    open_is_line(indent, marker, rest);
    assert(put_together(raw) == text);
    opened(indent, marker, rest);
    let inner = seq![' '] + line + seq![' '];
    assert(rest =~= inner + seq!['*', '/']);
    closed(inner);
    words_spelled();
    let t = line + seq![' '];
    assert(inner =~= seq![' '] + t);
    gap_before(seq![' '], t);
    begins_otherwise(t, "*"@, 0);
    space_cut(line);
    let got = Seq::new(raw.len(), |i: int| margin_text(bare_line(raw, i)));
    assert(got =~= seq![line]);
    block_lines_cleaned(raw, style, got);
    ink_is_not_blank(line);
    assert(seq![line] + Seq::<Seq<char>>::empty() =~= seq![line]);
    edges_kept(seq![line], Seq::empty());
}

proof fn space_cut(line: Seq<char>)
    requires
        line.len() > 0,
        !char_is_space(line.last()),
    ensures
        trim_end(line + seq![' ']) == line,
{
    let t = line + seq![' '];
    assert(space_run_start(t, t.len() - 1) == t.len() - 1);
    assert(space_run_start(t, t.len() as int) == t.len() - 1);
    assert(t.subrange(0, t.len() - 1) =~= line);
}

// ---------------------------------------------------------------------------
// Line comments

/// What opens a line comment.
pub open spec fn opens_line(marker: Seq<char>) -> bool {
    marker == seq!['/', '/', '/'] || marker == seq!['/', '/', '!'] || marker == seq!['/', '/']
}

/// Lines as line comments.
pub open spec fn line_comments(
    indent: Seq<char>,
    marker: Seq<char>,
    lines: Seq<Seq<char>>,
) -> Seq<Seq<char>> {
    Seq::new(lines.len(), |k: int| indent + marker + seq![' '] + lines[k])
}

proof fn line_cleaned(indent: Seq<char>, marker: Seq<char>, line: Seq<char>)
    requires
        are_gaps(indent),
        opens_line(marker),
        is_text_line(line),
    ensures
        line_text(indent + marker + seq![' '] + line) == line,
        is_line(indent + marker + seq![' '] + line),
{
    words_spelled();
    let rest = seq![' '] + line;
    let t = marker + rest;
    let m = indent + marker + seq![' '] + line;
    assert(m =~= indent + t);
    gap_before(indent, t);
    begins_so(marker, rest);
    if marker == "//!"@ {
        begins_otherwise(t, "///"@, 2);
    } else if marker == "//"@ {
        begins_otherwise(t, "///"@, 2);
        begins_otherwise(t, "//!"@, 2);
    }
    begins_so(" "@, line);
    no_gap_behind(line);
    assert forall|i: int| 0 <= i < m.len() implies #[trigger] m[i] != '\n' by {
        let a = indent.len() as int;
        let b = a + marker.len();
        if i < a {
            assert(m[i] == indent[i]);
        } else if i < b {
            assert(m[i] == marker[i - a]);
        } else if i > b {
            assert(m[i] == line[i - b - 1]);
        }
    }
    if line.len() > 0 {
        assert(m.last() == line.last());
    } else {
        assert(m.last() == ' ');
    }
}

/// Line comments are cleaned into the lines that they were written from.
pub proof fn line_comments_clean_to_their_lines(
    indent: Seq<char>,
    marker: Seq<char>,
    lines: Seq<Seq<char>>,
    style: CommentStyle,
)
    requires
        are_gaps(indent),
        opens_line(marker),
        are_text_lines(lines),
        style == CommentStyle::Line || style == CommentStyle::DocLine,
    ensures
        cleaned(put_together(line_comments(indent, marker, lines)), style) == lines,
{
    let raw = line_comments(indent, marker, lines);
    assert forall|k: int| 0 <= k < raw.len() implies is_line(#[trigger] raw[k]) && line_text(raw[k])
        == lines[k] by {
        line_cleaned(indent, marker, lines[k]);
    }
    lines_come_apart(raw);
    let got = Seq::new(raw.len(), |i: int| line_text(raw[i]));
    assert(got =~= lines);
    ink_is_not_blank(lines[0]);
    ink_is_not_blank(lines.last());
    assert(lines + Seq::<Seq<char>>::empty() =~= lines);
    edges_kept(lines, Seq::empty());
}

} // verus!
