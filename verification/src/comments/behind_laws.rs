//! Which comment behind a declaration belongs to it, told by how the line is
//! written.

use vstd::prelude::*;

use crate::chain_laws::{are_gaps, is_plain_name, is_word_char};
use crate::chars::{char_is_space, space_run_end, trim, trim_start};
use crate::comments::document_laws::{
    document_lines, is_document, is_prose, is_prose_char, lines_of_sections, prose_is_text,
    tells_copyright, Section,
};
use crate::comments::extract::{
    attached, clamped, comment_start, describes, last_word_end, statement_start, top_level,
    top_level_from, trailing_comment,
};
use crate::comments::laws::{
    are_lines, is_text_line, line_comments, line_comments_clean_to_their_lines, lines_come_apart,
    no_gap_behind, opens_block, opens_line, put_together, short_block_cleans_to_its_text,
};
use crate::comments::model::{CommentDiagnostics, CommentPlacement, CommentRenderOptions, Raw};
use crate::comments::page_laws::{document_page, parameters_told, prose_page, sections_page};
use crate::comments::parse::cleaned;
use crate::comments::place_laws::{comment_is_shown, has_no_slash, style_read, style_shown, Layout};
use crate::comments::{raw_doc, symbol_doc, SymbolDoc};

use crate::text::{block_comment_end, ident_run_end};

verus! {

/// Code without literals, brackets, comments and separators.
pub open spec fn is_plain_code(s: Seq<char>) -> bool {
    forall|i: int|
        0 <= i < s.len() ==> {
            &&& #[trigger] s[i] != '"'
            &&& s[i] != '\''
            &&& s[i] != '('
            &&& s[i] != ')'
            &&& s[i] != '['
            &&& s[i] != ']'
            &&& s[i] != '{'
            &&& s[i] != '}'
            &&& s[i] != '/'
            &&& s[i] != ';'
            &&& s[i] != ','
        }
}

/// A declaration of one name: plain code, then the name and a semicolon.
pub open spec fn declares(head: Seq<char>, name: Seq<char>) -> bool {
    &&& is_plain_code(head)
    &&& is_plain_name(name)
    &&& head.len() > 0 ==> !is_word_char(head.last())
}

/// A comment on one line.
pub open spec fn short_comment(block: bool, marker: Seq<char>, line: Seq<char>) -> Seq<char> {
    if block {
        marker + seq![' '] + line + seq![' ', '*', '/']
    } else {
        marker + seq![' '] + line
    }
}

pub open spec fn is_short_comment(block: bool, marker: Seq<char>, line: Seq<char>) -> bool {
    &&& if block {
        opens_block(marker)
    } else {
        opens_line(marker)
    }
    &&& is_text_line(line)
    &&& line.len() > 0
    &&& has_no_slash(line)
    &&& !char_is_space(line[0])
    &&& line[0] != '*'
}

/// The line of a declaration with a comment behind it.
pub open spec fn declared_line(
    head: Seq<char>,
    name: Seq<char>,
    gap: Seq<char>,
    comment: Seq<char>,
) -> Seq<char> {
    head + name + seq![';'] + gap + comment
}

proof fn code_passed(s: Seq<char>, i: int, end: int, terminated: bool)
    requires
        0 <= i <= end <= s.len(),
        is_plain_code(s.subrange(i, end)),
    ensures
        trailing_comment(s, i, None, 0, terminated, None, None) == trailing_comment(
            s,
            end,
            None,
            0,
            terminated,
            None,
            None,
        ),
    decreases end - i,
{
    if i < end {
        let part = s.subrange(i, end);
        assert(part[0] == s[i]);
        let rest = s.subrange(i + 1, end);
        assert(is_plain_code(rest)) by {
            assert forall|k: int| 0 <= k < rest.len() implies {
                &&& #[trigger] rest[k] != '"'
                &&& rest[k] != '\''
                &&& rest[k] != '('
                &&& rest[k] != ')'
                &&& rest[k] != '['
                &&& rest[k] != ']'
                &&& rest[k] != '{'
                &&& rest[k] != '}'
                &&& rest[k] != '/'
                &&& rest[k] != ';'
                &&& rest[k] != ','
            } by {
                assert(rest[k] == part[k + 1]);
            }
        }
        code_passed(s, i + 1, end, terminated);
    }
}

proof fn block_runs_to_the_end(s: Seq<char>, i: int, end: int)
    requires
        0 <= i <= end,
        end + 2 == s.len(),
        s[end] == '*',
        s[end + 1] == '/',
        forall|k: int| i <= k <= end ==> #[trigger] s[k] != '/',
    ensures
        block_comment_end(s, i) == s.len(),
    decreases end - i,
{
    if i < end {
        assert(s[i + 1] != '/');
        block_runs_to_the_end(s, i + 1, end);
    }
}

proof fn declaration_is_plain(head: Seq<char>, name: Seq<char>)
    requires
        declares(head, name),
    ensures
        is_plain_code(head + name),
{
    let s = head + name;
    assert forall|i: int| 0 <= i < s.len() implies {
        &&& #[trigger] s[i] != '"'
        &&& s[i] != '\''
        &&& s[i] != '('
        &&& s[i] != ')'
        &&& s[i] != '['
        &&& s[i] != ']'
        &&& s[i] != '{'
        &&& s[i] != '}'
        &&& s[i] != '/'
        &&& s[i] != ';'
        &&& s[i] != ','
    } by {
        if i < head.len() {
            assert(s[i] == head[i]);
        } else {
            assert(s[i] == name[i - head.len()]);
            assert(is_word_char(name[i - head.len()]));
        }
    }
}

proof fn comment_begins(
    head: Seq<char>,
    name: Seq<char>,
    gap: Seq<char>,
    block: bool,
    marker: Seq<char>,
    line: Seq<char>,
)
    requires
        declares(head, name),
        are_gaps(gap),
        is_short_comment(block, marker, line),
    ensures
        comment_start(declared_line(head, name, gap, short_comment(block, marker, line))) == Some(
            (head.len() + name.len() + 1 + gap.len()) as int,
        ),
{
    let comment = short_comment(block, marker, line);
    let s = declared_line(head, name, gap, comment);
    let a = (head.len() + name.len()) as int;
    let b = a + 1 + gap.len();
    declaration_is_plain(head, name);
    assert(s.subrange(0, a) =~= head + name);
    code_passed(s, 0, a, false);
    assert(s[a] == ';');
    assert(s.subrange(a + 1, b) =~= gap);
    assert(is_plain_code(gap));
    code_passed(s, a + 1, b, true);
    assert(s[b] == comment[0] && s[b + 1] == comment[1]);
    assert(comment[0] == marker[0] && comment[1] == marker[1]);
    if block {
        let end = s.len() - 2;
        assert(s[end] == comment[comment.len() - 2] && s[end + 1] == comment[comment.len() - 1]);
        assert forall|k: int| b + 2 <= k <= end implies #[trigger] s[k] != '/' by {
            assert(s[k] == comment[k - b]);
            let j = k - b;
            let m = marker.len() as int;
            if j < m {
                assert(comment[j] == marker[j]);
            } else if m < j < m + 1 + line.len() {
                assert(comment[j] == line[j - m - 1]);
            }
        }
        block_runs_to_the_end(s, b + 2, end);
        assert(trailing_comment(s, s.len() as int, None, 0, true, Some(b), Some(b)) == Some(b));
    }
}

proof fn run_ends(s: Seq<char>, i: int, end: int)
    requires
        0 <= i <= end <= s.len(),
        forall|k: int| i <= k < end ==> is_word_char(#[trigger] s[k]),
        end < s.len() ==> !is_word_char(s[end]),
    ensures
        ident_run_end(s, i) == end,
    decreases end - i,
{
    if i < end {
        assert(is_word_char(s[i]));
        run_ends(s, i + 1, end);
    }
}

proof fn run_stops_before(s: Seq<char>, i: int, stop: int)
    requires
        0 <= i <= stop < s.len(),
        !is_word_char(s[stop]),
    ensures
        i <= ident_run_end(s, i) <= stop,
    decreases stop - i,
{
    if i < stop && is_word_char(s[i]) {
        run_stops_before(s, i + 1, stop);
    }
}

/// Whatever words stand before, the last one is the name.
proof fn last_word_is(s: Seq<char>, name: Seq<char>, i: int, at: int, last: Option<int>)
    requires
        is_plain_name(name),
        0 <= i <= at,
        at + name.len() < s.len(),
        s.subrange(at, at + name.len()) == name,
        at > 0 ==> !is_word_char(s[at - 1]),
        forall|k: int| 0 <= k < at ==> #[trigger] s[k] != '"' && s[k] != '\'',
        forall|k: int|
            at + name.len() <= k < s.len() ==> {
                &&& !is_word_char(#[trigger] s[k])
                &&& s[k] != '"'
                &&& s[k] != '\''
            },
    ensures
        last_word_end(s, name, i, None, last) == Some(at + name.len() as int),
    decreases s.len() - i,
{
    let end = at + name.len() as int;
    let part = s.subrange(at, end);
    if i == at {
        assert(s[at] == part[0]);
        assert(is_word_char(name[0]));
        assert forall|k: int| at + 1 <= k < end implies is_word_char(#[trigger] s[k]) by {
            assert(s[k] == part[k - at]);
            assert(is_word_char(name[k - at]));
        }
        run_ends(s, at + 1, end);
        words_are_over(s, name, end, Some(end));
    } else {
        assert(s[i] != '"' && s[i] != '\'');
        if is_word_char(s[i]) && !('0' <= s[i] && s[i] <= '9') {
            assert(i < at - 1);
            run_stops_before(s, i + 1, at - 1);
            let stop = ident_run_end(s, i + 1);
            last_word_is(
                s,
                name,
                stop,
                at,
                if s.subrange(i, stop) == name {
                    Some(stop)
                } else {
                    last
                },
            );
        } else {
            last_word_is(s, name, i + 1, at, last);
        }
    }
}

proof fn words_are_over(s: Seq<char>, name: Seq<char>, i: int, last: Option<int>)
    requires
        0 <= i,
        forall|k: int|
            i <= k < s.len() ==> {
                &&& !is_word_char(#[trigger] s[k])
                &&& s[k] != '"'
                &&& s[k] != '\''
            },
    ensures
        last_word_end(s, name, i, None, last) == last,
    decreases s.len() - i,
{
    if i < s.len() {
        assert(!is_word_char(s[i]));
        words_are_over(s, name, i + 1, last);
    }
}

proof fn no_comma(s: Seq<char>, i: int)
    requires
        0 <= i,
        forall|k: int|
            0 <= k < s.len() ==> {
                &&& #[trigger] s[k] != ','
                &&& s[k] != '('
                &&& s[k] != ')'
                &&& s[k] != '['
                &&& s[k] != ']'
                &&& s[k] != '{'
                &&& s[k] != '}'
            },
    ensures
        top_level_from(s, ',', i, 0) is None,
    decreases s.len() - i,
{
    if i < s.len() {
        assert(s[i] != ',');
        no_comma(s, i + 1);
    }
}

proof fn statement_is_first(s: Seq<char>, end: int)
    requires
        0 <= end <= s.len(),
        forall|k: int| 0 <= k < end ==> #[trigger] s[k] != ';',
    ensures
        statement_start(s, end) == 0,
    decreases end,
{
    if end > 0 {
        assert(s[end - 1] != ';');
        statement_is_first(s, end - 1);
    }
}

proof fn blank_is_gap(gap: Seq<char>)
    requires
        are_gaps(gap),
    ensures
        trim(gap).len() == 0,
{
    gap_runs(gap, 0);
    assert(trim_start(gap).len() == 0);
}

proof fn gap_runs(gap: Seq<char>, i: int)
    requires
        are_gaps(gap),
        0 <= i <= gap.len(),
    ensures
        space_run_end(gap, i) == gap.len(),
    decreases gap.len() - i,
{
    if i < gap.len() {
        assert(gap[i] == ' ' || gap[i] == '\t');
        gap_runs(gap, i + 1);
    }
}

proof fn trimmed_start_bounds(s: Seq<char>, i: int)
    requires
        0 <= i <= s.len(),
    ensures
        i <= space_run_end(s, i) <= s.len(),
    decreases s.len() - i,
{
    if i < s.len() && char_is_space(s[i]) {
        trimmed_start_bounds(s, i + 1);
    }
}

proof fn declaration_is_described(head: Seq<char>, name: Seq<char>, gap: Seq<char>)
    requires
        declares(head, name),
        are_gaps(gap),
    ensures
        describes(head + name + seq![';'] + gap, name),
{
    let s = head + name + seq![';'] + gap;
    let at = head.len() as int;
    let e = at + name.len();
    declaration_is_plain(head, name);
    let code = head + name;
    assert forall|k: int| 0 <= k < e implies #[trigger] s[k] == code[k] by {}
    assert(s.subrange(at, e) =~= name);
    if at > 0 {
        assert(s[at - 1] == head.last());
    }
    assert forall|k: int| 0 <= k < at implies #[trigger] s[k] != '"' && s[k] != '\'' by {
        assert(s[k] == code[k]);
    }
    assert forall|k: int| e <= k < s.len() implies {
        &&& !is_word_char(#[trigger] s[k])
        &&& s[k] != '"'
        &&& s[k] != '\''
    } by {
        if k > e {
            assert(s[k] == gap[k - e - 1]);
        }
    }
    last_word_is(s, name, 0, at, None);
    let after = s.subrange(e, s.len() as int);
    assert(after =~= seq![';'] + gap);
    assert(top_level(after, ';') == Some(0int));
    no_comma(after.subrange(0, 0), 0);
    assert forall|k: int| 0 <= k < e implies #[trigger] s[k] != ';' by {
        assert(s[k] == code[k]);
    }
    statement_is_first(s, e);
    let whole = s.subrange(0, e + 1);
    let statement = trim_start(whole);
    trimmed_start_bounds(whole, 0);
    let from = space_run_end(whole, 0);
    assert forall|k: int| 0 <= k < statement.len() implies {
        &&& #[trigger] statement[k] != ','
        &&& statement[k] != '('
        &&& statement[k] != ')'
        &&& statement[k] != '['
        &&& statement[k] != ']'
        &&& statement[k] != '{'
        &&& statement[k] != '}'
    } by {
        assert(statement[k] == whole[from + k]);
        if from + k < e {
            assert(s[from + k] == code[from + k]);
        }
    }
    no_comma(statement, 0);
    assert(after.subrange(1, after.len() as int) =~= gap);
    blank_is_gap(gap);
}

/// A comment behind the declaration of one name, on the same line, is that
/// name's, whatever stands above.
pub proof fn comment_behind_is_attached(
    lines: Seq<Seq<char>>,
    cursor: int,
    head: Seq<char>,
    name: Seq<char>,
    gap: Seq<char>,
    block: bool,
    marker: Seq<char>,
    line: Seq<char>,
)
    requires
        0 <= cursor < lines.len(),
        lines[cursor] == declared_line(head, name, gap, short_comment(block, marker, line)),
        declares(head, name),
        are_gaps(gap),
        is_short_comment(block, marker, line),
    ensures
        attached(lines, cursor, name) == Some(
            Raw {
                text: short_comment(block, marker, line),
                placement: CommentPlacement::TrailingSameLine,
                style: style_shown(
                    if block {
                        Layout::Behind
                    } else {
                        Layout::Lines
                    },
                    marker,
                ),
                start_line: cursor as u32,
                end_line: cursor as u32,
                truncated: false,
            },
        ),
{
    let comment = short_comment(block, marker, line);
    let s = lines[cursor];
    let at = (head.len() + name.len() + 1 + gap.len()) as int;
    comment_begins(head, name, gap, block, marker, line);
    assert(s.subrange(0, at) =~= head + name + seq![';'] + gap);
    declaration_is_described(head, name, gap);
    assert(s.subrange(at, s.len() as int) =~= comment);
    if block {
        assert(comment.last() == '/');
    } else {
        assert(comment.last() == line.last());
    }
    no_gap_behind(comment);
    let layout = if block {
        Layout::Behind
    } else {
        Layout::Lines
    };
    let none = Seq::<char>::empty();
    let rest = if block {
        seq![' '] + line + seq![' ', '*', '/']
    } else {
        seq![' '] + line
    };
    assert(comment =~= none + marker + rest);
    style_read(layout, none, marker, rest);
}

/// From the source to what is shown: a line of prose behind a declaration is
/// shown as it is.
pub proof fn documentation_behind_is_what_was_written(
    above: Seq<Seq<char>>,
    head: Seq<char>,
    name: Seq<char>,
    gap: Seq<char>,
    block: bool,
    marker: Seq<char>,
    line: Seq<char>,
    below: Seq<Seq<char>>,
    options: CommentRenderOptions,
)
    requires
        declares(head, name),
        are_gaps(gap),
        if block {
            opens_block(marker)
        } else {
            opens_line(marker)
        },
        is_prose(line),
        !tells_copyright(line),
        are_lines(
            above + seq![declared_line(head, name, gap, short_comment(block, marker, line))] + below,
        ),
        options.max_comment_lines >= 1,
        line.len() + 1 <= options.max_chars,
    ensures
        symbol_doc(
            put_together(
                above + seq![declared_line(head, name, gap, short_comment(block, marker, line))]
                    + below,
            ),
            above.len() as int,
            name,
            options,
        ) == Some(
            SymbolDoc {
                markdown: line + seq!['\n'],
                parameters: Seq::empty(),
                diagnostics: CommentDiagnostics::clean(),
            },
        ),
{
    let comment = short_comment(block, marker, line);
    let source = above + seq![declared_line(head, name, gap, comment)] + below;
    let cursor = above.len() as int;
    prose_is_text(line);
    assert forall|i: int| 0 <= i < line.len() implies #[trigger] line[i] != '/' && line[i]
        != '*' by {
        assert(is_prose_char(line[i]));
    }
    assert(line[0] != '*');
    lines_come_apart(source);
    comment_behind_is_attached(source, cursor, head, name, gap, block, marker, line);
    let raw = attached(source, cursor, name)->0;
    short_comment_cleans(block, marker, line);
    short_comment_is_line(block, marker, line);
    lines_come_apart(seq![comment]);
    assert(put_together(seq![comment]) == comment);
    assert(clamped(raw, options.max_comment_lines as int) == raw);
    one_line_is_shown(raw, line, options);
}

proof fn short_comment_is_line(block: bool, marker: Seq<char>, line: Seq<char>)
    requires
        is_short_comment(block, marker, line),
    ensures
        are_lines(seq![short_comment(block, marker, line)]),
{
    let c = short_comment(block, marker, line);
    let m = marker.len() as int;
    assert forall|i: int| 0 <= i < c.len() implies #[trigger] c[i] != '\n' by {
        if i < m {
            assert(c[i] == marker[i]);
        } else if m < i < m + 1 + line.len() {
            assert(c[i] == line[i - m - 1]);
        }
    }
    if block {
        assert(c.last() == '/');
    } else {
        assert(c.last() == line.last());
    }
}

proof fn short_comment_cleans(block: bool, marker: Seq<char>, line: Seq<char>)
    requires
        is_short_comment(block, marker, line),
    ensures
        cleaned(
            short_comment(block, marker, line),
            style_shown(
                if block {
                    Layout::Behind
                } else {
                    Layout::Lines
                },
                marker,
            ),
        ) == seq![line],
{
    let none = Seq::<char>::empty();
    let c = short_comment(block, marker, line);
    if block {
        let style = style_shown(Layout::Behind, marker);
        short_block_cleans_to_its_text(none, marker, line, style);
        assert(c =~= none + marker + seq![' '] + line + seq![' ', '*', '/']);
    } else {
        let style = style_shown(Layout::Lines, marker);
        let raw = line_comments(none, marker, seq![line]);
        line_comments_clean_to_their_lines(none, marker, seq![line], style);
        assert(raw[0] =~= c);
        assert(put_together(raw) == c);
    }
}

proof fn one_line_is_shown(raw: Raw, line: Seq<char>, options: CommentRenderOptions)
    requires
        cleaned(raw.text, raw.style) == seq![line],
        !raw.truncated,
        is_prose(line),
        !tells_copyright(line),
        options.max_comment_lines >= 1,
        line.len() + 1 <= options.max_chars,
    ensures
        raw_doc(raw, options) == Some(
            SymbolDoc {
                markdown: line + seq!['\n'],
                parameters: Seq::empty(),
                diagnostics: CommentDiagnostics::clean(),
            },
        ),
{
    let said = seq![line];
    let sections = Seq::<Section>::empty();
    assert(lines_of_sections(sections, 0) =~= Seq::empty());
    assert(document_lines(said, sections) =~= said);
    assert(is_document(said, sections));
    reveal_strlit("\n");
    assert("\n"@ =~= seq!['\n']);
    assert(prose_page(said, 1) =~= Seq::empty());
    assert(sections_page(sections, 0, false, false) =~= Seq::empty());
    assert(document_page(said, sections) =~= line + seq!['\n']);
    assert(parameters_told(sections, 0) =~= Seq::empty());
    comment_is_shown(raw, said, sections, options);
}

} // verus!
