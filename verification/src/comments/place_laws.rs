//! Which comment belongs to a declaration, told by how the source is written.

use vstd::prelude::*;

use crate::chain_laws::are_gaps;
use crate::chars::{char_is_space, first_occurrence, occurs_at, space_run_end, trim, trim_start};
use crate::comments::document_laws::{
    comment_tells_its_sections, document_line, document_lines, is_document, is_tame, Section,
};
use crate::comments::extract::{
    attached, block_end, block_line, block_start, clamped, code_after_close, comment_run_start,
    comment_start, found, inline_leading, leading, line_comment, literal_after, pure_opening_line,
    style_of, trailing, trailing_comment, Literal,
};
use crate::comments::laws::{
    are_lines, are_text_lines, begins_otherwise, begins_so, block_below,
    block_below_cleans_to_its_lines, block_cleans_to_its_lines, block_of, gap_before, is_line,
    is_text_line, joined_is_put_together, line_comments, line_comments_clean_to_their_lines,
    lines_come_apart, margin_line, opens_block, opens_line, put_together, text_from,
    words_spelled,
};
use crate::comments::model::{
    CommentDiagnostics, CommentPlacement, CommentRenderOptions, CommentStyle, Raw,
};
use crate::comments::page_laws::{
    document_page, every_parameter_is_told, page_shows_every_section, parameters_told,
};
use crate::comments::parse::{cleaned, parsed};
use crate::comments::{raw_doc, symbol_doc, SymbolDoc};
use crate::lines::{begins, holds, joined};

verus! {

/// How a comment is laid out: line comments, a block comment that begins
/// behind its marker, or one that begins below it.
pub enum Layout {
    Lines,
    Behind,
    Below,
}

/// The comment as it stands in the source.
pub open spec fn laid_out(
    layout: Layout,
    indent: Seq<char>,
    marker: Seq<char>,
    lines: Seq<Seq<char>>,
) -> Seq<Seq<char>> {
    match layout {
        Layout::Lines => line_comments(indent, marker, lines),
        Layout::Behind => block_of(indent, marker, lines),
        Layout::Below => block_below(indent, marker, lines),
    }
}

pub open spec fn opens(layout: Layout, marker: Seq<char>) -> bool {
    match layout {
        Layout::Lines => opens_line(marker),
        Layout::Behind => opens_block(marker),
        Layout::Below => opens_block(marker),
    }
}

/// Comments with a longer marker are meant as documentation.
pub open spec fn style_shown(layout: Layout, marker: Seq<char>) -> CommentStyle {
    match layout {
        Layout::Lines => if marker.len() == 3 {
            CommentStyle::DocLine
        } else {
            CommentStyle::Line
        },
        _ => if marker.len() == 3 {
            CommentStyle::DocBlock
        } else {
            CommentStyle::Block
        },
    }
}

/// A text without slashes opens and closes no comment.
pub open spec fn has_no_slash(s: Seq<char>) -> bool {
    forall|i: int| 0 <= i < s.len() ==> #[trigger] s[i] != '/'
}

// ---------------------------------------------------------------------------
// Lines

proof fn trimmed_is_part(s: Seq<char>)
    ensures
        0 <= space_run_end(s, 0) <= s.len(),
        trim_start(s) == s.subrange(space_run_end(s, 0), s.len() as int),
{
    run_stays(s, 0);
}

proof fn run_stays(s: Seq<char>, i: int)
    requires
        0 <= i <= s.len(),
    ensures
        i <= space_run_end(s, i) <= s.len(),
    decreases s.len() - i,
{
    if i < s.len() && char_is_space(s[i]) {
        run_stays(s, i + 1);
    }
}

pub proof fn not_found(s: Seq<char>, word: Seq<char>, from: int)
    requires
        0 <= from,
        forall|at: int| from <= at ==> !#[trigger] occurs_at(s, word, at),
    ensures
        first_occurrence(s, word, from) is None,
    decreases s.len() - from + 1,
{
    if from + word.len() <= s.len() {
        assert(!occurs_at(s, word, from));
        not_found(s, word, from + 1);
    }
}

pub proof fn found_first(s: Seq<char>, word: Seq<char>, from: int, at: int)
    requires
        0 <= from <= at,
        occurs_at(s, word, at),
        forall|k: int| from <= k < at ==> !#[trigger] occurs_at(s, word, k),
    ensures
        first_occurrence(s, word, from) == Some(at),
    decreases at - from,
{
    if from < at {
        assert(!occurs_at(s, word, from));
        found_first(s, word, from + 1, at);
    }
}

/// No `*/` where no slash follows a star.
proof fn no_close(s: Seq<char>)
    requires
        forall|i: int| 0 < i < s.len() && #[trigger] s[i] == '/' ==> s[i - 1] != '*',
    ensures
        first_occurrence(s, "*/"@, 0) is None,
        !code_after_close(s),
{
    words_spelled();
    let word = "*/"@;
    assert forall|at: int| 0 <= at implies !#[trigger] occurs_at(s, word, at) by {
        if occurs_at(s, word, at) {
            let part = s.subrange(at, at + 2);
            assert(part[0] == s[at]);
            assert(part[1] == s[at + 1]);
        }
    }
    not_found(s, word, 0);
}

/// A line of code without slashes has no comment.
proof fn code_has_no_comment(s: Seq<char>, i: int, lit: Literal, depth: int, terminated: bool)
    requires
        has_no_slash(s),
    ensures
        trailing_comment(s, i, lit, depth, terminated, None, None) is None,
    decreases s.len() - i,
{
    if 0 <= i < s.len() {
        assert(s[i] != '/');
        match lit {
            Some((quote, escaped)) => {
                code_has_no_comment(
                    s,
                    i + 1,
                    literal_after(quote, escaped, s[i]),
                    depth,
                    terminated,
                );
            },
            None => {
                code_has_no_comment(s, i + 1, Some((s[i], false)), depth, terminated);
                code_has_no_comment(s, i + 1, lit, depth + 1, terminated);
                code_has_no_comment(s, i + 1, lit, depth - 1, terminated);
                code_has_no_comment(s, i + 1, lit, depth, true);
                code_has_no_comment(s, i + 1, lit, depth, terminated);
            },
        }
    }
}

pub proof fn code_is_no_comment(s: Seq<char>)
    requires
        has_no_slash(s),
    ensures
        comment_start(s) is None,
        !line_comment(s),
        !block_end(s),
{
    code_has_no_comment(s, 0, None, 0, false);
    trimmed_is_part(s);
    let t = trim_start(s);
    assert forall|i: int| 0 <= i < t.len() implies #[trigger] t[i] != '/' by {
        assert(t[i] == s[i + space_run_end(s, 0)]);
    }
    words_spelled();
    begins_otherwise(t, "//"@, 0);
    no_close(t);
}

/// The first line of a block comment.
proof fn open_shape(indent: Seq<char>, marker: Seq<char>, rest: Seq<char>)
    requires
        are_gaps(indent),
        opens_block(marker),
        has_no_slash(rest),
    ensures
        block_start(indent + marker + rest),
        !code_after_close(indent + marker + rest),
{
    let line = indent + marker + rest;
    let t = marker + rest;
    assert(line =~= indent + t);
    gap_before(indent, t);
    words_spelled();
    let open = seq!['/', '*'];
    let behind = t.subrange(2, t.len() as int);
    assert(t =~= open + behind);
    begins_so(open, behind);
    let a = indent.len() as int;
    assert forall|i: int| 0 < i < line.len() && #[trigger] line[i] == '/' implies line[i - 1]
        != '*' by {
        if i < a {
            assert(line[i] == indent[i]);
        } else if i == a {
            assert(line[i - 1] == indent[i - 1]);
        } else if i < a + marker.len() {
            assert(line[i] == marker[i - a]);
        } else {
            assert(line[i] == rest[i - a - marker.len()]);
        }
    }
    no_close(line);
}

/// A line behind a star in the margin.
proof fn margin_shape(indent: Seq<char>, text: Seq<char>)
    requires
        are_gaps(indent),
        has_no_slash(text),
    ensures
        !block_start(margin_line(indent, text)),
        block_line(margin_line(indent, text)),
        !code_after_close(margin_line(indent, text)),
{
    let line = margin_line(indent, text);
    let t = seq!['*', ' '] + text;
    assert(line =~= indent + t);
    gap_before(indent, t);
    words_spelled();
    begins_otherwise(t, "/*"@, 0);
    let behind = seq![' '] + text;
    assert(t =~= "*"@ + behind);
    begins_so("*"@, behind);
    let a = indent.len() as int;
    assert forall|i: int| 0 <= i < line.len() implies #[trigger] line[i] != '/' by {
        if i < a {
            assert(line[i] == indent[i]);
        } else if i >= a + 2 {
            assert(line[i] == text[i - a - 2]);
        }
    }
    no_close(line);
}

/// The last line of a block comment.
proof fn close_shape(indent: Seq<char>)
    requires
        are_gaps(indent),
    ensures
        !block_start(indent + seq!['*', '/']),
        block_line(indent + seq!['*', '/']),
        block_end(indent + seq!['*', '/']),
        !code_after_close(indent + seq!['*', '/']),
        !line_comment(indent + seq!['*', '/']),
{
    let t = seq!['*', '/'];
    let line = indent + t;
    let a = indent.len() as int;
    gap_before(indent, t);
    words_spelled();
    assert(t =~= "*/"@);
    begins_otherwise(t, "/*"@, 0);
    begins_otherwise(t, "//"@, 0);
    let slash = seq!['/'];
    assert(t =~= "*"@ + slash);
    begins_so("*"@, slash);
    assert(t.subrange(0, 2) =~= t);
    found_first(t, "*/"@, 0, 0);
    assert(line.subrange(a, a + 2) =~= t);
    assert forall|k: int| 0 <= k < a implies !#[trigger] occurs_at(line, "*/"@, k) by {
        if occurs_at(line, "*/"@, k) {
            assert(line.subrange(k, k + 2)[0] == line[k]);
            assert(line[k] == indent[k]);
        }
    }
    found_first(line, "*/"@, 0, a);
    let rest = line.subrange(a + 2, line.len() as int);
    assert(rest.len() == 0);
    assert(trim(rest).len() == 0);
}

// ---------------------------------------------------------------------------
// Comments above

proof fn block_opens_at(lines: Seq<Seq<char>>, first: int, i: int)
    requires
        0 <= first <= i < lines.len(),
        block_start(lines[first]),
        !code_after_close(lines[first]),
        forall|k: int|
            first < k <= i ==> !block_start(#[trigger] lines[k]) && block_line(lines[k])
                && !code_after_close(lines[k]),
    ensures
        pure_opening_line(lines, i) == Some(first),
    decreases i - first,
{
    if first < i {
        assert(!block_start(lines[i]));
        block_opens_at(lines, first, i - 1);
    }
}

proof fn block_is_above(lines: Seq<Seq<char>>, first: int, end: int)
    requires
        0 <= first < end < lines.len() - 1,
        block_start(lines[first]),
        !code_after_close(lines[first]),
        forall|k: int|
            first < k <= end ==> !block_start(#[trigger] lines[k]) && block_line(lines[k])
                && !code_after_close(lines[k]),
        block_end(lines[end]),
        !line_comment(lines[end]),
    ensures
        leading(lines, end + 1) == Some(
            found(
                joined(lines.subrange(first, end + 1)),
                CommentPlacement::LeadingAbove,
                first,
                end,
            ),
        ),
{
    block_opens_at(lines, first, end);
    assert(block_line(lines[end]));
    assert(block_line(lines[first]));
}

proof fn run_starts_at(lines: Seq<Seq<char>>, first: int, i: int)
    requires
        0 <= first <= i < lines.len(),
        first > 0 ==> !line_comment(lines[first - 1]),
        forall|k: int| first <= k < i ==> line_comment(#[trigger] lines[k]),
    ensures
        comment_run_start(lines, i) == first,
    decreases i - first,
{
    if first < i {
        assert(line_comment(lines[i - 1]));
        run_starts_at(lines, first, i - 1);
    }
}

/// A declaration with lines above it, a comment among them, and below it.
pub open spec fn source_lines(
    above: Seq<Seq<char>>,
    comment: Seq<Seq<char>>,
    declaration: Seq<char>,
    below: Seq<Seq<char>>,
) -> Seq<Seq<char>> {
    above + comment + seq![declaration] + below
}

/// The text of a comment that can be laid out: lines without slashes, whose
/// first one does not begin like a margin.
pub open spec fn is_comment_text(lines: Seq<Seq<char>>) -> bool {
    &&& are_text_lines(lines)
    &&& !char_is_space(lines[0][0])
    &&& lines[0][0] != '*'
    &&& forall|k: int| 0 <= k < lines.len() ==> has_no_slash(#[trigger] lines[k])
}

proof fn spaced_has_no_slash(line: Seq<char>)
    requires
        has_no_slash(line),
    ensures
        has_no_slash(seq![' '] + line),
{
    let s = seq![' '] + line;
    assert forall|i: int| 0 <= i < s.len() implies #[trigger] s[i] != '/' by {
        if i > 0 {
            assert(s[i] == line[i - 1]);
        }
    }
}

pub proof fn line_shape(indent: Seq<char>, marker: Seq<char>, line: Seq<char>)
    requires
        are_gaps(indent),
        opens_line(marker),
    ensures
        line_comment(indent + marker + seq![' '] + line),
{
    let s = indent + marker + seq![' '] + line;
    let t = marker + seq![' '] + line;
    assert(s =~= indent + t);
    gap_before(indent, t);
    words_spelled();
    let open = seq!['/', '/'];
    let behind = t.subrange(2, t.len() as int);
    assert(t =~= open + behind);
    begins_so(open, behind);
}

proof fn block_shape(layout: Layout, indent: Seq<char>, marker: Seq<char>, lines: Seq<Seq<char>>)
    requires
        are_gaps(indent),
        !(layout is Lines),
        opens_block(marker),
        is_comment_text(lines),
    ensures
        ({
            let c = laid_out(layout, indent, marker, lines);
            &&& c.len() > 1
            &&& block_start(c[0])
            &&& !code_after_close(c[0])
            &&& forall|k: int|
                0 < k < c.len() ==> !block_start(#[trigger] c[k]) && block_line(c[k])
                    && !code_after_close(c[k])
            &&& block_end(c.last())
            &&& !line_comment(c.last())
        }),
{
    let c = laid_out(layout, indent, marker, lines);
    let n = c.len() - 1;
    close_shape(indent);
    assert(c[n] == indent + seq!['*', '/']);
    match layout {
        Layout::Behind => {
            let rest = seq![' '] + lines[0];
            spaced_has_no_slash(lines[0]);
            open_shape(indent, marker, rest);
            assert(c[0] =~= indent + marker + rest);
        },
        _ => {
            let rest = Seq::<char>::empty();
            open_shape(indent, marker, rest);
            assert(c[0] =~= indent + marker + rest);
        },
    }
    assert forall|k: int| 0 < k < c.len() implies !block_start(#[trigger] c[k]) && block_line(c[k])
        && !code_after_close(c[k]) by {
        if k < n {
            let j = match layout {
                Layout::Behind => k,
                _ => k - 1,
            };
            assert(has_no_slash(lines[j]));
            assert(c[k] == margin_line(indent, lines[j]));
            margin_shape(indent, lines[j]);
        }
    }
}

pub proof fn style_read(layout: Layout, indent: Seq<char>, marker: Seq<char>, rest: Seq<char>)
    requires
        are_gaps(indent),
        opens(layout, marker),
        rest.len() > 0 ==> rest[0] == ' ' || rest[0] == '\n',
    ensures
        style_of(indent + marker + rest) == style_shown(layout, marker),
{
    let s = indent + marker + rest;
    let t = marker + rest;
    assert(s =~= indent + t);
    gap_before(indent, t);
    words_spelled();
    begins_so(marker, rest);
    match layout {
        Layout::Lines => {
            begins_otherwise(t, "/**"@, 1);
            begins_otherwise(t, "/*!"@, 1);
            begins_otherwise(t, "/*"@, 1);
            if marker.len() == 2 {
                begins_otherwise(t, "///"@, 2);
                begins_otherwise(t, "//!"@, 2);
            }
        },
        _ => {
            if marker.len() == 2 {
                begins_otherwise(t, "/**"@, 2);
                begins_otherwise(t, "/*!"@, 2);
            }
        },
    }
}

proof fn style_is_shown(layout: Layout, indent: Seq<char>, marker: Seq<char>, lines: Seq<Seq<char>>)
    requires
        are_gaps(indent),
        opens(layout, marker),
        lines.len() > 0,
    ensures
        style_of(put_together(laid_out(layout, indent, marker, lines))) == style_shown(
            layout,
            marker,
        ),
{
    let c = laid_out(layout, indent, marker, lines);
    let text = put_together(c);
    let first = indent + marker;
    let end = first.len() as int;
    let behind = c[0].subrange(end, c[0].len() as int);
    assert(c[0] =~= first + behind);
    let below = if c.len() == 1 {
        Seq::<char>::empty()
    } else {
        seq!['\n'] + text_from(c, 1)
    };
    assert(text =~= first + (behind + below));
    match layout {
        Layout::Below => {
            assert(behind.len() == 0);
        },
        _ => {
            assert(c[0] == first + seq![' '] + lines[0]);
            assert(c[0][end] == ' ');
            assert(behind[0] == c[0][end]);
        },
    }
    style_read(layout, indent, marker, behind + below);
}

/// The comment right above a declaration is the declaration's, whole and in
/// its own style, whatever else the source holds.
pub proof fn comment_above_is_attached(
    layout: Layout,
    indent: Seq<char>,
    marker: Seq<char>,
    lines: Seq<Seq<char>>,
    above: Seq<Seq<char>>,
    declaration: Seq<char>,
    below: Seq<Seq<char>>,
    name: Seq<char>,
)
    requires
        are_gaps(indent),
        opens(layout, marker),
        is_comment_text(lines),
        has_no_slash(declaration),
        above.len() > 0 ==> has_no_slash(above.last()),
    ensures
        ({
            let comment = laid_out(layout, indent, marker, lines);
            let cursor = above.len() + comment.len();
            attached(source_lines(above, comment, declaration, below), cursor as int, name) == Some(
                Raw {
                    text: put_together(comment),
                    placement: CommentPlacement::LeadingAbove,
                    style: style_shown(layout, marker),
                    start_line: above.len() as u32,
                    end_line: (cursor - 1) as u32,
                    truncated: false,
                },
            )
        }),
{
    let comment = laid_out(layout, indent, marker, lines);
    let all = source_lines(above, comment, declaration, below);
    let first = above.len() as int;
    let cursor = first + comment.len();
    assert(all[cursor] == declaration);
    code_is_no_comment(declaration);
    assert(trailing(all, cursor, name) is None);
    assert(inline_leading(all, cursor) is None);
    assert(all.subrange(first, cursor) =~= comment);
    assert forall|k: int| first <= k < cursor implies #[trigger] all[k] == comment[k - first] by {}
    style_is_shown(layout, indent, marker, lines);
    joined_is_put_together(comment);
    match layout {
        Layout::Lines => {
            if first > 0 {
                assert(all[first - 1] == above.last());
                code_is_no_comment(above.last());
            }
            assert forall|k: int| first <= k < cursor implies line_comment(#[trigger] all[k]) by {
                assert(all[k] == comment[k - first]);
                line_shape(indent, marker, lines[k - first]);
            }
            assert(line_comment(all[cursor - 1]));
            run_starts_at(all, first, cursor - 1);
        },
        _ => {
            block_shape(layout, indent, marker, lines);
            assert forall|k: int| first < k <= cursor - 1 implies !block_start(#[trigger] all[k])
                && block_line(all[k]) && !code_after_close(all[k]) by {
                assert(all[k] == comment[k - first]);
            }
            assert(all[first] == comment[0]);
            assert(all[cursor - 1] == comment.last());
            block_is_above(all, first, cursor - 1);
        },
    }
    assert(cursor - 1 == above.len() + comment.len() - 1);
}

proof fn layout_cleans(
    layout: Layout,
    indent: Seq<char>,
    marker: Seq<char>,
    lines: Seq<Seq<char>>,
)
    requires
        are_gaps(indent),
        opens(layout, marker),
        is_comment_text(lines),
    ensures
        cleaned(
            put_together(laid_out(layout, indent, marker, lines)),
            style_shown(layout, marker),
        ) == lines,
{
    let style = style_shown(layout, marker);
    match layout {
        Layout::Lines => line_comments_clean_to_their_lines(indent, marker, lines, style),
        Layout::Behind => block_cleans_to_its_lines(indent, marker, lines, style),
        Layout::Below => block_below_cleans_to_its_lines(indent, marker, lines, style),
    }
}

proof fn document_is_comment_text(said: Seq<Seq<char>>, sections: Seq<Section>)
    requires
        is_document(said, sections),
    ensures
        is_comment_text(document_lines(said, sections)),
{
    let lines = document_lines(said, sections);
    assert forall|k: int| 0 <= k < lines.len() implies is_text_line(#[trigger] lines[k])
        && has_no_slash(lines[k]) && lines[k].len() > 0 && !char_is_space(lines[k][0]) && lines[k][0]
        != '*' by {
        document_line(said, sections, k);
        let line = lines[k];
        assert forall|i: int| 0 <= i < line.len() implies #[trigger] line[i] != '/' && line[i]
            != '\n' && line[i] != '*' by {
            assert(is_tame(line[i]));
        }
        assert(line[0] != '*');
    }
    assert(lines[0].len() > 0);
    assert(lines.last() == lines[lines.len() - 1]);
}

proof fn layout_is_source(source: Seq<Seq<char>>, first: int, comment: Seq<Seq<char>>)
    requires
        are_lines(source),
        0 <= first,
        0 < comment.len(),
        first + comment.len() <= source.len(),
        source.subrange(first, first + comment.len()) == comment,
        comment.last().len() > 0,
    ensures
        are_lines(comment),
{
    assert forall|k: int| 0 <= k < comment.len() implies is_line(#[trigger] comment[k]) by {
        assert(comment[k] == source[first + k]);
    }
}

proof fn layout_ends(layout: Layout, indent: Seq<char>, marker: Seq<char>, lines: Seq<Seq<char>>)
    requires
        lines.len() > 0,
    ensures
        laid_out(layout, indent, marker, lines).len() >= lines.len(),
        laid_out(layout, indent, marker, lines).last().len() > 0,
{
}

proof fn budget_kept(raw: Raw, comment: Seq<Seq<char>>, max_lines: int)
    requires
        are_lines(comment),
        raw.text == put_together(comment),
        comment.len() <= max_lines,
    ensures
        clamped(raw, max_lines) == raw,
{
    lines_come_apart(comment);
}

/// A comment of prose and sections, within the budgets, is shown whole.
pub proof fn comment_is_shown(
    raw: Raw,
    said: Seq<Seq<char>>,
    sections: Seq<Section>,
    options: CommentRenderOptions,
)
    requires
        is_document(said, sections),
        cleaned(raw.text, raw.style) == document_lines(said, sections),
        !raw.truncated,
        document_lines(said, sections).len() <= options.max_comment_lines,
        document_page(said, sections).len() <= options.max_chars,
    ensures
        raw_doc(raw, options) == Some(
            SymbolDoc {
                markdown: document_page(said, sections),
                parameters: parameters_told(sections, sections.len() as int),
                diagnostics: CommentDiagnostics::clean(),
            },
        ),
{
    let max_lines = options.max_comment_lines as int;
    let max_chars = options.max_chars as int;
    comment_tells_its_sections(raw.text, raw.style, false, max_lines, said, sections);
    let document = parsed(raw.text, raw.style, false, max_lines);
    if said.len() == 0 && sections.len() == 0 {
        assert(document_lines(said, sections).len() == 0);
    }
    page_shows_every_section(document, said, sections, max_chars);
    every_parameter_is_told(document, said, sections, max_chars);
}

/// From the source to what is shown: a comment of prose and sections that
/// stands above a declaration, within the budgets, is shown whole, and what it
/// says of each parameter is told by the parameter's name.
pub proof fn documentation_is_what_was_written(
    layout: Layout,
    indent: Seq<char>,
    marker: Seq<char>,
    said: Seq<Seq<char>>,
    sections: Seq<Section>,
    above: Seq<Seq<char>>,
    declaration: Seq<char>,
    below: Seq<Seq<char>>,
    name: Seq<char>,
    options: CommentRenderOptions,
)
    requires
        are_gaps(indent),
        opens(layout, marker),
        is_document(said, sections),
        has_no_slash(declaration),
        above.len() > 0 ==> has_no_slash(above.last()),
        are_lines(
            source_lines(
                above,
                laid_out(layout, indent, marker, document_lines(said, sections)),
                declaration,
                below,
            ),
        ),
        laid_out(layout, indent, marker, document_lines(said, sections)).len()
            <= options.max_comment_lines,
        document_page(said, sections).len() <= options.max_chars,
    ensures
        ({
            let comment = laid_out(layout, indent, marker, document_lines(said, sections));
            symbol_doc(
                put_together(source_lines(above, comment, declaration, below)),
                (above.len() + comment.len()) as int,
                name,
                options,
            ) == Some(
                SymbolDoc {
                    markdown: document_page(said, sections),
                    parameters: parameters_told(sections, sections.len() as int),
                    diagnostics: CommentDiagnostics::clean(),
                },
            )
        }),
{
    let lines = document_lines(said, sections);
    let comment = laid_out(layout, indent, marker, lines);
    let source = source_lines(above, comment, declaration, below);
    let first = above.len() as int;
    document_is_comment_text(said, sections);
    lines_come_apart(source);
    comment_above_is_attached(
        layout,
        indent,
        marker,
        lines,
        above,
        declaration,
        below,
        name,
    );
    let raw = attached(source, first + comment.len(), name)->0;
    assert(source.subrange(first, first + comment.len()) =~= comment);
    layout_ends(layout, indent, marker, lines);
    layout_is_source(source, first, comment);
    budget_kept(raw, comment, options.max_comment_lines as int);
    layout_cleans(layout, indent, marker, lines);
    comment_is_shown(raw, said, sections, options);
}

} // verus!
