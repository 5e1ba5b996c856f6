//! Marker cleaning and tolerant Doxygen and XML comment parsing.

use vstd::prelude::*;
use vstd::slice::slice_subrange;

use crate::chars::{
    char_in_ident, char_starts_ident, chars_lower, chars_of, first_occurrence, in_ident, is_word,
    lower_chars, occurs_at, starts_ident, string_between, string_of, texts, trim, trim_end,
    trim_start, trimmed, trimmed_end, trimmed_start,
};
use crate::comments::model::{
    attribute_views, block_views, Block, CommentBlock, CommentDiagnostics, CommentDocument,
    CommentRenderOptions, CommentStyle, Document, RawComment, Tag, TagAttribute, TagBlock,
    TagSyntax, TextBlock,
};
use crate::lines::{
    begins, chars_match_at, contains_text, find_chars, holds, join_lines, joined, line_views,
    lines_of, push_all, push_text, split_lines, starts_with, to_vec,
};
use crate::text::{ident_end_after, ident_run_end};

verus! {

// ---------------------------------------------------------------------------
// Blank lines

pub open spec fn blank(line: Seq<char>) -> bool {
    trim(line).len() == 0
}

pub open spec fn all_blank(lines: Seq<Seq<char>>) -> bool {
    forall|i: int| 0 <= i < lines.len() ==> blank(#[trigger] lines[i])
}

/// First line at or after `i` that is not blank.
pub open spec fn ink_from(lines: Seq<Seq<char>>, i: int) -> int
    decreases lines.len() - i,
{
    if 0 <= i < lines.len() && blank(lines[i]) {
        ink_from(lines, i + 1)
    } else {
        i
    }
}

/// End of the lines in `[start, end)` without the blank ones at their end.
pub open spec fn ink_until(lines: Seq<Seq<char>>, start: int, end: int) -> int
    decreases end - start,
{
    if start < end && blank(lines[end - 1]) {
        ink_until(lines, start, end - 1)
    } else {
        end
    }
}

/// The lines without blank ones at both ends.
pub open spec fn without_blank_edges(lines: Seq<Seq<char>>) -> Seq<Seq<char>> {
    let start = ink_from(lines, 0);
    lines.subrange(start, ink_until(lines, start, lines.len() as int))
}

fn is_blank(line: &[char]) -> (r: bool)
    ensures
        r == blank(line@),
{
    trimmed(line).len() == 0
}

fn first_ink(lines: &Vec<Vec<char>>) -> (r: usize)
    ensures
        r == ink_from(line_views(lines@), 0),
        r <= lines@.len(),
{
    let ghost all = line_views(lines@);
    let mut i: usize = 0;
    while i < lines.len() && is_blank(&lines[i])
        invariant
            i <= lines@.len(),
            all == line_views(lines@),
            ink_from(all, 0) == ink_from(all, i as int),
        decreases lines@.len() - i,
    {
        i = i + 1;
    }
    i
}

fn last_ink(lines: &Vec<Vec<char>>, start: usize, end: usize) -> (r: usize)
    requires
        start <= end <= lines@.len(),
    ensures
        r == ink_until(line_views(lines@), start as int, end as int),
        start <= r <= end,
{
    let ghost all = line_views(lines@);
    let mut e: usize = end;
    while start < e && is_blank(&lines[e - 1])
        invariant
            start <= e <= end <= lines@.len(),
            all == line_views(lines@),
            ink_until(all, start as int, end as int) == ink_until(all, start as int, e as int),
        decreases e,
    {
        e = e - 1;
    }
    e
}

fn copy_lines(lines: &Vec<Vec<char>>, from: usize, to: usize) -> (r: Vec<Vec<char>>)
    requires
        from <= to <= lines@.len(),
    ensures
        line_views(r@) == line_views(lines@).subrange(from as int, to as int),
{
    let ghost all = line_views(lines@);
    let mut out: Vec<Vec<char>> = Vec::new();
    let mut i: usize = from;
    while i < to
        invariant
            from <= i <= to <= lines@.len(),
            all == line_views(lines@),
            line_views(out@) == all.subrange(from as int, i as int),
        decreases to - i,
    {
        push_line(&mut out, to_vec(&lines[i]));
        i = i + 1;
        assert(line_views(out@) =~= all.subrange(from as int, i as int));
    }
    assert(line_views(out@) =~= all.subrange(from as int, to as int));
    out
}

fn push_line(out: &mut Vec<Vec<char>>, line: Vec<char>)
    ensures
        line_views(final(out)@) == line_views(old(out)@).push(line@),
{
    let ghost before = line_views(out@);
    let ghost l = line@;
    out.push(line);
    assert(line_views(out@) =~= before.push(l));
}

fn trim_empty_edges(lines: &Vec<Vec<char>>) -> (r: Vec<Vec<char>>)
    ensures
        line_views(r@) == without_blank_edges(line_views(lines@)),
{
    let start: usize = first_ink(lines);
    let end: usize = last_ink(lines, start, lines.len());
    copy_lines(lines, start, end)
}

/// Lines `[from, to)` as strings.
fn strings_between(lines: &Vec<Vec<char>>, from: usize, to: usize) -> (r: Vec<String>)
    requires
        from <= to <= lines@.len(),
    ensures
        texts(r@) == line_views(lines@).subrange(from as int, to as int),
{
    let ghost all = line_views(lines@);
    let mut out: Vec<String> = Vec::new();
    let mut i: usize = from;
    assert(texts(out@) =~= all.subrange(from as int, from as int));
    while i < to
        invariant
            from <= i <= to <= lines@.len(),
            all == line_views(lines@),
            texts(out@) == all.subrange(from as int, i as int),
        decreases to - i,
    {
        let ghost before = texts(out@);
        out.push(string_of(&lines[i]));
        i = i + 1;
        assert(texts(out@) =~= before.push(all[i - 1]));
        assert(texts(out@) =~= all.subrange(from as int, i as int));
    }
    out
}

// ---------------------------------------------------------------------------
// Cleaning

/// `s` without `prefix`, if it starts with it.
pub open spec fn stripped(s: Seq<char>, prefix: Seq<char>) -> Seq<char> {
    if begins(s, prefix) {
        s.subrange(prefix.len() as int, s.len() as int)
    } else {
        s
    }
}

/// `s` without the first of three prefixes that it starts with.
pub open spec fn stripped_of(s: Seq<char>, a: Seq<char>, b: Seq<char>, c: Seq<char>) -> Seq<char> {
    if begins(s, a) {
        stripped(s, a)
    } else if begins(s, b) {
        stripped(s, b)
    } else {
        stripped(s, c)
    }
}

fn strip_prefix<'a>(s: &'a [char], prefix: &str) -> (r: &'a [char])
    ensures
        r@ == stripped(s@, prefix@),
{
    let w = chars_of(prefix);
    if chars_match_at(s, &w, 0) {
        slice_subrange(s, w.len(), s.len())
    } else {
        s
    }
}

fn strip_one_of<'a>(s: &'a [char], a: &str, b: &str, c: &str) -> (r: &'a [char])
    ensures
        r@ == stripped_of(s@, a@, b@, c@),
{
    if starts_with(s, a) {
        strip_prefix(s, a)
    } else if starts_with(s, b) {
        strip_prefix(s, b)
    } else {
        strip_prefix(s, c)
    }
}

/// The text of one line comment: without its marker, one space behind it and
/// the white space at the end.
pub open spec fn line_text(raw: Seq<char>) -> Seq<char> {
    trim_end(stripped(stripped_of(trim_start(raw), "///"@, "//!"@, "//"@), " "@))
}

/// The text of one line of a block comment: without indentation, one margin
/// star with a space behind it, and the white space at the end.
pub open spec fn margin_text(line: Seq<char>) -> Seq<char> {
    let t = trim_start(line);
    if begins(t, "*"@) {
        trim_end(stripped(stripped(t, "*"@), " "@))
    } else {
        trim_end(t)
    }
}

/// Last position before `end` where `word` occurs.
pub open spec fn last_occurrence(s: Seq<char>, word: Seq<char>, end: int) -> Option<int>
    decreases end,
{
    if end <= 0 {
        None
    } else if occurs_at(s, word, end - 1) {
        Some(end - 1)
    } else {
        last_occurrence(s, word, end - 1)
    }
}

/// The first line of a block comment without its opening marker.
pub open spec fn without_open(line: Seq<char>) -> Seq<char> {
    stripped_of(trim_start(line), "/**"@, "/*!"@, "/*"@)
}

/// The last line of a block comment without its last closing marker.
pub open spec fn without_close(line: Seq<char>) -> Seq<char> {
    match last_occurrence(line, "*/"@, line.len() as int) {
        Some(i) => line.subrange(0, i),
        None => line,
    }
}

/// Line `i` of a block comment without the markers around the comment.
pub open spec fn bare_line(lines: Seq<Seq<char>>, i: int) -> Seq<char> {
    let opened = if i == 0 {
        without_open(lines[i])
    } else {
        lines[i]
    };
    if i == lines.len() - 1 {
        without_close(opened)
    } else {
        opened
    }
}

/// The lines of a comment without markers, decoration and blank edges.
pub open spec fn cleaned(text: Seq<char>, style: CommentStyle) -> Seq<Seq<char>> {
    let raw = lines_of(text);
    match style {
        CommentStyle::Line | CommentStyle::DocLine => without_blank_edges(
            Seq::new(raw.len(), |i: int| line_text(raw[i])),
        ),
        CommentStyle::Block | CommentStyle::DocBlock => without_blank_edges(
            Seq::new(raw.len(), |i: int| margin_text(bare_line(raw, i))),
        ),
    }
}

fn clean_line(raw: &[char]) -> (r: Vec<char>)
    ensures
        r@ == line_text(raw@),
{
    let body = strip_one_of(trimmed_start(raw), "///", "//!", "//");
    to_vec(trimmed_end(strip_prefix(body, " ")))
}

fn strip_block_margin_star(line: &[char]) -> (r: Vec<char>)
    ensures
        r@ == margin_text(line@),
{
    let t = trimmed_start(line);
    if starts_with(t, "*") {
        to_vec(trimmed_end(strip_prefix(strip_prefix(t, "*"), " ")))
    } else {
        to_vec(trimmed_end(t))
    }
}

fn cut_close(line: &[char]) -> (r: &[char])
    ensures
        r@ == without_close(line@),
{
    let w = chars_of("*/");
    let mut end: usize = line.len();
    while end > 0
        invariant
            end <= line@.len(),
            w@ == "*/"@,
            last_occurrence(line@, "*/"@, line@.len() as int) == last_occurrence(
                line@,
                "*/"@,
                end as int,
            ),
        decreases end,
    {
        if chars_match_at(line, &w, end - 1) {
            return slice_subrange(line, 0, end - 1);
        }
        end = end - 1;
    }
    line
}

fn clean_line_comment_lines(raw: &Vec<Vec<char>>) -> (r: Vec<Vec<char>>)
    ensures
        line_views(r@) == without_blank_edges(
            Seq::new(line_views(raw@).len(), |i: int| line_text(line_views(raw@)[i])),
        ),
{
    let ghost want = Seq::new(line_views(raw@).len(), |i: int| line_text(line_views(raw@)[i]));
    let mut out: Vec<Vec<char>> = Vec::new();
    let mut i: usize = 0;
    while i < raw.len()
        invariant
            i <= raw@.len(),
            want == Seq::new(line_views(raw@).len(), |k: int| line_text(line_views(raw@)[k])),
            line_views(out@) == want.subrange(0, i as int),
        decreases raw@.len() - i,
    {
        push_line(&mut out, clean_line(&raw[i]));
        i = i + 1;
        assert(line_views(out@) =~= want.subrange(0, i as int));
    }
    assert(line_views(out@) =~= want);
    trim_empty_edges(&out)
}

fn clean_block_comment_lines(raw: &Vec<Vec<char>>) -> (r: Vec<Vec<char>>)
    ensures
        line_views(r@) == without_blank_edges(
            Seq::new(line_views(raw@).len(), |i: int| margin_text(bare_line(line_views(raw@), i))),
        ),
{
    let ghost all = line_views(raw@);
    let ghost want = Seq::new(all.len(), |i: int| margin_text(bare_line(all, i)));
    let mut out: Vec<Vec<char>> = Vec::new();
    let mut i: usize = 0;
    while i < raw.len()
        invariant
            i <= raw@.len(),
            all == line_views(raw@),
            want == Seq::new(all.len(), |k: int| margin_text(bare_line(all, k))),
            line_views(out@) == want.subrange(0, i as int),
        decreases raw@.len() - i,
    {
        let opened: &[char] = if i == 0 {
            strip_one_of(trimmed_start(&raw[i]), "/**", "/*!", "/*")
        } else {
            raw[i].as_slice()
        };
        let bare: &[char] = if i == raw.len() - 1 {
            cut_close(opened)
        } else {
            opened
        };
        push_line(&mut out, strip_block_margin_star(bare));
        i = i + 1;
        assert(line_views(out@) =~= want.subrange(0, i as int));
    }
    assert(line_views(out@) =~= want);
    trim_empty_edges(&out)
}

fn clean_comment_text(text: &[char], style: CommentStyle) -> (r: Vec<Vec<char>>)
    ensures
        line_views(r@) == cleaned(text@, style),
{
    let raw = split_lines(text);
    match style {
        CommentStyle::Line | CommentStyle::DocLine => clean_line_comment_lines(&raw),
        CommentStyle::Block | CommentStyle::DocBlock => clean_block_comment_lines(&raw),
    }
}

/// The line belongs to a comment about the file, not about a declaration.
pub open spec fn header_line(line: Seq<char>) -> bool {
    let l = chars_lower(trim(line));
    begins(l, "@file"@) || begins(l, "\\file"@) || holds(l, "spdx-license-identifier"@) || holds(
        l,
        "copyright"@,
    ) || begins(l, "license:"@) || begins(l, "project:"@) || begins(l, "module:"@) || begins(
        l,
        "author:"@,
    )
}

pub open spec fn file_header(lines: Seq<Seq<char>>) -> bool {
    exists|i: int| 0 <= i < lines.len() && header_line(#[trigger] lines[i])
}

fn is_file_header_comment(lines: &Vec<Vec<char>>) -> (r: bool)
    ensures
        r == file_header(line_views(lines@)),
{
    let ghost all = line_views(lines@);
    let mut i: usize = 0;
    while i < lines.len()
        invariant
            i <= lines@.len(),
            all == line_views(lines@),
            forall|k: int| 0 <= k < i ==> !header_line(#[trigger] all[k]),
        decreases lines@.len() - i,
    {
        let l = lower_chars(trimmed(&lines[i]));
        if starts_with(&l, "@file") || starts_with(&l, "\\file") || contains_text(
            &l,
            "spdx-license-identifier",
        ) || contains_text(&l, "copyright") || starts_with(&l, "license:") || starts_with(
            &l,
            "project:",
        ) || starts_with(&l, "module:") || starts_with(&l, "author:") {
            assert(header_line(all[i as int]));
            return true;
        }
        i = i + 1;
    }
    false
}

// ---------------------------------------------------------------------------
// Doxygen tags

/// A Doxygen command at the start of a line.
pub struct Doxygen {
    pub syntax: TagSyntax,
    pub raw_name: Seq<char>,
    pub direction: Option<Seq<char>>,
    pub rest: Seq<char>,
}

pub struct DoxygenMatch {
    pub syntax: TagSyntax,
    pub raw_name: Vec<char>,
    pub direction: Option<Vec<char>>,
    pub rest: Vec<char>,
}

impl View for DoxygenMatch {
    type V = Doxygen;

    open spec fn view(&self) -> Doxygen {
        Doxygen {
            syntax: self.syntax,
            raw_name: self.raw_name@,
            direction: match self.direction {
                Some(d) => Some(d@),
                None => None,
            },
            rest: self.rest@,
        }
    }
}

/// First position at or after `i` that holds `c`.
pub open spec fn char_from(s: Seq<char>, c: char, i: int) -> int
    decreases s.len() - i,
{
    if 0 <= i < s.len() && s[i] != c {
        char_from(s, c, i + 1)
    } else {
        i
    }
}

fn find_char(s: &[char], c: char, from: usize) -> (r: usize)
    requires
        from <= s@.len(),
    ensures
        r == char_from(s@, c, from as int),
        from <= r <= s@.len(),
        r < s@.len() ==> s@[r as int] == c,
{
    let mut i: usize = from;
    while i < s.len() && s[i] != c
        invariant
            from <= i <= s@.len(),
            char_from(s@, c, from as int) == char_from(s@, c, i as int),
        decreases s@.len() - i,
    {
        i = i + 1;
    }
    i
}

/// The Doxygen command that the line starts with: `@name`, `\name` or
/// `/name`, a direction in brackets, the text behind them.
pub open spec fn doxygen(line: Seq<char>) -> Option<Doxygen> {
    let t = trim_start(line);
    if t.len() < 2 || !(t[0] == '@' || t[0] == '\\' || t[0] == '/') || !char_starts_ident(t[1]) {
        None
    } else {
        let end = ident_run_end(t, 2);
        let close = char_from(t, ']', end + 1);
        let directed = end < t.len() && t[end] == '[' && close < t.len();
        Some(
            Doxygen {
                syntax: if t[0] == '@' {
                    TagSyntax::DoxygenAt
                } else if t[0] == '\\' {
                    TagSyntax::DoxygenBackslash
                } else {
                    TagSyntax::DoxygenSlash
                },
                raw_name: t.subrange(1, end),
                direction: if directed {
                    Some(chars_lower(trim(t.subrange(end + 1, close))))
                } else {
                    None
                },
                rest: trim_start(
                    t.subrange(
                        if directed {
                            close + 1
                        } else {
                            end
                        },
                        t.len() as int,
                    ),
                ),
            },
        )
    }
}

fn match_line_start_doxygen(line: &[char]) -> (r: Option<DoxygenMatch>)
    ensures
        match r {
            Some(d) => doxygen(line@) == Some(d@),
            None => doxygen(line@) is None,
        },
{
    let t = trimmed_start(line);
    let len: usize = t.len();
    if len < 2 || !(t[0] == '@' || t[0] == '\\' || t[0] == '/') || !starts_ident(t[1]) {
        return None;
    }
    let syntax = if t[0] == '@' {
        TagSyntax::DoxygenAt
    } else if t[0] == '\\' {
        TagSyntax::DoxygenBackslash
    } else {
        TagSyntax::DoxygenSlash
    };
    let end: usize = ident_end_after(t, 2);
    let raw_name = to_vec(slice_subrange(t, 1, end));
    let mut cursor: usize = end;
    let mut direction: Option<Vec<char>> = None;
    if end < len && t[end] == '[' {
        let close: usize = find_char(t, ']', end + 1);
        if close < len {
            direction = Some(lower_chars(trimmed(slice_subrange(t, end + 1, close))));
            cursor = close + 1;
        }
    }
    let rest = to_vec(trimmed_start(slice_subrange(t, cursor, len)));
    Some(DoxygenMatch { syntax, raw_name, direction, rest })
}

// ---------------------------------------------------------------------------
// XML tags

pub open spec fn ascii_space(c: char) -> bool {
    c == ' ' || c == '\t' || c == '\n' || c == '\x0C' || c == '\r'
}

pub fn is_ascii_space(c: char) -> (r: bool)
    ensures
        r == ascii_space(c),
{
    c == ' ' || c == '\t' || c == '\n' || c == '\x0C' || c == '\r'
}

pub open spec fn ascii_spaces_end(s: Seq<char>, i: int) -> int
    decreases s.len() - i,
{
    if 0 <= i < s.len() && ascii_space(s[i]) {
        ascii_spaces_end(s, i + 1)
    } else {
        i
    }
}

/// Position after the attribute name characters at `i`.
pub open spec fn attribute_name_end(s: Seq<char>, i: int) -> int
    decreases s.len() - i,
{
    if 0 <= i < s.len() && (char_in_ident(s[i]) || s[i] == '-') {
        attribute_name_end(s, i + 1)
    } else {
        i
    }
}

fn skip_ascii_spaces(s: &[char], from: usize) -> (r: usize)
    requires
        from <= s@.len(),
    ensures
        r == ascii_spaces_end(s@, from as int),
        from <= r <= s@.len(),
{
    let mut i: usize = from;
    while i < s.len() && is_ascii_space(s[i])
        invariant
            from <= i <= s@.len(),
            ascii_spaces_end(s@, from as int) == ascii_spaces_end(s@, i as int),
        decreases s@.len() - i,
    {
        i = i + 1;
    }
    i
}

fn skip_attribute_name(s: &[char], from: usize) -> (r: usize)
    requires
        from <= s@.len(),
    ensures
        r == attribute_name_end(s@, from as int),
        from <= r <= s@.len(),
{
    let mut i: usize = from;
    while i < s.len() && (in_ident(s[i]) || s[i] == '-')
        invariant
            from <= i <= s@.len(),
            attribute_name_end(s@, from as int) == attribute_name_end(s@, i as int),
        decreases s@.len() - i,
    {
        i = i + 1;
    }
    i
}

/// How an opening tag ends: not at all, as an empty element, or at a position
/// where its body starts.
pub enum XmlHead {
    Broken,
    Empty(Seq<(Seq<char>, Seq<char>)>),
    Open(Seq<(Seq<char>, Seq<char>)>, int),
}

/// The attribute at `i`: its name, its value and the position after it.
pub open spec fn xml_attribute(s: Seq<char>, i: int) -> Option<(Seq<char>, Seq<char>, int)> {
    let name_end = attribute_name_end(s, i + 1);
    let eq = ascii_spaces_end(s, name_end);
    let q = ascii_spaces_end(s, eq + 1);
    if !char_starts_ident(s[i]) || eq >= s.len() || s[eq] != '=' || q >= s.len() || !(s[q] == '"'
        || s[q] == '\'') {
        None
    } else {
        let close = char_from(s, s[q], q + 1);
        if close >= s.len() {
            None
        } else {
            Some((s.subrange(i, name_end), s.subrange(q + 1, close), close + 1))
        }
    }
}

/// The rest of an opening tag from `i` on.
pub open spec fn xml_head(
    s: Seq<char>,
    i: int,
    attributes: Seq<(Seq<char>, Seq<char>)>,
) -> XmlHead
    decreases s.len() - i,
{
    let at = ascii_spaces_end(s, i);
    if at < i || at < 0 || at >= s.len() {
        XmlHead::Broken
    } else if s[at] == '>' {
        XmlHead::Open(attributes, at + 1)
    } else if s[at] == '/' && at + 1 < s.len() && s[at + 1] == '>' {
        XmlHead::Empty(attributes)
    } else {
        match xml_attribute(s, at) {
            Some((name, value, next)) => if at < next <= s.len() {
                xml_head(s, next, attributes.push((name, value)))
            } else {
                XmlHead::Broken
            },
            None => XmlHead::Broken,
        }
    }
}

/// An opening XML tag at the start of a line. `closed` says that its end is
/// on the line too.
pub struct Xml {
    pub raw_name: Seq<char>,
    pub attributes: Seq<(Seq<char>, Seq<char>)>,
    pub body: Seq<char>,
    pub closed: bool,
}

pub struct XmlOpenMatch {
    pub raw_name: Vec<char>,
    pub attributes: Vec<TagAttribute>,
    pub body: Vec<char>,
    pub closed: bool,
}

impl View for XmlOpenMatch {
    type V = Xml;

    open spec fn view(&self) -> Xml {
        Xml {
            raw_name: self.raw_name@,
            attributes: attribute_views(self.attributes@),
            body: self.body@,
            closed: self.closed,
        }
    }
}

/// The closing tag of an element.
pub open spec fn closing_tag(name: Seq<char>) -> Seq<char> {
    "</"@ + name + ">"@
}

/// First place where `word` occurs, whatever its ASCII case.
pub open spec fn found_any_case(s: Seq<char>, word: Seq<char>) -> Option<int> {
    first_occurrence(chars_lower(s), chars_lower(word), 0)
}

/// The opening XML tag that the line starts with.
pub open spec fn xml_open(line: Seq<char>) -> Option<Xml> {
    let t = trim_start(line);
    if t.len() < 2 || t[0] != '<' || !char_starts_ident(t[1]) {
        None
    } else {
        let end = ident_run_end(t, 2);
        let raw_name = t.subrange(1, end);
        match xml_head(t, end, Seq::empty()) {
            XmlHead::Broken => None,
            XmlHead::Empty(attributes) => Some(
                Xml { raw_name, attributes, body: Seq::empty(), closed: true },
            ),
            XmlHead::Open(attributes, start) => {
                let body = t.subrange(start, t.len() as int);
                match found_any_case(body, closing_tag(raw_name)) {
                    Some(close) => Some(
                        Xml { raw_name, attributes, body: body.subrange(0, close), closed: true },
                    ),
                    None => Some(Xml { raw_name, attributes, body, closed: false }),
                }
            },
        }
    }
}

fn closing_tag_of(name: &[char]) -> (r: Vec<char>)
    ensures
        r@ == closing_tag(name@),
{
    let mut out: Vec<char> = Vec::new();
    push_text(&mut out, "</");
    push_all(&mut out, name);
    push_text(&mut out, ">");
    assert(out@ =~= closing_tag(name@));
    out
}

fn find_ci(s: &[char], word: &[char]) -> (r: Option<usize>)
    ensures
        match r {
            Some(i) => found_any_case(s@, word@) == Some(i as int) && i <= s@.len(),
            None => found_any_case(s@, word@) is None,
        },
{
    let low = lower_chars(s);
    let low_word = lower_chars(word);
    find_chars(&low, &low_word, 0)
}

/// How an opening tag was read.
enum XmlTail {
    Broken,
    Empty(Vec<TagAttribute>),
    Open(Vec<TagAttribute>, usize),
}

fn read_xml_head(t: &[char], from: usize) -> (r: XmlTail)
    requires
        from <= t@.len(),
    ensures
        match r {
            XmlTail::Broken => xml_head(t@, from as int, Seq::empty()) == XmlHead::Broken,
            XmlTail::Empty(a) => xml_head(t@, from as int, Seq::empty()) == XmlHead::Empty(
                attribute_views(a@),
            ),
            XmlTail::Open(a, start) => xml_head(t@, from as int, Seq::empty()) == XmlHead::Open(
                attribute_views(a@),
                start as int,
            ) && start <= t@.len(),
        },
{
    let len: usize = t.len();
    let mut attributes: Vec<TagAttribute> = Vec::new();
    let mut cursor: usize = from;
    assert(attribute_views(attributes@) =~= Seq::empty());
    loop
        invariant
            cursor <= len,
            len == t@.len(),
            xml_head(t@, from as int, Seq::empty()) == xml_head(
                t@,
                cursor as int,
                attribute_views(attributes@),
            ),
        decreases len - cursor,
    {
        let at: usize = skip_ascii_spaces(t, cursor);
        if at >= len {
            return XmlTail::Broken;
        }
        if t[at] == '>' {
            return XmlTail::Open(attributes, at + 1);
        }
        if t[at] == '/' && len - at > 1 && t[at + 1] == '>' {
            return XmlTail::Empty(attributes);
        }
        if !starts_ident(t[at]) {
            return XmlTail::Broken;
        }
        let name_end: usize = skip_attribute_name(t, at + 1);
        let eq: usize = skip_ascii_spaces(t, name_end);
        if eq >= len || t[eq] != '=' {
            return XmlTail::Broken;
        }
        let q: usize = skip_ascii_spaces(t, eq + 1);
        if q >= len || !(t[q] == '"' || t[q] == '\'') {
            return XmlTail::Broken;
        }
        let close: usize = find_char(t, t[q], q + 1);
        if close >= len {
            return XmlTail::Broken;
        }
        let name = string_between(t, at, name_end);
        let value = string_between(t, q + 1, close);
        let ghost before = attribute_views(attributes@);
        let ghost pair = (name@, value@);
        attributes.push(TagAttribute { name, value });
        assert(attribute_views(attributes@) =~= before.push(pair));
        cursor = close + 1;
    }
}

fn match_line_start_xml_open(line: &[char]) -> (r: Option<XmlOpenMatch>)
    ensures
        match r {
            Some(x) => xml_open(line@) == Some(x@),
            None => xml_open(line@) is None,
        },
{
    let t = trimmed_start(line);
    let len: usize = t.len();
    if len < 2 || t[0] != '<' || !starts_ident(t[1]) {
        return None;
    }
    let end: usize = ident_end_after(t, 2);
    let raw_name = to_vec(slice_subrange(t, 1, end));
    match read_xml_head(t, end) {
        XmlTail::Broken => None,
        XmlTail::Empty(attributes) => {
            let r = XmlOpenMatch { raw_name, attributes, body: Vec::new(), closed: true };
            assert(r@.body =~= Seq::empty());
            Some(r)
        },
        XmlTail::Open(attributes, start) => {
            let body = slice_subrange(t, start, len);
            let needle = closing_tag_of(&raw_name);
            match find_ci(body, &needle) {
                Some(close) => Some(
                    XmlOpenMatch {
                        raw_name,
                        attributes,
                        body: to_vec(slice_subrange(body, 0, close)),
                        closed: true,
                    },
                ),
                None => Some(
                    XmlOpenMatch { raw_name, attributes, body: to_vec(body), closed: false },
                ),
            }
        },
    }
}

/// The line starts a tag.
pub open spec fn tag_line(line: Seq<char>) -> bool {
    doxygen(line) is Some || xml_open(line) is Some
}

fn is_tag_line(line: &[char]) -> (r: bool)
    ensures
        r == tag_line(line@),
{
    match_line_start_doxygen(line).is_some() || match_line_start_xml_open(line).is_some()
}

/// First line at or after `i` that starts a tag.
pub open spec fn next_tag(lines: Seq<Seq<char>>, i: int) -> int
    decreases lines.len() - i,
{
    if 0 <= i < lines.len() && !tag_line(lines[i]) {
        next_tag(lines, i + 1)
    } else {
        i
    }
}

fn find_next_tag(lines: &Vec<Vec<char>>, from: usize) -> (r: usize)
    requires
        from <= lines@.len(),
    ensures
        r == next_tag(line_views(lines@), from as int),
        from <= r <= lines@.len(),
        from < lines@.len() && !tag_line(line_views(lines@)[from as int]) ==> from < r,
{
    let ghost all = line_views(lines@);
    let mut i: usize = from;
    while i < lines.len() && !is_tag_line(&lines[i])
        invariant
            from <= i <= lines@.len(),
            all == line_views(lines@),
            next_tag(all, from as int) == next_tag(all, i as int),
        decreases lines@.len() - i,
    {
        i = i + 1;
    }
    i
}

// ---------------------------------------------------------------------------
// Tag blocks

/// Several names for one tag are one canonical name.
pub open spec fn canonical(name: Seq<char>) -> Seq<char> {
    if name == "returns"@ || name == "retval"@ || name == "result"@ {
        "return"@
    } else if name == "parameter"@ {
        "param"@
    } else {
        name
    }
}

fn normalize_canonical(name: &[char]) -> (r: String)
    ensures
        r@ == canonical(name@),
{
    if is_word(name, "returns") || is_word(name, "retval") || is_word(name, "result") {
        "return".to_owned()
    } else if is_word(name, "parameter") {
        "param".to_owned()
    } else {
        string_of(name)
    }
}

/// The identifier that a text starts with, and the text behind it.
pub open spec fn first_token(value: Seq<char>) -> Option<(Seq<char>, Seq<char>)> {
    let t = trim_start(value);
    if t.len() == 0 || !char_starts_ident(t[0]) {
        None
    } else {
        let end = ident_run_end(t, 1);
        Some((t.subrange(0, end), trim_start(t.subrange(end, t.len() as int))))
    }
}

fn split_first_token(value: &[char]) -> (r: Option<(Vec<char>, Vec<char>)>)
    ensures
        match r {
            Some((name, rest)) => first_token(value@) == Some((name@, rest@)),
            None => first_token(value@) is None,
        },
{
    let t = trimmed_start(value);
    if t.len() == 0 || !starts_ident(t[0]) {
        return None;
    }
    let end: usize = ident_end_after(t, 1);
    Some(
        (
            to_vec(slice_subrange(t, 0, end)),
            to_vec(trimmed_start(slice_subrange(t, end, t.len()))),
        ),
    )
}

/// The lines of a Doxygen tag: the text behind the command, if any, and the
/// lines up to the next tag.
pub open spec fn doxygen_body(lines: Seq<Seq<char>>, start: int, rest: Seq<char>) -> Seq<
    Seq<char>,
> {
    let more = lines.subrange(start + 1, next_tag(lines, start + 1));
    if rest.len() == 0 {
        more
    } else {
        seq![rest] + more
    }
}

pub open spec fn first_or_empty(lines: Seq<Seq<char>>) -> Seq<char> {
    if lines.len() > 0 {
        lines[0]
    } else {
        Seq::empty()
    }
}

/// All lines but the first without their indentation.
pub open spec fn dedented(lines: Seq<Seq<char>>) -> Seq<Seq<char>> {
    Seq::new(
        lines.len(),
        |i: int|
            if i == 0 {
                lines[i]
            } else {
                trim_start(lines[i])
            },
    )
}

pub open spec fn is_param(name: Seq<char>) -> bool {
    name == "param"@ || name == "parameter"@
}

/// The attributes of a parameter tag.
pub open spec fn param_attributes(
    direction: Option<Seq<char>>,
    body: Seq<Seq<char>>,
) -> Seq<(Seq<char>, Seq<char>)> {
    let directed = match direction {
        Some(d) => seq![("direction"@, d)],
        None => Seq::empty(),
    };
    match first_token(first_or_empty(body)) {
        Some((name, _)) => directed.push(("name"@, name)),
        None => directed,
    }
}

/// The description of a parameter tag: its lines without the name.
pub open spec fn param_lines(body: Seq<Seq<char>>) -> Seq<Seq<char>> {
    match first_token(first_or_empty(body)) {
        Some((_, rest)) => if rest.len() == 0 {
            dedented(body.subrange(1, body.len() as int))
        } else {
            dedented(body.update(0, rest))
        },
        None => dedented(body),
    }
}

/// The tag that a Doxygen command on line `start` makes.
pub open spec fn doxygen_tag(lines: Seq<Seq<char>>, start: int, d: Doxygen) -> Tag {
    let name = chars_lower(d.raw_name);
    let body = doxygen_body(lines, start, d.rest);
    Tag {
        canonical_name: canonical(name),
        raw_name: d.raw_name,
        syntax: d.syntax,
        attributes: if is_param(name) {
            param_attributes(d.direction, body)
        } else {
            Seq::empty()
        },
        lines: if is_param(name) {
            param_lines(body)
        } else {
            body
        },
        raw: joined(lines.subrange(start, next_tag(lines, start + 1))),
    }
}

fn push_attribute(attributes: &mut Vec<TagAttribute>, name: String, value: String)
    ensures
        attribute_views(final(attributes)@) == attribute_views(old(attributes)@).push(
            (name@, value@),
        ),
{
    let ghost before = attribute_views(attributes@);
    let ghost pair = (name@, value@);
    attributes.push(TagAttribute { name, value });
    assert(attribute_views(attributes@) =~= before.push(pair));
}

fn dedent(lines: &Vec<Vec<char>>) -> (r: Vec<Vec<char>>)
    ensures
        line_views(r@) == dedented(line_views(lines@)),
{
    let ghost want = dedented(line_views(lines@));
    let mut out: Vec<Vec<char>> = Vec::new();
    let mut i: usize = 0;
    while i < lines.len()
        invariant
            i <= lines@.len(),
            want == dedented(line_views(lines@)),
            line_views(out@) == want.subrange(0, i as int),
        decreases lines@.len() - i,
    {
        if i == 0 {
            push_line(&mut out, to_vec(&lines[i]));
        } else {
            push_line(&mut out, to_vec(trimmed_start(&lines[i])));
        }
        i = i + 1;
        assert(line_views(out@) =~= want.subrange(0, i as int));
    }
    assert(line_views(out@) =~= want);
    out
}

/// Read a Doxygen tag; with it comes the line after it.
fn consume_doxygen_tag(lines: &Vec<Vec<char>>, start: usize, tag: DoxygenMatch) -> (r: (
    TagBlock,
    usize,
))
    requires
        start < lines@.len(),
    ensures
        r.0@ == doxygen_tag(line_views(lines@), start as int, tag@),
        r.1 == next_tag(line_views(lines@), start + 1),
        start < r.1 <= lines@.len(),
{
    let ghost all = line_views(lines@);
    let total: usize = lines.len();
    let end: usize = find_next_tag(lines, start + 1);
    let mut body: Vec<Vec<char>> = Vec::new();
    if tag.rest.len() > 0 {
        push_line(&mut body, to_vec(&tag.rest));
    }
    let mut more = copy_lines(lines, start + 1, end);
    let ghost head = line_views(body@);
    let ghost tail = line_views(more@);
    body.append(&mut more);
    assert(line_views(body@) =~= head + tail);
    assert(line_views(body@) =~= doxygen_body(all, start as int, tag.rest@));
    let name = lower_chars(&tag.raw_name);
    let mut attributes: Vec<TagAttribute> = Vec::new();
    assert(attribute_views(attributes@) =~= Seq::empty());
    let raw = string_of(&join_lines(lines, start, end));
    if is_word(&name, "param") || is_word(&name, "parameter") {
        match &tag.direction {
            Some(direction) => {
                push_attribute(&mut attributes, "direction".to_owned(), string_of(direction));
                assert(attribute_views(attributes@) =~= seq![("direction"@, direction@)]);
            },
            None => {},
        }
        let ghost whole = line_views(body@);
        let token = if body.len() > 0 {
            split_first_token(&body[0])
        } else {
            let empty: Vec<char> = Vec::new();
            assert(empty@ =~= Seq::empty());
            split_first_token(&empty)
        };
        let described = match token {
            Some((first, rest)) => {
                push_attribute(&mut attributes, "name".to_owned(), string_of(&first));
                proof {
                    if whole.len() == 0 {
                        assert(trim_start(first_or_empty(whole)).len() == 0);
                    }
                }
                if rest.len() == 0 {
                    copy_lines(&body, 1, body.len())
                } else {
                    let ghost r = rest@;
                    body.set(0, rest);
                    assert(line_views(body@) =~= whole.update(0, r));
                    body
                }
            },
            None => body,
        };
        let lines_out = dedent(&described);
        let block = TagBlock {
            canonical_name: normalize_canonical(&name),
            raw_name: string_of(&tag.raw_name),
            syntax: tag.syntax,
            attributes,
            lines: strings_between(&lines_out, 0, lines_out.len()),
            raw,
        };
        proof {
            assert(line_views(lines_out@).subrange(0, lines_out@.len() as int) =~= line_views(
                lines_out@,
            ));
        }
        return (block, end);
    }
    let block = TagBlock {
        canonical_name: normalize_canonical(&name),
        raw_name: string_of(&tag.raw_name),
        syntax: tag.syntax,
        attributes,
        lines: strings_between(&body, 0, body.len()),
        raw,
    };
    proof {
        assert(line_views(body@).subrange(0, body@.len() as int) =~= line_views(body@));
    }
    (block, end)
}

/// How the body of an element ends.
pub struct XmlEnd {
    /// Line after the element.
    pub next: int,
    /// Lines that belong to the body whole end before this one.
    pub body_end: int,
    /// Text in front of the closing tag, on the line at `body_end`.
    pub last: Option<Seq<char>>,
    pub unclosed: bool,
}

/// Read the body of an element from line `i` on: up to its closing tag, the
/// next tag or the end.
pub open spec fn xml_end(lines: Seq<Seq<char>>, i: int, needle: Seq<char>) -> XmlEnd
    decreases lines.len() - i,
{
    if i < 0 || i >= lines.len() {
        XmlEnd { next: i, body_end: i, last: None, unclosed: true }
    } else {
        match found_any_case(trim_start(lines[i]), needle) {
            Some(close) => XmlEnd {
                next: i + 1,
                body_end: i,
                last: Some(trim_start(lines[i]).subrange(0, close)),
                unclosed: false,
            },
            None => if tag_line(lines[i]) {
                XmlEnd { next: i, body_end: i, last: None, unclosed: true }
            } else {
                xml_end(lines, i + 1, needle)
            },
        }
    }
}

pub open spec fn unless_empty(line: Seq<char>) -> Seq<Seq<char>> {
    if line.len() == 0 {
        Seq::empty()
    } else {
        seq![line]
    }
}

pub open spec fn xml_ending(lines: Seq<Seq<char>>, start: int, x: Xml) -> XmlEnd {
    if x.closed {
        XmlEnd { next: start + 1, body_end: start + 1, last: None, unclosed: false }
    } else {
        xml_end(lines, start + 1, closing_tag(x.raw_name))
    }
}

/// The tag that an XML element starting on line `start` makes.
pub open spec fn xml_tag(lines: Seq<Seq<char>>, start: int, x: Xml) -> Tag {
    let e = xml_ending(lines, start, x);
    let body = unless_empty(x.body) + lines.subrange(start + 1, e.body_end) + match e.last {
        Some(text) => unless_empty(text),
        None => Seq::empty(),
    };
    Tag {
        canonical_name: canonical(chars_lower(x.raw_name)),
        raw_name: x.raw_name,
        syntax: TagSyntax::Xml,
        attributes: x.attributes,
        lines: without_blank_edges(body),
        raw: joined(lines.subrange(start, e.next)),
    }
}

/// Read an XML element; with it come the line after it and whether its end is
/// missing.
fn consume_xml_tag(lines: &Vec<Vec<char>>, start: usize, tag: XmlOpenMatch) -> (r: (
    TagBlock,
    usize,
    bool,
))
    requires
        start < lines@.len(),
    ensures
        r.0@ == xml_tag(line_views(lines@), start as int, tag@),
        r.1 == xml_ending(line_views(lines@), start as int, tag@).next,
        r.2 == xml_ending(line_views(lines@), start as int, tag@).unclosed,
        start < r.1 <= lines@.len(),
{
    let ghost all = line_views(lines@);
    let ghost ending = xml_ending(all, start as int, tag@);
    let mut body: Vec<Vec<char>> = Vec::new();
    if tag.body.len() > 0 {
        push_line(&mut body, to_vec(&tag.body));
    }
    assert(line_views(body@) =~= unless_empty(tag@.body));
    let ghost head = line_views(body@);
    let total: usize = lines.len();
    let mut i: usize = start + 1;
    let mut next: usize = start + 1;
    let mut unclosed = false;
    if tag.closed {
        assert(line_views(body@) =~= head + all.subrange(start + 1, start + 1));
        assert(line_views(body@) =~= head + all.subrange(start + 1, ending.body_end)
            + Seq::<Seq<char>>::empty());
    } else {
        let needle = closing_tag_of(&tag.raw_name);
        assert(line_views(body@) =~= head + all.subrange(start + 1, start + 1));
        loop
            invariant_except_break
                ending == xml_end(all, i as int, needle@),
                line_views(body@) == head + all.subrange(start + 1, i as int),
            invariant
                start < i <= total,
                total == lines@.len(),
                all == line_views(lines@),
                needle@ == closing_tag(tag@.raw_name),
            ensures
                ending.next == next,
                ending.unclosed == unclosed,
                start < next <= lines@.len(),
                line_views(body@) == head + all.subrange(start + 1, ending.body_end)
                    + match ending.last {
                    Some(text) => unless_empty(text),
                    None => Seq::empty(),
                },
            decreases lines@.len() - i,
        {
            let ghost now = line_views(body@);
            if i >= lines.len() {
                next = i;
                unclosed = true;
                assert(now =~= now + Seq::<Seq<char>>::empty());
                break;
            }
            let t = trimmed_start(&lines[i]);
            match find_ci(t, &needle) {
                Some(close) => {
                    if close > 0 {
                        push_line(&mut body, to_vec(slice_subrange(t, 0, close)));
                    }
                    next = i + 1;
                    unclosed = false;
                    assert(line_views(body@) =~= now + unless_empty(
                        t@.subrange(0, close as int),
                    ));
                    break;
                },
                None => {},
            }
            if is_tag_line(&lines[i]) {
                next = i;
                unclosed = true;
                assert(now =~= now + Seq::<Seq<char>>::empty());
                break;
            }
            push_line(&mut body, to_vec(&lines[i]));
            i = i + 1;
            assert(line_views(body@) =~= head + all.subrange(start + 1, i as int));
        }
    }
    let trimmed_body = trim_empty_edges(&body);
    let name = lower_chars(&tag.raw_name);
    let block = TagBlock {
        canonical_name: normalize_canonical(&name),
        raw_name: string_of(&tag.raw_name),
        syntax: TagSyntax::Xml,
        attributes: tag.attributes,
        lines: strings_between(&trimmed_body, 0, trimmed_body.len()),
        raw: string_of(&join_lines(lines, start, next)),
    };
    proof {
        assert(line_views(trimmed_body@).subrange(0, trimmed_body@.len() as int) =~= line_views(
            trimmed_body@,
        ));
    }
    (block, next, unclosed)
}

// ---------------------------------------------------------------------------
// Documents

/// Blocks read so far, and whether an element was left open.
pub struct Parsed {
    pub blocks: Seq<Block>,
    pub unclosed: bool,
}

/// The prose lines `[from, to)`; at the start of a document without its
/// leading blank lines.
pub open spec fn prose(lines: Seq<Seq<char>>, from: int, to: int, first: bool) -> Seq<Seq<char>> {
    let run = lines.subrange(from, to);
    if first {
        run.subrange(ink_from(run, 0), run.len() as int)
    } else {
        run
    }
}

/// Read blocks from line `i` on.
pub open spec fn blocks_from(lines: Seq<Seq<char>>, i: int, done: Parsed) -> Parsed
    decreases lines.len() - i,
{
    if i < 0 || i >= lines.len() {
        done
    } else {
        match doxygen(lines[i]) {
            Some(d) => {
                let next = next_tag(lines, i + 1);
                if i < next <= lines.len() {
                    blocks_from(
                        lines,
                        next,
                        Parsed {
                            blocks: done.blocks.push(Block::Tag(doxygen_tag(lines, i, d))),
                            ..done
                        },
                    )
                } else {
                    done
                }
            },
            None => match xml_open(lines[i]) {
                Some(x) => {
                    let e = xml_ending(lines, i, x);
                    if i < e.next <= lines.len() {
                        blocks_from(
                            lines,
                            e.next,
                            Parsed {
                                blocks: done.blocks.push(Block::Tag(xml_tag(lines, i, x))),
                                unclosed: done.unclosed || e.unclosed,
                            },
                        )
                    } else {
                        done
                    }
                },
                None => {
                    let next = next_tag(lines, i);
                    let run = prose(lines, i, next, done.blocks.len() == 0);
                    if i < next <= lines.len() {
                        blocks_from(
                            lines,
                            next,
                            Parsed {
                                blocks: if run.len() > 0 {
                                    done.blocks.push(Block::Text(run))
                                } else {
                                    done.blocks
                                },
                                ..done
                            },
                        )
                    } else {
                        done
                    }
                },
            },
        }
    }
}

pub open spec fn is_blank_text(b: Block) -> bool {
    match b {
        Block::Text(lines) => all_blank(lines),
        Block::Tag(_) => false,
    }
}

/// The blocks without blank prose at the end.
pub open spec fn without_blank_tail(blocks: Seq<Block>) -> Seq<Block>
    decreases blocks.len(),
{
    if blocks.len() == 0 {
        blocks
    } else if is_blank_text(blocks.last()) {
        without_blank_tail(blocks.drop_last())
    } else {
        match blocks.last() {
            Block::Text(lines) => blocks.drop_last().push(
                Block::Text(lines.subrange(0, ink_until(lines, 0, lines.len() as int))),
            ),
            Block::Tag(_) => blocks,
        }
    }
}

/// The document of cleaned lines within a budget of lines.
pub open spec fn document_of(
    lines: Seq<Seq<char>>,
    max_lines: int,
    truncated: bool,
) -> Document {
    let limited = if lines.len() > max_lines {
        lines.subrange(0, max_lines)
    } else {
        lines
    };
    let parsed = blocks_from(limited, 0, Parsed { blocks: Seq::empty(), unclosed: false });
    Document {
        blocks: without_blank_tail(parsed.blocks),
        diagnostics: CommentDiagnostics {
            malformed_fallback: parsed.unclosed,
            truncated: truncated || lines.len() > max_lines,
            unclosed_xml: parsed.unclosed,
        },
    }
}

fn push_block(blocks: &mut Vec<CommentBlock>, block: CommentBlock)
    ensures
        block_views(final(blocks)@) == block_views(old(blocks)@).push(block@),
{
    let ghost before = block_views(blocks@);
    let ghost b = block@;
    blocks.push(block);
    assert(block_views(blocks@) =~= before.push(b));
}

fn parse_cleaned_lines(
    lines: &Vec<Vec<char>>,
    options: &CommentRenderOptions,
    truncated: bool,
) -> (r: CommentDocument)
    ensures
        r@ == document_of(line_views(lines@), options.max_comment_lines as int, truncated),
{
    let over = lines.len() > options.max_comment_lines;
    let limited = copy_lines(
        lines,
        0,
        if over {
            options.max_comment_lines
        } else {
            lines.len()
        },
    );
    let ghost all = line_views(limited@);
    assert(all =~= if over {
        line_views(lines@).subrange(0, options.max_comment_lines as int)
    } else {
        line_views(lines@)
    });
    let ghost start = Parsed { blocks: Seq::empty(), unclosed: false };
    let mut blocks: Vec<CommentBlock> = Vec::new();
    let mut unclosed = false;
    let mut i: usize = 0;
    assert(block_views(blocks@) =~= Seq::empty());
    while i < limited.len()
        invariant
            i <= limited@.len(),
            all == line_views(limited@),
            blocks_from(all, 0, start) == blocks_from(
                all,
                i as int,
                Parsed { blocks: block_views(blocks@), unclosed },
            ),
        decreases limited@.len() - i,
    {
        match match_line_start_doxygen(&limited[i]) {
            Some(tag) => {
                let (block, next) = consume_doxygen_tag(&limited, i, tag);
                push_block(&mut blocks, CommentBlock::Tag(block));
                i = next;
            },
            None => {
                match match_line_start_xml_open(&limited[i]) {
                    Some(tag) => {
                        let (block, next, open) = consume_xml_tag(&limited, i, tag);
                        push_block(&mut blocks, CommentBlock::Tag(block));
                        unclosed = unclosed || open;
                        i = next;
                    },
                    None => {
                        let next: usize = find_next_tag(&limited, i);
                        let run = copy_lines(&limited, i, next);
                        let from: usize = if blocks.len() == 0 {
                            first_ink(&run)
                        } else {
                            0
                        };
                        if from < run.len() {
                            let text = strings_between(&run, from, run.len());
                            assert(texts(text@) =~= prose(
                                all,
                                i as int,
                                next as int,
                                blocks@.len() == 0,
                            ));
                            push_block(&mut blocks, CommentBlock::Text(TextBlock { lines: text }));
                        }
                        i = next;
                    },
                }
            },
        }
    }
    trim_trailing_empty_text(&mut blocks);
    CommentDocument {
        blocks,
        diagnostics: CommentDiagnostics {
            malformed_fallback: unclosed,
            truncated: truncated || over,
            unclosed_xml: unclosed,
        },
    }
}

fn is_blank_string(s: &str) -> (r: bool)
    ensures
        r == blank(s@),
{
    let chars = chars_of(s);
    is_blank(&chars)
}

fn all_blank_strings(lines: &Vec<String>) -> (r: bool)
    ensures
        r == all_blank(texts(lines@)),
{
    let ghost all = texts(lines@);
    let mut i: usize = 0;
    while i < lines.len()
        invariant
            i <= lines@.len(),
            all == texts(lines@),
            forall|k: int| 0 <= k < i ==> blank(#[trigger] all[k]),
        decreases lines@.len() - i,
    {
        if !is_blank_string(lines[i].as_str()) {
            assert(!blank(all[i as int]));
            return false;
        }
        i = i + 1;
    }
    true
}

fn trim_trailing_empty_text(blocks: &mut Vec<CommentBlock>)
    ensures
        block_views(final(blocks)@) == without_blank_tail(block_views(old(blocks)@)),
{
    let ghost input = block_views(blocks@);
    loop
        invariant
            input == block_views(old(blocks)@),
            without_blank_tail(input) == without_blank_tail(block_views(blocks@)),
        decreases blocks@.len(),
    {
        let ghost now = block_views(blocks@);
        match blocks.pop() {
            None => {
                assert(now.len() == 0);
                assert(block_views(blocks@) =~= now);
                return;
            },
            Some(CommentBlock::Text(text)) => {
                let ghost view = texts(text.lines@);
                assert(now.last() == Block::Text(view));
                assert(block_views(blocks@) =~= now.drop_last());
                if !all_blank_strings(&text.lines) {
                    let mut lines = text.lines;
                    let mut end: usize = lines.len();
                    while end > 0 && is_blank_string(lines[end - 1].as_str())
                        invariant
                            end == lines@.len() <= view.len(),
                            texts(lines@) == view.subrange(0, end as int),
                            ink_until(view, 0, view.len() as int) == ink_until(
                                view,
                                0,
                                end as int,
                            ),
                        decreases end,
                    {
                        assert(texts(lines@)[end - 1] == view[end - 1]);
                        let ghost before = lines@;
                        let _ = lines.pop();
                        end = end - 1;
                        assert(texts(lines@) =~= view.subrange(0, end as int)) by {
                            assert forall|k: int| 0 <= k < end implies texts(lines@)[k]
                                == #[trigger] view[k] by {
                                assert(texts(before)[k] == view.subrange(0, end + 1)[k]);
                            }
                        }
                    }
                    assert(end > 0 ==> texts(lines@)[end - 1] == view[end - 1]);
                    push_block(blocks, CommentBlock::Text(TextBlock { lines }));
                    return;
                }
            },
            Some(block) => {
                let ghost b = block@;
                assert(block_views(blocks@) =~= now.drop_last());
                push_block(blocks, block);
                assert(block_views(blocks@) =~= now);
                return;
            },
        }
    }
}

/// The document of a raw comment. Blank comments and comments about the file
/// have no blocks.
pub open spec fn parsed(
    text: Seq<char>,
    style: CommentStyle,
    truncated: bool,
    max_lines: int,
) -> Document {
    let lines = cleaned(text, style);
    if all_blank(lines) || file_header(lines) {
        Document {
            blocks: Seq::empty(),
            diagnostics: CommentDiagnostics { truncated, ..CommentDiagnostics::clean() },
        }
    } else {
        document_of(lines, max_lines, truncated)
    }
}

fn all_blank_lines(lines: &Vec<Vec<char>>) -> (r: bool)
    ensures
        r == all_blank(line_views(lines@)),
{
    let ghost all = line_views(lines@);
    let mut i: usize = 0;
    while i < lines.len()
        invariant
            i <= lines@.len(),
            all == line_views(lines@),
            forall|k: int| 0 <= k < i ==> blank(#[trigger] all[k]),
        decreases lines@.len() - i,
    {
        if !is_blank(&lines[i]) {
            assert(!blank(all[i as int]));
            return false;
        }
        i = i + 1;
    }
    true
}

/// Clean a raw comment and split it into prose and tags.
pub fn parse_raw_comment(raw: &RawComment, options: &CommentRenderOptions) -> (r: CommentDocument)
    ensures
        r@ == parsed(
            raw.text@,
            raw.style,
            raw.truncated,
            options.max_comment_lines as int,
        ),
{
    let chars = chars_of(raw.text.as_str());
    let lines = clean_comment_text(&chars, raw.style);
    if all_blank_lines(&lines) || is_file_header_comment(&lines) {
        let r = CommentDocument {
            blocks: Vec::new(),
            diagnostics: CommentDiagnostics {
                malformed_fallback: false,
                truncated: raw.truncated,
                unclosed_xml: false,
            },
        };
        assert(r@.blocks =~= Seq::empty());
        return r;
    }
    parse_cleaned_lines(&lines, options, raw.truncated)
}

/// A document with something in it.
pub fn is_attachable_document(doc: &CommentDocument) -> (r: bool)
    ensures
        r == (doc@.blocks.len() > 0),
{
    doc.blocks.len() > 0
}

} // verus!
