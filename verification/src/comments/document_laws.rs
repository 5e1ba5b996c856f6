//! What a comment says, told by the sections that it was written from.

use vstd::prelude::*;

use crate::chain_laws::{is_plain_name, is_word_char};
use crate::chars::{
    char_is_space, char_lower, chars_lower, first_occurrence, occurs_at, space_run_end,
    space_run_start, trim, trim_end, trim_start,
};
use crate::comments::laws::{is_text_line, joined_is_put_together, put_together};
use crate::comments::model::{Block, CommentDiagnostics, CommentStyle, Tag, TagSyntax};
use crate::comments::parse::{
    all_blank, blank, blocks_from, cleaned, dedented, document_of, doxygen, doxygen_body,
    doxygen_tag, file_header, first_token, header_line, ink_from, ink_until, next_tag, param_lines,
    parsed, prose, tag_line, without_blank_tail, xml_open, Parsed,
};
use crate::definition_laws::spells_word;
use crate::lines::{begins, holds};
use crate::text::ident_run_end;

verus! {

// ---------------------------------------------------------------------------
// Prose

pub open spec fn is_letter(c: char) -> bool {
    ('a' <= c && c <= 'z') || ('A' <= c && c <= 'Z')
}

pub open spec fn is_prose_char(c: char) -> bool {
    is_letter(c) || ('0' <= c && c <= '9') || c == ' ' || c == ',' || c == '.'
}

/// A line of plain words.
pub open spec fn is_prose(line: Seq<char>) -> bool {
    &&& line.len() > 0
    &&& is_letter(line[0])
    &&& line.last() != ' '
    &&& forall|i: int| 0 <= i < line.len() ==> is_prose_char(#[trigger] line[i])
}

pub open spec fn are_prose(lines: Seq<Seq<char>>) -> bool {
    forall|k: int| 0 <= k < lines.len() ==> is_prose(#[trigger] lines[k])
}

/// The line holds the word `copyright`.
pub open spec fn tells_copyright(line: Seq<char>) -> bool {
    exists|k: int|
        0 <= k <= line.len() - 9 && spells_word(
            #[trigger] line.subrange(k, k + 9),
            seq!['c', 'o', 'p', 'y', 'r', 'i', 'g', 'h', 't'],
        )
}

// ---------------------------------------------------------------------------
// Sections

/// A tag with its text: a parameter, or anything else by its tag.
pub enum Section {
    Parameter(Seq<char>, Seq<Seq<char>>),
    Note(Seq<char>, Seq<Seq<char>>),
}

/// A tag in small letters that is neither a parameter's nor a file's.
pub open spec fn is_note_tag(tag: Seq<char>) -> bool {
    &&& tag.len() > 0
    &&& forall|i: int| 0 <= i < tag.len() ==> 'a' <= #[trigger] tag[i] && tag[i] <= 'z'
    &&& tag != seq!['p', 'a', 'r', 'a', 'm']
    &&& tag != seq!['p', 'a', 'r', 'a', 'm', 'e', 't', 'e', 'r']
    &&& !(tag.len() >= 4 && tag.subrange(0, 4) == seq!['f', 'i', 'l', 'e'])
}

pub open spec fn text_of_section(section: Section) -> Seq<Seq<char>> {
    match section {
        Section::Parameter(_, lines) => lines,
        Section::Note(_, lines) => lines,
    }
}

pub open spec fn is_section(section: Section) -> bool {
    &&& text_of_section(section).len() > 0
    &&& are_prose(text_of_section(section))
    &&& match section {
        Section::Parameter(name, _) => is_plain_name(name),
        Section::Note(tag, _) => is_note_tag(tag),
    }
}

/// What stands before the text of a section on its first line.
pub open spec fn section_head(section: Section) -> Seq<char> {
    match section {
        Section::Parameter(name, _) => seq!['@', 'p', 'a', 'r', 'a', 'm', ' '] + name + seq![' '],
        Section::Note(tag, _) => seq!['@'] + tag + seq![' '],
    }
}

/// The lines of a section: the first one behind its head.
pub open spec fn section_lines(section: Section) -> Seq<Seq<char>> {
    let text = text_of_section(section);
    Seq::new(
        text.len(),
        |k: int|
            if k == 0 {
                section_head(section) + text[0]
            } else {
                text[k]
            },
    )
}

pub open spec fn lines_of_sections(sections: Seq<Section>, k: int) -> Seq<Seq<char>>
    decreases sections.len() - k,
{
    if k < 0 || k >= sections.len() {
        Seq::empty()
    } else {
        section_lines(sections[k]) + lines_of_sections(sections, k + 1)
    }
}

/// The lines of a comment: prose, then sections.
pub open spec fn document_lines(prose: Seq<Seq<char>>, sections: Seq<Section>) -> Seq<Seq<char>> {
    prose + lines_of_sections(sections, 0)
}

pub open spec fn is_document(prose: Seq<Seq<char>>, sections: Seq<Section>) -> bool {
    &&& are_prose(prose)
    &&& forall|k: int| 0 <= k < sections.len() ==> is_section(#[trigger] sections[k])
    &&& document_lines(prose, sections).len() > 0
    &&& forall|k: int|
        0 <= k < document_lines(prose, sections).len() ==> !tells_copyright(
            #[trigger] document_lines(prose, sections)[k],
        )
}

/// The tag block that a section makes.
pub open spec fn tells(block: Block, section: Section) -> bool {
    match block {
        Block::Text(_) => false,
        Block::Tag(tag) => match section {
            Section::Parameter(name, lines) => {
                &&& tag.canonical_name == seq!['p', 'a', 'r', 'a', 'm']
                &&& tag.raw_name == seq!['p', 'a', 'r', 'a', 'm']
                &&& tag.syntax == TagSyntax::DoxygenAt
                &&& tag.attributes == seq![(seq!['n', 'a', 'm', 'e'], name)]
                &&& tag.lines == lines
                &&& tag.raw == put_together(section_lines(section))
            },
            Section::Note(name, lines) => {
                &&& tag.canonical_name == canonical_tag(name)
                &&& tag.raw_name == name
                &&& tag.syntax == TagSyntax::DoxygenAt
                &&& tag.attributes.len() == 0
                &&& tag.lines == lines
                &&& tag.raw == put_together(section_lines(section))
            },
        },
    }
}

/// What is returned has several tags.
pub open spec fn canonical_tag(name: Seq<char>) -> Seq<char> {
    if name == seq!['r', 'e', 't', 'u', 'r', 'n', 's'] || name == seq!['r', 'e', 't', 'v', 'a', 'l']
        || name == seq!['r', 'e', 's', 'u', 'l', 't'] {
        seq!['r', 'e', 't', 'u', 'r', 'n']
    } else {
        name
    }
}

// ---------------------------------------------------------------------------
// Lines

pub proof fn prose_is_text(line: Seq<char>)
    requires
        is_prose(line),
    ensures
        is_text_line(line),
        !char_is_space(line[0]),
        trim_start(line) == line,
        trim_end(line) == line,
        trim(line) == line,
        !blank(line),
{
    let n = line.len() as int;
    assert(is_prose_char(line[n - 1]));
    assert forall|i: int| 0 <= i < n implies #[trigger] line[i] != '\n' by {
        assert(is_prose_char(line[i]));
    }
    assert(space_run_end(line, 0) == 0);
    assert(space_run_start(line, n) == n);
    assert(line.subrange(0, n) =~= line);
}

pub proof fn prose_is_no_tag(line: Seq<char>)
    requires
        is_prose(line),
    ensures
        doxygen(line) is None,
        xml_open(line) is None,
        !tag_line(line),
{
    prose_is_text(line);
}

proof fn word_run(s: Seq<char>, i: int, end: int)
    requires
        0 <= i <= end < s.len(),
        forall|k: int| i <= k < end ==> is_word_char(#[trigger] s[k]),
        s[end] == ' ',
    ensures
        ident_run_end(s, i) == end,
    decreases end - i,
{
    if i < end {
        assert(is_word_char(s[i]));
        word_run(s, i + 1, end);
    }
}

proof fn space_off(line: Seq<char>)
    requires
        line.len() > 0,
        !char_is_space(line[0]),
    ensures
        trim_start(seq![' '] + line) == line,
{
    let s = seq![' '] + line;
    assert(s[1] == line[0]);
    assert(space_run_end(s, 1) == 1);
    assert(space_run_end(s, 0) == 1);
    assert(s.subrange(1, s.len() as int) =~= line);
}

/// A tag at the start of a line is read with what stands behind it.
proof fn tag_read(tag: Seq<char>, rest: Seq<char>)
    requires
        tag.len() > 0,
        is_letter(tag[0]),
        forall|k: int| 0 <= k < tag.len() ==> is_word_char(#[trigger] tag[k]),
        rest.len() > 0,
        !char_is_space(rest[0]),
    ensures
        ({
            let d = doxygen(seq!['@'] + tag + seq![' '] + rest);
            &&& d is Some
            &&& d->0.syntax == TagSyntax::DoxygenAt
            &&& d->0.raw_name == tag
            &&& d->0.direction is None
            &&& d->0.rest == rest
        }),
{
    let line = seq!['@'] + tag + seq![' '] + rest;
    let n = line.len() as int;
    let end = 1 + tag.len() as int;
    assert(line[0] == '@');
    assert(space_run_end(line, 0) == 0);
    assert(line.subrange(0, n) =~= line);
    assert(line[1] == tag[0]);
    assert forall|k: int| 2 <= k < end implies is_word_char(#[trigger] line[k]) by {
        assert(line[k] == tag[k - 1]);
    }
    assert(line[end] == ' ');
    word_run(line, 2, end);
    assert(line.subrange(1, end) =~= tag);
    assert(line.subrange(end, n) =~= seq![' '] + rest);
    space_off(rest);
}

proof fn lower_word(tag: Seq<char>)
    requires
        forall|i: int| 0 <= i < tag.len() ==> 'a' <= #[trigger] tag[i] && tag[i] <= 'z',
    ensures
        chars_lower(tag) == tag,
{
    assert(chars_lower(tag) =~= tag);
}

pub proof fn tags_spelled()
    ensures
        "returns"@ =~= seq!['r', 'e', 't', 'u', 'r', 'n', 's'],
        "retval"@ =~= seq!['r', 'e', 't', 'v', 'a', 'l'],
        "result"@ =~= seq!['r', 'e', 's', 'u', 'l', 't'],
        "return"@ =~= seq!['r', 'e', 't', 'u', 'r', 'n'],
        "parameter"@ =~= seq!['p', 'a', 'r', 'a', 'm', 'e', 't', 'e', 'r'],
        "param"@ =~= seq!['p', 'a', 'r', 'a', 'm'],
        "name"@ =~= seq!['n', 'a', 'm', 'e'],
        "direction"@.len() == 9,
{
    reveal_strlit("returns");
    reveal_strlit("retval");
    reveal_strlit("result");
    reveal_strlit("return");
    reveal_strlit("parameter");
    reveal_strlit("param");
    reveal_strlit("name");
    reveal_strlit("direction");
}

// ---------------------------------------------------------------------------
// Blocks

/// The first line of a section is a tag, its text behind it.
proof fn head_read(section: Section)
    requires
        is_section(section),
    ensures
        tag_line(section_lines(section)[0]),
        match section {
            Section::Parameter(name, lines) => {
                let d = doxygen(section_lines(section)[0]);
                &&& d is Some
                &&& d->0.syntax == TagSyntax::DoxygenAt
                &&& d->0.raw_name == seq!['p', 'a', 'r', 'a', 'm']
                &&& d->0.direction is None
                &&& d->0.rest == name + seq![' '] + lines[0]
            },
            Section::Note(tag, lines) => {
                let d = doxygen(section_lines(section)[0]);
                &&& d is Some
                &&& d->0.syntax == TagSyntax::DoxygenAt
                &&& d->0.raw_name == tag
                &&& d->0.direction is None
                &&& d->0.rest == lines[0]
            },
        },
{
    let line = section_lines(section)[0];
    let text = text_of_section(section);
    prose_is_text(text[0]);
    match section {
        Section::Parameter(name, lines) => {
            let tag = seq!['p', 'a', 'r', 'a', 'm'];
            let rest = name + seq![' '] + lines[0];
            assert(is_word_char(name[0]));
            assert(rest[0] == name[0]);
            assert(line =~= seq!['@'] + tag + seq![' '] + rest);
            tag_read(tag, rest);
        },
        Section::Note(tag, lines) => {
            assert forall|k: int| 0 <= k < tag.len() implies is_word_char(#[trigger] tag[k]) by {
                assert('a' <= tag[k]);
            }
            assert(line =~= seq!['@'] + tag + seq![' '] + lines[0]);
            tag_read(tag, lines[0]);
        },
    }
}

/// A name is told apart from what stands behind it.
proof fn name_read(name: Seq<char>, line: Seq<char>)
    requires
        is_plain_name(name),
        is_prose(line),
    ensures
        first_token(name + seq![' '] + line) == Some((name, line)),
{
    let s = name + seq![' '] + line;
    let n = s.len() as int;
    prose_is_text(line);
    assert(is_word_char(name[0]));
    assert(s[0] == name[0]);
    assert(space_run_end(s, 0) == 0);
    assert(s.subrange(0, n) =~= s);
    assert forall|k: int| 1 <= k < name.len() implies is_word_char(#[trigger] s[k]) by {
        assert(s[k] == name[k]);
    }
    word_run(s, 1, name.len() as int);
    assert(s.subrange(0, name.len() as int) =~= name);
    assert(s.subrange(name.len() as int, n) =~= seq![' '] + line);
    space_off(line);
}

proof fn undedented(lines: Seq<Seq<char>>)
    requires
        are_prose(lines),
    ensures
        dedented(lines) == lines,
{
    assert forall|k: int| 0 <= k < lines.len() implies trim_start(#[trigger] lines[k])
        == lines[k] by {
        prose_is_text(lines[k]);
    }
    assert(dedented(lines) =~= lines);
}

proof fn next_tag_at(lines: Seq<Seq<char>>, i: int, end: int)
    requires
        0 <= i <= end <= lines.len(),
        forall|k: int| i <= k < end ==> is_prose(#[trigger] lines[k]),
        end < lines.len() ==> tag_line(lines[end]),
    ensures
        next_tag(lines, i) == end,
    decreases end - i,
{
    if i < end {
        prose_is_no_tag(lines[i]);
        next_tag_at(lines, i + 1, end);
    }
}

/// The lines `[i, end)` are those of the section, and a tag or nothing follows.
spec fn stands_at(lines: Seq<Seq<char>>, section: Section, i: int) -> bool {
    let end = i + text_of_section(section).len();
    &&& 0 <= i
    &&& end <= lines.len()
    &&& lines.subrange(i, end) == section_lines(section)
    &&& end < lines.len() ==> tag_line(lines[end])
}

proof fn section_read(lines: Seq<Seq<char>>, section: Section, i: int)
    requires
        is_section(section),
        stands_at(lines, section, i),
    ensures
        next_tag(lines, i + 1) == i + text_of_section(section).len(),
        doxygen(lines[i]) is Some,
        tells(Block::Tag(doxygen_tag(lines, i, doxygen(lines[i])->0)), section),
{
    let text = text_of_section(section);
    let own = section_lines(section);
    let end = i + text.len();
    head_read(section);
    assert(lines[i] == lines.subrange(i, end)[0]);
    assert forall|k: int| i + 1 <= k < end implies is_prose(#[trigger] lines[k]) by {
        assert(lines[k] == lines.subrange(i, end)[k - i]);
        assert(own[k - i] == text[k - i]);
    }
    next_tag_at(lines, i + 1, end);
    let d = doxygen(lines[i])->0;
    let body = doxygen_body(lines, i, d.rest);
    let more = lines.subrange(i + 1, end);
    assert(more =~= text.subrange(1, text.len() as int)) by {
        assert forall|k: int| 0 <= k < more.len() implies more[k] == text[k + 1] by {
            assert(more[k] == lines.subrange(i, end)[k + 1]);
            assert(own[k + 1] == text[k + 1]);
        }
    }
    joined_is_put_together(own);
    tags_spelled();
    match section {
        Section::Parameter(name, _) => {
            lower_word(seq!['p', 'a', 'r', 'a', 'm']);
            assert(body == seq![d.rest] + more);
            name_read(name, text[0]);
            assert(body.update(0, text[0]) =~= text);
            undedented(text);
            assert(param_lines(body) == text);
            let none = Seq::<(Seq<char>, Seq<char>)>::empty();
            assert(none.push(("name"@, name)) =~= seq![(seq!['n', 'a', 'm', 'e'], name)]);
        },
        Section::Note(tag, _) => {
            lower_word(tag);
            assert(body =~= text);
        },
    }
}

proof fn sections_begin(sections: Seq<Section>, k: int)
    requires
        0 <= k < sections.len(),
        is_section(sections[k]),
    ensures
        lines_of_sections(sections, k).len() > 0,
        tag_line(lines_of_sections(sections, k)[0]),
{
    head_read(sections[k]);
    assert(lines_of_sections(sections, k)[0] == section_lines(sections[k])[0]);
}

/// Sections become tag blocks, one each, in order.
proof fn sections_read(lines: Seq<Seq<char>>, i: int, sections: Seq<Section>, k: int, done: Parsed)
    requires
        0 <= i <= lines.len(),
        0 <= k <= sections.len(),
        forall|j: int| 0 <= j < sections.len() ==> is_section(#[trigger] sections[j]),
        lines.subrange(i, lines.len() as int) == lines_of_sections(sections, k),
    ensures
        ({
            let r = blocks_from(lines, i, done);
            &&& r.unclosed == done.unclosed
            &&& r.blocks.len() == done.blocks.len() + sections.len() - k
            &&& forall|j: int|
                0 <= j < done.blocks.len() ==> #[trigger] r.blocks[j] == done.blocks[j]
            &&& forall|j: int|
                k <= j < sections.len() ==> tells(
                    r.blocks[done.blocks.len() + j - k],
                    #[trigger] sections[j],
                )
        }),
    decreases sections.len() - k,
{
    let n = lines.len() as int;
    let rest = lines.subrange(i, n);
    if k < sections.len() {
        let section = sections[k];
        let own = section_lines(section);
        let end = i + own.len();
        let more = lines_of_sections(sections, k + 1);
        assert(rest == own + more);
        assert(end <= n);
        assert(lines.subrange(i, end) =~= own) by {
            assert(lines.subrange(i, end) =~= rest.subrange(0, own.len() as int));
            assert(rest.subrange(0, own.len() as int) =~= own);
        }
        assert(lines.subrange(end, n) =~= more) by {
            assert(lines.subrange(end, n) =~= rest.subrange(own.len() as int, rest.len() as int));
        }
        if end < n {
            assert(lines[end] == lines.subrange(end, n)[0]);
            if k + 1 < sections.len() {
                sections_begin(sections, k + 1);
            }
        }
        assert(stands_at(lines, section, i));
        section_read(lines, section, i);
        let d = doxygen(lines[i])->0;
        let block = Block::Tag(doxygen_tag(lines, i, d));
        let next = Parsed { blocks: done.blocks.push(block), ..done };
        sections_read(lines, end, sections, k + 1, next);
        let r = blocks_from(lines, i, done);
        assert(r == blocks_from(lines, end, next));
        assert forall|j: int| 0 <= j < done.blocks.len() implies #[trigger] r.blocks[j]
            == done.blocks[j] by {
            assert(next.blocks[j] == done.blocks[j]);
        }
        assert forall|j: int| k <= j < sections.len() implies tells(
            r.blocks[done.blocks.len() + j - k],
            #[trigger] sections[j],
        ) by {
            if j == k {
                assert(r.blocks[done.blocks.len() as int] == next.blocks[done.blocks.len() as int]);
            } else {
                assert(next.blocks.len() + j - (k + 1) == done.blocks.len() + j - k);
            }
        }
    } else {
        assert(rest.len() == 0);
    }
}

// ---------------------------------------------------------------------------
// Documents

proof fn occurrence_is_somewhere(hay: Seq<char>, needle: Seq<char>, from: int)
    requires
        0 <= from,
        first_occurrence(hay, needle, from) is Some,
    ensures
        occurs_at(hay, needle, first_occurrence(hay, needle, from)->0),
    decreases hay.len() - from + 1,
{
    if from + needle.len() <= hay.len() && !occurs_at(hay, needle, from) {
        occurrence_is_somewhere(hay, needle, from + 1);
    }
}

/// A character that neither prose nor a tag holds.
proof fn no_occurrence(line: Seq<char>, word: Seq<char>, k: int)
    requires
        0 <= k < word.len(),
        word[k] == '-' || word[k] == ':' || word[k] == '\\',
        forall|i: int|
            0 <= i < line.len() ==> #[trigger] line[i] != '-' && line[i] != ':' && line[i] != '\\',
    ensures
        !holds(chars_lower(line), word),
        !begins(chars_lower(line), word),
{
    let l = chars_lower(line);
    assert forall|at: int| !occurs_at(l, word, at) by {
        if occurs_at(l, word, at) {
            assert(l.subrange(at, at + word.len())[k] == l[at + k]);
            assert(l[at + k] == char_lower(line[at + k]));
            assert(line[at + k] == word[k]);
        }
    }
    if holds(l, word) {
        occurrence_is_somewhere(l, word, 0);
    }
}

proof fn no_copyright(line: Seq<char>)
    requires
        !tells_copyright(line),
    ensures
        !holds(chars_lower(line), "copyright"@),
{
    let word = seq!['c', 'o', 'p', 'y', 'r', 'i', 'g', 'h', 't'];
    reveal_strlit("copyright");
    assert("copyright"@ =~= word);
    let l = chars_lower(line);
    if holds(l, word) {
        occurrence_is_somewhere(l, word, 0);
        let at = first_occurrence(l, word, 0)->0;
        let part = line.subrange(at, at + 9);
        assert(l.subrange(at, at + 9) == word);
        assert forall|k: int| 0 <= k < part.len() implies 'a' <= word[k] && word[k] <= 'z' && (
        #[trigger] part[k] == word[k] || part[k] as u32 + 32 == word[k] as u32) by {
            assert(l.subrange(at, at + 9)[k] == char_lower(part[k]));
            assert(char_lower(part[k]) == word[k]);
        }
        assert(spells_word(part, word));
    }
}

proof fn no_file_tag(line: Seq<char>)
    requires
        line.len() > 0,
        line[0] == '@' ==> {
            exists|section: Section, rest: Seq<char>| #[trigger] headed(line, section, rest)
        },
    ensures
        !begins(chars_lower(line), "@file"@),
{
    reveal_strlit("@file");
    let l = chars_lower(line);
    if begins(l, "@file"@) {
        let front = l.subrange(0, 5);
        assert(front[0] == l[0]);
        assert(front[1] == l[1]);
        assert(front[2] == l[2]);
        assert(front[3] == l[3]);
        assert(front[4] == l[4]);
        assert(line[0] == '@');
        let (section, rest) = choose|section: Section, rest: Seq<char>| #[trigger]
            headed(line, section, rest);
        match section {
            Section::Parameter(_, _) => {
                assert(line[1] == 'p');
            },
            Section::Note(tag, _) => {
                tag_file(tag, rest, line);
            },
        }
    }
}

proof fn tag_file(tag: Seq<char>, rest: Seq<char>, line: Seq<char>)
    requires
        is_note_tag(tag),
        line == seq!['@'] + tag + seq![' '] + rest,
        line.len() >= 5,
        char_lower(line[1]) == 'f',
        char_lower(line[2]) == 'i',
        char_lower(line[3]) == 'l',
    ensures
        char_lower(line[4]) != 'e',
{
    assert forall|k: int| 0 <= k < tag.len() implies line[k + 1] == #[trigger] tag[k] by {}
    assert(line[(tag.len() + 1) as int] == ' ');
    assert(char_lower(' ') == ' ');
    if char_lower(line[4]) == 'e' {
        assert(tag.len() >= 4);
        assert(line[1] == tag[0] && line[2] == tag[1] && line[3] == tag[2] && line[4] == tag[3]);
        assert(tag.subrange(0, 4) =~= seq!['f', 'i', 'l', 'e']);
    }
}

pub open spec fn headed(line: Seq<char>, section: Section, rest: Seq<char>) -> bool {
    is_section(section) && line == section_head(section) + rest
}

/// A character of prose or of a tag.
pub open spec fn is_tame(c: char) -> bool {
    is_prose_char(c) || is_word_char(c) || c == '@'
}

/// A line of a document: prose, or a section's first.
pub open spec fn is_document_line(line: Seq<char>) -> bool {
    &&& line.len() > 0
    &&& !char_is_space(line[0])
    &&& !char_is_space(line.last())
    &&& forall|i: int| 0 <= i < line.len() ==> is_tame(#[trigger] line[i])
    &&& line[0] == '@' ==> {
        exists|section: Section, rest: Seq<char>| #[trigger] headed(line, section, rest)
    }
}

proof fn no_header(line: Seq<char>)
    requires
        is_document_line(line),
        !tells_copyright(line),
    ensures
        !header_line(line),
        !blank(line),
{
    let n = line.len() as int;
    assert(space_run_end(line, 0) == 0);
    assert(space_run_start(line, n) == n);
    assert(line.subrange(0, n) =~= line);
    assert(trim(line) == line);
    assert forall|i: int| 0 <= i < line.len() implies #[trigger] line[i] != '-' && line[i] != ':'
        && line[i] != '\\' by {
        assert(is_tame(line[i]));
    }
    no_file_tag(line);
    no_copyright(line);
    reveal_strlit("\\file");
    reveal_strlit("spdx-license-identifier");
    reveal_strlit("license:");
    reveal_strlit("project:");
    reveal_strlit("module:");
    reveal_strlit("author:");
    no_occurrence(line, "\\file"@, 0);
    no_occurrence(line, "spdx-license-identifier"@, 4);
    no_occurrence(line, "license:"@, 7);
    no_occurrence(line, "project:"@, 7);
    no_occurrence(line, "module:"@, 6);
    no_occurrence(line, "author:"@, 6);
}

proof fn prose_is_document_line(line: Seq<char>)
    requires
        is_prose(line),
    ensures
        is_document_line(line),
{
    prose_is_text(line);
    assert forall|i: int| 0 <= i < line.len() implies is_tame(#[trigger] line[i]) by {
        assert(is_prose_char(line[i]));
    }
}

proof fn head_is_document_line(section: Section)
    requires
        is_section(section),
    ensures
        is_document_line(section_lines(section)[0]),
{
    let text = text_of_section(section);
    let head = section_head(section);
    let line = section_lines(section)[0];
    prose_is_text(text[0]);
    assert(line[0] == '@');
    assert(line.last() == text[0].last());
    assert(headed(line, section, text[0]));
    assert forall|i: int| 0 <= i < line.len() implies is_tame(#[trigger] line[i]) by {
        if i >= head.len() {
            assert(line[i] == text[0][i - head.len()]);
            assert(is_prose_char(text[0][i - head.len()]));
        } else {
            assert(line[i] == head[i]);
            match section {
                Section::Parameter(name, _) => {
                    if 7 <= i < 7 + name.len() {
                        assert(head[i] == name[i - 7]);
                        assert(is_word_char(name[i - 7]));
                    }
                },
                Section::Note(tag, _) => {
                    if 1 <= i < 1 + tag.len() {
                        assert(head[i] == tag[i - 1]);
                        assert('a' <= tag[i - 1] && tag[i - 1] <= 'z');
                    }
                },
            }
        }
    }
}

proof fn sections_are_document_lines(sections: Seq<Section>, k: int, i: int)
    requires
        0 <= k <= sections.len(),
        forall|j: int| 0 <= j < sections.len() ==> is_section(#[trigger] sections[j]),
        0 <= i < lines_of_sections(sections, k).len(),
    ensures
        is_document_line(lines_of_sections(sections, k)[i]),
    decreases sections.len() - k,
{
    if k < sections.len() {
        let own = section_lines(sections[k]);
        if i < own.len() {
            assert(lines_of_sections(sections, k)[i] == own[i]);
            if i == 0 {
                head_is_document_line(sections[k]);
            } else {
                prose_is_document_line(text_of_section(sections[k])[i]);
            }
        } else {
            sections_are_document_lines(sections, k + 1, i - own.len());
        }
    }
}

pub proof fn document_line(prose: Seq<Seq<char>>, sections: Seq<Section>, i: int)
    requires
        is_document(prose, sections),
        0 <= i < document_lines(prose, sections).len(),
    ensures
        is_document_line(document_lines(prose, sections)[i]),
        !header_line(document_lines(prose, sections)[i]),
        !blank(document_lines(prose, sections)[i]),
{
    if i < prose.len() {
        prose_is_document_line(prose[i]);
    } else {
        sections_are_document_lines(sections, 0, i - prose.len());
    }
    no_header(document_lines(prose, sections)[i]);
}

/// The blocks are those of the prose and the sections.
pub open spec fn tell_document(
    blocks: Seq<Block>,
    prose: Seq<Seq<char>>,
    sections: Seq<Section>,
) -> bool {
    let first = if prose.len() > 0 {
        1int
    } else {
        0
    };
    &&& blocks.len() == first + sections.len()
    &&& prose.len() > 0 ==> blocks[0] == Block::Text(prose)
    &&& forall|j: int| 0 <= j < sections.len() ==> tells(blocks[first + j], #[trigger] sections[j])
}

proof fn document_read(said: Seq<Seq<char>>, sections: Seq<Section>)
    requires
        is_document(said, sections),
    ensures
        ({
            let r = blocks_from(
                document_lines(said, sections),
                0,
                Parsed { blocks: Seq::empty(), unclosed: false },
            );
            &&& !r.unclosed
            &&& tell_document(r.blocks, said, sections)
        }),
{
    let lines = document_lines(said, sections);
    let n = lines.len() as int;
    let none = Parsed { blocks: Seq::empty(), unclosed: false };
    let at = said.len() as int;
    assert(lines.subrange(at, n) =~= lines_of_sections(sections, 0));
    if at == 0 {
        sections_read(lines, 0, sections, 0, none);
    } else {
        assert forall|k: int| 0 <= k < at implies is_prose(#[trigger] lines[k]) by {
            assert(lines[k] == said[k]);
        }
        if at < n {
            assert(lines[at] == lines.subrange(at, n)[0]);
            if sections.len() > 0 {
                sections_begin(sections, 0);
            }
        }
        next_tag_at(lines, 0, at);
        prose_is_no_tag(lines[0]);
        assert(lines.subrange(0, at) =~= said);
        prose_is_text(said[0]);
        assert(ink_from(said, 0) == 0);
        assert(said.subrange(0, at) =~= said);
        let next = Parsed {
            blocks: Seq::<Block>::empty().push(Block::Text(said)),
            unclosed: false,
        };
        assert(prose(lines, 0, at, true) == said);
        assert(blocks_from(lines, 0, none) == blocks_from(lines, at, next));
        sections_read(lines, at, sections, 0, next);
        assert(blocks_from(lines, at, next).blocks[0] == next.blocks[0]);
    }
}

/// A comment that was written from prose and sections, as many of them as the
/// budget of lines allows, is read as that prose and one tag for each section,
/// in order and with all of its text.
pub proof fn comment_tells_its_sections(
    text: Seq<char>,
    style: CommentStyle,
    truncated: bool,
    max_lines: int,
    said: Seq<Seq<char>>,
    sections: Seq<Section>,
)
    requires
        is_document(said, sections),
        cleaned(text, style) == document_lines(said, sections),
        document_lines(said, sections).len() <= max_lines,
    ensures
        tell_document(parsed(text, style, truncated, max_lines).blocks, said, sections),
        parsed(text, style, truncated, max_lines).diagnostics == (CommentDiagnostics {
            malformed_fallback: false,
            truncated,
            unclosed_xml: false,
        }),
{
    let lines = document_lines(said, sections);
    assert forall|i: int| 0 <= i < lines.len() implies !header_line(#[trigger] lines[i]) && !blank(
        lines[i],
    ) by {
        document_line(said, sections, i);
    }
    assert(!blank(lines[0]));
    assert(!all_blank(lines));
    assert(!file_header(lines));
    document_read(said, sections);
    let none = Parsed { blocks: Seq::empty(), unclosed: false };
    let blocks = blocks_from(lines, 0, none).blocks;
    let kept = without_blank_tail(blocks);
    assert(kept =~= blocks) by {
        if sections.len() > 0 {
            assert(tells(blocks.last(), sections.last()));
        } else {
            assert(lines =~= said);
            assert(blocks.last() == Block::Text(said));
            prose_is_text(said.last());
            assert(!blank(said[said.len() - 1]));
            assert(!all_blank(said));
            assert(ink_until(said, 0, said.len() as int) == said.len());
            assert(said.subrange(0, said.len() as int) =~= said);
        }
    }
    assert(parsed(text, style, truncated, max_lines) == document_of(lines, max_lines, truncated));
}

} // verus!
