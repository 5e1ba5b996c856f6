//! What a comment is shown as, told by the sections that it was written from.

use vstd::prelude::*;

use crate::chain_laws::{is_plain_name, is_word_char};
use crate::chars::{char_is_space, space_run_end, space_run_start, trim};
use crate::comments::document_laws::{
    are_prose, canonical_tag, is_prose, is_prose_char, is_section, prose_is_text, tags_spelled,
    tell_document, tells, text_of_section, Section,
};
use crate::comments::markdown::{
    attribute, attribute_from, code_text, empty_sheet, escaped, escaped_below, gapped, indent_from,
    item_head, list_marker, pushed, rendered, title, with_blocks_from, with_heading,
    with_item_line, with_item_lines_from, with_parameter, with_prose_from, with_prose_line,
    with_text_block, without_fences, Rendered, Sheet,
};
use crate::comments::model::{Block, CommentDiagnostics, Document, Tag};
use crate::comments::{parameter_doc, parameter_docs};

verus! {

/// Lines of prose, each on a line of its own.
pub open spec fn prose_page(lines: Seq<Seq<char>>, k: int) -> Seq<char>
    decreases lines.len() - k,
{
    if k < 0 || k >= lines.len() {
        Seq::empty()
    } else {
        lines[k] + (if k + 1 < lines.len() {
            "  \n"@
        } else {
            "\n"@
        }) + prose_page(lines, k + 1)
    }
}

/// The lines of an item below its first one, indented.
pub open spec fn item_rest(lines: Seq<Seq<char>>, k: int) -> Seq<char>
    decreases lines.len() - k,
{
    if k < 0 || k >= lines.len() {
        Seq::empty()
    } else {
        "  "@ + lines[k] + (if k + 1 < lines.len() {
            "  "@
        } else {
            ""@
        }) + "\n"@ + item_rest(lines, k + 1)
    }
}

/// A list item: the name of a parameter and what is said of it.
pub open spec fn item_page(name: Seq<char>, lines: Seq<Seq<char>>) -> Seq<char> {
    "- `"@ + name + "`"@ + " \u{2014} "@ + lines[0] + (if lines.len() > 1 {
        "  "@
    } else {
        ""@
    }) + "\n"@ + item_rest(lines, 1)
}

/// The heading of a tag.
pub open spec fn heading_of(tag: Seq<char>) -> Seq<char> {
    if canonical_tag(tag) == seq!['r', 'e', 't', 'u', 'r', 'n'] {
        "Returns"@
    } else {
        tag.update(0, ((tag[0] as u8 - 32) as u8) as char)
    }
}

/// A heading, apart from what stands above it.
pub open spec fn heading_page(heading: Seq<char>, first: bool) -> Seq<char> {
    (if first {
        ""@
    } else {
        "\n"@
    }) + "### "@ + heading + "\n\n"@
}

/// The sections from `k` on: parameters as items under one heading, everything
/// else under a heading of its own.
pub open spec fn sections_page(
    sections: Seq<Section>,
    k: int,
    first: bool,
    listing: bool,
) -> Seq<char>
    decreases sections.len() - k,
{
    if k < 0 || k >= sections.len() {
        Seq::empty()
    } else {
        match sections[k] {
            Section::Parameter(name, lines) => (if listing {
                ""@
            } else {
                heading_page("Parameters"@, first)
            }) + item_page(name, lines) + sections_page(sections, k + 1, false, true),
            Section::Note(tag, lines) => heading_page(heading_of(tag), first) + prose_page(
                lines,
                0,
            ) + sections_page(sections, k + 1, false, false),
        }
    }
}

pub open spec fn document_page(said: Seq<Seq<char>>, sections: Seq<Section>) -> Seq<char> {
    prose_page(said, 0) + sections_page(sections, 0, said.len() == 0, false)
}

/// What is said of each parameter.
pub open spec fn parameters_told(sections: Seq<Section>, n: int) -> Seq<(Seq<char>, Seq<char>)>
    decreases n,
{
    if n <= 0 {
        Seq::empty()
    } else {
        match sections[n - 1] {
            Section::Parameter(name, lines) => parameters_told(sections, n - 1).push(
                (name, prose_page(lines, 0)),
            ),
            Section::Note(_, _) => parameters_told(sections, n - 1),
        }
    }
}

// ---------------------------------------------------------------------------
// Prose

proof fn breaks_spelled()
    ensures
        "\n"@ =~= seq!['\n'],
        "  \n"@ =~= seq![' ', ' ', '\n'],
        "\n\n"@ =~= seq!['\n', '\n'],
        "  "@ =~= seq![' ', ' '],
        ""@ =~= Seq::<char>::empty(),
{
    reveal_strlit("\n");
    reveal_strlit("  \n");
    reveal_strlit("\n\n");
    reveal_strlit("  ");
    reveal_strlit("");
}

proof fn nothing_escaped(s: Seq<char>, n: int)
    requires
        is_prose(s),
        0 <= n <= s.len(),
    ensures
        escaped_below(s, n) == s.subrange(0, n),
    decreases n,
{
    assert(indent_from(s, 0) == 0);
    assert(list_marker(s) is None);
    if n > 0 {
        nothing_escaped(s, n - 1);
        assert(is_prose_char(s[n - 1]));
        assert(s.subrange(0, n) =~= s.subrange(0, n - 1) + Seq::<char>::empty() + seq![s[n - 1]]);
    } else {
        assert(s.subrange(0, 0) =~= Seq::empty());
    }
}

pub proof fn nothing_fenced(s: Seq<char>, i: int)
    requires
        0 <= i <= s.len(),
        forall|k: int| 0 <= k < s.len() ==> #[trigger] s[k] != '\'',
    ensures
        without_fences(s, i) == s.subrange(i, s.len() as int),
    decreases s.len() - i,
{
    if i < s.len() {
        nothing_fenced(s, i + 1);
        assert(s.subrange(i, s.len() as int) =~= seq![s[i]] + s.subrange(i + 1, s.len() as int));
    } else {
        assert(s.subrange(i, s.len() as int) =~= Seq::empty());
    }
}

/// Plain words are shown as they are.
pub proof fn prose_is_not_escaped(s: Seq<char>)
    requires
        is_prose(s),
    ensures
        escaped(s) == s,
{
    nothing_escaped(s, s.len() as int);
    assert(s.subrange(0, s.len() as int) =~= s);
    assert forall|k: int| 0 <= k < s.len() implies #[trigger] s[k] != '\'' by {
        assert(is_prose_char(s[k]));
    }
    nothing_fenced(s, 0);
}

spec fn on(w: Sheet, more: Seq<char>, gap: bool) -> Sheet {
    Sheet { out: w.out + more, gap, ..w }
}

spec fn has_room(w: Sheet, more: Seq<char>) -> bool {
    !w.truncated && w.out.len() + more.len() <= w.max_chars
}

proof fn prose_put(w: Sheet, lines: Seq<Seq<char>>, i: int)
    requires
        are_prose(lines),
        0 <= i <= lines.len(),
        has_room(w, prose_page(lines, i)),
    ensures
        with_prose_from(w, lines, i) == (on(w, prose_page(lines, i), true), true),
    decreases lines.len() - i,
{
    if i < lines.len() {
        let line = lines[i];
        assert(is_prose(line));
        prose_is_not_escaped(line);
        let more = i + 1 < lines.len();
        if more {
            assert(is_prose(lines[i + 1]));
        }
        let end = if more {
            "  \n"@
        } else {
            "\n"@
        };
        let piece = line + end;
        let a = Sheet { out: w.out + piece, ..w };
        assert(with_prose_line(w, line, more) == (a, true));
        prose_put(a, lines, i + 1);
        assert(a.out + prose_page(lines, i + 1) =~= w.out + prose_page(lines, i));
    } else {
        assert(w.out + prose_page(lines, i) =~= w.out);
    }
}

proof fn item_rest_put(w: Sheet, lines: Seq<Seq<char>>, i: int)
    requires
        are_prose(lines),
        0 <= i <= lines.len(),
        has_room(w, item_rest(lines, i)),
    ensures
        with_item_lines_from(w, lines, i) == (on(w, item_rest(lines, i), true), true),
    decreases lines.len() - i,
{
    if i < lines.len() {
        breaks_spelled();
        let line = lines[i];
        assert(is_prose(line));
        prose_is_not_escaped(line);
        let more = i + 1 < lines.len();
        let text = "  "@ + line;
        let wide = if more {
            text + "  "@
        } else {
            text
        };
        let tail = if more {
            "  "@
        } else {
            ""@
        };
        assert(wide =~= "  "@ + line + tail);
        let a = Sheet { out: w.out + wide, ..w };
        let b = Sheet { out: a.out + "\n"@, ..w };
        assert(pushed(w, wide) == (a, true));
        assert(pushed(a, "\n"@) == (b, true));
        assert(with_item_line(w, text, more) == (b, true));
        item_rest_put(b, lines, i + 1);
        assert(b.out + item_rest(lines, i + 1) =~= w.out + item_rest(lines, i));
    } else {
        assert(w.out + item_rest(lines, i) =~= w.out);
    }
}

proof fn item_put(w: Sheet, name: Seq<char>, lines: Seq<Seq<char>>)
    requires
        is_plain_name(name),
        lines.len() > 0,
        are_prose(lines),
        has_room(w, item_page(name, lines)),
    ensures
        with_parameter(w, name, None, lines) == (on(w, item_page(name, lines), true), true),
{
    breaks_spelled();
    let line = lines[0];
    assert(is_prose(line));
    prose_is_text(line);
    prose_is_not_escaped(line);
    assert forall|k: int| 0 <= k < name.len() implies #[trigger] name[k] != '`' by {
        assert(is_word_char(name[k]));
    }
    assert(code_text(name) =~= name);
    let head = "- `"@ + name + "`"@ + " \u{2014} "@ + line;
    assert(item_head(name, None, lines) == head);
    let more = lines.len() > 1;
    let wide = if more {
        head + "  "@
    } else {
        head
    };
    let tail = if more {
        "  "@
    } else {
        ""@
    };
    assert(wide =~= head + tail);
    let a = Sheet { out: w.out + wide, ..w };
    let b = Sheet { out: a.out + "\n"@, ..w };
    assert(pushed(w, wide) == (a, true));
    assert(pushed(a, "\n"@) == (b, true));
    assert(with_item_line(w, head, more) == (b, true));
    item_rest_put(b, lines, 1);
    assert(b.out + item_rest(lines, 1) =~= w.out + item_page(name, lines));
}

/// A text that ends with one line break, no more.
spec fn is_settled(s: Seq<char>) -> bool {
    s.len() > 1 && s[s.len() - 1] == '\n' && s[s.len() - 2] != '\n'
}

proof fn prose_settles(before: Seq<char>, lines: Seq<Seq<char>>, k: int)
    requires
        are_prose(lines),
        0 <= k < lines.len(),
    ensures
        is_settled(before + prose_page(lines, k)),
    decreases lines.len() - k,
{
    breaks_spelled();
    let line = lines[k];
    assert(is_prose(line));
    let s = before + prose_page(lines, k);
    if k + 1 < lines.len() {
        let next = before + (line + "  \n"@);
        prose_settles(next, lines, k + 1);
        assert(s =~= next + prose_page(lines, k + 1));
    } else {
        assert(prose_page(lines, k + 1) =~= Seq::empty());
        assert(prose_page(lines, k) =~= line + seq!['\n']);
        assert(is_prose_char(line[line.len() - 1]));
        assert(s[s.len() - 2] == line.last());
    }
}

proof fn rest_settles(before: Seq<char>, lines: Seq<Seq<char>>, k: int)
    requires
        are_prose(lines),
        0 <= k <= lines.len(),
        k == lines.len() ==> is_settled(before),
    ensures
        is_settled(before + item_rest(lines, k)),
    decreases lines.len() - k,
{
    breaks_spelled();
    let s = before + item_rest(lines, k);
    if k < lines.len() {
        let line = lines[k];
        assert(is_prose(line));
        assert(is_prose_char(line[line.len() - 1]));
        let tail = if k + 1 < lines.len() {
            "  "@
        } else {
            ""@
        };
        let next = before + ("  "@ + line + tail + "\n"@);
        if k + 1 == lines.len() {
            assert(next[next.len() - 1] == '\n');
            assert(next[next.len() - 2] == line.last());
        }
        rest_settles(next, lines, k + 1);
        assert(s =~= next + item_rest(lines, k + 1));
    } else {
        assert(s =~= before);
    }
}

proof fn item_settles(before: Seq<char>, name: Seq<char>, lines: Seq<Seq<char>>)
    requires
        lines.len() > 0,
        are_prose(lines),
    ensures
        is_settled(before + item_page(name, lines)),
{
    breaks_spelled();
    let line = lines[0];
    assert(is_prose(line));
    assert(is_prose_char(line[line.len() - 1]));
    let tail = if lines.len() > 1 {
        "  "@
    } else {
        ""@
    };
    let next = before + ("- `"@ + name + "`"@ + " \u{2014} "@ + line + tail + "\n"@);
    if lines.len() == 1 {
        assert(next[next.len() - 1] == '\n');
        assert(next[next.len() - 2] == line.last());
    }
    rest_settles(next, lines, 1);
    assert(before + item_page(name, lines) =~= next + item_rest(lines, 1));
}

// ---------------------------------------------------------------------------
// Sections

spec fn is_ready(w: Sheet, first: bool) -> bool {
    if first {
        w.out.len() == 0
    } else {
        w.gap && is_settled(w.out)
    }
}

proof fn heading_put(w: Sheet, heading: Seq<char>, first: bool)
    requires
        is_ready(w, first),
        has_room(w, heading_page(heading, first)),
    ensures
        with_heading(w, heading) == (on(w, heading_page(heading, first), false), true),
{
    breaks_spelled();
    let page = heading_page(heading, first);
    let lead = if first {
        ""@
    } else {
        "\n"@
    };
    let a = Sheet { out: w.out + lead, ..w };
    assert(page =~= lead + ("### "@ + heading) + "\n\n"@);
    if first {
        assert(a.out =~= w.out);
        assert(gapped(w) == (a, true));
    } else {
        assert(gapped(w) == pushed(w, "\n"@));
        assert(gapped(w) == (a, true));
    }
    let b = Sheet { out: a.out + ("### "@ + heading), ..a };
    assert(pushed(a, "### "@ + heading) == (b, true));
    let c = Sheet { out: b.out + "\n\n"@, ..b };
    assert(pushed(b, "\n\n"@) == (c, true));
    assert(c.out =~= w.out + page);
}

proof fn heading_told(tag: Seq<char>, name: Seq<char>)
    requires
        name.len() > 0,
        forall|i: int| 0 <= i < name.len() ==> 'a' <= #[trigger] name[i] && name[i] <= 'z',
        tag == canonical_tag(name),
    ensures
        (if tag == "return"@ {
            "Returns"@
        } else {
            title(tag)
        }) == heading_of(name),
{
    tags_spelled();
    assert('a' <= name[0]);
}

/// One section is put on the page.
proof fn section_put(
    w: Sheet,
    blocks: Seq<Block>,
    i: int,
    section: Section,
    first: bool,
    listing: bool,
)
    requires
        0 <= i < blocks.len(),
        is_section(section),
        tells(blocks[i], section),
        is_ready(w, first),
        has_room(w, section_page(section, first, listing)),
    ensures
        with_blocks_from(w, blocks, i, listing) == with_blocks_from(
            on(w, section_page(section, first, listing), true),
            blocks,
            i + 1,
            section is Parameter,
        ),
        is_settled(w.out + section_page(section, first, listing)),
{
    let page = section_page(section, first, listing);
    tags_spelled();
    breaks_spelled();
    let tag = blocks[i]->Tag_0;
    assert(blocks[i] == Block::Tag(tag));
    match section {
        Section::Parameter(name, lines) => {
            let head = if listing {
                ""@
            } else {
                heading_page("Parameters"@, first)
            };
            let a = if listing {
                w
            } else {
                on(w, head, false)
            };
            if !listing {
                heading_put(w, "Parameters"@, first);
            } else {
                assert(w.out + head =~= w.out);
            }
            assert(a.out == w.out + head);
            assert(attribute(tag, "name"@) == Some(name));
            assert(attribute_from(tag.attributes, "direction"@, 1) is None);
            assert(attribute(tag, "direction"@) is None);
            item_put(a, name, lines);
            assert(a.out + item_page(name, lines) =~= w.out + page);
            item_settles(a.out, name, lines);
        },
        Section::Note(name, lines) => {
            let heading = heading_of(name);
            heading_told(tag.canonical_name, name);
            assert(tag.canonical_name != "param"@);
            heading_put(w, heading, first);
            let a = on(w, heading_page(heading, first), false);
            prose_put(a, lines, 0);
            assert(a.out + prose_page(lines, 0) =~= w.out + page);
            prose_settles(a.out, lines, 0);
        },
    }
}

/// One section on a page.
spec fn section_page(section: Section, first: bool, listing: bool) -> Seq<char> {
    match section {
        Section::Parameter(name, lines) => (if listing {
            ""@
        } else {
            heading_page("Parameters"@, first)
        }) + item_page(name, lines),
        Section::Note(tag, lines) => heading_page(heading_of(tag), first) + prose_page(lines, 0),
    }
}

proof fn page_unfolds(sections: Seq<Section>, k: int, first: bool, listing: bool)
    requires
        0 <= k < sections.len(),
    ensures
        sections_page(sections, k, first, listing) == section_page(sections[k], first, listing)
            + sections_page(sections, k + 1, false, sections[k] is Parameter),
{
}

proof fn sections_put(
    w: Sheet,
    blocks: Seq<Block>,
    at: int,
    sections: Seq<Section>,
    k: int,
    first: bool,
    listing: bool,
)
    requires
        0 <= at,
        0 <= k <= sections.len(),
        blocks.len() == at + sections.len(),
        forall|j: int| 0 <= j < sections.len() ==> is_section(#[trigger] sections[j]),
        forall|j: int| 0 <= j < sections.len() ==> tells(blocks[at + j], #[trigger] sections[j]),
        is_ready(w, first),
        has_room(w, sections_page(sections, k, first, listing)),
    ensures
        ({
            let (r, ok) = with_blocks_from(w, blocks, at + k, listing);
            &&& ok
            &&& !r.truncated
            &&& r.out == w.out + sections_page(sections, k, first, listing)
        }),
    decreases sections.len() - k,
{
    let all = sections_page(sections, k, first, listing);
    if k < sections.len() {
        let section = sections[k];
        let page = section_page(section, first, listing);
        let next = section is Parameter;
        let rest = sections_page(sections, k + 1, false, next);
        page_unfolds(sections, k, first, listing);
        assert(tells(blocks[at + k], sections[k]));
        section_put(w, blocks, at + k, section, first, listing);
        let a = on(w, page, true);
        sections_put(a, blocks, at, sections, k + 1, false, next);
        assert(a.out + rest =~= w.out + all);
    } else {
        assert(w.out + all =~= w.out);
    }
}

proof fn page_shows(said: Seq<Seq<char>>, sections: Seq<Section>)
    requires
        said.len() > 0 || sections.len() > 0,
        are_prose(said),
        forall|j: int| 0 <= j < sections.len() ==> is_section(#[trigger] sections[j]),
    ensures
        document_page(said, sections).len() > 0,
        !char_is_space(document_page(said, sections)[0]),
{
    let page = document_page(said, sections);
    if said.len() > 0 {
        prose_is_text(said[0]);
        assert(page[0] == said[0][0]);
    } else {
        breaks_spelled();
        reveal_strlit("### ");
        assert(prose_page(said, 0).len() == 0);
        match sections[0] {
            Section::Parameter(name, lines) => {
                assert(page[0] == '#');
            },
            Section::Note(tag, lines) => {
                assert(page[0] == '#');
            },
        }
    }
}

proof fn ink_is_seen(s: Seq<char>)
    requires
        s.len() > 0,
        !char_is_space(s[0]),
    ensures
        trim(s).len() > 0,
{
    let n = s.len() as int;
    assert(space_run_end(s, 0) == 0);
    assert(s.subrange(0, n) =~= s);
    run_stops(s, n);
}

proof fn run_stops(s: Seq<char>, i: int)
    requires
        0 < i <= s.len(),
        !char_is_space(s[0]),
    ensures
        0 < space_run_start(s, i) <= i,
    decreases i,
{
    if char_is_space(s[i - 1]) {
        run_stops(s, i - 1);
    }
}

/// A document of prose and sections that fits its budget is shown whole: every
/// line of the prose, every parameter under one heading, every other section
/// under its own.
pub proof fn page_shows_every_section(
    document: Document,
    said: Seq<Seq<char>>,
    sections: Seq<Section>,
    max_chars: int,
)
    requires
        are_prose(said),
        forall|j: int| 0 <= j < sections.len() ==> is_section(#[trigger] sections[j]),
        said.len() > 0 || sections.len() > 0,
        tell_document(document.blocks, said, sections),
        !document.diagnostics.truncated,
        document_page(said, sections).len() <= max_chars,
    ensures
        rendered(document, max_chars) == Some(
            Rendered {
                markdown: document_page(said, sections),
                diagnostics: document.diagnostics,
            },
        ),
{
    let page = document_page(said, sections);
    let blocks = document.blocks;
    let w = empty_sheet(max_chars);
    let rest = sections_page(sections, 0, said.len() == 0, false);
    if said.len() > 0 {
        prose_put(w, said, 0);
        prose_settles(w.out, said, 0);
        let a = on(w, prose_page(said, 0), true);
        assert(with_text_block(w, said) == (a, true));
        assert forall|j: int| 0 <= j < sections.len() implies tells(
            blocks[1 + j],
            #[trigger] sections[j],
        ) by {}
        sections_put(a, blocks, 1, sections, 0, false, false);
        assert(a.out + rest =~= page);
        assert(with_blocks_from(w, blocks, 0, false) == with_blocks_from(a, blocks, 1, false));
    } else {
        assert(prose_page(said, 0) =~= Seq::empty());
        assert forall|j: int| 0 <= j < sections.len() implies tells(
            blocks[0 + j],
            #[trigger] sections[j],
        ) by {}
        sections_put(w, blocks, 0, sections, 0, true, false);
        assert(w.out + rest =~= page);
    }
    page_shows(said, sections);
    ink_is_seen(page);
}

// ---------------------------------------------------------------------------
// Parameters

proof fn rest_is_longer(lines: Seq<Seq<char>>, k: int)
    requires
        0 <= k <= lines.len(),
    ensures
        prose_page(lines, k).len() <= item_rest(lines, k).len(),
    decreases lines.len() - k,
{
    breaks_spelled();
    if k < lines.len() {
        rest_is_longer(lines, k + 1);
    }
}

proof fn item_is_longer(name: Seq<char>, lines: Seq<Seq<char>>)
    requires
        lines.len() > 0,
    ensures
        prose_page(lines, 0).len() <= item_page(name, lines).len(),
{
    breaks_spelled();
    rest_is_longer(lines, 1);
}

proof fn page_holds_item(sections: Seq<Section>, k: int, j: int, first: bool, listing: bool)
    requires
        0 <= k <= j < sections.len(),
        is_section(sections[j]),
        sections[j] is Parameter,
    ensures
        prose_page(text_of_section(sections[j]), 0).len() <= sections_page(
            sections,
            k,
            first,
            listing,
        ).len(),
    decreases j - k,
{
    if k == j {
        item_is_longer(sections[j]->Parameter_0, sections[j]->Parameter_1);
    } else {
        page_holds_item(sections, k + 1, j, false, sections[k] is Parameter);
    }
}

proof fn parameter_read(block: Block, section: Section, max_chars: int)
    requires
        is_section(section),
        tells(block, section),
        section is Parameter ==> prose_page(text_of_section(section), 0).len() <= max_chars,
    ensures
        parameter_doc(block, max_chars) == match section {
            Section::Parameter(name, lines) => Some((name, prose_page(lines, 0))),
            Section::Note(_, _) => None,
        },
{
    tags_spelled();
    let tag = block->Tag_0;
    match section {
        Section::Parameter(name, lines) => {
            let none = Seq::<Section>::empty();
            let own = Document {
                blocks: seq![Block::Text(lines)],
                diagnostics: CommentDiagnostics::clean(),
            };
            assert(document_page(lines, none) =~= prose_page(lines, 0));
            page_shows_every_section(own, lines, none, max_chars);
            assert(attribute_from(tag.attributes, "name"@, 0) == Some(name));
        },
        Section::Note(_, _) => {
            assert(tag.canonical_name != "param"@);
        },
    }
}

proof fn parameters_read(
    blocks: Seq<Block>,
    at: int,
    sections: Seq<Section>,
    n: int,
    max_chars: int,
)
    requires
        at == 0 || (at == 1 && blocks[0] is Text),
        0 <= n <= sections.len(),
        forall|j: int| 0 <= j < sections.len() ==> is_section(#[trigger] sections[j]),
        forall|j: int| 0 <= j < sections.len() ==> tells(blocks[at + j], #[trigger] sections[j]),
        forall|j: int|
            0 <= j < sections.len() && (#[trigger] sections[j]) is Parameter ==> prose_page(
                text_of_section(sections[j]),
                0,
            ).len() <= max_chars,
    ensures
        parameter_docs(blocks, max_chars, at + n) == parameters_told(sections, n),
    decreases n,
{
    if n > 0 {
        parameters_read(blocks, at, sections, n - 1, max_chars);
        assert(tells(blocks[at + (n - 1)], sections[n - 1]));
        parameter_read(blocks[at + n - 1], sections[n - 1], max_chars);
    } else if at == 1 {
        assert(parameter_doc(blocks[0], max_chars) is None);
        assert(parameter_docs(blocks, max_chars, 0) =~= Seq::empty());
    }
}

/// What such a document says of its parameters is told for each of them, in
/// order.
pub proof fn every_parameter_is_told(
    document: Document,
    said: Seq<Seq<char>>,
    sections: Seq<Section>,
    max_chars: int,
)
    requires
        are_prose(said),
        forall|j: int| 0 <= j < sections.len() ==> is_section(#[trigger] sections[j]),
        tell_document(document.blocks, said, sections),
        document_page(said, sections).len() <= max_chars,
    ensures
        parameter_docs(document.blocks, max_chars, document.blocks.len() as int)
            == parameters_told(sections, sections.len() as int),
{
    let at = if said.len() > 0 {
        1int
    } else {
        0
    };
    assert forall|j: int| 0 <= j < sections.len() && (#[trigger] sections[j]) is Parameter implies
        prose_page(text_of_section(sections[j]), 0).len() <= max_chars by {
        page_holds_item(sections, 0, j, said.len() == 0, false);
    }
    parameters_read(document.blocks, at, sections, sections.len() as int, max_chars);
}

} // verus!
