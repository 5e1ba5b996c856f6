//! What a tag says, told by how it is written.

use vstd::prelude::*;

use crate::chain_laws::{is_plain_name, is_word_char};
use crate::chars::{
    char_is_space, char_lower, chars_lower, occurs_at, space_run_end, trim, trim_start,
};
use crate::comments::document_laws::{
    are_prose, is_prose, is_prose_char, prose_is_no_tag, prose_is_text,
};
use crate::comments::laws::edges_kept;
use crate::comments::model::TagSyntax;
use crate::comments::parse::{
    ascii_spaces_end, attribute_name_end, char_from, closing_tag, doxygen, found_any_case,
    xml_attribute, xml_end, xml_ending, xml_head, xml_open, xml_tag, Doxygen, Xml, XmlEnd, XmlHead,
};
use crate::comments::place_laws::{found_first, not_found};
use crate::text::ident_run_end;

verus! {

// ---------------------------------------------------------------------------
// Commands

proof fn run_is(s: Seq<char>, i: int, end: int)
    requires
        0 <= i <= end <= s.len(),
        forall|k: int| i <= k < end ==> is_word_char(#[trigger] s[k]),
        end < s.len() ==> !is_word_char(s[end]),
    ensures
        ident_run_end(s, i) == end,
    decreases end - i,
{
    if i < end {
        assert(is_word_char(s[i]));
        run_is(s, i + 1, end);
    }
}

proof fn char_is_at(s: Seq<char>, c: char, i: int, at: int)
    requires
        0 <= i <= at < s.len(),
        s[at] == c,
        forall|k: int| i <= k < at ==> #[trigger] s[k] != c,
    ensures
        char_from(s, c, i) == at,
    decreases at - i,
{
    if i < at {
        assert(s[i] != c);
        char_is_at(s, c, i + 1, at);
    }
}

/// The syntax that the character before a command shows.
pub open spec fn syntax_of(marker: char) -> TagSyntax {
    if marker == '@' {
        TagSyntax::DoxygenAt
    } else if marker == '\\' {
        TagSyntax::DoxygenBackslash
    } else {
        TagSyntax::DoxygenSlash
    }
}

/// A command at the start of a line is read by its name, whichever character
/// stands before it, and what follows is its text.
pub proof fn command_is_read(marker: char, name: Seq<char>, text: Seq<char>)
    requires
        marker == '@' || marker == '\\' || marker == '/',
        is_plain_name(name),
        text.len() > 0 ==> !char_is_space(text[0]),
    ensures
        doxygen(seq![marker] + name + seq![' '] + text) == Some(
            Doxygen { syntax: syntax_of(marker), raw_name: name, direction: None, rest: text },
        ),
{
    let line = seq![marker] + name + seq![' '] + text;
    let n = line.len() as int;
    let end = 1 + name.len() as int;
    command_begins(marker, name, seq![' '] + text);
    assert(line =~= seq![marker] + name + (seq![' '] + text));
    assert(line[end] == ' ');
    let rest = line.subrange(end, n);
    assert(rest =~= seq![' '] + text);
    space_taken(text);
}

proof fn space_taken(text: Seq<char>)
    requires
        text.len() > 0 ==> !char_is_space(text[0]),
    ensures
        trim_start(seq![' '] + text) == text,
{
    let s = seq![' '] + text;
    if text.len() > 0 {
        assert(s[1] == text[0]);
    }
    assert(space_run_end(s, 1) == 1);
    assert(space_run_end(s, 0) == 1);
    assert(s.subrange(1, s.len() as int) =~= text);
}

proof fn command_begins(marker: char, name: Seq<char>, rest: Seq<char>)
    requires
        marker == '@' || marker == '\\' || marker == '/',
        is_plain_name(name),
        rest.len() > 0 ==> !is_word_char(rest[0]),
    ensures
        ({
            let line = seq![marker] + name + rest;
            &&& trim_start(line) == line
            &&& line[1] == name[0]
            &&& is_word_char(name[0])
            &&& ident_run_end(line, 2) == 1 + name.len()
            &&& line.subrange(1, 1 + name.len() as int) == name
        }),
{
    let line = seq![marker] + name + rest;
    let n = line.len() as int;
    let end = 1 + name.len() as int;
    assert(line[0] == marker);
    assert(space_run_end(line, 0) == 0);
    assert(line.subrange(0, n) =~= line);
    assert(is_word_char(name[0]));
    assert forall|k: int| 2 <= k < end implies is_word_char(#[trigger] line[k]) by {
        assert(line[k] == name[k - 1]);
        assert(is_word_char(name[k - 1]));
    }
    if end < n {
        assert(line[end] == rest[0]);
    }
    run_is(line, 2, end);
    assert(line.subrange(1, end) =~= name);
}

/// The direction of a parameter stands in brackets behind the command.
pub proof fn direction_is_read(
    marker: char,
    name: Seq<char>,
    direction: Seq<char>,
    text: Seq<char>,
)
    requires
        marker == '@' || marker == '\\' || marker == '/',
        is_plain_name(name),
        forall|i: int| 0 <= i < direction.len() ==> #[trigger] direction[i] != ']',
        text.len() > 0 ==> !char_is_space(text[0]),
    ensures
        doxygen(seq![marker] + name + seq!['['] + direction + seq![']', ' '] + text) == Some(
            Doxygen {
                syntax: syntax_of(marker),
                raw_name: name,
                direction: Some(chars_lower(trim(direction))),
                rest: text,
            },
        ),
{
    let line = seq![marker] + name + seq!['['] + direction + seq![']', ' '] + text;
    let rest = seq!['['] + direction + seq![']', ' '] + text;
    let n = line.len() as int;
    let end = 1 + name.len() as int;
    let close = end + 1 + direction.len();
    command_begins(marker, name, rest);
    assert(line =~= seq![marker] + name + rest);
    assert(line[end] == '[');
    assert(line[close] == ']');
    assert forall|k: int| end + 1 <= k < close implies #[trigger] line[k] != ']' by {
        assert(line[k] == direction[k - end - 1]);
    }
    char_is_at(line, ']', end + 1, close);
    assert(line.subrange(end + 1, close) =~= direction);
    assert(line.subrange(close + 1, n) =~= seq![' '] + text);
    space_taken(text);
}

// ---------------------------------------------------------------------------
// Elements

/// Attributes as they are written, from `k` on.
pub open spec fn attributes_text(attributes: Seq<(Seq<char>, Seq<char>)>, k: int) -> Seq<char>
    decreases attributes.len() - k,
{
    if k < 0 || k >= attributes.len() {
        Seq::empty()
    } else {
        seq![' '] + attributes[k].0 + seq!['=', '"'] + attributes[k].1 + seq!['"']
            + attributes_text(attributes, k + 1)
    }
}

pub open spec fn are_attributes(attributes: Seq<(Seq<char>, Seq<char>)>) -> bool {
    forall|k: int|
        0 <= k < attributes.len() ==> is_plain_name((#[trigger] attributes[k]).0) && forall|i: int|
            0 <= i < attributes[k].1.len() ==> #[trigger] attributes[k].1[i] != '"'
}

/// An opening tag.
pub open spec fn opening_tag(
    name: Seq<char>,
    attributes: Seq<(Seq<char>, Seq<char>)>,
) -> Seq<char> {
    seq!['<'] + name + attributes_text(attributes, 0) + seq!['>']
}

pub open spec fn closing_of(name: Seq<char>) -> Seq<char> {
    seq!['<', '/'] + name + seq!['>']
}

pub open spec fn has_no_angle(s: Seq<char>) -> bool {
    forall|i: int| 0 <= i < s.len() ==> #[trigger] s[i] != '<'
}

proof fn attribute_name_is(s: Seq<char>, i: int, end: int)
    requires
        0 <= i <= end < s.len(),
        forall|k: int| i <= k < end ==> is_word_char(#[trigger] s[k]),
        s[end] == '=',
    ensures
        attribute_name_end(s, i) == end,
    decreases end - i,
{
    if i < end {
        assert(is_word_char(s[i]));
        attribute_name_is(s, i + 1, end);
    }
}

proof fn attribute_read(
    s: Seq<char>,
    at: int,
    name: Seq<char>,
    value: Seq<char>,
    rest: Seq<char>,
)
    requires
        0 <= at,
        at <= s.len(),
        s.subrange(at, s.len() as int) == name + seq!['=', '"'] + value + seq!['"'] + rest,
        is_plain_name(name),
        forall|i: int| 0 <= i < value.len() ==> #[trigger] value[i] != '"',
    ensures
        xml_attribute(s, at) == Some((name, value, at + name.len() + value.len() + 3)),
        ascii_spaces_end(s, at) == at,
        s[at] != '>',
        s[at] != '/',
{
    let t = s.subrange(at, s.len() as int);
    let eq = at + name.len();
    let close = eq + 2 + value.len();
    assert forall|k: int| 0 <= k < t.len() implies s[at + k] == #[trigger] t[k] by {}
    assert(t[0] == name[0]);
    assert(s[at + 0] == t[0]);
    assert(is_word_char(name[0]));
    assert forall|k: int| at + 1 <= k < eq implies is_word_char(#[trigger] s[k]) by {
        assert(s[at + (k - at)] == t[k - at]);
        assert(t[k - at] == name[k - at]);
        assert(is_word_char(name[k - at]));
    }
    assert(s[at + (eq - at)] == t[eq - at]);
    assert(s[at + (eq + 1 - at)] == t[eq + 1 - at]);
    assert(s[eq] == '=' && s[eq + 1] == '"');
    attribute_name_is(s, at + 1, eq);
    assert(ascii_spaces_end(s, eq) == eq);
    assert(ascii_spaces_end(s, eq + 1) == eq + 1);
    assert forall|k: int| eq + 2 <= k < close implies #[trigger] s[k] != '"' by {
        assert(s[at + (k - at)] == t[k - at]);
        assert(t[k - at] == value[k - eq - 2]);
    }
    assert(s[at + (close - at)] == t[close - at]);
    assert(s[close] == '"');
    char_is_at(s, '"', eq + 2, close);
    assert(s.subrange(at, eq) =~= name) by {
        assert forall|k: int| 0 <= k < name.len() implies s[at + k] == name[k] by {
            assert(s[at + k] == t[k]);
        }
    }
    assert(s.subrange(eq + 2, close) =~= value) by {
        assert forall|k: int| 0 <= k < value.len() implies s[eq + 2 + k] == value[k] by {
            assert(s[at + (name.len() + 2 + k)] == t[name.len() + 2 + k]);
        }
    }
}

proof fn head_read(
    s: Seq<char>,
    i: int,
    attributes: Seq<(Seq<char>, Seq<char>)>,
    k: int,
    rest: Seq<char>,
)
    requires
        0 <= i <= s.len(),
        0 <= k <= attributes.len(),
        are_attributes(attributes),
        s.subrange(i, s.len() as int) == attributes_text(attributes, k) + seq!['>'] + rest,
    ensures
        xml_head(s, i, attributes.subrange(0, k)) == XmlHead::Open(
            attributes,
            s.len() - rest.len(),
        ),
    decreases attributes.len() - k,
{
    let t = s.subrange(i, s.len() as int);
    assert(t.len() > 0);
    assert(t[0] == s[i]);
    if k < attributes.len() {
        let (name, value) = attributes[k];
        let more = attributes_text(attributes, k + 1) + seq!['>'] + rest;
        let tail = name + seq!['=', '"'] + value + seq!['"'] + more;
        assert(t =~= seq![' '] + tail);
        assert(s.subrange(i + 1, s.len() as int) =~= tail) by {
            assert(s.subrange(i + 1, s.len() as int) =~= t.subrange(1, t.len() as int));
            assert(t.subrange(1, t.len() as int) =~= tail);
        }
        attribute_read(s, i + 1, name, value, more);
        assert(ascii_spaces_end(s, i) == i + 1);
        let next = i + 1 + name.len() + value.len() + 3;
        assert(s.subrange(next, s.len() as int) =~= more) by {
            let skip = name.len() + value.len() + 4;
            assert(s.subrange(next, s.len() as int) =~= t.subrange(skip as int, t.len() as int));
        }
        head_read(s, next, attributes, k + 1, rest);
        assert(attributes.subrange(0, k).push(attributes[k]) =~= attributes.subrange(0, k + 1));
    } else {
        assert(t[0] == '>');
        assert(ascii_spaces_end(s, i) == i);
        assert(attributes.subrange(0, k) =~= attributes);
    }
}

proof fn opening_read(
    name: Seq<char>,
    attributes: Seq<(Seq<char>, Seq<char>)>,
    rest: Seq<char>,
)
    requires
        is_plain_name(name),
        are_attributes(attributes),
    ensures
        ({
            let line = opening_tag(name, attributes) + rest;
            let end = 1 + name.len() as int;
            &&& trim_start(line) == line
            &&& line.len() >= 2
            &&& line[0] == '<'
            &&& line[1] == name[0]
            &&& is_word_char(name[0])
            &&& ident_run_end(line, 2) == end
            &&& line.subrange(1, end) == name
            &&& xml_head(line, end, Seq::empty()) == XmlHead::Open(
                attributes,
                line.len() - rest.len(),
            )
            &&& line.subrange(line.len() - rest.len(), line.len() as int) == rest
        }),
{
    let line = opening_tag(name, attributes) + rest;
    let n = line.len() as int;
    let end = 1 + name.len() as int;
    let tail = attributes_text(attributes, 0) + seq!['>'] + rest;
    assert(line =~= seq!['<'] + name + tail);
    assert(line[0] == '<');
    assert(space_run_end(line, 0) == 0);
    assert(line.subrange(0, n) =~= line);
    assert(is_word_char(name[0]));
    assert forall|k: int| 2 <= k < end implies is_word_char(#[trigger] line[k]) by {
        assert(line[k] == name[k - 1]);
        assert(is_word_char(name[k - 1]));
    }
    assert(line[end] == tail[0]);
    assert(tail[0] == ' ' || tail[0] == '>') by {
        if attributes.len() > 0 {
            assert(attributes_text(attributes, 0)[0] == ' ');
        }
    }
    run_is(line, 2, end);
    assert(line.subrange(1, end) =~= name);
    assert(line.subrange(end, n) =~= tail);
    head_read(line, end, attributes, 0, rest);
    assert(attributes.subrange(0, 0) =~= Seq::empty());
    assert(line.subrange(n - rest.len(), n) =~= rest);
}

proof fn closing_spelled(name: Seq<char>)
    ensures
        closing_tag(name) == closing_of(name),
{
    reveal_strlit("</");
    reveal_strlit(">");
    assert("</"@ =~= seq!['<', '/']);
    assert(">"@ =~= seq!['>']);
}

proof fn close_is_found(body: Seq<char>, name: Seq<char>, tail: Seq<char>)
    requires
        has_no_angle(body),
    ensures
        found_any_case(body + closing_of(name) + tail, closing_tag(name)) == Some(
            body.len() as int,
        ),
{
    closing_spelled(name);
    let close = closing_of(name);
    let s = body + close + tail;
    let (low, word) = (chars_lower(s), chars_lower(close));
    let at = body.len() as int;
    assert(low.subrange(at, at + word.len()) =~= word) by {
        assert forall|k: int| 0 <= k < word.len() implies low[at + k] == word[k] by {
            assert(s[at + k] == close[k]);
        }
    }
    assert forall|k: int| 0 <= k < at implies !#[trigger] occurs_at(low, word, k) by {
        if occurs_at(low, word, k) {
            assert(low.subrange(k, k + word.len())[0] == low[k]);
            assert(word[0] == char_lower(close[0]));
            assert(s[k] == body[k]);
            assert(char_lower(body[k]) == '<');
        }
    }
    found_first(low, word, 0, at);
}

proof fn close_is_not_found(body: Seq<char>, name: Seq<char>)
    requires
        has_no_angle(body),
    ensures
        found_any_case(body, closing_tag(name)) is None,
{
    closing_spelled(name);
    let close = closing_of(name);
    let (low, word) = (chars_lower(body), chars_lower(close));
    assert forall|k: int| 0 <= k implies !#[trigger] occurs_at(low, word, k) by {
        if occurs_at(low, word, k) {
            assert(low.subrange(k, k + word.len())[0] == low[k]);
            assert(word[0] == char_lower(close[0]));
            assert(char_lower(body[k]) == '<');
        }
    }
    not_found(low, word, 0);
}

/// An element on one line is read with all of its attributes, in order, and
/// with the text between its tags.
pub proof fn element_is_read(
    name: Seq<char>,
    attributes: Seq<(Seq<char>, Seq<char>)>,
    body: Seq<char>,
    tail: Seq<char>,
)
    requires
        is_plain_name(name),
        are_attributes(attributes),
        has_no_angle(body),
    ensures
        xml_open(opening_tag(name, attributes) + body + closing_of(name) + tail) == Some(
            Xml { raw_name: name, attributes, body, closed: true },
        ),
        xml_open(opening_tag(name, attributes) + body) == Some(
            Xml { raw_name: name, attributes, body, closed: false },
        ),
{
    let open = opening_tag(name, attributes);
    let rest = body + closing_of(name) + tail;
    assert(open + body + closing_of(name) + tail =~= open + rest);
    opening_read(name, attributes, rest);
    close_is_found(body, name, tail);
    assert(rest.subrange(0, body.len() as int) =~= body);
    opening_read(name, attributes, body);
    close_is_not_found(body, name);
}

proof fn body_read(lines: Seq<Seq<char>>, i: int, end: int, name: Seq<char>)
    requires
        0 <= i <= end < lines.len(),
        forall|k: int| i <= k < end ==> is_prose(#[trigger] lines[k]),
        lines[end] == closing_of(name),
    ensures
        xml_end(lines, i, closing_tag(name)) == (XmlEnd {
            next: end + 1,
            body_end: end,
            last: Some(Seq::empty()),
            unclosed: false,
        }),
    decreases end - i,
{
    if i < end {
        let line = lines[i];
        prose_is_text(line);
        prose_is_no_tag(line);
        assert(has_no_angle(line)) by {
            assert forall|k: int| 0 <= k < line.len() implies #[trigger] line[k] != '<' by {
                assert(is_prose_char(line[k]));
            }
        }
        close_is_not_found(line, name);
        body_read(lines, i + 1, end, name);
    } else {
        let line = lines[end];
        let none = Seq::<char>::empty();
        assert(line[0] == '<');
        assert(space_run_end(line, 0) == 0);
        assert(line.subrange(0, line.len() as int) =~= line);
        close_is_found(none, name, none);
        assert(none + line + none =~= line);
        assert(line.subrange(0, 0) =~= none);
    }
}

/// An element over several lines is read with all the lines between its tags,
/// however many there are, up to its closing tag.
pub proof fn element_has_all_its_lines(
    above: Seq<Seq<char>>,
    name: Seq<char>,
    attributes: Seq<(Seq<char>, Seq<char>)>,
    body: Seq<Seq<char>>,
    below: Seq<Seq<char>>,
)
    requires
        is_plain_name(name),
        are_attributes(attributes),
        body.len() > 0,
        are_prose(body),
    ensures
        ({
            let lines = above + seq![opening_tag(name, attributes)] + body + seq![closing_of(name)]
                + below;
            let start = above.len() as int;
            let x = xml_open(lines[start]);
            &&& x is Some
            &&& xml_tag(lines, start, x->0).raw_name == name
            &&& xml_tag(lines, start, x->0).syntax == TagSyntax::Xml
            &&& xml_tag(lines, start, x->0).attributes == attributes
            &&& xml_tag(lines, start, x->0).lines == body
            &&& xml_ending(lines, start, x->0).next == start + body.len() + 2
            &&& !xml_ending(lines, start, x->0).unclosed
        }),
{
    let open = opening_tag(name, attributes);
    let lines = above + seq![open] + body + seq![closing_of(name)] + below;
    let start = above.len() as int;
    let end = start + 1 + body.len();
    let none = Seq::<char>::empty();
    assert(lines[start] == open);
    element_is_read(name, attributes, none, none);
    assert(open + none =~= open);
    assert forall|k: int| start + 1 <= k < end implies is_prose(#[trigger] lines[k]) by {
        assert(lines[k] == body[k - start - 1]);
    }
    assert(lines[end] == closing_of(name));
    body_read(lines, start + 1, end, name);
    assert(lines.subrange(start + 1, end) =~= body);
    let nothing = Seq::<Seq<char>>::empty();
    assert(nothing + body + nothing =~= body + nothing);
    assert(body + nothing =~= body);
    prose_is_text(body[0]);
    prose_is_text(body.last());
    edges_kept(body, nothing);
}

} // verus!
