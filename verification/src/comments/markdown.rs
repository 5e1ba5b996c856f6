//! Markdown rendering of structured comments within a character budget.

use vstd::prelude::*;
use vstd::slice::slice_subrange;

use crate::chars::{
    char_is_digit, char_is_lower, char_is_space, chars_of, is_digit, same_text, space_run_start,
    string_of, texts, trim, trim_end, trimmed, trimmed_end,
};
use crate::comments::model::{
    attribute_views, block_views, Block, CommentBlock, CommentDiagnostics, CommentDocument,
    CommentRenderOptions, Document, RenderedComment, Tag, TagAttribute, TagBlock, TextBlock,
};
use crate::comments::parse::{ascii_space, is_ascii_space};
use crate::lines::{push_all, push_text, to_vec};

verus! {

// ---------------------------------------------------------------------------
// Escaping

/// Number of spaces at the start of `s`, counted from `i` on.
pub open spec fn indent_from(s: Seq<char>, i: int) -> int
    decreases s.len() - i,
{
    if 0 <= i < s.len() && s[i] == ' ' {
        indent_from(s, i + 1)
    } else {
        i
    }
}

pub open spec fn digits_end(s: Seq<char>, i: int) -> int
    decreases s.len() - i,
{
    if 0 <= i < s.len() && char_is_digit(s[i]) {
        digits_end(s, i + 1)
    } else {
        i
    }
}

/// Position of the character that would make a line a Markdown list item: a
/// dash or plus, or the dot or parenthesis behind a number.
pub open spec fn list_marker(s: Seq<char>) -> Option<int> {
    let indent = indent_from(s, 0);
    if indent > 3 || indent >= s.len() {
        None
    } else if (s[indent] == '-' || s[indent] == '+') && indent + 1 < s.len() && ascii_space(
        s[indent + 1],
    ) {
        Some(indent)
    } else if !char_is_digit(s[indent]) {
        None
    } else {
        let end = digits_end(s, indent + 1);
        if end < s.len() && (s[end] == '.' || s[end] == ')') && end + 1 < s.len() && ascii_space(
            s[end + 1],
        ) {
            Some(end)
        } else {
            None
        }
    }
}

/// What one character of prose becomes.
pub open spec fn escaped_char(c: char) -> Seq<char> {
    if c == '`' {
        seq!['\'']
    } else if c == '<' {
        "&lt;"@
    } else if c == '>' {
        "&gt;"@
    } else if c == '&' {
        "&amp;"@
    } else if c == '\\' || c == '#' || c == '*' || c == '_' || c == '[' || c == ']' || c == '!' || c
        == '|' {
        seq!['\\', c]
    } else {
        seq![c]
    }
}

/// The first `n` characters of `s` with Markdown and HTML made harmless.
pub open spec fn escaped_below(s: Seq<char>, n: int) -> Seq<char>
    decreases n,
{
    if n <= 0 {
        Seq::empty()
    } else {
        escaped_below(s, n - 1) + (if list_marker(s) == Some(n - 1) {
            seq!['\\']
        } else {
            Seq::empty()
        }) + escaped_char(s[n - 1])
    }
}

/// `s` from `i` on with every run of three quotes ended by a prime.
pub open spec fn without_fences(s: Seq<char>, i: int) -> Seq<char>
    decreases s.len() - i,
{
    if i < 0 || i >= s.len() {
        Seq::empty()
    } else if i + 2 < s.len() && s[i] == '\'' && s[i + 1] == '\'' && s[i + 2] == '\'' {
        seq!['\'', '\'', '\u{2032}'] + without_fences(s, i + 3)
    } else {
        seq![s[i]] + without_fences(s, i + 1)
    }
}

/// Prose with Markdown and HTML made harmless.
pub open spec fn escaped(s: Seq<char>) -> Seq<char> {
    without_fences(escaped_below(s, s.len() as int), 0)
}

fn markdown_list_marker(s: &[char]) -> (r: Option<usize>)
    ensures
        match r {
            Some(i) => list_marker(s@) == Some(i as int),
            None => list_marker(s@) is None,
        },
{
    let len: usize = s.len();
    let mut indent: usize = 0;
    while indent < len && s[indent] == ' '
        invariant
            indent <= len,
            len == s@.len(),
            indent_from(s@, 0) == indent_from(s@, indent as int),
        decreases len - indent,
    {
        indent = indent + 1;
    }
    if indent > 3 || indent >= len {
        return None;
    }
    if (s[indent] == '-' || s[indent] == '+') && len - indent > 1 && is_ascii_space(s[indent + 1]) {
        return Some(indent);
    }
    if !is_digit(s[indent]) {
        return None;
    }
    let mut end: usize = indent + 1;
    while end < len && is_digit(s[end])
        invariant
            indent < end <= len,
            len == s@.len(),
            digits_end(s@, indent + 1) == digits_end(s@, end as int),
        decreases len - end,
    {
        end = end + 1;
    }
    if end < len && (s[end] == '.' || s[end] == ')') && len - end > 1 && is_ascii_space(
        s[end + 1],
    ) {
        Some(end)
    } else {
        None
    }
}

fn push_escaped_char(out: &mut Vec<char>, c: char)
    ensures
        final(out)@ == old(out)@ + escaped_char(c),
{
    let ghost before = out@;
    if c == '`' {
        out.push('\'');
    } else if c == '<' {
        push_text(out, "&lt;");
    } else if c == '>' {
        push_text(out, "&gt;");
    } else if c == '&' {
        push_text(out, "&amp;");
    } else if c == '\\' || c == '#' || c == '*' || c == '_' || c == '[' || c == ']' || c == '!' || c
        == '|' {
        out.push('\\');
        out.push(c);
    } else {
        out.push(c);
    }
    assert(out@ =~= before + escaped_char(c));
}

fn neutralize_fences(s: &[char]) -> (r: Vec<char>)
    ensures
        r@ == without_fences(s@, 0),
{
    let len: usize = s.len();
    let mut out: Vec<char> = Vec::new();
    let mut i: usize = 0;
    assert(out@ + without_fences(s@, 0) =~= without_fences(s@, 0));
    while i < len
        invariant
            i <= len,
            len == s@.len(),
            out@ + without_fences(s@, i as int) == without_fences(s@, 0),
        decreases len - i,
    {
        let ghost before = out@;
        if len - i > 2 && s[i] == '\'' && s[i + 1] == '\'' && s[i + 2] == '\'' {
            out.push('\'');
            out.push('\'');
            out.push('\u{2032}');
            assert(out@ + without_fences(s@, i + 3) =~= before + without_fences(s@, i as int));
            i = i + 3;
        } else {
            out.push(s[i]);
            assert(out@ + without_fences(s@, i + 1) =~= before + without_fences(s@, i as int));
            i = i + 1;
        }
    }
    assert(out@ + without_fences(s@, i as int) =~= out@);
    out
}

fn escape_markdown_text(s: &[char]) -> (r: Vec<char>)
    ensures
        r@ == escaped(s@),
{
    let marker = markdown_list_marker(s);
    let mut out: Vec<char> = Vec::new();
    let mut i: usize = 0;
    while i < s.len()
        invariant
            i <= s@.len(),
            match marker {
                Some(m) => list_marker(s@) == Some(m as int),
                None => list_marker(s@) is None,
            },
            out@ == escaped_below(s@, i as int),
        decreases s@.len() - i,
    {
        let ghost before = out@;
        let here = match marker {
            Some(m) => m == i,
            None => false,
        };
        if here {
            out.push('\\');
        }
        assert(out@ =~= before + (if list_marker(s@) == Some(i as int) {
            seq!['\\']
        } else {
            Seq::empty()
        }));
        push_escaped_char(&mut out, s[i]);
        i = i + 1;
    }
    neutralize_fences(&out)
}

/// A name for a code span: without backticks.
pub open spec fn code_text(s: Seq<char>) -> Seq<char> {
    Seq::new(
        s.len(),
        |i: int|
            if s[i] == '`' {
                '\''
            } else {
                s[i]
            },
    )
}

fn escape_code_span(s: &[char]) -> (r: Vec<char>)
    ensures
        r@ == code_text(s@),
{
    let mut out: Vec<char> = Vec::new();
    let mut i: usize = 0;
    while i < s.len()
        invariant
            i <= s@.len(),
            out@ == code_text(s@).subrange(0, i as int),
        decreases s@.len() - i,
    {
        out.push(
            if s[i] == '`' {
                '\''
            } else {
                s[i]
            },
        );
        i = i + 1;
        assert(out@ =~= code_text(s@).subrange(0, i as int));
    }
    assert(out@ =~= code_text(s@));
    out
}

/// The heading of a tag: its name with a capital.
pub open spec fn title(name: Seq<char>) -> Seq<char> {
    if name.len() == 0 {
        "Tag"@
    } else {
        name.update(
            0,
            if char_is_lower(name[0]) {
                (name[0] as u8 - 32) as u8 as char
            } else {
                name[0]
            },
        )
    }
}

fn titleize_tag(name: &str) -> (r: Vec<char>)
    ensures
        r@ == title(name@),
{
    let mut chars = chars_of(name);
    if chars.len() == 0 {
        return chars_of("Tag");
    }
    let c = chars[0];
    if 'a' <= c && c <= 'z' {
        chars.set(0, ((c as u8) - 32) as char);
    }
    assert(chars@ =~= title(name@));
    chars
}

/// Last `&` before `end`.
pub open spec fn last_amp(s: Seq<char>, end: int) -> Option<int>
    decreases end,
{
    if end <= 0 || end > s.len() {
        None
    } else if s[end - 1] == '&' {
        Some(end - 1)
    } else {
        last_amp(s, end - 1)
    }
}

/// At most `max` characters of escaped text that do not end within an escape
/// or an entity.
pub open spec fn safe_prefix(s: Seq<char>, max: int) -> Seq<char> {
    let cut = if s.len() > max {
        s.subrange(0, max)
    } else {
        s
    };
    let bare = if cut.len() > 0 && cut.last() == '\\' {
        cut.drop_last()
    } else {
        cut
    };
    match last_amp(bare, bare.len() as int) {
        Some(amp) => if bare.subrange(amp, bare.len() as int).contains(';') {
            bare
        } else {
            bare.subrange(0, amp)
        },
        None => bare,
    }
}

fn safe_markdown_prefix(s: &[char], max: usize) -> (r: Vec<char>)
    ensures
        r@ == safe_prefix(s@, max as int),
{
    let mut end: usize = if s.len() > max {
        max
    } else {
        s.len()
    };
    let ghost cut = s@.subrange(0, end as int);
    assert(s@.len() <= max ==> cut =~= s@);
    if end > 0 && s[end - 1] == '\\' {
        end = end - 1;
    }
    let ghost bare = s@.subrange(0, end as int);
    assert(bare =~= if cut.len() > 0 && cut.last() == '\\' {
        cut.drop_last()
    } else {
        cut
    });
    let mut amp: usize = end;
    let mut closed = false;
    while amp > 0 && s[amp - 1] != '&'
        invariant
            amp <= end <= s@.len(),
            bare == s@.subrange(0, end as int),
            last_amp(bare, end as int) == last_amp(bare, amp as int),
            closed == (exists|k: int| amp <= k < end && s@[k] == ';'),
        decreases amp,
    {
        if s[amp - 1] == ';' {
            closed = true;
        }
        amp = amp - 1;
    }
    if amp == 0 {
        return to_vec(slice_subrange(s, 0, end));
    }
    proof {
        let tail = bare.subrange(amp - 1, end as int);
        if closed {
            let k = choose|k: int| amp <= k < end && s@[k] == ';';
            assert(tail[k - (amp - 1)] == ';');
        } else {
            assert forall|j: int| 0 <= j < tail.len() implies tail[j] != ';' by {
                assert(tail[j] == s@[amp - 1 + j]);
            }
        }
        assert(bare.subrange(0, amp - 1) =~= s@.subrange(0, amp - 1));
    }
    if closed {
        to_vec(slice_subrange(s, 0, end))
    } else {
        to_vec(slice_subrange(s, 0, amp - 1))
    }
}

// ---------------------------------------------------------------------------
// The writer

/// Markdown under construction. Nothing is added once a piece did not fit.
pub struct MarkdownWriter {
    pub out: Vec<char>,
    pub max_chars: usize,
    pub truncated: bool,
    pub needs_block_gap: bool,
}

/// A writer with its text as a sequence.
pub struct Sheet {
    pub out: Seq<char>,
    pub max_chars: int,
    pub truncated: bool,
    pub gap: bool,
}

impl View for MarkdownWriter {
    type V = Sheet;

    open spec fn view(&self) -> Sheet {
        Sheet {
            out: self.out@,
            max_chars: self.max_chars as int,
            truncated: self.truncated,
            gap: self.needs_block_gap,
        }
    }
}

/// Add a piece if it fits whole.
pub open spec fn pushed(w: Sheet, piece: Seq<char>) -> (Sheet, bool) {
    if w.truncated {
        (w, false)
    } else if w.out.len() + piece.len() <= w.max_chars {
        (Sheet { out: w.out + piece, ..w }, true)
    } else {
        (Sheet { truncated: true, ..w }, false)
    }
}

pub open spec fn ends_with_break(s: Seq<char>) -> bool {
    s.len() > 0 && s.last() == '\n'
}

pub open spec fn ends_with_gap(s: Seq<char>) -> bool {
    s.len() > 1 && s[s.len() - 1] == '\n' && s[s.len() - 2] == '\n'
}

/// Put an empty line between blocks.
pub open spec fn gapped(w: Sheet) -> (Sheet, bool) {
    if !w.gap || w.out.len() == 0 || ends_with_gap(w.out) {
        (w, true)
    } else if ends_with_break(w.out) {
        pushed(w, "\n"@)
    } else {
        pushed(w, "\n\n"@)
    }
}

pub open spec fn with_heading(w: Sheet, heading: Seq<char>) -> (Sheet, bool) {
    let (a, ok) = gapped(w);
    if !ok {
        (a, false)
    } else {
        let (b, ok) = pushed(a, "### "@ + heading);
        if !ok {
            (b, false)
        } else {
            (Sheet { gap: false, ..pushed(b, "\n\n"@).0 }, true)
        }
    }
}

/// Add one line of prose; of a line that does not fit, what a safe cut leaves.
pub open spec fn with_prose_line(w: Sheet, line: Seq<char>, hard_break: bool) -> (Sheet, bool) {
    let text = escaped(line);
    let (a, ok) = pushed(
        w,
        text + (if hard_break {
            "  \n"@
        } else {
            "\n"@
        }),
    );
    if ok {
        (a, true)
    } else {
        let room = a.max_chars - a.out.len() - 1;
        (
            Sheet {
                out: a.out + safe_prefix(
                    text,
                    if room > 0 {
                        room
                    } else {
                        0
                    },
                ),
                ..a
            },
            false,
        )
    }
}

/// Add prose from line `i` on. Lines of one paragraph are kept apart by hard
/// breaks.
pub open spec fn with_prose_from(w: Sheet, lines: Seq<Seq<char>>, i: int) -> (Sheet, bool)
    decreases lines.len() - i,
{
    if i < 0 || i >= lines.len() {
        (Sheet { gap: true, ..w }, true)
    } else if lines[i].len() == 0 {
        let (a, ok) = pushed(w, "\n"@);
        if ok {
            with_prose_from(a, lines, i + 1)
        } else {
            (a, false)
        }
    } else {
        let more = i + 1 < lines.len() && lines[i + 1].len() > 0;
        let (a, ok) = with_prose_line(w, lines[i], more);
        if !ok {
            (a, false)
        } else if i + 1 < lines.len() && lines[i + 1].len() == 0 {
            let (b, ok) = pushed(a, "\n"@);
            if ok {
                with_prose_from(b, lines, i + 1)
            } else {
                (b, false)
            }
        } else {
            with_prose_from(a, lines, i + 1)
        }
    }
}

pub open spec fn with_text_block(w: Sheet, lines: Seq<Seq<char>>) -> (Sheet, bool) {
    let (a, ok) = gapped(w);
    if !ok {
        (a, false)
    } else {
        let (b, ok) = with_prose_from(a, lines, 0);
        (Sheet { gap: true, ..b }, ok)
    }
}

/// Add a line, with a hard break where another line of the item follows.
pub open spec fn with_item_line(w: Sheet, line: Seq<char>, hard_break: bool) -> (Sheet, bool) {
    let (a, ok) = pushed(
        w,
        if hard_break {
            line + "  "@
        } else {
            line
        },
    );
    if ok {
        pushed(a, "\n"@)
    } else {
        (a, false)
    }
}

/// Add the description lines of an item from line `i` on.
pub open spec fn with_item_lines_from(w: Sheet, lines: Seq<Seq<char>>, i: int) -> (Sheet, bool)
    decreases lines.len() - i,
{
    if i < 0 || i >= lines.len() {
        (Sheet { gap: true, ..w }, true)
    } else {
        let text = if lines[i].len() == 0 {
            "  "@
        } else {
            "  "@ + escaped(lines[i])
        };
        let (a, ok) = with_item_line(w, text, i + 1 < lines.len());
        if ok {
            with_item_lines_from(a, lines, i + 1)
        } else {
            (a, false)
        }
    }
}

/// The first line of a parameter item.
pub open spec fn item_head(
    name: Seq<char>,
    direction: Option<Seq<char>>,
    lines: Seq<Seq<char>>,
) -> Seq<char> {
    let base = "- `"@ + code_text(name) + "`"@;
    let directed = match direction {
        Some(d) => if d.len() > 0 {
            base + " *("@ + escaped(d) + ")*"@
        } else {
            base
        },
        None => base,
    };
    let first = if lines.len() > 0 {
        trim(lines[0])
    } else {
        Seq::empty()
    };
    if first.len() > 0 {
        directed + " \u{2014} "@ + escaped(first)
    } else {
        directed
    }
}

pub open spec fn with_parameter(
    w: Sheet,
    name: Seq<char>,
    direction: Option<Seq<char>>,
    lines: Seq<Seq<char>>,
) -> (Sheet, bool) {
    let (a, ok) = with_item_line(w, item_head(name, direction, lines), lines.len() > 1);
    if ok {
        with_item_lines_from(a, lines, 1)
    } else {
        (a, false)
    }
}

/// The text with an omission mark within the budget.
pub open spec fn with_ellipsis(out: Seq<char>, max_chars: int) -> Seq<char> {
    let t = trim_end(out);
    let gap = if t.len() == 0 {
        ""@
    } else {
        "\n\n"@
    };
    if max_chars == 0 {
        out
    } else if t.len() + gap.len() + 1 <= max_chars {
        (t + gap).push('\u{2026}')
    } else {
        let cut = if t.len() + 1 > max_chars {
            t.subrange(0, max_chars - 1)
        } else {
            t
        };
        trim_end(cut).push('\u{2026}')
    }
}

impl MarkdownWriter {
    fn new(max_chars: usize) -> (r: MarkdownWriter)
        ensures
            r@ == (Sheet {
                out: Seq::empty(),
                max_chars: max_chars as int,
                truncated: false,
                gap: false,
            }),
    {
        let r = MarkdownWriter {
            out: Vec::new(),
            max_chars,
            truncated: false,
            needs_block_gap: false,
        };
        assert(r@.out =~= Seq::empty());
        r
    }

    fn push_raw(&mut self, piece: &[char]) -> (ok: bool)
        ensures
            (final(self)@, ok) == pushed(old(self)@, piece@),
    {
        if self.truncated {
            return false;
        }
        if self.out.len() <= self.max_chars && piece.len() <= self.max_chars - self.out.len() {
            push_all(&mut self.out, piece);
            true
        } else {
            self.truncated = true;
            false
        }
    }

    fn push_literal(&mut self, piece: &str) -> (ok: bool)
        ensures
            (final(self)@, ok) == pushed(old(self)@, piece@),
    {
        let chars = chars_of(piece);
        self.push_raw(&chars)
    }

    fn ensure_block_gap(&mut self) -> (ok: bool)
        ensures
            (final(self)@, ok) == gapped(old(self)@),
    {
        let n: usize = self.out.len();
        if !self.needs_block_gap || n == 0 {
            return true;
        }
        if n > 1 && self.out[n - 1] == '\n' && self.out[n - 2] == '\n' {
            return true;
        }
        if self.out[n - 1] == '\n' {
            self.push_literal("\n")
        } else {
            self.push_literal("\n\n")
        }
    }

    fn write_heading(&mut self, heading: &[char]) -> (ok: bool)
        ensures
            (final(self)@, ok) == with_heading(old(self)@, heading@),
    {
        if !self.ensure_block_gap() {
            return false;
        }
        let mut line = chars_of("### ");
        push_all(&mut line, heading);
        if !self.push_raw(&line) {
            return false;
        }
        let _ = self.push_literal("\n\n");
        self.needs_block_gap = false;
        true
    }

    fn push_prose_line(&mut self, line: &[char], hard_break: bool) -> (ok: bool)
        requires
            old(self)@.out.len() <= old(self)@.max_chars,
        ensures
            (final(self)@, ok) == with_prose_line(old(self)@, line@, hard_break),
    {
        let text = escape_markdown_text(line);
        let mut complete = to_vec(&text);
        if hard_break {
            push_text(&mut complete, "  \n");
        } else {
            push_text(&mut complete, "\n");
        }
        if self.push_raw(&complete) {
            return true;
        }
        let room: usize = self.max_chars - self.out.len();
        let prefix = safe_markdown_prefix(
            &text,
            if room > 0 {
                room - 1
            } else {
                0
            },
        );
        push_all(&mut self.out, &prefix);
        false
    }

    fn write_prose_lines(&mut self, lines: &Vec<String>) -> (ok: bool)
        requires
            old(self)@.out.len() <= old(self)@.max_chars,
        ensures
            (final(self)@, ok) == with_prose_from(old(self)@, texts(lines@), 0),
    {
        let ghost all = texts(lines@);
        let ghost first = self@;
        let mut i: usize = 0;
        while i < lines.len()
            invariant
                i <= lines@.len(),
                all == texts(lines@),
                first == old(self)@,
                self@.out.len() <= self@.max_chars,
                with_prose_from(first, all, 0) == with_prose_from(self@, all, i as int),
            decreases lines@.len() - i,
        {
            let line = chars_of(lines[i].as_str());
            assert(line@ == all[i as int]);
            if line.len() == 0 {
                if !self.push_literal("\n") {
                    return false;
                }
            } else {
                let last = i + 1 == lines.len();
                let blank_next = !last && lines[i + 1].as_str().is_empty();
                assert(!last ==> all[i + 1] == lines@[i + 1]@);
                if !self.push_prose_line(&line, !last && !blank_next) {
                    return false;
                }
                if blank_next {
                    if !self.push_literal("\n") {
                        return false;
                    }
                }
            }
            i = i + 1;
        }
        self.needs_block_gap = true;
        true
    }

    fn write_text_block(&mut self, text: &TextBlock) -> (ok: bool)
        requires
            old(self)@.out.len() <= old(self)@.max_chars,
        ensures
            (final(self)@, ok) == with_text_block(old(self)@, texts(text.lines@)),
    {
        if !self.ensure_block_gap() {
            return false;
        }
        let ok = self.write_prose_lines(&text.lines);
        self.needs_block_gap = true;
        ok
    }

    fn push_line_with_optional_hard_break(&mut self, line: Vec<char>, hard_break: bool) -> (ok:
        bool)
        ensures
            (final(self)@, ok) == with_item_line(old(self)@, line@, hard_break),
    {
        let mut line = line;
        if hard_break {
            push_text(&mut line, "  ");
        }
        if !self.push_raw(&line) {
            return false;
        }
        self.push_literal("\n")
    }

    fn write_parameter_item(
        &mut self,
        name: &str,
        direction: Option<&str>,
        lines: &Vec<String>,
    ) -> (ok: bool)
        ensures
            (final(self)@, ok) == with_parameter(
                old(self)@,
                name@,
                match direction {
                    Some(d) => Some(d@),
                    None => None,
                },
                texts(lines@),
            ),
    {
        let ghost all = texts(lines@);
        let mut head = chars_of("- `");
        let code = escape_code_span(&chars_of(name));
        push_all(&mut head, &code);
        push_text(&mut head, "`");
        match direction {
            Some(d) => {
                if !d.is_empty() {
                    push_text(&mut head, " *(");
                    let text = escape_markdown_text(&chars_of(d));
                    push_all(&mut head, &text);
                    push_text(&mut head, ")*");
                }
            },
            None => {},
        }
        if lines.len() > 0 {
            let first_line = chars_of(lines[0].as_str());
            assert(first_line@ == all[0]);
            let first = trimmed(&first_line);
            if first.len() > 0 {
                push_text(&mut head, " \u{2014} ");
                let text = escape_markdown_text(first);
                push_all(&mut head, &text);
            }
        }
        if !self.push_line_with_optional_hard_break(head, lines.len() > 1) {
            return false;
        }
        let ghost first = self@;
        let mut i: usize = 1;
        while i < lines.len()
            invariant
                1 <= i,
                i <= lines@.len() || (i == 1 && lines@.len() == 0),
                all == texts(lines@),
                with_item_lines_from(first, all, 1) == with_item_lines_from(self@, all, i as int),
                with_parameter(
                    old(self)@,
                    name@,
                    match direction {
                        Some(d) => Some(d@),
                        None => None,
                    },
                    all,
                ) == with_item_lines_from(first, all, 1),
            decreases lines@.len() - i,
        {
            let line = chars_of(lines[i].as_str());
            assert(line@ == all[i as int]);
            let mut text = chars_of("  ");
            if line.len() > 0 {
                let escaped_line = escape_markdown_text(&line);
                push_all(&mut text, &escaped_line);
            }
            if !self.push_line_with_optional_hard_break(text, i + 1 < lines.len()) {
                return false;
            }
            i = i + 1;
        }
        self.needs_block_gap = true;
        true
    }

    fn finish(self) -> (r: Vec<char>)
        ensures
            r@ == (if self.truncated {
                with_ellipsis(self@.out, self@.max_chars)
            } else {
                self@.out
            }),
    {
        if !self.truncated || self.max_chars == 0 {
            return self.out;
        }
        let t = trimmed_end(&self.out);
        let n: usize = t.len();
        let max: usize = self.max_chars;
        let gap: usize = if n == 0 {
            0
        } else {
            2
        };
        proof {
            reveal_strlit("");
            reveal_strlit("\n\n");
        }
        if n <= max && max - n >= gap + 1 {
            let mut out = to_vec(t);
            if n > 0 {
                push_text(&mut out, "\n\n");
            }
            out.push('\u{2026}');
            assert(out@ =~= with_ellipsis(self@.out, self@.max_chars));
            return out;
        }
        let cut = if n >= max {
            slice_subrange(t, 0, max - 1)
        } else {
            t
        };
        let mut out = to_vec(trimmed_end(cut));
        out.push('\u{2026}');
        out
    }
}

// ---------------------------------------------------------------------------
// Documents

/// The first attribute called `name`, from `i` on.
pub open spec fn attribute_from(
    attributes: Seq<(Seq<char>, Seq<char>)>,
    name: Seq<char>,
    i: int,
) -> Option<Seq<char>>
    decreases attributes.len() - i,
{
    if i < 0 || i >= attributes.len() {
        None
    } else if attributes[i].0 == name {
        Some(attributes[i].1)
    } else {
        attribute_from(attributes, name, i + 1)
    }
}

pub open spec fn attribute(tag: Tag, name: Seq<char>) -> Option<Seq<char>> {
    attribute_from(tag.attributes, name, 0)
}

pub fn find_attribute<'a>(attributes: &'a Vec<TagAttribute>, name: &str) -> (r: Option<&'a str>)
    ensures
        match r {
            Some(v) => attribute_from(attribute_views(attributes@), name@, 0) == Some(v@),
            None => attribute_from(attribute_views(attributes@), name@, 0) is None,
        },
{
    let ghost all = attribute_views(attributes@);
    let mut i: usize = 0;
    while i < attributes.len()
        invariant
            i <= attributes@.len(),
            all == attribute_views(attributes@),
            attribute_from(all, name@, 0) == attribute_from(all, name@, i as int),
        decreases attributes@.len() - i,
    {
        if same_text(attributes[i].name.as_str(), name) {
            return Some(attributes[i].value.as_str());
        }
        i = i + 1;
    }
    None
}

pub open spec fn with_parameter_tag(w: Sheet, tag: Tag) -> (Sheet, bool) {
    with_parameter(
        w,
        match attribute(tag, "name"@) {
            Some(name) => name,
            None => "?"@,
        },
        attribute(tag, "direction"@),
        tag.lines,
    )
}

/// Add the blocks from `i` on; `in_params` says that the block before was a
/// parameter, whose heading serves for the next one too.
pub open spec fn with_blocks_from(
    w: Sheet,
    blocks: Seq<Block>,
    i: int,
    in_params: bool,
) -> (Sheet, bool)
    decreases blocks.len() - i,
{
    if i < 0 || i >= blocks.len() {
        (w, true)
    } else {
        match blocks[i] {
            Block::Text(lines) => {
                let (a, ok) = with_text_block(w, lines);
                if ok {
                    with_blocks_from(a, blocks, i + 1, false)
                } else {
                    (a, false)
                }
            },
            Block::Tag(tag) => if tag.canonical_name == "param"@ {
                let (a, ok) = if in_params {
                    (w, true)
                } else {
                    with_heading(w, "Parameters"@)
                };
                if !ok {
                    (a, false)
                } else {
                    let (b, ok) = with_parameter_tag(a, tag);
                    if ok {
                        with_blocks_from(b, blocks, i + 1, true)
                    } else {
                        (b, false)
                    }
                }
            } else {
                let heading = if tag.canonical_name == "return"@ {
                    "Returns"@
                } else {
                    title(tag.canonical_name)
                };
                let (a, ok) = with_heading(w, heading);
                if !ok {
                    (a, false)
                } else {
                    let (b, ok) = with_prose_from(a, tag.lines, 0);
                    if ok {
                        with_blocks_from(b, blocks, i + 1, false)
                    } else {
                        (b, false)
                    }
                }
            },
        }
    }
}

pub open spec fn empty_sheet(max_chars: int) -> Sheet {
    Sheet { out: Seq::empty(), max_chars, truncated: false, gap: false }
}

/// Rendered Markdown with diagnostics.
pub struct Rendered {
    pub markdown: Seq<char>,
    pub diagnostics: CommentDiagnostics,
}

/// The Markdown of a document: nothing for one that renders blank.
pub open spec fn rendered(document: Document, max_chars: int) -> Option<Rendered> {
    if document.blocks.len() == 0 {
        None
    } else {
        let (w, ok) = with_blocks_from(empty_sheet(max_chars), document.blocks, 0, false);
        let truncated = document.diagnostics.truncated || !ok || w.truncated;
        let markdown = if truncated {
            with_ellipsis(w.out, max_chars)
        } else {
            w.out
        };
        if trim(markdown).len() == 0 {
            None
        } else {
            Some(
                Rendered {
                    markdown,
                    diagnostics: CommentDiagnostics { truncated, ..document.diagnostics },
                },
            )
        }
    }
}

pub open spec fn opt_rendered(r: Option<RenderedComment>) -> Option<Rendered> {
    match r {
        Some(c) => Some(Rendered { markdown: c.markdown@, diagnostics: c.diagnostics }),
        None => None,
    }
}

impl MarkdownWriter {
    fn write_parameter_tag(&mut self, tag: &TagBlock) -> (ok: bool)
        ensures
            (final(self)@, ok) == with_parameter_tag(old(self)@, tag@),
    {
        let name = match find_attribute(&tag.attributes, "name") {
            Some(name) => name,
            None => "?",
        };
        let direction = find_attribute(&tag.attributes, "direction");
        self.write_parameter_item(name, direction, &tag.lines)
    }

    fn write_section(&mut self, tag: &TagBlock) -> (ok: bool)
        requires
            old(self)@.out.len() <= old(self)@.max_chars,
        ensures
            ({
                let heading = if tag@.canonical_name == "return"@ {
                    "Returns"@
                } else {
                    title(tag@.canonical_name)
                };
                let (a, fits) = with_heading(old(self)@, heading);
                (final(self)@, ok) == if fits {
                    with_prose_from(a, tag@.lines, 0)
                } else {
                    (a, false)
                }
            }),
    {
        let heading = if same_text(tag.canonical_name.as_str(), "return") {
            chars_of("Returns")
        } else {
            titleize_tag(tag.canonical_name.as_str())
        };
        if !self.write_heading(&heading) {
            return false;
        }
        self.write_prose_lines(&tag.lines)
    }
}

/// Render a document as Markdown of at most `max_chars` characters.
pub fn render_document(document: &CommentDocument, options: &CommentRenderOptions) -> (r: Option<
    RenderedComment,
>)
    ensures
        opt_rendered(r) == rendered(document@, options.max_chars as int),
{
    if document.blocks.len() == 0 {
        return None;
    }
    let ghost all = block_views(document.blocks@);
    let mut writer = MarkdownWriter::new(options.max_chars);
    let ghost start = empty_sheet(options.max_chars as int);
    let mut in_params = false;
    let mut ok = true;
    let mut i: usize = 0;
    while ok && i < document.blocks.len()
        invariant
            i <= document.blocks@.len(),
            all == block_views(document.blocks@),
            writer@.max_chars == options.max_chars,
            writer@.out.len() <= writer@.max_chars,
            ok ==> with_blocks_from(start, all, 0, false) == with_blocks_from(
                writer@,
                all,
                i as int,
                in_params,
            ),
            !ok ==> with_blocks_from(start, all, 0, false) == (writer@, false),
        decreases document.blocks@.len() - i + if ok {
            1int
        } else {
            0int
        },
    {
        assert(all[i as int] == document.blocks@[i as int]@);
        let ghost before = writer@;
        match &document.blocks[i] {
            CommentBlock::Text(text) => {
                ok = writer.write_text_block(text);
                proof {
                    text_block_fits(before, texts(text.lines@));
                }
                in_params = false;
            },
            CommentBlock::Tag(tag) => {
                if same_text(tag.canonical_name.as_str(), "param") {
                    if !in_params {
                        let heading = chars_of("Parameters");
                        ok = writer.write_heading(&heading);
                        proof {
                            heading_fits(before, "Parameters"@);
                        }
                    }
                    let ghost headed = writer@;
                    if ok {
                        ok = writer.write_parameter_tag(tag);
                        proof {
                            parameter_fits(
                                headed,
                                match attribute(tag@, "name"@) {
                                    Some(name) => name,
                                    None => "?"@,
                                },
                                attribute(tag@, "direction"@),
                                tag@.lines,
                            );
                        }
                    }
                    in_params = true;
                } else {
                    ok = writer.write_section(tag);
                    proof {
                        let heading = if tag@.canonical_name == "return"@ {
                            "Returns"@
                        } else {
                            title(tag@.canonical_name)
                        };
                        heading_fits(before, heading);
                        prose_fits(with_heading(before, heading).0, tag@.lines, 0);
                    }
                    in_params = false;
                }
            },
        }
        i = i + 1;
    }
    let truncated = document.diagnostics.truncated || !ok || writer.truncated;
    writer.truncated = truncated;
    let markdown = writer.finish();
    if trimmed(&markdown).len() == 0 {
        return None;
    }
    Some(
        RenderedComment {
            markdown: string_of(&markdown),
            diagnostics: CommentDiagnostics {
                malformed_fallback: document.diagnostics.malformed_fallback,
                truncated,
                unclosed_xml: document.diagnostics.unclosed_xml,
            },
        },
    )
}

// ---------------------------------------------------------------------------
// The budget holds

/// The text is within its budget.
pub open spec fn fits(w: Sheet) -> bool {
    w.out.len() <= w.max_chars
}

proof fn heading_fits(w: Sheet, heading: Seq<char>)
    requires
        fits(w),
    ensures
        fits(with_heading(w, heading).0),
        with_heading(w, heading).0.max_chars == w.max_chars,
{
}

proof fn safe_prefix_is_short(s: Seq<char>, max: int)
    requires
        max >= 0,
    ensures
        safe_prefix(s, max).len() <= max,
{
    let cut = if s.len() > max {
        s.subrange(0, max)
    } else {
        s
    };
    let bare = if cut.len() > 0 && cut.last() == '\\' {
        cut.drop_last()
    } else {
        cut
    };
    last_amp_in_range(bare, bare.len() as int);
}

proof fn last_amp_in_range(s: Seq<char>, end: int)
    requires
        0 <= end <= s.len(),
    ensures
        match last_amp(s, end) {
            Some(i) => 0 <= i < end,
            None => true,
        },
    decreases end,
{
    if end > 0 && s[end - 1] != '&' {
        last_amp_in_range(s, end - 1);
    }
}

proof fn prose_line_fits(w: Sheet, line: Seq<char>, hard_break: bool)
    requires
        fits(w),
    ensures
        fits(with_prose_line(w, line, hard_break).0),
        with_prose_line(w, line, hard_break).0.max_chars == w.max_chars,
{
    let room = w.max_chars - w.out.len() - 1;
    safe_prefix_is_short(
        escaped(line),
        if room > 0 {
            room
        } else {
            0
        },
    );
    if w.max_chars == w.out.len() {
        assert(safe_prefix(escaped(line), 0).len() == 0);
    }
}

proof fn prose_fits(w: Sheet, lines: Seq<Seq<char>>, i: int)
    requires
        fits(w),
    ensures
        fits(with_prose_from(w, lines, i).0),
        with_prose_from(w, lines, i).0.max_chars == w.max_chars,
    decreases lines.len() - i,
{
    if 0 <= i < lines.len() {
        if lines[i].len() == 0 {
            prose_fits(pushed(w, "\n"@).0, lines, i + 1);
        } else {
            let more = i + 1 < lines.len() && lines[i + 1].len() > 0;
            prose_line_fits(w, lines[i], more);
            let a = with_prose_line(w, lines[i], more).0;
            prose_fits(a, lines, i + 1);
            prose_fits(pushed(a, "\n"@).0, lines, i + 1);
        }
    }
}

proof fn text_block_fits(w: Sheet, lines: Seq<Seq<char>>)
    requires
        fits(w),
    ensures
        fits(with_text_block(w, lines).0),
        with_text_block(w, lines).0.max_chars == w.max_chars,
{
    prose_fits(gapped(w).0, lines, 0);
}

proof fn item_lines_fit(w: Sheet, lines: Seq<Seq<char>>, i: int)
    requires
        fits(w),
    ensures
        fits(with_item_lines_from(w, lines, i).0),
        with_item_lines_from(w, lines, i).0.max_chars == w.max_chars,
    decreases lines.len() - i,
{
    if 0 <= i < lines.len() {
        let text = if lines[i].len() == 0 {
            "  "@
        } else {
            "  "@ + escaped(lines[i])
        };
        item_lines_fit(with_item_line(w, text, i + 1 < lines.len()).0, lines, i + 1);
    }
}

proof fn parameter_fits(
    w: Sheet,
    name: Seq<char>,
    direction: Option<Seq<char>>,
    lines: Seq<Seq<char>>,
)
    requires
        fits(w),
    ensures
        fits(with_parameter(w, name, direction, lines).0),
        with_parameter(w, name, direction, lines).0.max_chars == w.max_chars,
{
    let a = with_item_line(w, item_head(name, direction, lines), lines.len() > 1).0;
    item_lines_fit(a, lines, 1);
}

proof fn blocks_fit(w: Sheet, blocks: Seq<Block>, i: int, in_params: bool)
    requires
        fits(w),
    ensures
        fits(with_blocks_from(w, blocks, i, in_params).0),
        with_blocks_from(w, blocks, i, in_params).0.max_chars == w.max_chars,
    decreases blocks.len() - i,
{
    if 0 <= i < blocks.len() {
        match blocks[i] {
            Block::Text(lines) => {
                text_block_fits(w, lines);
                blocks_fit(with_text_block(w, lines).0, blocks, i + 1, false);
            },
            Block::Tag(tag) => {
                if tag.canonical_name == "param"@ {
                    heading_fits(w, "Parameters"@);
                    let a = if in_params {
                        w
                    } else {
                        with_heading(w, "Parameters"@).0
                    };
                    let name = match attribute(tag, "name"@) {
                        Some(name) => name,
                        None => "?"@,
                    };
                    parameter_fits(a, name, attribute(tag, "direction"@), tag.lines);
                    blocks_fit(with_parameter_tag(a, tag).0, blocks, i + 1, true);
                } else {
                    let heading = if tag.canonical_name == "return"@ {
                        "Returns"@
                    } else {
                        title(tag.canonical_name)
                    };
                    heading_fits(w, heading);
                    let a = with_heading(w, heading).0;
                    prose_fits(a, tag.lines, 0);
                    blocks_fit(with_prose_from(a, tag.lines, 0).0, blocks, i + 1, false);
                }
            },
        }
    }
}

proof fn trim_end_is_short(s: Seq<char>)
    ensures
        trim_end(s).len() <= s.len(),
{
    space_run_start_in_range(s, s.len() as int);
}

proof fn space_run_start_in_range(s: Seq<char>, i: int)
    requires
        0 <= i <= s.len(),
    ensures
        0 <= space_run_start(s, i) <= i,
    decreases i,
{
    if i > 0 && char_is_space(s[i - 1]) {
        space_run_start_in_range(s, i - 1);
    }
}

/// Rendered Markdown never exceeds the character budget, the omission mark
/// included, and says so in its diagnostics when something was left out.
pub proof fn rendered_fits_budget(document: Document, max_chars: int)
    requires
        max_chars >= 0,
        rendered(document, max_chars) is Some,
    ensures
        rendered(document, max_chars)->0.markdown.len() <= max_chars,
        document.diagnostics.truncated ==> rendered(
            document,
            max_chars,
        )->0.diagnostics.truncated,
        rendered(document, max_chars)->0.diagnostics.truncated && max_chars > 0 ==> rendered(
            document,
            max_chars,
        )->0.markdown.last() == '\u{2026}',
{
    blocks_fit(empty_sheet(max_chars), document.blocks, 0, false);
    let (w, ok) = with_blocks_from(empty_sheet(max_chars), document.blocks, 0, false);
    let t = trim_end(w.out);
    trim_end_is_short(w.out);
    if t.len() + 1 > max_chars && max_chars > 0 {
        trim_end_is_short(t.subrange(0, max_chars - 1));
    }
    trim_end_is_short(t);
}

pub open spec fn harmless(c: char) -> bool {
    c != '<' && c != '>' && c != '`'
}

pub open spec fn all_harmless(s: Seq<char>) -> bool {
    forall|i: int| 0 <= i < s.len() ==> harmless(#[trigger] s[i])
}

proof fn harmless_concat(a: Seq<char>, b: Seq<char>)
    requires
        all_harmless(a),
        all_harmless(b),
    ensures
        all_harmless(a + b),
{
    assert forall|i: int| 0 <= i < (a + b).len() implies harmless(#[trigger] (a + b)[i]) by {
        if i < a.len() {
            assert((a + b)[i] == a[i]);
        } else {
            assert((a + b)[i] == b[i - a.len()]);
        }
    }
}

proof fn escaped_below_is_harmless(s: Seq<char>, n: int)
    requires
        0 <= n <= s.len(),
    ensures
        all_harmless(escaped_below(s, n)),
    decreases n,
{
    if n > 0 {
        reveal_strlit("&lt;");
        reveal_strlit("&gt;");
        reveal_strlit("&amp;");
        escaped_below_is_harmless(s, n - 1);
        let mark = if list_marker(s) == Some(n - 1) {
            seq!['\\']
        } else {
            Seq::empty()
        };
        harmless_concat(escaped_below(s, n - 1), mark);
        assert(all_harmless(escaped_char(s[n - 1])));
        harmless_concat(escaped_below(s, n - 1) + mark, escaped_char(s[n - 1]));
    }
}

proof fn without_fences_is_harmless(s: Seq<char>, i: int)
    requires
        0 <= i,
        all_harmless(s),
    ensures
        all_harmless(without_fences(s, i)),
    decreases s.len() - i,
{
    if i < s.len() {
        if i + 2 < s.len() && s[i] == '\'' && s[i + 1] == '\'' && s[i + 2] == '\'' {
            without_fences_is_harmless(s, i + 3);
            harmless_concat(seq!['\'', '\'', '\u{2032}'], without_fences(s, i + 3));
        } else {
            without_fences_is_harmless(s, i + 1);
            harmless_concat(seq![s[i]], without_fences(s, i + 1));
        }
    }
}

/// Escaped prose opens no HTML tag and no code span.
pub proof fn escaped_is_harmless(s: Seq<char>)
    ensures
        all_harmless(escaped(s)),
{
    escaped_below_is_harmless(s, s.len() as int);
    without_fences_is_harmless(escaped_below(s, s.len() as int), 0);
}

} // verus!
