//! What escaping keeps of a text, told by reading it back.

use vstd::prelude::*;

use crate::comments::markdown::{escaped, escaped_below, escaped_char, list_marker, without_fences};
use crate::comments::page_laws::nothing_fenced;

verus! {

/// A text as a reader of Markdown sees it: what stands behind a backslash is
/// itself, and entities are the characters that they stand for.
pub open spec fn read_back(s: Seq<char>) -> Seq<char>
    decreases s.len(),
{
    if s.len() == 0 {
        Seq::empty()
    } else if s[0] == '\\' && s.len() > 1 {
        seq![s[1]] + read_back(s.subrange(2, s.len() as int))
    } else if s.len() >= 4 && s.subrange(0, 4) == seq!['&', 'l', 't', ';'] {
        seq!['<'] + read_back(s.subrange(4, s.len() as int))
    } else if s.len() >= 4 && s.subrange(0, 4) == seq!['&', 'g', 't', ';'] {
        seq!['>'] + read_back(s.subrange(4, s.len() as int))
    } else if s.len() >= 5 && s.subrange(0, 5) == seq!['&', 'a', 'm', 'p', ';'] {
        seq!['&'] + read_back(s.subrange(5, s.len() as int))
    } else {
        seq![s[0]] + read_back(s.subrange(1, s.len() as int))
    }
}

proof fn entities_spelled()
    ensures
        "&lt;"@ =~= seq!['&', 'l', 't', ';'],
        "&gt;"@ =~= seq!['&', 'g', 't', ';'],
        "&amp;"@ =~= seq!['&', 'a', 'm', 'p', ';'],
{
    reveal_strlit("&lt;");
    reveal_strlit("&gt;");
    reveal_strlit("&amp;");
}

proof fn char_read_back(c: char, rest: Seq<char>)
    requires
        c != '`',
    ensures
        read_back(escaped_char(c) + rest) == seq![c] + read_back(rest),
{
    entities_spelled();
    let s = escaped_char(c) + rest;
    if c == '<' {
        assert(s.subrange(0, 4) =~= seq!['&', 'l', 't', ';']);
        assert(s.subrange(4, s.len() as int) =~= rest);
    } else if c == '>' {
        assert(s.subrange(0, 4) =~= seq!['&', 'g', 't', ';']);
        assert(s.subrange(0, 4)[1] == 'g');
        assert(seq!['&', 'l', 't', ';'][1] == 'l');
        assert(s.subrange(4, s.len() as int) =~= rest);
    } else if c == '&' {
        assert(s.subrange(0, 5) =~= seq!['&', 'a', 'm', 'p', ';']);
        assert(s.subrange(0, 4)[1] == 'a');
        assert(seq!['&', 'l', 't', ';'][1] == 'l');
        assert(seq!['&', 'g', 't', ';'][1] == 'g');
        assert(s.subrange(5, s.len() as int) =~= rest);
    } else if escaped_char(c).len() == 2 {
        assert(s[0] == '\\' && s[1] == c);
        assert(s.subrange(2, s.len() as int) =~= rest);
    } else {
        assert(s[0] == c);
        plain_read_back(c, rest);
        assert(s =~= seq![c] + rest);
    }
}

proof fn plain_read_back(c: char, rest: Seq<char>)
    requires
        c != '\\',
        c != '&',
    ensures
        read_back(seq![c] + rest) == seq![c] + read_back(rest),
{
    let s = seq![c] + rest;
    assert(s.subrange(1, s.len() as int) =~= rest);
    if s.len() >= 4 {
        assert(s.subrange(0, 4)[0] == c);
    }
    if s.len() >= 5 {
        assert(s.subrange(0, 5)[0] == c);
    }
}

proof fn marker_is_plain(s: Seq<char>)
    requires
        list_marker(s) is Some,
    ensures
        ({
            let c = s[list_marker(s)->0];
            c == '-' || c == '+' || c == '.' || c == ')'
        }),
{
}

proof fn prefix_read_back(s: Seq<char>, n: int, rest: Seq<char>)
    requires
        0 <= n <= s.len(),
        forall|i: int| 0 <= i < s.len() ==> #[trigger] s[i] != '`',
    ensures
        read_back(escaped_below(s, n) + rest) == s.subrange(0, n) + read_back(rest),
    decreases n,
{
    if n > 0 {
        let c = s[n - 1];
        let before = escaped_below(s, n - 1);
        let piece = escaped_char(c);
        let marked = list_marker(s) == Some(n - 1);
        let mark = if marked {
            seq!['\\']
        } else {
            Seq::empty()
        };
        let tail = mark + piece + rest;
        assert(escaped_below(s, n) + rest =~= before + tail);
        prefix_read_back(s, n - 1, tail);
        if marked {
            marker_is_plain(s);
            assert(tail =~= seq!['\\', c] + rest);
            assert(tail.subrange(2, tail.len() as int) =~= rest);
            assert(read_back(tail) == seq![c] + read_back(rest));
        } else {
            assert(tail =~= piece + rest);
            char_read_back(c, rest);
        }
        assert(s.subrange(0, n - 1) + (seq![c] + read_back(rest)) =~= s.subrange(0, n)
            + read_back(rest));
    } else {
        assert(escaped_below(s, n) + rest =~= rest);
        assert(s.subrange(0, 0) + read_back(rest) =~= read_back(rest));
    }
}

/// A reader sees the text that was escaped, whatever it holds but quotes, which
/// are replaced.
pub proof fn escaped_text_reads_as_it_was(s: Seq<char>)
    requires
        forall|i: int| 0 <= i < s.len() ==> #[trigger] s[i] != '`' && s[i] != '\'',
    ensures
        read_back(escaped(s)) == s,
{
    let n = s.len() as int;
    let out = escaped_below(s, n);
    let none = Seq::<char>::empty();
    prefix_read_back(s, n, none);
    assert(out + none =~= out);
    assert(s.subrange(0, n) + read_back(none) =~= s);
    no_quotes(s, n);
    nothing_fenced(out, 0);
    assert(out.subrange(0, out.len() as int) =~= out);
}

proof fn no_quotes(s: Seq<char>, n: int)
    requires
        0 <= n <= s.len(),
        forall|i: int| 0 <= i < s.len() ==> #[trigger] s[i] != '`' && s[i] != '\'',
    ensures
        forall|i: int|
            0 <= i < escaped_below(s, n).len() ==> #[trigger] escaped_below(s, n)[i] != '\'',
    decreases n,
{
    if n > 0 {
        no_quotes(s, n - 1);
        entities_spelled();
        let c = s[n - 1];
        let before = escaped_below(s, n - 1);
        let mark = if list_marker(s) == Some(n - 1) {
            seq!['\\']
        } else {
            Seq::empty()
        };
        let piece = escaped_char(c);
        let out = escaped_below(s, n);
        assert(out == before + mark + piece);
        assert forall|i: int| 0 <= i < piece.len() implies #[trigger] piece[i] != '\'' by {}
        assert forall|i: int| 0 <= i < out.len() implies #[trigger] out[i] != '\'' by {
            if i < before.len() {
                assert(out[i] == before[i]);
            } else if i >= before.len() + mark.len() {
                assert(out[i] == piece[i - before.len() - mark.len()]);
            }
        }
    }
}

// ---------------------------------------------------------------------------
// Special characters

/// Characters that would be read as Markdown.
pub open spec fn is_special(c: char) -> bool {
    c == '#' || c == '*' || c == '_' || c == '[' || c == ']' || c == '!' || c == '|'
}

/// Every special character stands behind a backslash.
pub open spec fn is_guarded(s: Seq<char>) -> bool {
    forall|i: int|
        0 <= i < s.len() && is_special(#[trigger] s[i]) ==> i > 0 && s[i - 1] == '\\'
}

proof fn below_is_guarded(s: Seq<char>, n: int)
    requires
        0 <= n <= s.len(),
    ensures
        is_guarded(escaped_below(s, n)),
    decreases n,
{
    if n > 0 {
        below_is_guarded(s, n - 1);
        entities_spelled();
        let c = s[n - 1];
        let before = escaped_below(s, n - 1);
        let mark = if list_marker(s) == Some(n - 1) {
            seq!['\\']
        } else {
            Seq::empty()
        };
        let piece = escaped_char(c);
        let out = escaped_below(s, n);
        let at = before.len() + mark.len();
        assert(out == before + mark + piece);
        assert forall|i: int| 0 <= i < out.len() && is_special(#[trigger] out[i]) implies i > 0
            && out[i - 1] == '\\' by {
            if i < before.len() {
                assert(out[i] == before[i]);
                assert(out[i - 1] == before[i - 1]);
            } else if i >= at {
                assert(out[i] == piece[i - at]);
                assert(piece[0] == '\\' && i - at == 1);
                assert(out[i - 1] == piece[0]);
            }
        }
    }
}

proof fn fences_change_quotes_alone(s: Seq<char>, i: int)
    requires
        0 <= i <= s.len(),
    ensures
        without_fences(s, i).len() == s.len() - i,
        forall|k: int|
            0 <= k < s.len() - i ==> #[trigger] without_fences(s, i)[k] == s[i + k] || (s[i + k]
                == '\'' && without_fences(s, i)[k] == '\u{2032}'),
    decreases s.len() - i,
{
    if i < s.len() {
        let r = without_fences(s, i);
        if i + 2 < s.len() && s[i] == '\'' && s[i + 1] == '\'' && s[i + 2] == '\'' {
            fences_change_quotes_alone(s, i + 3);
            let rest = without_fences(s, i + 3);
            assert forall|k: int| 0 <= k < s.len() - i implies #[trigger] r[k] == s[i + k] || (s[i
                + k] == '\'' && r[k] == '\u{2032}') by {
                if k >= 3 {
                    assert(r[k] == rest[k - 3]);
                }
            }
        } else {
            fences_change_quotes_alone(s, i + 1);
            let rest = without_fences(s, i + 1);
            assert forall|k: int| 0 <= k < s.len() - i implies #[trigger] r[k] == s[i + k] || (s[i
                + k] == '\'' && r[k] == '\u{2032}') by {
                if k >= 1 {
                    assert(r[k] == rest[k - 1]);
                }
            }
        }
    }
}

/// In escaped text every character that would be read as Markdown stands
/// behind a backslash.
pub proof fn escaped_text_is_guarded(s: Seq<char>)
    ensures
        is_guarded(escaped(s)),
{
    let below = escaped_below(s, s.len() as int);
    let out = escaped(s);
    below_is_guarded(s, s.len() as int);
    fences_change_quotes_alone(below, 0);
    assert forall|i: int| 0 <= i < out.len() && is_special(#[trigger] out[i]) implies i > 0
        && out[i - 1] == '\\' by {
        assert(out[i] == below[0 + i]);
        assert(below[i - 1] == '\\');
        assert(out[i - 1] == below[0 + (i - 1)]);
    }
}

} // verus!
