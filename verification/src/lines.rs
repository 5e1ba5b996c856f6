//! Lines, prefixes and occurrences in character text.

use vstd::prelude::*;
use vstd::slice::slice_subrange;

use crate::chars::{chars_of, first_occurrence, occurs_at, same_chars};
use crate::text::{find_line_end, line_end};

verus! {

// ---------------------------------------------------------------------------
// Prefixes and occurrences

/// `s` starts with `word`.
pub open spec fn begins(s: Seq<char>, word: Seq<char>) -> bool {
    occurs_at(s, word, 0)
}

/// `word` occurs in `s`.
pub open spec fn holds(s: Seq<char>, word: Seq<char>) -> bool {
    first_occurrence(s, word, 0) is Some
}

pub fn chars_match_at(hay: &[char], needle: &[char], at: usize) -> (r: bool)
    ensures
        r == occurs_at(hay@, needle@, at as int),
{
    let len: usize = hay.len();
    if at > len || needle.len() > len - at {
        return false;
    }
    let part = slice_subrange(hay, at, at + needle.len());
    same_chars(part, needle)
}

pub fn starts_with(s: &[char], word: &str) -> (r: bool)
    ensures
        r == begins(s@, word@),
{
    let w = chars_of(word);
    chars_match_at(s, &w, 0)
}

pub fn find_chars(hay: &[char], needle: &[char], from: usize) -> (r: Option<usize>)
    ensures
        match r {
            Some(i) => first_occurrence(hay@, needle@, from as int) == Some(i as int) && from <= i
                && i + needle@.len() <= hay@.len() && i + needle@.len() <= usize::MAX,
            None => first_occurrence(hay@, needle@, from as int) is None,
        },
{
    let len: usize = hay.len();
    if from > len || needle.len() > len - from {
        return None;
    }
    let last: usize = len - needle.len();
    let mut i: usize = from;
    while i <= last
        invariant
            from <= i <= last + 1,
            len == hay@.len(),
            last == len - needle@.len(),
            first_occurrence(hay@, needle@, from as int) == first_occurrence(
                hay@,
                needle@,
                i as int,
            ),
        decreases last + 1 - i,
    {
        if chars_match_at(hay, needle, i) {
            return Some(i);
        }
        if i == last {
            assert(first_occurrence(hay@, needle@, i + 1) is None);
            return None;
        }
        i = i + 1;
    }
    None
}

/// Position of the first occurrence of `word` in `s`.
pub fn find_text(s: &[char], word: &str) -> (r: Option<usize>)
    ensures
        match r {
            Some(i) => first_occurrence(s@, word@, 0) == Some(i as int) && i + word@.len()
                <= s@.len() && i + word@.len() <= usize::MAX,
            None => first_occurrence(s@, word@, 0) is None,
        },
{
    let w = chars_of(word);
    find_chars(s, &w, 0)
}

pub fn contains_text(s: &[char], word: &str) -> (r: bool)
    ensures
        r == holds(s@, word@),
{
    find_text(s, word).is_some()
}

// ---------------------------------------------------------------------------
// Lines

/// Character lines as sequences.
pub open spec fn line_views(v: Seq<Vec<char>>) -> Seq<Seq<char>> {
    Seq::new(v.len(), |i: int| v[i]@)
}

/// The line in `[from, end)`; a carriage return before the line feed at `end`
/// belongs to the line break.
pub open spec fn line_between(s: Seq<char>, from: int, end: int) -> Seq<char> {
    if end < s.len() && from < end && s[end - 1] == '\r' {
        s.subrange(from, end - 1)
    } else {
        s.subrange(from, end)
    }
}

/// The lines of `s` from position `from` on. A line break at the end of the
/// text starts no further line.
pub open spec fn lines_from(s: Seq<char>, from: int) -> Seq<Seq<char>>
    decreases s.len() - from,
{
    if from < 0 || from >= s.len() {
        Seq::empty()
    } else {
        let end = line_end(s, from);
        if from <= end < s.len() {
            seq![line_between(s, from, end)] + lines_from(s, end + 1)
        } else {
            seq![line_between(s, from, end)]
        }
    }
}

pub open spec fn lines_of(s: Seq<char>) -> Seq<Seq<char>> {
    lines_from(s, 0)
}

pub fn split_lines(s: &[char]) -> (r: Vec<Vec<char>>)
    ensures
        line_views(r@) == lines_of(s@),
{
    let mut out: Vec<Vec<char>> = Vec::new();
    let mut from: usize = 0;
    assert(line_views(out@) + lines_from(s@, 0) =~= lines_of(s@));
    while from < s.len()
        invariant
            from <= s@.len(),
            line_views(out@) + lines_from(s@, from as int) == lines_of(s@),
        decreases s@.len() - from,
    {
        let end: usize = find_line_end(s, from);
        let ghost before = line_views(out@);
        let stop: usize = if end < s.len() && from < end && s[end - 1] == '\r' {
            end - 1
        } else {
            end
        };
        let line = to_vec(slice_subrange(s, from, stop));
        let ghost piece = line@;
        out.push(line);
        assert(piece == line_between(s@, from as int, end as int));
        assert(line_views(out@) =~= before.push(piece));
        if end < s.len() {
            assert(lines_from(s@, from as int) =~= seq![piece] + lines_from(s@, end + 1));
            assert(line_views(out@) + lines_from(s@, end + 1) =~= before + (seq![piece]
                + lines_from(s@, end + 1)));
            from = end + 1;
        } else {
            assert(lines_from(s@, from as int) =~= seq![piece]);
            assert(lines_from(s@, s@.len() as int) =~= Seq::<Seq<char>>::empty());
            assert(line_views(out@) + lines_from(s@, s@.len() as int) =~= before + seq![piece]);
            from = s.len();
        }
    }
    assert(line_views(out@) + lines_from(s@, from as int) =~= line_views(out@));
    out
}

pub fn to_vec(s: &[char]) -> (r: Vec<char>)
    ensures
        r@ == s@,
{
    let mut out: Vec<char> = Vec::new();
    push_all(&mut out, s);
    assert(out@ =~= s@);
    out
}

/// Append characters.
pub fn push_all(out: &mut Vec<char>, s: &[char])
    ensures
        final(out)@ == old(out)@ + s@,
{
    let ghost before = out@;
    let mut i: usize = 0;
    while i < s.len()
        invariant
            i <= s@.len(),
            out@ == before + s@.subrange(0, i as int),
        decreases s@.len() - i,
    {
        out.push(s[i]);
        i = i + 1;
        assert(out@ =~= before + s@.subrange(0, i as int));
    }
    assert(out@ =~= before + s@);
}

/// Append the characters of a string.
pub fn push_text(out: &mut Vec<char>, s: &str)
    ensures
        final(out)@ == old(out)@ + s@,
{
    let w = chars_of(s);
    push_all(out, &w);
}

/// Lines put together with line feeds between them.
pub open spec fn joined(lines: Seq<Seq<char>>) -> Seq<char>
    decreases lines.len(),
{
    if lines.len() == 0 {
        Seq::empty()
    } else if lines.len() == 1 {
        lines[0]
    } else {
        joined(lines.drop_last()).push('\n') + lines.last()
    }
}

/// Lines `[from, to)` put together with line feeds.
pub fn join_lines(lines: &Vec<Vec<char>>, from: usize, to: usize) -> (r: Vec<char>)
    requires
        from <= to <= lines@.len(),
    ensures
        r@ == joined(line_views(lines@).subrange(from as int, to as int)),
{
    let ghost all = line_views(lines@);
    let mut out: Vec<char> = Vec::new();
    let mut i: usize = from;
    assert(out@ =~= joined(all.subrange(from as int, from as int)));
    while i < to
        invariant
            from <= i <= to <= lines@.len(),
            all == line_views(lines@),
            out@ == joined(all.subrange(from as int, i as int)),
        decreases to - i,
    {
        let ghost before = out@;
        if i > from {
            out.push('\n');
        }
        push_all(&mut out, &lines[i]);
        proof {
            let next = all.subrange(from as int, i + 1);
            assert(next.last() == lines@[i as int]@);
            assert(next.drop_last() =~= all.subrange(from as int, i as int));
            assert(i == from ==> out@ =~= next[0]);
        }
        i = i + 1;
    }
    out
}

} // verus!
