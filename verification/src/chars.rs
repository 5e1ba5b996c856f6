//! Characters, bytes and strings: the small vocabulary every other module
//! states its contracts in.

use vstd::prelude::*;
use vstd::slice::slice_subrange;
use vstd::utf8::{
    char_is_scalar, decode_utf8, encode_scalar, encode_utf8, encode_utf8_decode_utf8,
    encode_utf8_valid_utf8, is_char_boundary, is_char_boundary_iff_not_is_continuation_byte,
    is_char_boundary_start_end_of_seq, pop_first_scalar, valid_first_scalar, valid_utf8,
    valid_utf8_split,
};

verus! {

/// `String::push`: the character is appended at the end, nothing else changes.
pub assume_specification[ String::push ](s: &mut String, c: char)
    ensures
        final(s)@ == old(s)@.push(c),
;

// ---------------------------------------------------------------------------
// Byte classes

pub open spec fn byte_is_space(b: u8) -> bool {
    b == 0x20 || b == 0x09 || b == 0x0A || b == 0x0C || b == 0x0D
}

pub open spec fn byte_is_upper(b: u8) -> bool {
    0x41 <= b <= 0x5A
}

pub open spec fn byte_is_lower(b: u8) -> bool {
    0x61 <= b <= 0x7A
}

pub open spec fn byte_is_digit(b: u8) -> bool {
    0x30 <= b <= 0x39
}

pub open spec fn byte_is_alpha(b: u8) -> bool {
    byte_is_upper(b) || byte_is_lower(b)
}

/// A byte that can start a C identifier.
pub open spec fn byte_starts_ident(b: u8) -> bool {
    byte_is_alpha(b) || b == 0x5F
}

/// A byte that can continue a C identifier.
pub open spec fn byte_in_ident(b: u8) -> bool {
    byte_starts_ident(b) || byte_is_digit(b)
}

pub fn is_space_byte(b: u8) -> (r: bool)
    ensures
        r == byte_is_space(b),
{
    b == 0x20 || b == 0x09 || b == 0x0A || b == 0x0C || b == 0x0D
}

pub fn is_upper_byte(b: u8) -> (r: bool)
    ensures
        r == byte_is_upper(b),
{
    0x41 <= b && b <= 0x5A
}

pub fn is_lower_byte(b: u8) -> (r: bool)
    ensures
        r == byte_is_lower(b),
{
    0x61 <= b && b <= 0x7A
}

pub fn is_digit_byte(b: u8) -> (r: bool)
    ensures
        r == byte_is_digit(b),
{
    0x30 <= b && b <= 0x39
}

pub fn is_alpha_byte(b: u8) -> (r: bool)
    ensures
        r == byte_is_alpha(b),
{
    is_upper_byte(b) || is_lower_byte(b)
}

pub fn is_ident_start(byte: u8) -> (r: bool)
    ensures
        r == byte_starts_ident(byte),
{
    is_alpha_byte(byte) || byte == 0x5F
}

pub fn is_ident_continue(byte: u8) -> (r: bool)
    ensures
        r == byte_in_ident(byte),
{
    is_ident_start(byte) || is_digit_byte(byte)
}

pub open spec fn byte_lower(b: u8) -> u8 {
    if byte_is_upper(b) {
        (b + 32) as u8
    } else {
        b
    }
}

pub fn lower_byte(b: u8) -> (r: u8)
    ensures
        r == byte_lower(b),
{
    if is_upper_byte(b) {
        b + 32
    } else {
        b
    }
}

pub open spec fn bytes_lower(s: Seq<u8>) -> Seq<u8> {
    Seq::new(s.len(), |i: int| byte_lower(s[i]))
}

/// ASCII case folding of a byte string.
pub fn lower_bytes(s: &[u8]) -> (r: Vec<u8>)
    ensures
        r@ == bytes_lower(s@),
{
    let mut out: Vec<u8> = Vec::new();
    let mut i: usize = 0;
    while i < s.len()
        invariant
            i <= s@.len(),
            out@ == bytes_lower(s@).subrange(0, i as int),
        decreases s@.len() - i,
    {
        out.push(lower_byte(s[i]));
        i = i + 1;
        assert(out@ =~= bytes_lower(s@).subrange(0, i as int));
    }
    assert(out@ =~= bytes_lower(s@));
    out
}

// ---------------------------------------------------------------------------
// Character classes

/// The Unicode White_Space property.
pub open spec fn char_is_space(c: char) -> bool {
    let u = c as u32;
    0x09 <= u <= 0x0D || u == 0x20 || u == 0x85 || u == 0xA0 || u == 0x1680 || 0x2000 <= u <= 0x200A
        || u == 0x2028 || u == 0x2029 || u == 0x202F || u == 0x205F || u == 0x3000
}

pub open spec fn char_is_alpha(c: char) -> bool {
    ('a' <= c <= 'z') || ('A' <= c <= 'Z')
}

pub open spec fn char_is_digit(c: char) -> bool {
    '0' <= c <= '9'
}

pub open spec fn char_is_upper(c: char) -> bool {
    'A' <= c <= 'Z'
}

pub open spec fn char_is_lower(c: char) -> bool {
    'a' <= c <= 'z'
}

pub open spec fn char_starts_ident(c: char) -> bool {
    char_is_alpha(c) || c == '_'
}

pub open spec fn char_in_ident(c: char) -> bool {
    char_is_alpha(c) || char_is_digit(c) || c == '_'
}

pub fn is_space(c: char) -> (r: bool)
    ensures
        r == char_is_space(c),
{
    let u: u32 = c as u32;
    (0x09 <= u && u <= 0x0D) || u == 0x20 || u == 0x85 || u == 0xA0 || u == 0x1680 || (0x2000 <= u
        && u <= 0x200A) || u == 0x2028 || u == 0x2029 || u == 0x202F || u == 0x205F || u == 0x3000
}

pub fn is_alpha(c: char) -> (r: bool)
    ensures
        r == char_is_alpha(c),
{
    ('a' <= c && c <= 'z') || ('A' <= c && c <= 'Z')
}

pub fn is_digit(c: char) -> (r: bool)
    ensures
        r == char_is_digit(c),
{
    '0' <= c && c <= '9'
}

pub fn starts_ident(c: char) -> (r: bool)
    ensures
        r == char_starts_ident(c),
{
    is_alpha(c) || c == '_'
}

pub fn in_ident(c: char) -> (r: bool)
    ensures
        r == char_in_ident(c),
{
    is_alpha(c) || is_digit(c) || c == '_'
}

/// ASCII case folding of one character.
pub open spec fn char_lower(c: char) -> char {
    if char_is_upper(c) {
        ((c as u8 + 32) as u8) as char
    } else {
        c
    }
}

pub fn lower(c: char) -> (r: char)
    ensures
        r == char_lower(c),
{
    if 'A' <= c && c <= 'Z' {
        ((c as u8) + 32) as char
    } else {
        c
    }
}

pub open spec fn chars_lower(s: Seq<char>) -> Seq<char> {
    Seq::new(s.len(), |i: int| char_lower(s[i]))
}

/// ASCII case folding of a character string.
pub fn lower_chars(s: &[char]) -> (r: Vec<char>)
    ensures
        r@ == chars_lower(s@),
{
    let mut out: Vec<char> = Vec::new();
    let mut i: usize = 0;
    while i < s.len()
        invariant
            i <= s@.len(),
            out@ == chars_lower(s@).subrange(0, i as int),
        decreases s@.len() - i,
    {
        out.push(lower(s[i]));
        i = i + 1;
        assert(out@ =~= chars_lower(s@).subrange(0, i as int));
    }
    assert(out@ =~= chars_lower(s@));
    out
}

/// Number of UTF-16 code units of a character.
pub open spec fn utf16_width(c: char) -> nat {
    if (c as u32) < 0x10000 {
        1
    } else {
        2
    }
}

/// Number of UTF-8 bytes of a character.
pub open spec fn utf8_width(c: char) -> nat {
    encode_scalar(c as u32).len()
}

pub fn utf8_len(c: char) -> (r: usize)
    ensures
        r == utf8_width(c),
        1 <= r <= 4,
{
    let u: u32 = c as u32;
    proof {
        char_is_scalar(c);
    }
    if u < 0x80 {
        1
    } else if u < 0x800 {
        2
    } else if u < 0x10000 {
        3
    } else {
        4
    }
}

// ---------------------------------------------------------------------------
// Strings as character sequences

pub fn chars_of(s: &str) -> (r: Vec<char>)
    ensures
        r@ == s@,
{
    let mut out: Vec<char> = Vec::new();
    for c in it: s.chars()
        invariant
            it.seq() == s@,
            out@ == it.seq().take(it.index() as int),
    {
        out.push(c);
        assert(out@ =~= it.seq().take(it.index() as int + 1));
    }
    assert(out@ =~= s@);
    out
}

pub fn string_of(chars: &[char]) -> (r: String)
    ensures
        r@ == chars@,
{
    let mut out = String::new();
    let mut i: usize = 0;
    while i < chars.len()
        invariant
            i <= chars@.len(),
            out@ == chars@.subrange(0, i as int),
        decreases chars@.len() - i,
    {
        out.push(chars[i]);
        i = i + 1;
        assert(out@ =~= chars@.subrange(0, i as int));
    }
    assert(out@ =~= chars@);
    out
}

/// The characters in `[from, to)` as a string.
pub fn string_between(chars: &[char], from: usize, to: usize) -> (r: String)
    requires
        from <= to <= chars@.len(),
    ensures
        r@ == chars@.subrange(from as int, to as int),
{
    let mut out = String::new();
    let mut i: usize = from;
    while i < to
        invariant
            from <= i <= to <= chars@.len(),
            out@ == chars@.subrange(from as int, i as int),
        decreases to - i,
    {
        out.push(chars[i]);
        i = i + 1;
        assert(out@ =~= chars@.subrange(from as int, i as int));
    }
    out
}

/// Bytes read as Latin-1 characters; on ASCII bytes this is the text they
/// spell.
pub open spec fn bytes_as_chars(s: Seq<u8>) -> Seq<char> {
    Seq::new(s.len(), |i: int| s[i] as char)
}

pub fn ascii_string(bytes: &[u8], from: usize, to: usize) -> (r: String)
    requires
        from <= to <= bytes@.len(),
    ensures
        r@ == bytes_as_chars(bytes@.subrange(from as int, to as int)),
{
    let mut out = String::new();
    let mut i: usize = from;
    while i < to
        invariant
            from <= i <= to <= bytes@.len(),
            out@ == bytes_as_chars(bytes@.subrange(from as int, i as int)),
        decreases to - i,
    {
        out.push(bytes[i] as char);
        i = i + 1;
        assert(out@ =~= bytes_as_chars(bytes@.subrange(from as int, i as int)));
    }
    assert(out@ =~= bytes_as_chars(bytes@.subrange(from as int, to as int)));
    out
}

pub proof fn encode_injective(a: Seq<char>, b: Seq<char>)
    ensures
        encode_utf8(a) == encode_utf8(b) <==> a == b,
{
    encode_utf8_decode_utf8(a);
    encode_utf8_decode_utf8(b);
}

pub fn same_bytes(a: &[u8], b: &[u8]) -> (r: bool)
    ensures
        r == (a@ == b@),
{
    if a.len() != b.len() {
        return false;
    }
    let mut i: usize = 0;
    while i < a.len()
        invariant
            i <= a@.len(),
            a@.len() == b@.len(),
            forall|j: int| 0 <= j < i ==> a@[j] == b@[j],
        decreases a@.len() - i,
    {
        if a[i] != b[i] {
            return false;
        }
        i = i + 1;
    }
    assert(a@ =~= b@);
    true
}

/// Text equality.
pub fn same_text(a: &str, b: &str) -> (r: bool)
    ensures
        r == (a@ == b@),
{
    proof {
        encode_injective(a@, b@);
    }
    same_bytes(a.as_bytes(), b.as_bytes())
}

/// Whether `bytes[from..to]` spells `word`.
pub fn spells(bytes: &[u8], from: usize, to: usize, word: &str) -> (r: bool)
    requires
        from <= to <= bytes@.len(),
    ensures
        r == (bytes@.subrange(from as int, to as int) == encode_utf8(word@)),
{
    let w = word.as_bytes();
    if w.len() != to - from {
        return false;
    }
    let mut i: usize = 0;
    while i < w.len()
        invariant
            i <= w@.len(),
            w@.len() == to - from,
            from <= to <= bytes@.len(),
            w@ == encode_utf8(word@),
            forall|j: int| 0 <= j < i ==> w@[j] == bytes@[from + j],
        decreases w@.len() - i,
    {
        if bytes[from + i] != w[i] {
            assert(bytes@.subrange(from as int, to as int)[i as int] != w@[i as int]);
            return false;
        }
        i = i + 1;
    }
    assert(bytes@.subrange(from as int, to as int) =~= w@);
    true
}

// ---------------------------------------------------------------------------
// Options of strings and sequences of strings

pub open spec fn opt_text(s: Option<String>) -> Option<Seq<char>> {
    match s {
        Some(t) => Some(t@),
        None => None,
    }
}

pub open spec fn texts(v: Seq<String>) -> Seq<Seq<char>> {
    Seq::new(v.len(), |i: int| v[i]@)
}

// ---------------------------------------------------------------------------
// Searching

pub open spec fn occurs_at<T>(hay: Seq<T>, needle: Seq<T>, at: int) -> bool {
    0 <= at && at + needle.len() <= hay.len() && hay.subrange(at, at + needle.len()) == needle
}

/// The first position at or after `from` where `needle` occurs.
pub open spec fn first_occurrence<T>(hay: Seq<T>, needle: Seq<T>, from: int) -> Option<int>
    decreases hay.len() - from + 1,
{
    if from < 0 || from + needle.len() > hay.len() {
        None
    } else if occurs_at(hay, needle, from) {
        Some(from)
    } else {
        first_occurrence(hay, needle, from + 1)
    }
}

pub fn matches_at(hay: &[u8], needle: &[u8], at: usize) -> (r: bool)
    ensures
        r == occurs_at(hay@, needle@, at as int),
{
    let len: usize = hay.len();
    if at > len || needle.len() > len - at {
        return false;
    }
    let mut i: usize = 0;
    while i < needle.len()
        invariant
            i <= needle@.len(),
            len == hay@.len(),
            at + needle@.len() <= len,
            forall|j: int| 0 <= j < i ==> needle@[j] == hay@[at + j],
        decreases needle@.len() - i,
    {
        if hay[at + i] != needle[i] {
            assert(hay@.subrange(at as int, at + needle@.len())[i as int] != needle@[i as int]);
            return false;
        }
        i = i + 1;
    }
    assert(hay@.subrange(at as int, at + needle@.len()) =~= needle@);
    true
}

pub fn find_bytes(hay: &[u8], needle: &[u8], from: usize) -> (r: Option<usize>)
    ensures
        match r {
            Some(i) => first_occurrence(hay@, needle@, from as int) == Some(i as int) && i
                + needle@.len() <= hay@.len(),
            None => first_occurrence(hay@, needle@, from as int) is None,
        },
{
    if from > hay.len() || needle.len() > hay.len() - from {
        return None;
    }
    let last: usize = hay.len() - needle.len();
    let mut i: usize = from;
    while i <= last
        invariant
            i <= last + 1,
            last == hay@.len() - needle@.len(),
            first_occurrence(hay@, needle@, from as int) == first_occurrence(
                hay@,
                needle@,
                i as int,
            ),
        decreases last + 1 - i,
    {
        if matches_at(hay, needle, i) {
            return Some(i);
        }
        if i == last {
            assert(first_occurrence(hay@, needle@, i + 1) is None);
            return None;
        }
        i = i + 1;
    }
    None
}

// ---------------------------------------------------------------------------
// White space

/// Position after the white space that starts at `i`.
pub open spec fn space_run_end(s: Seq<char>, i: int) -> int
    decreases s.len() - i,
{
    if 0 <= i < s.len() && char_is_space(s[i]) {
        space_run_end(s, i + 1)
    } else {
        i
    }
}

/// Position of the white space that ends before `i`.
pub open spec fn space_run_start(s: Seq<char>, i: int) -> int
    decreases i,
{
    if 0 < i <= s.len() && char_is_space(s[i - 1]) {
        space_run_start(s, i - 1)
    } else {
        i
    }
}

pub fn skip_ws(chars: &[char], cursor: usize) -> (r: usize)
    requires
        cursor <= chars@.len(),
    ensures
        r == space_run_end(chars@, cursor as int),
        cursor <= r <= chars@.len(),
{
    let mut i: usize = cursor;
    while i < chars.len() && is_space(chars[i])
        invariant
            cursor <= i <= chars@.len(),
            space_run_end(chars@, cursor as int) == space_run_end(chars@, i as int),
        decreases chars@.len() - i,
    {
        i = i + 1;
    }
    i
}

pub fn skip_ws_back(chars: &[char], end: usize) -> (r: usize)
    requires
        end <= chars@.len(),
    ensures
        r == space_run_start(chars@, end as int),
        r <= end,
{
    let mut i: usize = end;
    while i > 0 && is_space(chars[i - 1])
        invariant
            i <= end <= chars@.len(),
            space_run_start(chars@, end as int) == space_run_start(chars@, i as int),
        decreases i,
    {
        i = i - 1;
    }
    i
}

/// Text without the white space at its end.
pub open spec fn trim_end(s: Seq<char>) -> Seq<char> {
    s.subrange(0, space_run_start(s, s.len() as int))
}

/// Text without the white space at its start.
pub open spec fn trim_start(s: Seq<char>) -> Seq<char> {
    s.subrange(space_run_end(s, 0), s.len() as int)
}

/// Text without the white space at both ends.
pub open spec fn trim(s: Seq<char>) -> Seq<char> {
    trim_end(trim_start(s))
}

pub fn trimmed_end(s: &[char]) -> (r: &[char])
    ensures
        r@ == trim_end(s@),
{
    let end: usize = skip_ws_back(s, s.len());
    slice_subrange(s, 0, end)
}

pub fn trimmed_start(s: &[char]) -> (r: &[char])
    ensures
        r@ == trim_start(s@),
        r@.len() <= s@.len(),
{
    let start: usize = skip_ws(s, 0);
    slice_subrange(s, start, s.len())
}

pub fn trimmed(s: &[char]) -> (r: &[char])
    ensures
        r@ == trim(s@),
{
    trimmed_end(trimmed_start(s))
}

/// Whether the characters spell `word`.
pub fn is_word(chars: &[char], word: &str) -> (r: bool)
    ensures
        r == (chars@ == word@),
{
    let w = chars_of(word);
    same_chars(chars, w.as_slice())
}

pub fn same_chars(a: &[char], b: &[char]) -> (r: bool)
    ensures
        r == (a@ == b@),
{
    if a.len() != b.len() {
        return false;
    }
    let mut i: usize = 0;
    while i < a.len()
        invariant
            i <= a@.len(),
            a@.len() == b@.len(),
            forall|j: int| 0 <= j < i ==> a@[j] == b@[j],
        decreases a@.len() - i,
    {
        if a[i] != b[i] {
            return false;
        }
        i = i + 1;
    }
    assert(a@ =~= b@);
    true
}

// ---------------------------------------------------------------------------
// Slices of strings

proof fn after_ascii_is_boundary(bytes: Seq<u8>, i: int)
    requires
        valid_utf8(bytes),
        0 <= i < bytes.len(),
        bytes[i] < 0x80,
    ensures
        is_char_boundary(bytes, i),
        is_char_boundary(bytes, i + 1),
{
    is_char_boundary_start_end_of_seq(bytes);
    is_char_boundary_iff_not_is_continuation_byte(bytes, i);
    if i + 1 < bytes.len() {
        is_char_boundary_iff_not_is_continuation_byte(bytes, i + 1);
        let rest = bytes.subrange(i, bytes.len() as int);
        valid_utf8_split(bytes, i);
        assert(valid_first_scalar(rest));
        let next = pop_first_scalar(rest);
        assert(valid_utf8(next));
        assert(next =~= bytes.subrange(i + 1, bytes.len() as int));
        assert(next[0] == bytes[i + 1]);
        assert(valid_first_scalar(next));
    }
}

/// The part of a string between two of its bytes, both of them ASCII: from
/// behind `from` up to `to`.
pub fn text_between_ascii(s: &str, from: usize, to: usize) -> (r: &str)
    requires
        from < to < encode_utf8(s@).len(),
        encode_utf8(s@)[from as int] < 0x80,
        encode_utf8(s@)[to as int] < 0x80,
    ensures
        encode_utf8(r@) == encode_utf8(s@).subrange(from + 1, to as int),
        r@ == decode_utf8(encode_utf8(s@).subrange(from + 1, to as int)),
{
    let ghost bytes = encode_utf8(s@);
    proof {
        encode_utf8_valid_utf8(s@);
        after_ascii_is_boundary(bytes, from as int);
        after_ascii_is_boundary(bytes, to as int);
    }
    let (head, _) = s.split_at(to);
    proof {
        assert(encode_utf8(head@) =~= bytes.subrange(0, to as int));
        encode_utf8_valid_utf8(head@);
        after_ascii_is_boundary(encode_utf8(head@), from as int);
    }
    let (_, part) = head.split_at(from + 1);
    proof {
        assert(encode_utf8(part@) =~= bytes.subrange(from + 1, to as int));
        encode_utf8_decode_utf8(part@);
    }
    part
}

} // verus!
