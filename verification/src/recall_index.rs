//! Recall keys of names: short prefixes at word boundaries, substrings and
//! subsequences of three characters, paths and projects.

use vstd::prelude::*;
use vstd::utf8::encode_utf8;

use crate::chars::{chars_lower, chars_of, lower_chars, same_chars, string_of, utf8_len};
use crate::lines::line_views;
use crate::memory::sat_prod;
use crate::name_recall::{slots_where, CompletionRecallQuotas};
use crate::name_search::{match_score, name_matches, CompletionScope};
use crate::name_segment::NameEntry;
use crate::project_context::{opt_key, same_project, Key, ProjectKey};
use crate::query::SHORT_PREFIX_MIN_LEN;
use crate::text::{boundary_at, is_boundary, utf8_offset, utf8_offset_is_byte_offset};
use crate::text_index::TextIndex;

verus! {

pub const SUBSTRING_KEY_LEN: usize = 3;

pub const SUBSEQUENCE_SOURCE_CHAR_LIMIT: usize = 32;

pub const SUBSEQUENCE_KEYS_PER_ENTRY_LIMIT: usize = 256;

// ---------------------------------------------------------------------------
// Keys of a name

/// The folded characters of a name.
pub open spec fn lowered(name: Seq<char>) -> Seq<char> {
    chars_lower(name)
}

/// One or two folded characters that start at a word boundary.
pub open spec fn is_boundary_key(name: Seq<char>, key: Seq<char>) -> bool {
    exists|i: int, n: int| #[trigger] boundary_key_at(name, i, n) && key == lowered(name).subrange(
        i,
        i + n,
    )
}

pub open spec fn boundary_key_at(name: Seq<char>, i: int, n: int) -> bool {
    &&& 0 <= i
    &&& 1 <= n < SHORT_PREFIX_MIN_LEN
    &&& i + n <= name.len()
    &&& boundary_at(encode_utf8(name), utf8_offset(name, i) as int)
}

/// Three folded characters in a row.
pub open spec fn is_substring_key(name: Seq<char>, key: Seq<char>) -> bool {
    exists|i: int|
        0 <= i <= name.len() - SUBSTRING_KEY_LEN && key == #[trigger] lowered(name).subrange(
            i,
            i + SUBSTRING_KEY_LEN,
        )
}

/// The keys so far with one more, unless it is there or they are enough.
pub open spec fn with_key(keys: Seq<Seq<char>>, key: Seq<char>) -> Seq<Seq<char>> {
    if keys.len() >= SUBSEQUENCE_KEYS_PER_ENTRY_LIMIT || keys.contains(key) {
        keys
    } else {
        keys.push(key)
    }
}

pub open spec fn triple(s: Seq<char>, a: int, b: int, c: int) -> Seq<char> {
    seq![s[a], s[b], s[c]]
}

/// Keys with the first two characters at `a` and `b`, the third from `c` on.
pub open spec fn third_keys(
    s: Seq<char>,
    a: int,
    b: int,
    c: int,
    keys: Seq<Seq<char>>,
) -> Seq<Seq<char>>
    decreases s.len() - c,
{
    if c >= s.len() {
        keys
    } else {
        third_keys(s, a, b, c + 1, with_key(keys, triple(s, a, b, c)))
    }
}

/// Keys with the first character at `a`, the second from `b` on.
pub open spec fn second_keys(s: Seq<char>, a: int, b: int, keys: Seq<Seq<char>>) -> Seq<Seq<char>>
    decreases s.len() - b,
{
    if b + 1 >= s.len() {
        keys
    } else {
        second_keys(s, a, b + 1, third_keys(s, a, b, b + 1, keys))
    }
}

/// Keys with the first character from `a` on.
pub open spec fn first_keys(s: Seq<char>, a: int, keys: Seq<Seq<char>>) -> Seq<Seq<char>>
    decreases s.len() - a,
{
    if a + 2 >= s.len() {
        keys
    } else {
        first_keys(s, a + 1, second_keys(s, a, a + 1, keys))
    }
}

/// The head of a name that subsequences are taken from.
pub open spec fn subsequence_source(name: Seq<char>) -> Seq<char> {
    let lower = lowered(name);
    if lower.len() > SUBSEQUENCE_SOURCE_CHAR_LIMIT {
        lower.subrange(0, SUBSEQUENCE_SOURCE_CHAR_LIMIT as int)
    } else {
        lower
    }
}

/// The subsequences of three characters of a name, in order, each once, up to
/// a limit.
pub open spec fn subsequence_keys(name: Seq<char>) -> Seq<Seq<char>> {
    first_keys(subsequence_source(name), 0, Seq::empty())
}

fn has_key(keys: &Vec<Vec<char>>, key: &[char]) -> (r: bool)
    ensures
        r == line_views(keys@).contains(key@),
{
    let ghost all = line_views(keys@);
    let mut i: usize = 0;
    while i < keys.len()
        invariant
            i <= keys@.len(),
            all == line_views(keys@),
            forall|k: int| 0 <= k < i ==> all[k] != key@,
        decreases keys@.len() - i,
    {
        assert(all[i as int] == keys@[i as int]@);
        if same_chars(&keys[i], key) {
            return true;
        }
        i = i + 1;
    }
    false
}

fn push_fresh(keys: &mut Vec<Vec<char>>, key: Vec<char>)
    ensures
        line_views(final(keys)@) == (if line_views(old(keys)@).contains(key@) {
            line_views(old(keys)@)
        } else {
            line_views(old(keys)@).push(key@)
        }),
{
    let ghost before = line_views(keys@);
    if !has_key(keys, &key) {
        let ghost k = key@;
        keys.push(key);
        assert(line_views(keys@) =~= before.push(k));
    }
}

/// The first `len` characters of a text, if it has as many.
pub fn leading_chars(value: &[char], len: usize) -> (r: Option<Vec<char>>)
    ensures
        match r {
            Some(key) => len <= value@.len() && key@ == value@.subrange(0, len as int),
            None => len > value@.len(),
        },
{
    if len > value.len() {
        return None;
    }
    let mut key: Vec<char> = Vec::new();
    let mut i: usize = 0;
    while i < len
        invariant
            i <= len <= value@.len(),
            key@ == value@.subrange(0, i as int),
        decreases len - i,
    {
        key.push(value[i]);
        i = i + 1;
        assert(key@ =~= value@.subrange(0, i as int));
    }
    Some(key)
}

/// Distinct keys, exactly those that pass a test.
pub open spec fn exactly(keys: Seq<Seq<char>>, test: spec_fn(Seq<char>) -> bool) -> bool {
    &&& keys.no_duplicates()
    &&& forall|key: Seq<char>| keys.contains(key) <==> #[trigger] test(key)
}

fn boundary_keys(name: &str) -> (r: Vec<Vec<char>>)
    ensures
        exactly(line_views(r@), |key: Seq<char>| is_boundary_key(name@, key)),
{
    let chars = chars_of(name);
    let lower = lower_chars(&chars);
    let bytes = name.as_bytes();
    let mut keys: Vec<Vec<char>> = Vec::new();
    let ghost below = |key: Seq<char>, m: int|
        exists|i: int, n: int|
            i < m && #[trigger] boundary_key_at(name@, i, n) && key == lowered(name@).subrange(
                i,
                i + n,
            );
    let total: usize = bytes.len();
    let mut offset: usize = 0;
    let mut i: usize = 0;
    assert(line_views(keys@) =~= Seq::empty());
    while i < chars.len()
        invariant
            total == bytes@.len(),
            chars@ == name@,
            lower@ == lowered(name@),
            lower@.len() == chars@.len(),
            bytes@ == encode_utf8(name@),
            i <= chars@.len(),
            offset == utf8_offset(name@, i as int),
            below == (|key: Seq<char>, m: int|
                exists|i: int, n: int|
                    i < m && #[trigger] boundary_key_at(name@, i, n) && key == lowered(
                        name@,
                    ).subrange(i, i + n)),
            line_views(keys@).no_duplicates(),
            forall|key: Seq<char>|
                line_views(keys@).contains(key) <==> #[trigger] below(key, i as int),
        decreases chars@.len() - i,
    {
        proof {
            utf8_offset_is_byte_offset(name@, i + 1);
        }
        let ghost before = line_views(keys@);
        let boundary = is_boundary(bytes, offset);
        let tail = vstd::slice::slice_subrange(lower.as_slice(), i, lower.len());
        let mut one: Option<Vec<char>> = None;
        let mut two: Option<Vec<char>> = None;
        if boundary {
            one = leading_chars(tail, 1);
            two = leading_chars(tail, 2);
        }
        match one {
            Some(key) => {
                assert(key@ =~= lowered(name@).subrange(i as int, i + 1));
                push_fresh(&mut keys, key);
            },
            None => {},
        }
        let ghost middle = line_views(keys@);
        match two {
            Some(key) => {
                assert(key@ =~= lowered(name@).subrange(i as int, i + 2));
                push_fresh(&mut keys, key);
            },
            None => {},
        }
        proof {
            let now = line_views(keys@);
            let low = lowered(name@);
            let a = low.subrange(i as int, i + 1);
            let b = low.subrange(i as int, i + 2);
            grown_by_two(before, middle, now, a, b, boundary, boundary && i + 2 <= low.len());
            assert forall|key: Seq<char>|
                now.contains(key) <==> #[trigger] below(key, i + 1) by {
                if below(key, i as int) {
                    let (j, n) = choose|j: int, n: int|
                        j < i && #[trigger] boundary_key_at(name@, j, n) && key == low.subrange(
                            j,
                            j + n,
                        );
                    assert(boundary_key_at(name@, j, n));
                }
                if boundary && key == a {
                    assert(boundary_key_at(name@, i as int, 1));
                }
                if boundary && i + 2 <= low.len() && key == b {
                    assert(boundary_key_at(name@, i as int, 2));
                }
                if below(key, i + 1) {
                    let (j, n) = choose|j: int, n: int|
                        j < i + 1 && #[trigger] boundary_key_at(name@, j, n) && key
                            == low.subrange(j, j + n);
                    if j < i {
                        assert(below(key, i as int));
                    }
                }
            }
        }
        offset = offset + utf8_len(chars[i]);
        i = i + 1;
    }
    proof {
        let all = line_views(keys@);
        assert forall|key: Seq<char>|
            all.contains(key) <==> #[trigger] is_boundary_key(name@, key) by {
            if is_boundary_key(name@, key) {
                let (j, n) = choose|j: int, n: int| #[trigger]
                    boundary_key_at(name@, j, n) && key == lowered(name@).subrange(j, j + n);
                assert(below(key, i as int));
            }
            assert(all.contains(key) <==> below(key, i as int));
        }
    }
    keys
}

/// What adding up to two keys does to a sequence of keys.
proof fn grown_by_two(
    before: Seq<Seq<char>>,
    middle: Seq<Seq<char>>,
    now: Seq<Seq<char>>,
    a: Seq<char>,
    b: Seq<char>,
    first: bool,
    second: bool,
)
    requires
        before.no_duplicates(),
        middle == (if first && !before.contains(a) {
            before.push(a)
        } else {
            before
        }),
        now == (if second && !middle.contains(b) {
            middle.push(b)
        } else {
            middle
        }),
    ensures
        now.no_duplicates(),
        forall|key: Seq<char>| #[trigger]
            now.contains(key) <==> before.contains(key) || (first && key == a) || (second && key
                == b),
{
    assert forall|key: Seq<char>|
        middle.contains(key) <==> before.contains(key) || (first && key == a) by {
        if first && !before.contains(a) {
            pushed_contains(before, a, key);
        }
    }
    assert forall|key: Seq<char>| #[trigger]
        now.contains(key) <==> before.contains(key) || (first && key == a) || (second && key
            == b) by {
        assert(middle.contains(key) <==> before.contains(key) || (first && key == a));
        if second && !middle.contains(b) {
            pushed_contains(middle, b, key);
        }
    }
}

proof fn pushed_contains(s: Seq<Seq<char>>, x: Seq<char>, y: Seq<char>)
    ensures
        s.push(x).contains(y) <==> s.contains(y) || x == y,
{
    if s.contains(y) {
        let k = choose|k: int| 0 <= k < s.len() && s[k] == y;
        assert(s.push(x)[k] == y);
    }
    assert(s.push(x)[s.len() as int] == x);
}

fn substring_keys(name: &str) -> (r: Vec<Vec<char>>)
    ensures
        exactly(line_views(r@), |key: Seq<char>| is_substring_key(name@, key)),
{
    let lower = lower_chars(&chars_of(name));
    let len: usize = lower.len();
    let mut keys: Vec<Vec<char>> = Vec::new();
    let ghost low = lowered(name@);
    let mut i: usize = 0;
    assert(line_views(keys@) =~= Seq::empty());
    while len >= SUBSTRING_KEY_LEN && i <= len - SUBSTRING_KEY_LEN
        invariant
            lower@ == low,
            len == low.len(),
            len < SUBSTRING_KEY_LEN ==> i == 0,
            len >= SUBSTRING_KEY_LEN ==> i <= len - SUBSTRING_KEY_LEN + 1,
            line_views(keys@).no_duplicates(),
            forall|key: Seq<char>|
                line_views(keys@).contains(key) <==> #[trigger] substring_below(
                    low,
                    key,
                    i as int,
                ),
        decreases len + 1 - i,
    {
        let ghost before = line_views(keys@);
        let mut key: Vec<char> = Vec::new();
        key.push(lower[i]);
        key.push(lower[i + 1]);
        key.push(lower[i + 2]);
        let ghost k = key@;
        assert(k =~= low.subrange(i as int, i + 3));
        push_fresh(&mut keys, key);
        proof {
            let now = line_views(keys@);
            grown_by_two(before, now, now, k, k, true, false);
            assert forall|x: Seq<char>|
                now.contains(x) <==> #[trigger] substring_below(low, x, i + 1) by {
                assert(before.contains(x) <==> substring_below(low, x, i as int));
                if substring_below(low, x, i as int) {
                    let j = choose|j: int|
                        0 <= j < i && x == #[trigger] low.subrange(j, j + SUBSTRING_KEY_LEN);
                    assert(x == low.subrange(j, j + SUBSTRING_KEY_LEN));
                }
                if x == k {
                    assert(x == low.subrange(i as int, i + SUBSTRING_KEY_LEN));
                }
                if substring_below(low, x, i + 1) {
                    let j = choose|j: int|
                        0 <= j < i + 1 && x == #[trigger] low.subrange(j, j + SUBSTRING_KEY_LEN);
                    if j < i {
                        assert(substring_below(low, x, i as int));
                    }
                }
            }
        }
        i = i + 1;
    }
    proof {
        let all = line_views(keys@);
        assert forall|key: Seq<char>|
            all.contains(key) <==> #[trigger] is_substring_key(name@, key) by {
            assert(all.contains(key) <==> substring_below(low, key, i as int));
            if is_substring_key(name@, key) {
                let j = choose|j: int|
                    0 <= j <= name@.len() - SUBSTRING_KEY_LEN && key
                        == #[trigger] low.subrange(j, j + SUBSTRING_KEY_LEN);
                assert(substring_below(low, key, i as int));
            }
            if substring_below(low, key, i as int) {
                let j = choose|j: int|
                    0 <= j < i && key == #[trigger] low.subrange(j, j + SUBSTRING_KEY_LEN);
                assert(key == low.subrange(j, j + SUBSTRING_KEY_LEN));
            }
        }
    }
    keys
}

spec fn substring_below(low: Seq<char>, key: Seq<char>, m: int) -> bool {
    exists|i: int| 0 <= i < m && key == #[trigger] low.subrange(i, i + SUBSTRING_KEY_LEN)
}

proof fn full_third(s: Seq<char>, a: int, b: int, c: int, keys: Seq<Seq<char>>)
    requires
        keys.len() >= SUBSEQUENCE_KEYS_PER_ENTRY_LIMIT,
    ensures
        third_keys(s, a, b, c, keys) == keys,
    decreases s.len() - c,
{
    if c < s.len() {
        full_third(s, a, b, c + 1, keys);
    }
}

proof fn full_second(s: Seq<char>, a: int, b: int, keys: Seq<Seq<char>>)
    requires
        keys.len() >= SUBSEQUENCE_KEYS_PER_ENTRY_LIMIT,
    ensures
        second_keys(s, a, b, keys) == keys,
    decreases s.len() - b,
{
    if b + 1 < s.len() {
        full_third(s, a, b, b + 1, keys);
        full_second(s, a, b + 1, keys);
    }
}

proof fn full_first(s: Seq<char>, a: int, keys: Seq<Seq<char>>)
    requires
        keys.len() >= SUBSEQUENCE_KEYS_PER_ENTRY_LIMIT,
    ensures
        first_keys(s, a, keys) == keys,
    decreases s.len() - a,
{
    if a + 2 < s.len() {
        full_second(s, a, a + 1, keys);
        full_first(s, a + 1, keys);
    }
}

/// The subsequence keys of a name; nothing is looked for once they are enough.
fn list_subsequence_keys(name: &str) -> (r: Vec<Vec<char>>)
    ensures
        line_views(r@) == subsequence_keys(name@),
        line_views(r@).no_duplicates(),
{
    let lower = lower_chars(&chars_of(name));
    let whole: usize = lower.len();
    let len: usize = if whole > SUBSEQUENCE_SOURCE_CHAR_LIMIT {
        SUBSEQUENCE_SOURCE_CHAR_LIMIT
    } else {
        whole
    };
    let s = vstd::slice::slice_subrange(lower.as_slice(), 0, len);
    assert(s@ =~= subsequence_source(name@));
    let mut keys: Vec<Vec<char>> = Vec::new();
    assert(line_views(keys@) =~= Seq::empty());
    let mut a: usize = 0;
    while a + 2 < len && keys.len() < SUBSEQUENCE_KEYS_PER_ENTRY_LIMIT
        invariant
            len == s@.len(),
            len <= SUBSEQUENCE_SOURCE_CHAR_LIMIT,
            a <= len,
            line_views(keys@).no_duplicates(),
            first_keys(s@, 0, Seq::empty()) == first_keys(s@, a as int, line_views(keys@)),
        decreases len - a,
    {
        let ghost entry = line_views(keys@);
        let mut b: usize = a + 1;
        while b + 1 < len && keys.len() < SUBSEQUENCE_KEYS_PER_ENTRY_LIMIT
            invariant
                len == s@.len(),
                len <= SUBSEQUENCE_SOURCE_CHAR_LIMIT,
                a < b <= len,
                line_views(keys@).no_duplicates(),
                second_keys(s@, a as int, a + 1, entry) == second_keys(
                    s@,
                    a as int,
                    b as int,
                    line_views(keys@),
                ),
            decreases len - b,
        {
            let ghost start = line_views(keys@);
            let mut c: usize = b + 1;
            while c < len && keys.len() < SUBSEQUENCE_KEYS_PER_ENTRY_LIMIT
                invariant
                    len == s@.len(),
                    a < b < c <= len,
                    line_views(keys@).no_duplicates(),
                    third_keys(s@, a as int, b as int, b + 1, start) == third_keys(
                        s@,
                        a as int,
                        b as int,
                        c as int,
                        line_views(keys@),
                    ),
                decreases len - c,
            {
                let ghost before = line_views(keys@);
                assert(before.len() == keys@.len());
                let mut key: Vec<char> = Vec::new();
                key.push(s[a]);
                key.push(s[b]);
                key.push(s[c]);
                let ghost k = key@;
                assert(k =~= triple(s@, a as int, b as int, c as int));
                push_fresh(&mut keys, key);
                proof {
                    let now = line_views(keys@);
                    grown_by_two(before, now, now, k, k, true, false);
                }
                c = c + 1;
            }
            proof {
                if c < len {
                    full_third(s@, a as int, b as int, c as int, line_views(keys@));
                }
            }
            b = b + 1;
        }
        proof {
            if b + 1 < len {
                full_second(s@, a as int, b as int, line_views(keys@));
            }
        }
        a = a + 1;
    }
    proof {
        if a + 2 < len {
            full_first(s@, a as int, line_views(keys@));
        }
    }
    keys
}

// ---------------------------------------------------------------------------
// Lists by key

/// Numbers filed under texts.
pub struct KeyLists {
    pub keys: TextIndex,
    pub lists: Vec<Vec<usize>>,
}

impl KeyLists {
    pub open spec fn wf(self) -> bool {
        self.keys.wf() && self.lists@.len() == self.keys@.len()
    }

    pub open spec fn list(self, key: Seq<char>) -> Seq<usize> {
        if self.keys@.contains(key) {
            self.lists@[self.keys@.index_of(key)]@
        } else {
            Seq::empty()
        }
    }

    pub fn new() -> (r: KeyLists)
        ensures
            r.wf(),
            forall|key: Seq<char>| #[trigger] r.list(key) == Seq::<usize>::empty(),
    {
        KeyLists { keys: TextIndex::new(), lists: Vec::new() }
    }

    /// The numbers under a key.
    pub fn get(&self, key: &str) -> (r: Option<&Vec<usize>>)
        requires
            self.wf(),
        ensures
            match r {
                Some(list) => self.keys@.contains(key@) && list@ == self.list(key@),
                None => !self.keys@.contains(key@),
            },
    {
        match self.keys.find(key) {
            Some(i) => {
                proof {
                    place_of(self.keys@, i as int);
                }
                Some(&self.lists[i])
            },
            None => None,
        }
    }

    /// File a number under a key.
    pub fn file_under(&mut self, key: &str, id: usize)
        requires
            old(self).wf(),
        ensures
            final(self).wf(),
            final(self).list(key@) == old(self).list(key@).push(id),
            forall|other: Seq<char>|
                other != key@ ==> #[trigger] final(self).list(other) == old(self).list(other),
    {
        let ghost before = *self;
        let fresh = !self.keys.contains(key);
        let at: usize = self.keys.intern(key);
        if fresh {
            self.lists.push(Vec::new());
        }
        let ghost lists = self.lists@;
        self.lists[at].push(id);
        proof {
            let keys = self.keys@;
            place_of(keys, at as int);
            if !fresh {
                place_of(before.keys@, at as int);
            }
            assert forall|other: Seq<char>| other != key@ implies #[trigger] self.list(other)
                == before.list(other) by {
                if before.keys@.contains(other) {
                    let k = choose|k: int| 0 <= k < before.keys@.len() && before.keys@[k] == other;
                    place_of(before.keys@, k);
                    assert(keys[k] == other);
                    place_of(keys, k);
                    assert(k != at);
                } else {
                    if keys.contains(other) {
                        let k = choose|k: int| 0 <= k < keys.len() && keys[k] == other;
                        assert(k != at);
                        assert(before.keys@[k] == other);
                    }
                }
            }
        }
    }

    /// File a number under several distinct keys.
    fn file_under_all(&mut self, keys: &Vec<Vec<char>>, id: usize)
        requires
            old(self).wf(),
            line_views(keys@).no_duplicates(),
        ensures
            final(self).wf(),
            forall|key: Seq<char>| #[trigger]
                final(self).list(key) == (if line_views(keys@).contains(key) {
                    old(self).list(key).push(id)
                } else {
                    old(self).list(key)
                }),
    {
        let ghost start = *self;
        let ghost all = line_views(keys@);
        let mut i: usize = 0;
        while i < keys.len()
            invariant
                i <= keys@.len(),
                all == line_views(keys@),
                all.no_duplicates(),
                self.wf(),
                forall|key: Seq<char>| #[trigger]
                    self.list(key) == (if all.subrange(0, i as int).contains(key) {
                        start.list(key).push(id)
                    } else {
                        start.list(key)
                    }),
            decreases keys@.len() - i,
        {
            let ghost before = *self;
            let ghost done = all.subrange(0, i as int);
            let ghost k = keys@[i as int]@;
            let text = string_of(&keys[i]);
            self.file_under(text.as_str(), id);
            proof {
                assert(all[i as int] == k);
                assert(all.subrange(0, i + 1) =~= done.push(k));
                assert(!done.contains(k)) by {
                    if done.contains(k) {
                        let j = choose|j: int| 0 <= j < done.len() && done[j] == k;
                        assert(all[j] == all[i as int]);
                    }
                }
                assert forall|key: Seq<char>| #[trigger] self.list(key) == (if all.subrange(
                    0,
                    i + 1,
                ).contains(key) {
                    start.list(key).push(id)
                } else {
                    start.list(key)
                }) by {
                    pushed_contains(done, k, key);
                    assert(before.list(key) == (if done.contains(key) {
                        start.list(key).push(id)
                    } else {
                        start.list(key)
                    }));
                }
            }
            i = i + 1;
        }
        assert(all.subrange(0, i as int) =~= all);
    }
}

proof fn place_of(keys: Seq<Seq<char>>, i: int)
    requires
        keys.no_duplicates(),
        0 <= i < keys.len(),
    ensures
        keys.contains(keys[i]),
        keys.index_of(keys[i]) == i,
{
}

// ---------------------------------------------------------------------------
// The index

/// Names by recall key, by path and by project.
pub struct NameRecallIndex {
    /// Short prefixes at word boundaries.
    pub boundary_prefix: KeyLists,
    /// Substrings of three characters.
    pub substring3: KeyLists,
    /// Subsequences of three characters.
    pub subsequence3: KeyLists,
    pub by_path: KeyLists,
    pub projects: Vec<ProjectKey>,
    pub by_project: Vec<Vec<usize>>,
}

/// The list of a project, from `i` on.
pub open spec fn project_list_from(
    projects: Seq<ProjectKey>,
    lists: Seq<Vec<usize>>,
    key: Key,
    i: int,
) -> Seq<usize>
    decreases projects.len() - i,
{
    if i < 0 || i >= projects.len() {
        Seq::empty()
    } else if projects[i]@ == key {
        lists[i]@
    } else {
        project_list_from(projects, lists, key, i + 1)
    }
}

pub open spec fn boundary_test(entries: Seq<NameEntry>, key: Seq<char>) -> spec_fn(int) -> bool {
    |i: int| is_boundary_key(entries[i].name@, key)
}

pub open spec fn substring_test(entries: Seq<NameEntry>, key: Seq<char>) -> spec_fn(int) -> bool {
    |i: int| is_substring_key(entries[i].name@, key)
}

pub open spec fn subsequence_test(entries: Seq<NameEntry>, key: Seq<char>) -> spec_fn(
    int,
) -> bool {
    |i: int| subsequence_keys(entries[i].name@).contains(key)
}

pub open spec fn path_test(entries: Seq<NameEntry>, path: Seq<char>) -> spec_fn(int) -> bool {
    |i: int| entries[i].path@ == path
}

pub open spec fn project_test(entries: Seq<NameEntry>, key: Key) -> spec_fn(int) -> bool {
    |i: int| opt_key(entries[i].project_key) == Some(key)
}

impl NameRecallIndex {
    pub open spec fn project_list(self, key: Key) -> Seq<usize> {
        project_list_from(self.projects@, self.by_project@, key, 0)
    }

    /// This is the index of the first `n` entries.
    pub open spec fn describes(self, entries: Seq<NameEntry>, n: int) -> bool {
        &&& self.boundary_prefix.wf()
        &&& self.substring3.wf()
        &&& self.subsequence3.wf()
        &&& self.by_path.wf()
        &&& self.projects@.len() == self.by_project@.len()
        &&& forall|key: Seq<char>| #[trigger]
            self.boundary_prefix.list(key) == slots_where(boundary_test(entries, key), n)
        &&& forall|key: Seq<char>| #[trigger]
            self.substring3.list(key) == slots_where(substring_test(entries, key), n)
        &&& forall|key: Seq<char>| #[trigger]
            self.subsequence3.list(key) == slots_where(subsequence_test(entries, key), n)
        &&& forall|path: Seq<char>| #[trigger]
            self.by_path.list(path) == slots_where(path_test(entries, path), n)
        &&& forall|key: Key| #[trigger]
            self.project_list(key) == slots_where(project_test(entries, key), n)
    }

    /// Index entries by their numbers.
    pub fn build(entries: &[NameEntry]) -> (r: NameRecallIndex)
        ensures
            r.describes(entries@, entries@.len() as int),
    {
        let mut r = NameRecallIndex {
            boundary_prefix: KeyLists::new(),
            substring3: KeyLists::new(),
            subsequence3: KeyLists::new(),
            by_path: KeyLists::new(),
            projects: Vec::new(),
            by_project: Vec::new(),
        };
        let mut i: usize = 0;
        while i < entries.len()
            invariant
                i <= entries@.len(),
                r.describes(entries@, i as int),
            decreases entries@.len() - i,
        {
            let ghost before = r;
            let entry = &entries[i];
            let boundary = boundary_keys(entry.name.as_str());
            r.boundary_prefix.file_under_all(&boundary, i);
            let substrings = substring_keys(entry.name.as_str());
            r.substring3.file_under_all(&substrings, i);
            let subsequences = list_subsequence_keys(entry.name.as_str());
            r.subsequence3.file_under_all(&subsequences, i);
            r.by_path.file_under(entry.path.as_str(), i);
            match &entry.project_key {
                Some(key) => {
                    r.file_project(key, i);
                },
                None => {},
            }
            proof {
                let name = entries@[i as int].name@;
                assert forall|key: Seq<char>| #[trigger]
                    r.boundary_prefix.list(key) == slots_where(
                        boundary_test(entries@, key),
                        i + 1,
                    ) by {
                    assert(before.boundary_prefix.list(key) == slots_where(
                        boundary_test(entries@, key),
                        i as int,
                    ));
                    let test = |k: Seq<char>| is_boundary_key(name, k);
                    assert(line_views(boundary@).contains(key) <==> test(key));
                }
                assert forall|key: Seq<char>| #[trigger]
                    r.substring3.list(key) == slots_where(
                        substring_test(entries@, key),
                        i + 1,
                    ) by {
                    assert(before.substring3.list(key) == slots_where(
                        substring_test(entries@, key),
                        i as int,
                    ));
                    let test = |k: Seq<char>| is_substring_key(name, k);
                    assert(line_views(substrings@).contains(key) <==> test(key));
                }
                assert forall|key: Seq<char>| #[trigger]
                    r.subsequence3.list(key) == slots_where(
                        subsequence_test(entries@, key),
                        i + 1,
                    ) by {
                    assert(before.subsequence3.list(key) == slots_where(
                        subsequence_test(entries@, key),
                        i as int,
                    ));
                }
                assert forall|path: Seq<char>| #[trigger]
                    r.by_path.list(path) == slots_where(path_test(entries@, path), i + 1) by {
                    assert(before.by_path.list(path) == slots_where(
                        path_test(entries@, path),
                        i as int,
                    ));
                }
                assert forall|key: Key| #[trigger]
                    r.project_list(key) == slots_where(project_test(entries@, key), i + 1) by {
                    assert(before.project_list(key) == slots_where(
                        project_test(entries@, key),
                        i as int,
                    ));
                }
            }
            i = i + 1;
        }
        r
    }

    /// File an entry under its project.
    fn file_project(&mut self, key: &ProjectKey, id: usize)
        requires
            old(self).projects@.len() == old(self).by_project@.len(),
        ensures
            final(self).boundary_prefix == old(self).boundary_prefix,
            final(self).substring3 == old(self).substring3,
            final(self).subsequence3 == old(self).subsequence3,
            final(self).by_path == old(self).by_path,
            final(self).projects@.len() == final(self).by_project@.len(),
            final(self).project_list(key@) == old(self).project_list(key@).push(id),
            forall|other: Key|
                other != key@ ==> #[trigger] final(self).project_list(other) == old(
                    self,
                ).project_list(other),
    {
        let ghost before = *self;
        let mut i: usize = 0;
        while i < self.projects.len()
            invariant
                i <= self.projects@.len(),
                self.projects@.len() == self.by_project@.len(),
                *self == before,
                before == *old(self),
                self.project_list(key@) == project_list_from(
                    self.projects@,
                    self.by_project@,
                    key@,
                    i as int,
                ),
                forall|k: int| 0 <= k < i ==> (#[trigger] self.projects@[k])@ != key@,
            decreases self.projects@.len() - i,
        {
            if same_project(&self.projects[i], key) {
                self.by_project[i].push(id);
                proof {
                    let (p, a, b) = (self.projects@, before.by_project@, self.by_project@);
                    updated_list(p, a, b, key@, i as int, 0, id);
                    assert forall|other: Key| other != key@ implies #[trigger] self.project_list(
                        other,
                    ) == before.project_list(other) by {
                        untouched_list(p, a, b, other, i as int, 0);
                    }
                }
                return;
            }
            i = i + 1;
        }
        let mut list: Vec<usize> = Vec::new();
        list.push(id);
        let ghost one = list@;
        self.projects.push(key.clone());
        self.by_project.push(list);
        proof {
            assert(one =~= Seq::<usize>::empty().push(id));
            extended_list(before.projects@, before.by_project@, *self, key@, 0);
            assert forall|other: Key| other != key@ implies #[trigger] self.project_list(other)
                == before.project_list(other) by {
                extended_list(before.projects@, before.by_project@, *self, other, 0);
            }
        }
    }
}

proof fn updated_list(
    projects: Seq<ProjectKey>,
    a: Seq<Vec<usize>>,
    b: Seq<Vec<usize>>,
    key: Key,
    at: int,
    i: int,
    id: usize,
)
    requires
        0 <= i <= at < projects.len(),
        projects.len() == a.len() == b.len(),
        projects[at]@ == key,
        forall|k: int| 0 <= k < at ==> (#[trigger] projects[k])@ != key,
        b[at]@ == a[at]@.push(id),
    ensures
        project_list_from(projects, b, key, i) == project_list_from(projects, a, key, i).push(id),
    decreases at - i,
{
    if i < at {
        assert(projects[i]@ != key);
        updated_list(projects, a, b, key, at, i + 1, id);
    }
}

proof fn untouched_list(
    projects: Seq<ProjectKey>,
    a: Seq<Vec<usize>>,
    b: Seq<Vec<usize>>,
    key: Key,
    at: int,
    i: int,
)
    requires
        0 <= i,
        0 <= at < projects.len(),
        projects.len() == a.len() == b.len(),
        projects[at]@ != key,
        forall|k: int| 0 <= k < a.len() && k != at ==> a[k] == b[k],
    ensures
        project_list_from(projects, b, key, i) == project_list_from(projects, a, key, i),
    decreases projects.len() - i,
{
    if i < projects.len() {
        untouched_list(projects, a, b, key, at, i + 1);
    }
}

/// A list after one more project was added at the end.
proof fn extended_list(
    projects: Seq<ProjectKey>,
    lists: Seq<Vec<usize>>,
    after: NameRecallIndex,
    key: Key,
    i: int,
)
    requires
        0 <= i <= projects.len(),
        projects.len() == lists.len(),
        after.projects@.len() == projects.len() + 1,
        after.by_project@.len() == lists.len() + 1,
        forall|k: int| 0 <= k < projects.len() ==> after.projects@[k] == projects[k],
        forall|k: int| 0 <= k < lists.len() ==> after.by_project@[k] == lists[k],
    ensures
        project_list_from(after.projects@, after.by_project@, key, i) == (if (forall|k: int|
            i <= k < projects.len() ==> (#[trigger] projects[k])@ != key) && after.projects@[projects.len() as int]@
            == key {
            after.by_project@[projects.len() as int]@
        } else {
            project_list_from(projects, lists, key, i)
        }),
    decreases projects.len() - i,
{
    reveal_with_fuel(project_list_from, 2);
    if i < projects.len() {
        extended_list(projects, lists, after, key, i + 1);
        assert(after.projects@[i] == projects[i]);
        if forall|k: int| i + 1 <= k < projects.len() ==> (#[trigger] projects[k])@ != key {
            if projects[i]@ != key {
                assert forall|k: int| i <= k < projects.len() implies (
                #[trigger] projects[k])@ != key by {}
            }
        } else {
            let k = choose|k: int| i + 1 <= k < projects.len() && (#[trigger] projects[k])@ == key;
            assert(projects[k]@ == key);
        }
    }
}

// ---------------------------------------------------------------------------
// Taking

/// `out` and the first of `list` not in it, up to `cap` of them, from `i` on.
pub open spec fn with_new(
    out: Seq<usize>,
    list: Seq<usize>,
    cap: Option<usize>,
    taken: int,
    i: int,
) -> Seq<usize>
    decreases list.len() - i,
{
    if i < 0 || i >= list.len() {
        out
    } else if out.contains(list[i]) {
        with_new(out, list, cap, taken, i + 1)
    } else if cap is Some && taken + 1 >= cap->0 {
        out.push(list[i])
    } else {
        with_new(out.push(list[i]), list, cap, taken + 1, i + 1)
    }
}

/// Add the numbers of `list` that are new to `out`, until `cap` were added; at
/// least one is added where there is one.
pub fn add_indices(list: &[usize], cap: Option<usize>, out: &mut Vec<usize>)
    ensures
        final(out)@ == with_new(old(out)@, list@, cap, 0, 0),
{
    let mut taken: usize = 0;
    let mut i: usize = 0;
    while i < list.len()
        invariant
            taken <= i <= list@.len(),
            with_new(old(out)@, list@, cap, 0, 0) == with_new(
                out@,
                list@,
                cap,
                taken as int,
                i as int,
            ),
        decreases list@.len() - i,
    {
        if !holds_number(out, list[i]) {
            out.push(list[i]);
            taken = taken + 1;
            match cap {
                Some(limit) => {
                    if taken >= limit {
                        return;
                    }
                },
                None => {},
            }
        }
        i = i + 1;
    }
}

fn holds_number(list: &Vec<usize>, n: usize) -> (r: bool)
    ensures
        r == list@.contains(n),
{
    let mut i: usize = 0;
    while i < list.len()
        invariant
            i <= list@.len(),
            forall|k: int| 0 <= k < i ==> list@[k] != n,
        decreases list@.len() - i,
    {
        if list[i] == n {
            return true;
        }
        i = i + 1;
    }
    false
}

// ---------------------------------------------------------------------------
// Seeds

/// Smallest number of candidates that a recall looks at.
pub const COMPLETION_RECALL_CANDIDATE_MIN_CAP: usize = 512;

/// How many candidates a recall looks at for its total.
pub open spec fn candidate_cap(total: int) -> int {
    let wide = sat_prod(total, 16);
    if wide > COMPLETION_RECALL_CANDIDATE_MIN_CAP {
        wide
    } else {
        COMPLETION_RECALL_CANDIDATE_MIN_CAP as int
    }
}

pub fn completion_recall_candidate_cap(quotas: CompletionRecallQuotas) -> (r: usize)
    ensures
        r == candidate_cap(quotas.total_indexed as int),
{
    let wide: usize = match quotas.total_indexed.checked_mul(16) {
        Some(n) => n,
        None => usize::MAX,
    };
    if wide > COMPLETION_RECALL_CANDIDATE_MIN_CAP {
        wide
    } else {
        COMPLETION_RECALL_CANDIDATE_MIN_CAP
    }
}

/// Numbers that were taken, and how many of them by the current source.
pub struct Seeds {
    pub out: Seq<usize>,
    pub taken: int,
}

/// Take the new numbers of `list`, from `i` on, whose names match, until `cap`
/// were taken.
pub open spec fn seeded(
    s: Seeds,
    entries: Seq<NameEntry>,
    needle: Seq<u8>,
    list: Seq<usize>,
    cap: int,
    i: int,
) -> Seeds
    decreases list.len() - i,
{
    if i < 0 || i >= list.len() || s.taken >= cap {
        s
    } else if s.out.contains(list[i]) || match_score(needle, entries[list[i] as int].name@) is None {
        seeded(s, entries, needle, list, cap, i + 1)
    } else {
        seeded(
            Seeds { out: s.out.push(list[i]), taken: s.taken + 1 },
            entries,
            needle,
            list,
            cap,
            i + 1,
        )
    }
}

fn add_matching_indices(
    entries: &[NameEntry],
    needle: &[u8],
    list: &[usize],
    cap: usize,
    out: &mut Vec<usize>,
    taken: &mut usize,
)
    requires
        forall|k: int| 0 <= k < list@.len() ==> (#[trigger] list@[k]) < entries@.len(),
        *old(taken) <= cap,
    ensures
        seeded(
            (Seeds { out: old(out)@, taken: *old(taken) as int }),
            entries@,
            needle@,
            list@,
            cap as int,
            0,
        ) == (Seeds { out: final(out)@, taken: *final(taken) as int }),
        *final(taken) <= cap,
{
    let ghost want = seeded(
        Seeds { out: out@, taken: *taken as int },
        entries@,
        needle@,
        list@,
        cap as int,
        0,
    );
    let mut i: usize = 0;
    while i < list.len() && *taken < cap
        invariant
            i <= list@.len(),
            forall|k: int| 0 <= k < list@.len() ==> (#[trigger] list@[k]) < entries@.len(),
            *taken <= cap,
            want == seeded(
                Seeds { out: out@, taken: *taken as int },
                entries@,
                needle@,
                list@,
                cap as int,
                i as int,
            ),
        decreases list@.len() - i,
    {
        let id: usize = list[i];
        if !holds_number(out, id) && name_matches(needle, entries[id].name.as_str()) {
            out.push(id);
            *taken = *taken + 1;
        }
        i = i + 1;
    }
}

/// Take from the lists of the first `n` paths.
pub open spec fn seeded_paths(
    s: Seeds,
    index: NameRecallIndex,
    entries: Seq<NameEntry>,
    needle: Seq<u8>,
    paths: Seq<Seq<char>>,
    cap: int,
    n: int,
) -> Seeds
    decreases n,
{
    if n <= 0 {
        s
    } else {
        seeded(
            seeded_paths(s, index, entries, needle, paths, cap, n - 1),
            entries,
            needle,
            index.by_path.list(paths[n - 1]),
            cap,
            0,
        )
    }
}

/// The current file of a scope, if it is known, then the files it reaches.
pub open spec fn scope_paths(scope: CompletionScope) -> Seq<Seq<char>> {
    (match scope.current_path {
        Some(path) => seq![path@],
        None => Seq::empty(),
    }) + scope.reach.files.listed()
}

proof fn listed_in_range(test: spec_fn(int) -> bool, n: int)
    requires
        0 <= n <= usize::MAX,
    ensures
        forall|k: int|
            0 <= k < slots_where(test, n).len() ==> (#[trigger] slots_where(test, n)[k]) < n,
    decreases n,
{
    if n > 0 {
        listed_in_range(test, n - 1);
        let (short, list) = (slots_where(test, n - 1), slots_where(test, n));
        assert forall|k: int| 0 <= k < list.len() implies (#[trigger] list[k]) < n by {
            if k < short.len() {
                assert(list[k] == short[k]);
            }
        }
    }
}

impl NameRecallIndex {
    /// Take matching entries of one path.
    fn seed_path(
        &self,
        entries: &[NameEntry],
        needle: &[u8],
        path: &str,
        cap: usize,
        out: &mut Vec<usize>,
        taken: &mut usize,
    )
        requires
            self.describes(entries@, entries@.len() as int),
            *old(taken) <= cap,
        ensures
            (Seeds { out: final(out)@, taken: *final(taken) as int }) == seeded(
                Seeds { out: old(out)@, taken: *old(taken) as int },
                entries@,
                needle@,
                self.by_path.list(path@),
                cap as int,
                0,
            ),
            *final(taken) <= cap,
    {
        match self.by_path.get(path) {
            Some(list) => {
                let known: usize = entries.len();
                proof {
                    listed_in_range(path_test(entries@, path@), known as int);
                }
                add_matching_indices(entries, needle, list.as_slice(), cap, out, taken);
            },
            None => {},
        }
    }

    /// Take up to `cap` matching entries of the files that a scope knows.
    pub fn add_scope_seed_indices(
        &self,
        entries: &[NameEntry],
        needle: &[u8],
        scope: Option<&CompletionScope>,
        cap: usize,
        out: &mut Vec<usize>,
    )
        requires
            self.describes(entries@, entries@.len() as int),
        ensures
            final(out)@ == (match scope {
                Some(s) => seeded_paths(
                    Seeds { out: old(out)@, taken: 0 },
                    *self,
                    entries@,
                    needle@,
                    scope_paths(*s),
                    cap as int,
                    scope_paths(*s).len() as int,
                ).out,
                None => old(out)@,
            }),
    {
        let s = match scope {
            Some(s) => s,
            None => {
                return;
            },
        };
        let ghost paths = scope_paths(*s);
        let ghost start = Seeds { out: out@, taken: 0 };
        let mut taken: usize = 0;
        let ghost mut done: int = 0;
        match &s.current_path {
            Some(path) => {
                self.seed_path(entries, needle, path.as_str(), cap, out, &mut taken);
                proof {
                    done = 1;
                    assert(paths[0] == path@);
                    assert(seeded_paths(start, *self, entries@, needle@, paths, cap as int, 0)
                        == start);
                }
            },
            None => {},
        }
        let mut i: usize = 0;
        while i < s.reach.files.len()
            invariant
                self.describes(entries@, entries@.len() as int),
                i <= s.reach.files.listed().len(),
                paths == scope_paths(*s),
                done == (if s.current_path is Some {
                    1int
                } else {
                    0int
                }),
                taken <= cap,
                (Seeds { out: out@, taken: taken as int }) == seeded_paths(
                    start,
                    *self,
                    entries@,
                    needle@,
                    paths,
                    cap as int,
                    done + i,
                ),
            decreases s.reach.files.listed().len() - i,
        {
            let path = s.reach.files.path_at(i);
            assert(paths[done + i] == path@);
            self.seed_path(entries, needle, path, cap, out, &mut taken);
            i = i + 1;
        }
        assert(paths.len() == done + s.reach.files.listed().len());
    }

    /// Take up to `cap` matching entries of the active project.
    pub fn add_project_seed_indices(
        &self,
        entries: &[NameEntry],
        needle: &[u8],
        active_project: Option<&ProjectKey>,
        cap: usize,
        out: &mut Vec<usize>,
    )
        requires
            self.describes(entries@, entries@.len() as int),
        ensures
            final(out)@ == (match active_project {
                Some(key) => seeded(
                    Seeds { out: old(out)@, taken: 0 },
                    entries@,
                    needle@,
                    self.project_list(key@),
                    cap as int,
                    0,
                ).out,
                None => old(out)@,
            }),
    {
        let key = match active_project {
            Some(key) => key,
            None => {
                return;
            },
        };
        let mut i: usize = 0;
        while i < self.projects.len()
            invariant
                i <= self.projects@.len(),
                active_project is Some,
                key == active_project->0,
                self.describes(entries@, entries@.len() as int),
                self.project_list(key@) == project_list_from(
                    self.projects@,
                    self.by_project@,
                    key@,
                    i as int,
                ),
                out@ == old(out)@,
            decreases self.projects@.len() - i,
        {
            if same_project(&self.projects[i], key) {
                let known: usize = entries.len();
                proof {
                    assert(self.project_list(key@) == self.by_project@[i as int]@);
                    listed_in_range(project_test(entries@, key@), known as int);
                }
                let mut taken: usize = 0;
                add_matching_indices(
                    entries,
                    needle,
                    self.by_project[i].as_slice(),
                    cap,
                    out,
                    &mut taken,
                );
                return;
            }
            i = i + 1;
        }
    }
}

} // verus!
