//! What matches a query, and how well, told by the letters alone.

use vstd::prelude::*;
use vstd::utf8::encode_utf8;

use crate::chars::{byte_lower, bytes_lower, first_occurrence, occurs_at};
use crate::name_search::{initials_from, match_score, subsequence_from};

use crate::search_laws::match_is_subsequence;
use crate::text::{boundary_at, word_score};

verus! {

// ---------------------------------------------------------------------------
// Letters

/// `low` is `bytes` with its capital letters made small.
pub open spec fn is_made_small(bytes: Seq<u8>, low: Seq<u8>) -> bool {
    &&& low.len() == bytes.len()
    &&& forall|i: int|
        0 <= i < bytes.len() ==> #[trigger] low[i] == if 0x41 <= bytes[i] <= 0x5A {
            (bytes[i] + 32) as u8
        } else {
            bytes[i]
        }
}

/// `word` stands in `text` at byte `at`.
pub open spec fn reads_at(text: Seq<u8>, word: Seq<u8>, at: int) -> bool {
    &&& 0 <= at
    &&& at + word.len() <= text.len()
    &&& forall|k: int| 0 <= k < word.len() ==> text[at + k] == #[trigger] word[k]
}

/// `word` can be read off `text` at these places, in order.
pub open spec fn reads_along(text: Seq<u8>, word: Seq<u8>, places: Seq<int>) -> bool {
    &&& places.len() == word.len()
    &&& forall|k: int|
        0 <= k < word.len() ==> 0 <= #[trigger] places[k] < text.len() && text[places[k]] == word[k]
    &&& forall|j: int, k: int|
        0 <= j < k < word.len() ==> #[trigger] places[j] < #[trigger] places[k]
}

/// A word of a name begins here: at its start, behind an underscore, at a
/// capital behind a small letter, at a digit behind a letter.
pub open spec fn word_begins(bytes: Seq<u8>, i: int) -> bool {
    ||| i == 0
    ||| bytes[i - 1] == 0x5F && bytes[i] != 0x5F
    ||| (0x61 <= bytes[i - 1] <= 0x7A) && (0x41 <= bytes[i] <= 0x5A)
    ||| ((0x61 <= bytes[i - 1] <= 0x7A) || (0x41 <= bytes[i - 1] <= 0x5A)) && (0x30 <= bytes[i]
        <= 0x39)
}

pub proof fn made_small(bytes: Seq<u8>, low: Seq<u8>)
    requires
        is_made_small(bytes, low),
    ensures
        bytes_lower(bytes) == low,
{
    assert forall|i: int| 0 <= i < bytes.len() implies byte_lower(bytes[i]) == low[i] by {}
    assert(bytes_lower(bytes) =~= low);
}

proof fn same_place(text: Seq<u8>, word: Seq<u8>, at: int)
    ensures
        occurs_at(text, word, at) == reads_at(text, word, at),
{
    if reads_at(text, word, at) {
        assert(text.subrange(at, at + word.len()) =~= word);
    }
    if occurs_at(text, word, at) {
        let part = text.subrange(at, at + word.len());
        assert forall|k: int| 0 <= k < word.len() implies text[at + k] == #[trigger] word[k] by {
            assert(part[k] == text[at + k]);
        }
    }
}

proof fn first_place(text: Seq<u8>, word: Seq<u8>, from: int)
    requires
        0 <= from,
    ensures
        match first_occurrence(text, word, from) {
            Some(at) => {
                &&& from <= at
                &&& reads_at(text, word, at)
                &&& forall|k: int| from <= k < at ==> !#[trigger] reads_at(text, word, k)
            },
            None => forall|k: int| from <= k ==> !#[trigger] reads_at(text, word, k),
        },
    decreases text.len() - from + 1,
{
    same_place(text, word, from);
    if from + word.len() <= text.len() {
        if !occurs_at(text, word, from) {
            first_place(text, word, from + 1);
        }
    }
}

// ---------------------------------------------------------------------------
// Reading in order

spec fn reads_rest(
    text: Seq<u8>,
    word: Seq<u8>,
    q: int,
    places: Seq<int>,
    i: int,
) -> bool {
    &&& places.len() == word.len()
    &&& forall|k: int|
        q <= k < word.len() ==> i <= #[trigger] places[k] < text.len() && text[places[k]] == word[k]
    &&& forall|j: int, k: int|
        q <= j < k < word.len() ==> #[trigger] places[j] < #[trigger] places[k]
}

/// Reading greedily finds a way wherever there is one.
proof fn greedy_finds(text: Seq<u8>, word: Seq<u8>, q: int, places: Seq<int>, i: int)
    requires
        0 <= q <= word.len(),
        0 <= i,
        reads_rest(text, word, q, places, i),
    ensures
        subsequence_from(word, q, text, i),
    decreases text.len() - i,
{
    if q < word.len() {
        assert(i <= places[q] < text.len());
        if text[i] == word[q] {
            assert forall|k: int| q + 1 <= k < word.len() implies i + 1 <= #[trigger] places[k]
                < text.len() && text[places[k]] == word[k] by {
                assert(places[q] < places[k]);
            }
            greedy_finds(text, word, q + 1, places, i + 1);
        } else {
            assert forall|k: int| q <= k < word.len() implies i + 1 <= #[trigger] places[k]
                < text.len() && text[places[k]] == word[k] by {
                if k > q {
                    assert(places[q] < places[k]);
                }
            }
            greedy_finds(text, word, q, places, i + 1);
        }
    }
}

/// What reading greedily finds is a way.
proof fn greedy_is_way(text: Seq<u8>, word: Seq<u8>, q: int, i: int) -> (places: Seq<int>)
    requires
        0 <= q <= word.len(),
        0 <= i,
        subsequence_from(word, q, text, i),
    ensures
        reads_rest(text, word, q, places, i),
    decreases text.len() - i,
{
    if q >= word.len() {
        Seq::new(word.len(), |k: int| 0int)
    } else if text[i] == word[q] {
        let rest = greedy_is_way(text, word, q + 1, i + 1);
        let places = rest.update(q, i);
        assert forall|k: int| q <= k < word.len() implies i <= #[trigger] places[k] < text.len()
            && text[places[k]] == word[k] by {
            if k > q {
                assert(places[k] == rest[k]);
            }
        }
        assert forall|j: int, k: int| q <= j < k < word.len() implies #[trigger] places[j]
            < #[trigger] places[k] by {
            assert(places[k] == rest[k]);
            if j > q {
                assert(places[j] == rest[j]);
            }
        }
        places
    } else {
        greedy_is_way(text, word, q, i + 1)
    }
}

proof fn initials_find(
    orig: Seq<u8>,
    text: Seq<u8>,
    word: Seq<u8>,
    q: int,
    places: Seq<int>,
    i: int,
)
    requires
        0 <= q <= word.len(),
        0 <= i,
        reads_rest(text, word, q, places, i),
        forall|k: int| q <= k < word.len() ==> word_begins(orig, #[trigger] places[k]),
    ensures
        initials_from(word, q, orig, text, i),
    decreases text.len() - i,
{
    if q < word.len() {
        assert(i <= places[q] < text.len());
        assert(word_begins(orig, places[q]));
        if text[i] == word[q] && boundary_at(orig, i) {
            assert forall|k: int| q + 1 <= k < word.len() implies i + 1 <= #[trigger] places[k]
                < text.len() && text[places[k]] == word[k] by {
                assert(places[q] < places[k]);
            }
            initials_find(orig, text, word, q + 1, places, i + 1);
        } else {
            assert forall|k: int| q <= k < word.len() implies i + 1 <= #[trigger] places[k]
                < text.len() && text[places[k]] == word[k] by {
                if k > q {
                    assert(places[q] < places[k]);
                }
            }
            initials_find(orig, text, word, q, places, i + 1);
        }
    }
}

proof fn initials_are_way(orig: Seq<u8>, text: Seq<u8>, word: Seq<u8>, q: int, i: int) -> (places:
    Seq<int>)
    requires
        0 <= q <= word.len(),
        0 <= i,
        initials_from(word, q, orig, text, i),
    ensures
        reads_rest(text, word, q, places, i),
        forall|k: int| q <= k < word.len() ==> word_begins(orig, #[trigger] places[k]),
    decreases text.len() - i,
{
    if q >= word.len() {
        Seq::new(word.len(), |k: int| 0int)
    } else if text[i] == word[q] && boundary_at(orig, i) {
        let rest = initials_are_way(orig, text, word, q + 1, i + 1);
        let places = rest.update(q, i);
        assert forall|k: int| q <= k < word.len() implies i <= #[trigger] places[k] < text.len()
            && text[places[k]] == word[k] && word_begins(orig, places[k]) by {
            if k > q {
                assert(places[k] == rest[k]);
            }
        }
        assert forall|j: int, k: int| q <= j < k < word.len() implies #[trigger] places[j]
            < #[trigger] places[k] by {
            assert(places[k] == rest[k]);
            if j > q {
                assert(places[j] == rest[j]);
            }
        }
        places
    } else {
        initials_are_way(orig, text, word, q, i + 1)
    }
}

proof fn whole_way(text: Seq<u8>, word: Seq<u8>, places: Seq<int>)
    ensures
        reads_along(text, word, places) == reads_rest(text, word, 0, places, 0),
{
}

// ---------------------------------------------------------------------------
// Scores

/// A name matches a query exactly when the letters of the query can be read
/// off it in order, capital or small.
pub proof fn names_match_letter_by_letter(needle: Seq<u8>, name: Seq<char>, low: Seq<u8>)
    requires
        is_made_small(encode_utf8(name), low),
    ensures
        match_score(needle, name) is Some <==> exists|places: Seq<int>| #[trigger]
            reads_along(low, needle, places),
{
    made_small(encode_utf8(name), low);
    match_is_subsequence(needle, name);
    if subsequence_from(needle, 0, low, 0) {
        let places = greedy_is_way(low, needle, 0, 0);
        whole_way(low, needle, places);
        assert(reads_along(low, needle, places));
    }
    if exists|places: Seq<int>| #[trigger] reads_along(low, needle, places) {
        let places = choose|places: Seq<int>| #[trigger] reads_along(low, needle, places);
        whole_way(low, needle, places);
        greedy_finds(low, needle, 0, places, 0);
    }
}

/// How well a name matches: best where the query is the whole name, next where
/// the name begins with it, then where a word of the name begins with its
/// first occurrence, then where it occurs at all, then where it is made of the
/// beginnings of words, and least where its letters lie apart.
pub proof fn match_quality_is_by_place(needle: Seq<u8>, name: Seq<char>, low: Seq<u8>, first: int)
    requires
        is_made_small(encode_utf8(name), low),
    ensures
        match_score(needle, name) == Some(1000int) <==> low == needle,
        reads_at(low, needle, 0) && low != needle ==> match_score(needle, name) == Some(800int),
        first > 0 && reads_at(low, needle, first) && (forall|k: int|
            0 <= k < first ==> !#[trigger] reads_at(low, needle, k)) ==> match_score(needle, name)
            == Some(
            if word_begins(encode_utf8(name), first) {
                650int
            } else {
                500
            },
        ),
        (forall|k: int| !#[trigger] reads_at(low, needle, k)) ==> {
            &&& match_score(needle, name) == Some(400int) <==> exists|places: Seq<int>| #[trigger]
                reads_along(low, needle, places) && forall|k: int|
                    0 <= k < needle.len() ==> word_begins(encode_utf8(name), #[trigger] places[k])
            &&& match_score(needle, name) is Some ==> match_score(needle, name)->0 == 400
                || match_score(needle, name)->0 == 200
        },
{
    let orig = encode_utf8(name);
    made_small(orig, low);
    same_place(low, needle, 0);
    first_place(low, needle, 0);
    if low == needle {
        assert(reads_at(low, needle, 0));
    }
    if first > 0 && reads_at(low, needle, first) && (forall|k: int|
        0 <= k < first ==> !#[trigger] reads_at(low, needle, k)) {
        assert(!reads_at(low, needle, 0));
        let at = first_occurrence(low, needle, 0)->0;
        assert(reads_at(low, needle, at));
        assert(at == first);
    }
    if forall|k: int| !#[trigger] reads_at(low, needle, k) {
        assert(!reads_at(low, needle, 0));
        if initials_from(needle, 0, orig, low, 0) {
            let places = initials_are_way(orig, low, needle, 0, 0);
            whole_way(low, needle, places);
            assert(reads_along(low, needle, places));
        }
        if exists|places: Seq<int>| #[trigger]
            reads_along(low, needle, places) && forall|k: int|
                0 <= k < needle.len() ==> word_begins(orig, #[trigger] places[k]) {
            let places = choose|places: Seq<int>| #[trigger]
                reads_along(low, needle, places) && forall|k: int|
                    0 <= k < needle.len() ==> word_begins(orig, #[trigger] places[k]);
            whole_way(low, needle, places);
            initials_find(orig, low, needle, 0, places, 0);
        }
    }
}

/// The same of the words of the current file: the whole word, its beginning,
/// then any place, for one or two letters only where a word of it begins.
pub proof fn word_quality_is_by_place(
    prefix: Seq<u8>,
    word: Seq<u8>,
    needle: Seq<u8>,
    low: Seq<u8>,
    first: int,
)
    requires
        is_made_small(prefix, needle),
        is_made_small(word, low),
        prefix.len() > 0,
        word.len() > 0,
    ensures
        word_score(prefix, word) == Some(700int) <==> low == needle,
        reads_at(low, needle, 0) && low != needle ==> word_score(prefix, word) == Some(550int),
        first > 0 && reads_at(low, needle, first) && (forall|k: int|
            0 <= k < first ==> !#[trigger] reads_at(low, needle, k)) ==> word_score(prefix, word)
            == if prefix.len() >= 3 || word_begins(word, first) {
            Some(250int)
        } else {
            None
        },
        (forall|k: int| !#[trigger] reads_at(low, needle, k)) ==> word_score(prefix, word) is None,
{
    made_small(prefix, needle);
    made_small(word, low);
    same_place(low, needle, 0);
    first_place(low, needle, 0);
    if low == needle {
        assert(reads_at(low, needle, 0));
    }
    if first > 0 && reads_at(low, needle, first) && (forall|k: int|
        0 <= k < first ==> !#[trigger] reads_at(low, needle, k)) {
        assert(!reads_at(low, needle, 0));
        let at = first_occurrence(low, needle, 0)->0;
        assert(reads_at(low, needle, at));
        assert(at == first);
    }
    if forall|k: int| !#[trigger] reads_at(low, needle, k) {
        assert(!reads_at(low, needle, 0));
    }
}

} // verus!
