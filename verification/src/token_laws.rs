//! What the tokens of names and queries have in common.

use vstd::prelude::*;
use vstd::set_lib::set_int_range;
use vstd::utf8::encode_utf8;

use crate::count_laws::one_more;
use crate::match_laws::{is_made_small, made_small, reads_along, reads_at, word_begins};

use crate::name_tokens::{
    initials_below, initials_token, is_boundary_query_token, is_continuous_query_token,
    is_initials_token, is_name_token, is_window_token, sampled_token, trigram, window_token,
    windows,
};
use crate::text::boundary_at;

verus! {

/// Different letters have different tokens, and those of initials are none of
/// those of neighbours.
pub proof fn tokens_tell_letters_apart(
    a: u8,
    b: u8,
    c: u8,
    initials: bool,
    x: u8,
    y: u8,
    z: u8,
    others: bool,
)
    ensures
        trigram(a, b, c, initials) == trigram(x, y, z, others) <==> a == x && b == y && c == z
            && initials == others,
{
    let p = a as int + 256 * b as int + 65536 * c as int;
    let q = x as int + 256 * y as int + 65536 * z as int;
    assert(0 <= p < 0x0100_0000 && 0 <= q < 0x0100_0000);
    if p == q {
        assert(a == x && b == y && c == z);
    }
}

/// A name of no more than 66 bytes that contains a query has every token that
/// neighbours in the query make.
pub proof fn names_share_the_tokens_of_what_they_contain(
    query: Seq<u8>,
    name: Seq<char>,
    low: Seq<u8>,
    at: int,
    token: u32,
)
    requires
        is_made_small(encode_utf8(name), low),
        low.len() <= 66,
        reads_at(low, query, at),
        is_continuous_query_token(query, token),
    ensures
        is_name_token(name, token),
{
    made_small(encode_utf8(name), low);
    let i = choose|i: int| 0 <= i < windows(query) && #[trigger] window_token(query, i) == token;
    assert(low[at + i] == query[i]);
    assert(low[at + (i + 1)] == query[i + 1]);
    assert(low[at + (i + 2)] == query[i + 2]);
    assert(window_token(low, at + i) == token);
    assert(sampled_token(low, at + i) == token);
    assert(is_window_token(low, token));
}

// ---------------------------------------------------------------------------
// Initials

/// How many words of the name begin below `n`.
pub open spec fn beginnings(orig: Seq<u8>, n: int) -> nat {
    set_int_range(0, n).filter(|i: int| word_begins(orig, i)).len()
}

proof fn one_beginning_more(orig: Seq<u8>, n: int)
    requires
        0 <= n,
    ensures
        beginnings(orig, n + 1) == beginnings(orig, n) + if word_begins(orig, n) {
            1nat
        } else {
            0
        },
{
    one_more(|i: int| word_begins(orig, i), n);
}

proof fn beginnings_grow(orig: Seq<u8>, m: int, n: int)
    requires
        0 <= m <= n,
    ensures
        beginnings(orig, m) <= beginnings(orig, n),
    decreases n - m,
{
    if m < n {
        beginnings_grow(orig, m, n - 1);
        one_beginning_more(orig, n - 1);
    }
}

proof fn initials_are_beginnings(orig: Seq<u8>, low: Seq<u8>, n: int)
    requires
        0 <= n <= orig.len(),
        orig.len() == low.len(),
        beginnings(orig, n) <= 8,
    ensures
        initials_below(orig, low, n).len() == beginnings(orig, n),
        forall|p: int|
            0 <= p < n && #[trigger] word_begins(orig, p) ==> beginnings(orig, p) < beginnings(
                orig,
                n,
            ) && initials_below(orig, low, n)[beginnings(orig, p) as int] == low[p],
    decreases n,
{
    if n > 0 {
        one_beginning_more(orig, n - 1);
        initials_are_beginnings(orig, low, n - 1);
        let before = initials_below(orig, low, n - 1);
        let now = initials_below(orig, low, n);
        assert(boundary_at(orig, n - 1) == word_begins(orig, n - 1));
        assert forall|p: int| 0 <= p < n && #[trigger] word_begins(orig, p) implies beginnings(
            orig,
            p,
        ) < beginnings(orig, n) && now[beginnings(orig, p) as int] == low[p] by {
            if p < n - 1 {
                assert(now[beginnings(orig, p) as int] == before[beginnings(orig, p) as int]);
            }
        }
    } else {
        assert(set_int_range(0, 0).filter(|i: int| word_begins(orig, i)) =~= Set::empty());
    }
}

/// A name of no more than eight words has every token that letters of a query
/// make which is read off the beginnings of its words.
pub proof fn names_share_the_tokens_of_their_initials(
    query: Seq<u8>,
    name: Seq<char>,
    low: Seq<u8>,
    places: Seq<int>,
    token: u32,
)
    requires
        is_made_small(encode_utf8(name), low),
        beginnings(encode_utf8(name), low.len() as int) <= 8,
        reads_along(low, query, places),
        forall|k: int|
            0 <= k < query.len() ==> word_begins(encode_utf8(name), #[trigger] places[k]),
        is_boundary_query_token(query, token),
    ensures
        is_name_token(name, token),
{
    let orig = encode_utf8(name);
    made_small(orig, low);
    let n = low.len() as int;
    let initials = initials_below(orig, low, n);
    initials_are_beginnings(orig, low, n);
    let used = if query.len() > 8 {
        query.subrange(0, 8)
    } else {
        query
    };
    let (a, b, c) = choose|a: int, b: int, c: int|
        0 <= a < b < c < used.len() && #[trigger] initials_token(used, a, b, c) == token;
    let (p, q, r) = (places[a], places[b], places[c]);
    assert(p < q && q < r);
    assert(word_begins(orig, p) && word_begins(orig, q) && word_begins(orig, r));
    let (x, y, z) = (
        beginnings(orig, p) as int,
        beginnings(orig, q) as int,
        beginnings(orig, r) as int,
    );
    one_beginning_more(orig, p);
    one_beginning_more(orig, q);
    beginnings_grow(orig, p + 1, q);
    beginnings_grow(orig, q + 1, r);
    assert(initials[x] == low[p] && initials[y] == low[q] && initials[z] == low[r]);
    assert(initials_token(initials, x, y, z) == token);
    assert(is_initials_token(initials, token));
}

} // verus!
