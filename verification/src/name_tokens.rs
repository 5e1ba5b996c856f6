//! Tokens by which names are found without scanning them all.

use vstd::prelude::*;
use vstd::utf8::encode_utf8;

use crate::chars::{lower_bytes, occurs_at};
use crate::name_segment::folded;
use crate::text::{boundary_at, is_boundary};

verus! {

pub const FUZZY_BOUNDARY_TRIGRAM_TAG: u32 = 0x0100_0000;

pub const MAX_CONTIGUOUS_TRIGRAMS_PER_NAME: usize = 64;

pub const MAX_BOUNDARY_INITIALS_FOR_TRIGRAMS: usize = 8;

/// Three bytes as a number, those of initials marked.
pub open spec fn trigram(a: u8, b: u8, c: u8, boundary: bool) -> u32 {
    (a as int + 256 * b as int + 65536 * c as int + if boundary {
        FUZZY_BOUNDARY_TRIGRAM_TAG as int
    } else {
        0
    }) as u32
}

pub fn fuzzy_trigram_token(a: u8, b: u8, c: u8, boundary: bool) -> (r: u32)
    ensures
        r == trigram(a, b, c, boundary),
{
    let base: u32 = a as u32 + 256 * (b as u32) + 65536 * (c as u32);
    if boundary {
        base + FUZZY_BOUNDARY_TRIGRAM_TAG
    } else {
        base
    }
}

pub open spec fn window_token(bytes: Seq<u8>, i: int) -> u32 {
    trigram(bytes[i], bytes[i + 1], bytes[i + 2], false)
}

/// Number of windows of three bytes.
pub open spec fn windows(bytes: Seq<u8>) -> int {
    if bytes.len() < 3 {
        0
    } else {
        bytes.len() - 2
    }
}

/// The window that sample `k` of `cap` takes.
pub open spec fn sample_at(count: int, cap: int, k: int) -> int {
    if count <= cap {
        k
    } else {
        k * (count - 1) / (cap - 1)
    }
}

/// Number of samples taken of `count` windows.
pub open spec fn samples(count: int, cap: int) -> int {
    if count <= cap {
        count
    } else {
        cap
    }
}

/// A trigram of a name: all windows of a short name, evenly spread samples of
/// a long one.
pub open spec fn is_window_token(bytes: Seq<u8>, token: u32) -> bool {
    exists|k: int|
        0 <= k < samples(windows(bytes), MAX_CONTIGUOUS_TRIGRAMS_PER_NAME as int)
            && #[trigger] sampled_token(bytes, k) == token
}

pub open spec fn sampled_token(bytes: Seq<u8>, k: int) -> u32 {
    window_token(bytes, sample_at(windows(bytes), MAX_CONTIGUOUS_TRIGRAMS_PER_NAME as int, k))
}

/// The bytes at word boundaries below `n`, folded, at most eight of them.
pub open spec fn initials_below(orig: Seq<u8>, lower: Seq<u8>, n: int) -> Seq<u8>
    decreases n,
{
    if n <= 0 {
        Seq::empty()
    } else {
        let before = initials_below(orig, lower, n - 1);
        if before.len() < MAX_BOUNDARY_INITIALS_FOR_TRIGRAMS && boundary_at(orig, n - 1) {
            before.push(lower[n - 1])
        } else {
            before
        }
    }
}

/// Three of the initials, in order.
pub open spec fn is_initials_token(initials: Seq<u8>, token: u32) -> bool {
    exists|a: int, b: int, c: int|
        0 <= a < b < c < initials.len() && #[trigger] initials_token(initials, a, b, c) == token
}

pub open spec fn initials_token(initials: Seq<u8>, a: int, b: int, c: int) -> u32 {
    trigram(initials[a], initials[b], initials[c], true)
}

/// A token of a name.
pub open spec fn is_name_token(name: Seq<char>, token: u32) -> bool {
    is_window_token(folded(name), token) || is_initials_token(
        initials_below(encode_utf8(name), folded(name), folded(name).len() as int),
        token,
    )
}

/// A token by which a query finds names that contain it.
pub open spec fn is_continuous_query_token(query: Seq<u8>, token: u32) -> bool {
    exists|i: int| 0 <= i < windows(query) && #[trigger] window_token(query, i) == token
}

/// A token by which a query finds names with matching initials.
pub open spec fn is_boundary_query_token(query: Seq<u8>, token: u32) -> bool {
    is_initials_token(
        if query.len() > MAX_BOUNDARY_INITIALS_FOR_TRIGRAMS {
            query.subrange(0, MAX_BOUNDARY_INITIALS_FOR_TRIGRAMS as int)
        } else {
            query
        },
        token,
    )
}

fn push_window_tokens(bytes: &[u8], out: &mut Vec<u32>)
    ensures
        forall|t: u32|
            #[trigger] final(out)@.contains(t) <==> old(out)@.contains(t) || is_window_token(
                bytes@,
                t,
            ),
{
    let ghost before = out@;
    if bytes.len() < 3 {
        return;
    }
    let count: usize = bytes.len() - 2;
    let cap: usize = MAX_CONTIGUOUS_TRIGRAMS_PER_NAME;
    let total: usize = if count <= cap {
        count
    } else {
        cap
    };
    let mut k: usize = 0;
    while k < total
        invariant
            k <= total,
            bytes@.len() >= 3,
            count == bytes@.len() - 2,
            count == windows(bytes@),
            cap == MAX_CONTIGUOUS_TRIGRAMS_PER_NAME,
            total == samples(count as int, cap as int),
            forall|t: u32|
                #[trigger] out@.contains(t) <==> before.contains(t) || exists|j: int|
                    0 <= j < k && #[trigger] sampled_token(bytes@, j) == t,
        decreases total - k,
    {
        let at: usize = if count <= cap {
            k
        } else {
            spread(k, count)
        };
        let token: u32 = fuzzy_trigram_token(bytes[at], bytes[at + 1], bytes[at + 2], false);
        assert(token == sampled_token(bytes@, k as int));
        let ghost now = out@;
        out.push(token);
        proof {
            assert forall|t: u32| #[trigger] out@.contains(t) <==> before.contains(t) || exists|j: int|
                0 <= j < k + 1 && #[trigger] sampled_token(bytes@, j) == t by {
                push_contains(now, token, t);
                if exists|j: int| 0 <= j < k + 1 && #[trigger] sampled_token(bytes@, j) == t {
                    let j = choose|j: int|
                        0 <= j < k + 1 && #[trigger] sampled_token(bytes@, j) == t;
                    if j < k {
                        assert(sampled_token(bytes@, j) == t);
                    }
                }
                if exists|j: int| 0 <= j < k && #[trigger] sampled_token(bytes@, j) == t {
                    let j = choose|j: int| 0 <= j < k && #[trigger] sampled_token(bytes@, j) == t;
                    assert(j < k + 1 && sampled_token(bytes@, j) == t);
                }
            }
        }
        k = k + 1;
    }
}

/// Evenly spread sample positions.
fn spread(k: usize, count: usize) -> (r: usize)
    requires
        k < MAX_CONTIGUOUS_TRIGRAMS_PER_NAME,
        count > MAX_CONTIGUOUS_TRIGRAMS_PER_NAME,
    ensures
        r == sample_at(count as int, MAX_CONTIGUOUS_TRIGRAMS_PER_NAME as int, k as int),
        r < count,
{
    proof {
        assert(k * (count - 1) <= 63 * (count - 1)) by (nonlinear_arith)
            requires
                k <= 63,
                count >= 1,
        ;
        assert(k * (count - 1) / 63 <= count - 1) by (nonlinear_arith)
            requires
                k * (count - 1) <= 63 * (count - 1),
                count >= 1,
        ;
        assert(k * (count - 1) >= 0) by (nonlinear_arith)
            requires
                k >= 0,
                count >= 1,
        ;
    }
    let wide: u128 = (k as u128) * ((count - 1) as u128);
    (wide / 63) as usize
}

pub proof fn push_contains(s: Seq<u32>, x: u32, t: u32)
    ensures
        s.push(x).contains(t) <==> s.contains(t) || t == x,
{
    if s.contains(t) {
        let i = choose|i: int| 0 <= i < s.len() && s[i] == t;
        assert(s.push(x)[i] == t);
    }
    if t == x {
        assert(s.push(x)[s.len() as int] == x);
    }
    if s.push(x).contains(t) {
        let i = choose|i: int| 0 <= i < s.push(x).len() && s.push(x)[i] == t;
        if i < s.len() {
            assert(s[i] == t);
        }
    }
}

fn initials_of(orig: &[u8], lower: &[u8]) -> (r: Vec<u8>)
    requires
        orig@.len() == lower@.len(),
    ensures
        r@ == initials_below(orig@, lower@, lower@.len() as int),
        r@.len() <= MAX_BOUNDARY_INITIALS_FOR_TRIGRAMS,
{
    let mut out: Vec<u8> = Vec::new();
    let mut i: usize = 0;
    while i < lower.len()
        invariant
            i <= lower@.len(),
            orig@.len() == lower@.len(),
            out@ == initials_below(orig@, lower@, i as int),
            out@.len() <= MAX_BOUNDARY_INITIALS_FOR_TRIGRAMS,
        decreases lower@.len() - i,
    {
        if out.len() < MAX_BOUNDARY_INITIALS_FOR_TRIGRAMS && is_boundary(orig, i) {
            out.push(lower[i]);
        }
        i = i + 1;
    }
    out
}

fn push_initials_tokens(initials: &[u8], out: &mut Vec<u32>)
    ensures
        forall|t: u32|
            #[trigger] final(out)@.contains(t) <==> old(out)@.contains(t) || is_initials_token(
                initials@,
                t,
            ),
{
    let ghost before = out@;
    let n: usize = initials.len();
    let mut x: usize = 0;
    while x < n
        invariant
            x <= n,
            n == initials@.len(),
            forall|t: u32|
                #[trigger] out@.contains(t) <==> before.contains(t) || exists|a: int, b: int, c: int|
                    0 <= a < b < c < n && a < x && #[trigger] initials_token(initials@, a, b, c)
                        == t,
        decreases n - x,
    {
        let ghost outer = out@;
        let mut y: usize = x + 1;
        while y < n
            invariant
                x < y <= n,
                n == initials@.len(),
                forall|t: u32|
                    #[trigger] out@.contains(t) <==> outer.contains(t) || exists|b: int, c: int|
                        x < b < c < n && b < y && #[trigger] initials_token(
                            initials@,
                            x as int,
                            b,
                            c,
                        ) == t,
            decreases n - y,
        {
            let ghost middle = out@;
            let mut z: usize = y + 1;
            while z < n
                invariant
                    x < y < z <= n,
                    n == initials@.len(),
                    forall|t: u32|
                        #[trigger] out@.contains(t) <==> middle.contains(t) || exists|c: int|
                            y < c < z && #[trigger] initials_token(
                                initials@,
                                x as int,
                                y as int,
                                c,
                            ) == t,
                decreases n - z,
            {
                let ghost inner = out@;
                let token: u32 = fuzzy_trigram_token(initials[x], initials[y], initials[z], true);
                out.push(token);
                proof {
                    assert forall|t: u32| #[trigger] out@.contains(t) <==> middle.contains(t)
                        || exists|c: int|
                        y < c < z + 1 && #[trigger] initials_token(initials@, x as int, y as int, c)
                            == t by {
                        push_contains(inner, token, t);
                        if t == token {
                            assert(initials_token(initials@, x as int, y as int, z as int) == t);
                        }
                        if exists|c: int|
                            y < c < z + 1 && #[trigger] initials_token(
                                initials@,
                                x as int,
                                y as int,
                                c,
                            ) == t {
                            let c = choose|c: int|
                                y < c < z + 1 && #[trigger] initials_token(
                                    initials@,
                                    x as int,
                                    y as int,
                                    c,
                                ) == t;
                            if c < z {
                                assert(initials_token(initials@, x as int, y as int, c) == t);
                            }
                        }
                    }
                }
                z = z + 1;
            }
            proof {
                assert forall|t: u32| #[trigger] out@.contains(t) <==> outer.contains(t)
                    || exists|b: int, c: int|
                    x < b < c < n && b < y + 1 && #[trigger] initials_token(
                        initials@,
                        x as int,
                        b,
                        c,
                    ) == t by {
                    if exists|c: int|
                        y < c < n && #[trigger] initials_token(initials@, x as int, y as int, c)
                            == t {
                        let c = choose|c: int|
                            y < c < n && #[trigger] initials_token(
                                initials@,
                                x as int,
                                y as int,
                                c,
                            ) == t;
                        assert(initials_token(initials@, x as int, y as int, c) == t);
                    }
                    if exists|b: int, c: int|
                        x < b < c < n && b < y && #[trigger] initials_token(
                            initials@,
                            x as int,
                            b,
                            c,
                        ) == t {
                        let (b, c) = choose|b: int, c: int|
                            x < b < c < n && b < y && #[trigger] initials_token(
                                initials@,
                                x as int,
                                b,
                                c,
                            ) == t;
                        assert(b < y + 1 && initials_token(initials@, x as int, b, c) == t);
                    }
                    if exists|b: int, c: int|
                        x < b < c < n && b < y + 1 && #[trigger] initials_token(
                            initials@,
                            x as int,
                            b,
                            c,
                        ) == t {
                        let (b, c) = choose|b: int, c: int|
                            x < b < c < n && b < y + 1 && #[trigger] initials_token(
                                initials@,
                                x as int,
                                b,
                                c,
                            ) == t;
                        if b < y {
                            assert(initials_token(initials@, x as int, b, c) == t);
                        } else {
                            assert(initials_token(initials@, x as int, y as int, c) == t);
                        }
                    }
                }
            }
            y = y + 1;
        }
        proof {
            assert forall|t: u32| #[trigger] out@.contains(t) <==> before.contains(t)
                || exists|a: int, b: int, c: int|
                0 <= a < b < c < n && a < x + 1 && #[trigger] initials_token(initials@, a, b, c)
                    == t by {
                if exists|b: int, c: int|
                    x < b < c < n && b < n && #[trigger] initials_token(initials@, x as int, b, c)
                        == t {
                    let (b, c) = choose|b: int, c: int|
                        x < b < c < n && b < n && #[trigger] initials_token(
                            initials@,
                            x as int,
                            b,
                            c,
                        ) == t;
                    assert(initials_token(initials@, x as int, b, c) == t);
                }
                if exists|a: int, b: int, c: int|
                    0 <= a < b < c < n && a < x && #[trigger] initials_token(initials@, a, b, c)
                        == t {
                    let (a, b, c) = choose|a: int, b: int, c: int|
                        0 <= a < b < c < n && a < x && #[trigger] initials_token(
                            initials@,
                            a,
                            b,
                            c,
                        ) == t;
                    assert(a < x + 1 && initials_token(initials@, a, b, c) == t);
                }
                if exists|a: int, b: int, c: int|
                    0 <= a < b < c < n && a < x + 1 && #[trigger] initials_token(
                        initials@,
                        a,
                        b,
                        c,
                    ) == t {
                    let (a, b, c) = choose|a: int, b: int, c: int|
                        0 <= a < b < c < n && a < x + 1 && #[trigger] initials_token(
                            initials@,
                            a,
                            b,
                            c,
                        ) == t;
                    if a < x {
                        assert(initials_token(initials@, a, b, c) == t);
                    } else {
                        assert(b < n && initials_token(initials@, x as int, b, c) == t);
                    }
                }
            }
        }
        x = x + 1;
    }
    proof {
        assert forall|t: u32| #[trigger] out@.contains(t) <==> before.contains(t)
            || is_initials_token(initials@, t) by {
            if is_initials_token(initials@, t) {
                let (a, b, c) = choose|a: int, b: int, c: int|
                    0 <= a < b < c < initials@.len() && #[trigger] initials_token(
                        initials@,
                        a,
                        b,
                        c,
                    ) == t;
                assert(a < x && initials_token(initials@, a, b, c) == t);
            }
            if exists|a: int, b: int, c: int|
                0 <= a < b < c < n && a < x && #[trigger] initials_token(initials@, a, b, c) == t {
                let (a, b, c) = choose|a: int, b: int, c: int|
                    0 <= a < b < c < n && a < x && #[trigger] initials_token(initials@, a, b, c)
                        == t;
                assert(initials_token(initials@, a, b, c) == t);
            }
        }
    }
}

/// Strictly increasing tokens, so each only once.
pub open spec fn increasing(s: Seq<u32>) -> bool {
    forall|i: int, j: int| 0 <= i < j < s.len() ==> s[i] < s[j]
}

/// Insert a token into increasing ones.
fn insert_token(v: &mut Vec<u32>, token: u32)
    requires
        increasing(old(v)@),
    ensures
        increasing(final(v)@),
        forall|t: u32| #[trigger] final(v)@.contains(t) <==> old(v)@.contains(t) || t == token,
{
    let ghost before = v@;
    let mut at: usize = v.len();
    while at > 0 && v[at - 1] >= token
        invariant
            v@ == before,
            at <= v@.len(),
            increasing(before),
            forall|k: int| at <= k < v@.len() ==> v@[k] >= token,
        decreases at,
    {
        at = at - 1;
    }
    if at < v.len() && v[at] == token {
        assert forall|t: u32| #[trigger] v@.contains(t) <==> before.contains(t) || t == token by {
            assert(before[at as int] == token);
        }
        return;
    }
    v.insert(at, token);
    proof {
        let now = v@;
        assert(now == before.insert(at as int, token));
        assert forall|t: u32| #[trigger] now.contains(t) <==> before.contains(t) || t == token by {
            if now.contains(t) {
                let i = choose|i: int| 0 <= i < now.len() && now[i] == t;
                if i < at {
                    assert(before[i] == t);
                } else if i > at {
                    assert(before[i - 1] == t);
                }
            }
            if before.contains(t) {
                let i = choose|i: int| 0 <= i < before.len() && before[i] == t;
                if i < at {
                    assert(now[i] == t);
                } else {
                    assert(now[i + 1] == t);
                }
            }
            assert(now[at as int] == token);
        }
        assert forall|i: int, j: int| 0 <= i < j < now.len() implies now[i] < now[j] by {
            if j < at {
                assert(before[i] < before[j]);
            } else if j == at {
                assert(before[at - 1] < token);
                if i < at - 1 {
                    assert(before[i] < before[at - 1]);
                }
            } else {
                if i < at {
                    assert(before[i] < before[j - 1]);
                } else if i == at {
                    assert(before[j - 1] >= before[at as int]);
                } else {
                    assert(before[i - 1] < before[j - 1]);
                }
            }
        }
    }
}

fn sorted_unique(tokens: &Vec<u32>) -> (r: Vec<u32>)
    ensures
        increasing(r@),
        forall|t: u32| #[trigger] r@.contains(t) <==> tokens@.contains(t),
{
    let mut out: Vec<u32> = Vec::new();
    let mut i: usize = 0;
    while i < tokens.len()
        invariant
            i <= tokens@.len(),
            increasing(out@),
            forall|t: u32|
                #[trigger] out@.contains(t) <==> exists|k: int|
                    0 <= k < i && #[trigger] tokens@[k] == t,
        decreases tokens@.len() - i,
    {
        let ghost before = out@;
        insert_token(&mut out, tokens[i]);
        proof {
            assert forall|t: u32| #[trigger] out@.contains(t) <==> exists|k: int|
                0 <= k < i + 1 && #[trigger] tokens@[k] == t by {
                if before.contains(t) {
                    let k = choose|k: int| 0 <= k < i && #[trigger] tokens@[k] == t;
                    assert(tokens@[k] == t);
                }
                if exists|k: int| 0 <= k < i + 1 && #[trigger] tokens@[k] == t {
                    let k = choose|k: int| 0 <= k < i + 1 && #[trigger] tokens@[k] == t;
                    if k < i {
                        assert(tokens@[k] == t);
                        assert(before.contains(t));
                    }
                }
                assert(tokens@[i as int] == tokens@[i as int]);
            }
        }
        i = i + 1;
    }
    proof {
        assert forall|t: u32| #[trigger] out@.contains(t) <==> tokens@.contains(t) by {
            if tokens@.contains(t) {
                let k = choose|k: int| 0 <= k < tokens@.len() && tokens@[k] == t;
                assert(tokens@[k] == t);
            }
        }
    }
    out
}

/// The tokens of a name, each once, in increasing order.
pub fn fuzzy_tokens_for_name(name: &str) -> (r: Vec<u32>)
    ensures
        increasing(r@),
        forall|t: u32| #[trigger] r@.contains(t) <==> is_name_token(name@, t),
{
    let orig = name.as_bytes();
    let lower = lower_bytes(orig);
    let mut tokens: Vec<u32> = Vec::new();
    push_window_tokens(&lower, &mut tokens);
    let ghost some = tokens@;
    let initials = initials_of(orig, &lower);
    push_initials_tokens(&initials, &mut tokens);
    let r = sorted_unique(&tokens);
    proof {
        assert forall|t: u32| #[trigger] r@.contains(t) <==> is_name_token(name@, t) by {
            assert(tokens@.contains(t) <==> some.contains(t) || is_initials_token(initials@, t));
            assert(some.contains(t) <==> Seq::<u32>::empty().contains(t) || is_window_token(
                lower@,
                t,
            ));
        }
    }
    r
}

/// The tokens of a folded query: those of its windows, those of its letters
/// taken as initials.
pub fn fuzzy_query_tokens(query: &[u8]) -> (r: (Vec<u32>, Vec<u32>))
    ensures
        increasing(r.0@),
        increasing(r.1@),
        forall|t: u32| #[trigger] r.0@.contains(t) <==> is_continuous_query_token(query@, t),
        forall|t: u32| #[trigger] r.1@.contains(t) <==> is_boundary_query_token(query@, t),
{
    let mut continuous: Vec<u32> = Vec::new();
    let len: usize = query.len();
    let mut i: usize = 0;
    while len >= 3 && i < len - 2
        invariant
            len == query@.len(),
            len >= 3 ==> i <= len - 2,
            len < 3 ==> i == 0,
            forall|t: u32|
                #[trigger] continuous@.contains(t) <==> exists|k: int|
                    0 <= k < i && #[trigger] window_token(query@, k) == t,
        decreases len - i,
    {
        let token: u32 = fuzzy_trigram_token(query[i], query[i + 1], query[i + 2], false);
        let ghost before = continuous@;
        continuous.push(token);
        proof {
            assert forall|t: u32| #[trigger] continuous@.contains(t) <==> exists|k: int|
                0 <= k < i + 1 && #[trigger] window_token(query@, k) == t by {
                push_contains(before, token, t);
                assert(window_token(query@, i as int) == token);
                if before.contains(t) {
                    let k = choose|k: int| 0 <= k < i && #[trigger] window_token(query@, k) == t;
                    assert(window_token(query@, k) == t);
                }
                if exists|k: int| 0 <= k < i + 1 && #[trigger] window_token(query@, k) == t {
                    let k = choose|k: int|
                        0 <= k < i + 1 && #[trigger] window_token(query@, k) == t;
                    if k < i {
                        assert(window_token(query@, k) == t);
                    }
                }
            }
        }
        i = i + 1;
    }
    let head = if len > MAX_BOUNDARY_INITIALS_FOR_TRIGRAMS {
        vstd::slice::slice_subrange(query, 0, MAX_BOUNDARY_INITIALS_FOR_TRIGRAMS)
    } else {
        query
    };
    let mut boundary: Vec<u32> = Vec::new();
    push_initials_tokens(head, &mut boundary);
    let a = sorted_unique(&continuous);
    let b = sorted_unique(&boundary);
    proof {
        assert forall|t: u32| #[trigger] b@.contains(t) <==> is_boundary_query_token(query@, t) by {
            assert(boundary@.contains(t) <==> Seq::<u32>::empty().contains(t) || is_initials_token(
                head@,
                t,
            ));
        }
        assert forall|t: u32| #[trigger] a@.contains(t) <==> is_continuous_query_token(
            query@,
            t,
        ) by {
            if is_continuous_query_token(query@, t) {
                let k = choose|k: int|
                    0 <= k < windows(query@) && #[trigger] window_token(query@, k) == t;
                assert(k < i && window_token(query@, k) == t);
            }
            assert(continuous@.contains(t) <==> exists|k: int|
                0 <= k < i && #[trigger] window_token(query@, k) == t);
            if continuous@.contains(t) {
                let k = choose|k: int| 0 <= k < i && #[trigger] window_token(query@, k) == t;
                assert(k < windows(query@) && window_token(query@, k) == t);
            }
        }
    }
    (a, b)
}

/// The first three bytes of a folded name as a number, missing ones zero;
/// nothing for an empty name.
pub open spec fn head_token(lower: Seq<u8>) -> Option<u32> {
    if lower.len() == 0 {
        None
    } else {
        Some(
            (65536 * lower[0] as int + 256 * (if lower.len() > 1 {
                lower[1] as int
            } else {
                0
            }) + (if lower.len() > 2 {
                lower[2] as int
            } else {
                0
            })) as u32,
        )
    }
}

pub fn three_byte_prefix_token(lower: &[u8]) -> (r: Option<u32>)
    ensures
        r == head_token(lower@),
        r is Some ==> r->0 < 0x0100_0000,
{
    if lower.len() == 0 {
        return None;
    }
    let second: u32 = if lower.len() > 1 {
        lower[1] as u32
    } else {
        0
    };
    let third: u32 = if lower.len() > 2 {
        lower[2] as u32
    } else {
        0
    };
    Some(65536 * (lower[0] as u32) + 256 * second + third)
}

/// Number of head tokens that share a prefix of this length.
pub open spec fn prefix_width(len: nat) -> int {
    if len == 1 {
        65536
    } else if len == 2 {
        256
    } else {
        1
    }
}

/// The range of head tokens of names that can start with `prefix`.
pub fn three_byte_prefix_bounds(prefix: &[u8]) -> (r: Option<(u32, u32)>)
    ensures
        match r {
            Some((low, high)) => head_token(prefix@) == Some(low) && high == low + prefix_width(
                prefix@.len(),
            ),
            None => prefix@.len() == 0,
        },
{
    match three_byte_prefix_token(prefix) {
        Some(low) => {
            let width: u32 = if prefix.len() == 1 {
                65536
            } else if prefix.len() == 2 {
                256
            } else {
                1
            };
            Some((low, low + width))
        },
        None => None,
    }
}

/// A name that starts with `prefix` has its head token in the range of the
/// prefix.
pub proof fn head_token_in_bounds(lower: Seq<u8>, prefix: Seq<u8>)
    requires
        prefix.len() > 0,
        occurs_at(lower, prefix, 0),
    ensures
        head_token(lower) is Some,
        head_token(prefix)->0 <= head_token(lower)->0 < head_token(prefix)->0 + prefix_width(
            prefix.len(),
        ),
{
    let head = lower.subrange(0, prefix.len() as int);
    assert(head == prefix);
    assert(lower[0] == head[0]);
    if prefix.len() > 1 {
        assert(lower[1] == head[1]);
    }
    if prefix.len() > 2 {
        assert(lower[2] == head[2]);
    }
}

} // verus!
