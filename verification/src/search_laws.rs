//! What holds of every search.

use vstd::prelude::*;
use vstd::utf8::encode_utf8;

use crate::chars::{bytes_lower, first_occurrence, occurs_at, trim};
use crate::facts::SemanticFamily;
use crate::model::{tier_rank_is_injective, ScopeTier};
use crate::name_search::{
    all_slots, candidate, current_of, first, gate, in_family, initials_from, looked_at, match_score,
    matched, needle_of, placed, pool, pool_below, prefix_slots, prefix_slots_facts, prefixed,
    ranked_hits, scored, scored_below, scored_order_is_strict_weak, search_hits, subsequence_from,
    tier_in, top, unmatched_below, Context, Hit, Placed, ScoredCandidate,
    ScoredOrder,
};
use crate::name_segment::folded;
use crate::name_table::Table;
use crate::order::{
    stable_sort, stable_sort_is_in_order, stable_sort_is_permutation, stable_sort_takes_from,
    text_before_is_total, Order,
};
use crate::resolver::{nearness, MAX_LOCALITY};
use crate::text::boundary_at;

verus! {

// ---------------------------------------------------------------------------
// Matching

/// What can be read off from a place can be read off without its first byte.
proof fn subsequence_drops(needle: Seq<u8>, q: int, hay: Seq<u8>, i: int)
    requires
        0 <= q,
        0 <= i,
        subsequence_from(needle, q, hay, i),
    ensures
        subsequence_from(needle, q + 1, hay, i),
    decreases hay.len() - i,
{
    if q < needle.len() && i < hay.len() {
        if hay[i] == needle[q] {
            if q + 1 < needle.len() && hay[i] == needle[q + 1] {
                subsequence_drops(needle, q + 1, hay, i + 1);
            }
        } else {
            subsequence_drops(needle, q, hay, i + 1);
            if q + 1 < needle.len() && hay[i] == needle[q + 1] {
                subsequence_drops(needle, q + 1, hay, i + 1);
            }
        }
    }
}

/// An earlier start finds what a later one finds.
proof fn subsequence_earlier(needle: Seq<u8>, q: int, hay: Seq<u8>, i: int, j: int)
    requires
        0 <= q,
        0 <= i <= j <= hay.len(),
        subsequence_from(needle, q, hay, j),
    ensures
        subsequence_from(needle, q, hay, i),
    decreases j - i,
{
    if i < j {
        subsequence_earlier(needle, q, hay, i + 1, j);
        if q < needle.len() && hay[i] == needle[q] {
            subsequence_drops(needle, q, hay, i + 1);
        }
    }
}

/// A substring is a subsequence.
proof fn substring_is_subsequence(needle: Seq<u8>, hay: Seq<u8>, at: int, q: int)
    requires
        occurs_at(hay, needle, at),
        0 <= q <= needle.len(),
    ensures
        subsequence_from(needle, q, hay, at + q),
    decreases needle.len() - q,
{
    if q < needle.len() {
        assert(hay.subrange(at, at + needle.len())[q] == hay[at + q]);
        substring_is_subsequence(needle, hay, at, q + 1);
    }
}

/// Initials are a subsequence.
proof fn initials_are_subsequence(
    needle: Seq<u8>,
    q: int,
    orig: Seq<u8>,
    hay: Seq<u8>,
    i: int,
)
    requires
        0 <= q,
        0 <= i,
        initials_from(needle, q, orig, hay, i),
    ensures
        subsequence_from(needle, q, hay, i),
    decreases hay.len() - i,
{
    if q < needle.len() && i < hay.len() {
        if hay[i] == needle[q] && boundary_at(orig, i) {
            initials_are_subsequence(needle, q + 1, orig, hay, i + 1);
        } else {
            initials_are_subsequence(needle, q, orig, hay, i + 1);
            if hay[i] == needle[q] {
                subsequence_drops(needle, q, hay, i + 1);
            }
        }
    }
}

/// A needle begins with another.
pub open spec fn extends(long: Seq<u8>, short: Seq<u8>) -> bool {
    short.len() <= long.len() && long.subrange(0, short.len() as int) == short
}

proof fn subsequence_of_prefix(long: Seq<u8>, short: Seq<u8>, q: int, hay: Seq<u8>, i: int)
    requires
        extends(long, short),
        0 <= q,
        0 <= i,
        subsequence_from(long, q, hay, i),
    ensures
        subsequence_from(short, q, hay, i),
    decreases hay.len() - i,
{
    if q < short.len() && i < hay.len() {
        assert(long.subrange(0, short.len() as int)[q] == long[q]);
        if hay[i] == long[q] {
            subsequence_of_prefix(long, short, q + 1, hay, i + 1);
        } else {
            subsequence_of_prefix(long, short, q, hay, i + 1);
        }
    }
}

proof fn occurrence_is_found(hay: Seq<u8>, needle: Seq<u8>, from: int)
    requires
        0 <= from,
        first_occurrence(hay, needle, from) is Some,
    ensures
        occurs_at(hay, needle, first_occurrence(hay, needle, from)->0),
        first_occurrence(hay, needle, from)->0 >= from,
    decreases hay.len() - from + 1,
{
    if from + needle.len() <= hay.len() && !occurs_at(hay, needle, from) {
        occurrence_is_found(hay, needle, from + 1);
    }
}

/// A name matches exactly when the needle can be read off its folded spelling
/// in order.
pub proof fn match_is_subsequence(needle: Seq<u8>, name: Seq<char>)
    ensures
        match_score(needle, name) is Some <==> subsequence_from(needle, 0, folded(name), 0),
{
    let hay = folded(name);
    let orig = encode_utf8(name);
    if hay == needle {
        assert(hay.subrange(0, needle.len() as int) =~= needle);
        substring_is_subsequence(needle, hay, 0, 0);
    } else if occurs_at(hay, needle, 0) {
        substring_is_subsequence(needle, hay, 0, 0);
    } else if first_occurrence(hay, needle, 0) is Some {
        let at = first_occurrence(hay, needle, 0)->0;
        occurrence_is_found(hay, needle, 0);
        substring_is_subsequence(needle, hay, at, 0);
        subsequence_earlier(needle, 0, hay, 0, at);
    } else if initials_from(needle, 0, orig, hay, 0) {
        initials_are_subsequence(needle, 0, orig, hay, 0);
    }
}

/// A name that matches a query matches every query that it begins with.
pub proof fn match_survives_shortening(long: Seq<u8>, short: Seq<u8>, name: Seq<char>)
    requires
        extends(long, short),
        match_score(long, name) is Some,
    ensures
        match_score(short, name) is Some,
{
    match_is_subsequence(long, name);
    subsequence_of_prefix(long, short, 0, folded(name), 0);
    match_is_subsequence(short, name);
}

/// Qualities of a match.
pub open spec fn is_quality(base: int) -> bool {
    base == 0 || base == 200 || base == 400 || base == 500 || base == 650 || base == 800 || base
        == 1000
}

// ---------------------------------------------------------------------------
// Narrowing

proof fn narrowed_candidates(
    t: Table,
    ctx: Option<Context>,
    family: Option<SemanticFamily>,
    short: Seq<u8>,
    long: Seq<u8>,
    min: int,
    ids: Seq<usize>,
    n: int,
)
    requires
        extends(long, short),
        0 <= n <= ids.len(),
    ensures
        ({
            let narrow = pool_below(t, family, short, ids, n);
            &&& scored_below(t, ctx, family, long, min, ids, n) == scored_below(
                t,
                ctx,
                family,
                long,
                min,
                narrow,
                narrow.len() as int,
            )
            &&& pool_below(t, family, long, ids, n) == pool_below(
                t,
                family,
                long,
                narrow,
                narrow.len() as int,
            )
        }),
    decreases n,
{
    if n > 0 {
        narrowed_candidates(t, ctx, family, short, long, min, ids, n - 1);
        let before = pool_below(t, family, short, ids, n - 1);
        let narrow = pool_below(t, family, short, ids, n);
        let i = ids[n - 1] as int;
        if matched(t, family, long, i) {
            match_survives_shortening(long, short, t.slots[i].name);
        }
        if matched(t, family, short, i) {
            assert(narrow == before.push(ids[n - 1]));
            same_below(t, ctx, family, long, min, before, narrow, before.len() as int);
        }
    }
}

/// Candidates of the first `n` ids depend on those alone.
proof fn same_below(
    t: Table,
    ctx: Option<Context>,
    family: Option<SemanticFamily>,
    needle: Seq<u8>,
    min: int,
    a: Seq<usize>,
    b: Seq<usize>,
    n: int,
)
    requires
        0 <= n <= a.len(),
        n <= b.len(),
        forall|k: int| 0 <= k < n ==> a[k] == b[k],
    ensures
        scored_below(t, ctx, family, needle, min, a, n) == scored_below(
            t,
            ctx,
            family,
            needle,
            min,
            b,
            n,
        ),
        pool_below(t, family, needle, a, n) == pool_below(t, family, needle, b, n),
    decreases n,
{
    if n > 0 {
        same_below(t, ctx, family, needle, min, a, b, n - 1);
    }
}

proof fn encode_of_prefix(s: Seq<char>, n: int)
    requires
        0 <= n <= s.len(),
    ensures
        extends(encode_utf8(s), encode_utf8(s.subrange(0, n))),
    decreases n,
{
    let head = s.subrange(0, n);
    if n > 0 {
        encode_of_prefix(s.drop_first(), n - 1);
        assert(head.drop_first() =~= s.drop_first().subrange(0, n - 1));
        assert(head[0] == s[0]);
        let lead = vstd::utf8::encode_scalar(s[0] as u32);
        let a = encode_utf8(s.drop_first());
        let b = encode_utf8(head.drop_first());
        assert(encode_utf8(s) == lead + a);
        assert(encode_utf8(head) == lead + b);
        assert((lead + a).subrange(0, (lead + b).len() as int) =~= lead + a.subrange(
            0,
            b.len() as int,
        ));
    } else {
        assert(head =~= Seq::empty());
        assert(encode_utf8(s).subrange(0, 0) =~= encode_utf8(head));
    }
}

/// A text that begins with another folds to bytes that begin with the bytes
/// of the other.
pub proof fn folding_keeps_prefixes(s: Seq<char>, n: int)
    requires
        0 <= n <= s.len(),
    ensures
        extends(folded(s), folded(s.subrange(0, n))),
{
    encode_of_prefix(s, n);
    let (a, b) = (encode_utf8(s), encode_utf8(s.subrange(0, n)));
    assert(folded(s).subrange(0, b.len() as int) =~= bytes_lower(a.subrange(0, b.len() as int)));
}

/// Typing on: searching the pool of a query for a query that extends it gives
/// what searching the same slots anew gives, hits and pool alike.
pub proof fn narrowing_is_lossless(
    t: Table,
    ctx: Option<Context>,
    family: Option<SemanticFamily>,
    short: Seq<char>,
    long: Seq<char>,
    ids: Seq<usize>,
)
    requires
        trim(short).len() > 0,
        trim(short).len() <= trim(long).len(),
        trim(long).subrange(0, trim(short).len() as int) == trim(short),
    ensures
        scored(t, ctx, family, long, pool(t, family, short, ids)) == scored(
            t,
            ctx,
            family,
            long,
            ids,
        ),
        pool(t, family, long, pool(t, family, short, ids)) == pool(t, family, long, ids),
{
    folding_keeps_prefixes(trim(long), trim(short).len() as int);
    narrowed_candidates(
        t,
        ctx,
        family,
        needle_of(short),
        needle_of(long),
        gate(needle_of(long)),
        ids,
        ids.len() as int,
    );
}

/// The same of the hits of a search: a keystroke that extends the query can
/// search the last pool in place of the table.
pub proof fn narrowed_search_is_cold_search(
    t: Table,
    ctx: Option<Context>,
    short: Seq<char>,
    long: Seq<char>,
    limit: int,
)
    requires
        trim(short).len() > 0,
        trim(short).len() <= trim(long).len(),
        trim(long).subrange(0, trim(short).len() as int) == trim(short),
    ensures
        search_hits(t, ctx, long, limit, Some(pool(t, None, short, looked_at(t, None))))
            == search_hits(t, ctx, long, limit, None),
{
    narrowing_is_lossless(t, ctx, None, short, long, looked_at(t, None));
}

// ---------------------------------------------------------------------------
// Scopes

/// The slots of candidates.
pub open spec fn slots_of(s: Seq<ScoredCandidate>) -> Seq<usize> {
    s.map_values(|c: ScoredCandidate| c.index)
}

proof fn scored_slots(
    t: Table,
    a: Option<Context>,
    b: Option<Context>,
    family: Option<SemanticFamily>,
    needle: Seq<u8>,
    min: int,
    ids: Seq<usize>,
    n: int,
)
    requires
        0 <= n <= ids.len(),
    ensures
        slots_of(scored_below(t, a, family, needle, min, ids, n)) == slots_of(
            scored_below(t, b, family, needle, min, ids, n),
        ),
    decreases n,
{
    if n > 0 {
        scored_slots(t, a, b, family, needle, min, ids, n - 1);
        let i = ids[n - 1] as int;
        let base = match_score(needle, t.slots[i].name)->0;
        let (x, y) = (
            scored_below(t, a, family, needle, min, ids, n - 1),
            scored_below(t, b, family, needle, min, ids, n - 1),
        );
        assert(slots_of(x.push(candidate(t, a, i, base))) =~= slots_of(x).push(ids[n - 1]));
        assert(slots_of(y.push(candidate(t, b, i, base))) =~= slots_of(y).push(ids[n - 1]));
    }
}

proof fn unmatched_slots(
    t: Table,
    a: Option<Context>,
    b: Option<Context>,
    family: Option<SemanticFamily>,
    n: int,
)
    ensures
        slots_of(unmatched_below(t, a, family, n)) == slots_of(unmatched_below(t, b, family, n)),
    decreases n,
{
    if n > 0 {
        unmatched_slots(t, a, b, family, n - 1);
        let (x, y) = (unmatched_below(t, a, family, n - 1), unmatched_below(t, b, family, n - 1));
        let i = n - 1;
        assert(slots_of(x.push(candidate(t, a, i, 0))) =~= slots_of(x).push(i as usize));
        assert(slots_of(y.push(candidate(t, b, i, 0))) =~= slots_of(y).push(i as usize));
    } else {
        assert(slots_of(unmatched_below(t, a, family, n)) =~= slots_of(
            unmatched_below(t, b, family, n),
        ));
    }
}

/// A scope ranks candidates; it neither adds nor removes any.
pub proof fn scopes_drop_nothing(
    t: Table,
    a: Option<Context>,
    b: Option<Context>,
    family: Option<SemanticFamily>,
    query: Seq<char>,
    ids: Seq<usize>,
)
    ensures
        slots_of(scored(t, a, family, query, ids)) == slots_of(scored(t, b, family, query, ids)),
{
    if trim(query).len() == 0 {
        unmatched_slots(t, a, b, family, t.slots.len() as int);
    } else {
        let needle = needle_of(query);
        scored_slots(t, a, b, family, needle, gate(needle), ids, ids.len() as int);
    }
}

// ---------------------------------------------------------------------------
// Candidates

/// A candidate of a table for a needle: its slot is active and of the family,
/// and its terms are those of the slot.
pub open spec fn is_candidate(
    t: Table,
    ctx: Option<Context>,
    family: Option<SemanticFamily>,
    needle: Option<Seq<u8>>,
    c: ScoredCandidate,
) -> bool {
    let i = c.index as int;
    &&& t.is_active(i)
    &&& in_family(t, family, i)
    &&& is_quality(c.base_match as int)
    &&& c == candidate(t, ctx, i, c.base_match as int)
    &&& match needle {
        Some(n) => match_score(n, t.slots[i].name) == Some(c.base_match as int) && c.base_match
            >= gate(n),
        None => c.base_match == 0,
    }
}

pub open spec fn opt_needle(query: Seq<char>) -> Option<Seq<u8>> {
    if trim(query).len() == 0 {
        None
    } else {
        Some(needle_of(query))
    }
}

proof fn scored_are_candidates(
    t: Table,
    ctx: Option<Context>,
    family: Option<SemanticFamily>,
    needle: Seq<u8>,
    ids: Seq<usize>,
    n: int,
    k: int,
)
    requires
        0 <= n <= ids.len(),
        0 <= k < scored_below(t, ctx, family, needle, gate(needle), ids, n).len(),
    ensures
        is_candidate(
            t,
            ctx,
            family,
            Some(needle),
            scored_below(t, ctx, family, needle, gate(needle), ids, n)[k],
        ),
    decreases n,
{
    if n > 0 {
        let before = scored_below(t, ctx, family, needle, gate(needle), ids, n - 1);
        if k < before.len() {
            scored_are_candidates(t, ctx, family, needle, ids, n - 1, k);
        }
    }
}

proof fn unmatched_are_candidates(
    t: Table,
    ctx: Option<Context>,
    family: Option<SemanticFamily>,
    n: int,
    k: int,
)
    requires
        0 <= n <= t.slots.len() <= usize::MAX,
        t.active.len() == t.slots.len(),
        0 <= k < unmatched_below(t, ctx, family, n).len(),
    ensures
        is_candidate(t, ctx, family, None, unmatched_below(t, ctx, family, n)[k]),
    decreases n,
{
    if n > 0 {
        let before = unmatched_below(t, ctx, family, n - 1);
        if k < before.len() {
            unmatched_are_candidates(t, ctx, family, n - 1, k);
        } else {
            assert(unmatched_below(t, ctx, family, n)[k] == candidate(t, ctx, n - 1, 0));
        }
    }
}

/// Every candidate of a query is an active slot of the family that matches,
/// well enough for the length of the query.
pub proof fn candidates_match(
    t: Table,
    ctx: Option<Context>,
    family: Option<SemanticFamily>,
    query: Seq<char>,
    ids: Seq<usize>,
    k: int,
)
    requires
        t.slots.len() <= usize::MAX,
        t.active.len() == t.slots.len(),
        0 <= k < scored(t, ctx, family, query, ids).len(),
    ensures
        is_candidate(
            t,
            ctx,
            family,
            opt_needle(query),
            scored(t, ctx, family, query, ids)[k],
        ),
{
    if trim(query).len() == 0 {
        unmatched_are_candidates(t, ctx, family, t.slots.len() as int, k);
    } else {
        scored_are_candidates(t, ctx, family, needle_of(query), ids, ids.len() as int, k);
    }
}

proof fn nearness_in_bounds(path: Seq<char>, current: Option<Seq<char>>)
    ensures
        0 <= nearness(path, current) <= MAX_LOCALITY,
{
}

/// `a` may stand before `b` among hits: its tier is stronger, or the tiers are
/// equal and its match is no worse.
pub open spec fn hit_outranks(a: Hit, b: Hit) -> bool {
    a.tier.spec_rank() > b.tier.spec_rank() || (a.tier == b.tier && a.base_match >= b.base_match)
}

/// Tier decides first and match quality second, whatever the nearness: no hit
/// of a search stands before one of a stronger tier, nor, within its tier,
/// before a better match. No search returns more hits than its limit.
pub proof fn hits_are_by_tier_and_quality(
    t: Table,
    ctx: Option<Context>,
    query: Seq<char>,
    limit: int,
    prior: Option<Seq<usize>>,
    i: int,
    j: int,
)
    requires
        t.slots.len() <= usize::MAX,
        t.active.len() == t.slots.len(),
        0 <= limit,
        0 <= i < j < search_hits(t, ctx, query, limit, prior).len(),
    ensures
        search_hits(t, ctx, query, limit, prior).len() <= limit,
        hit_outranks(
            search_hits(t, ctx, query, limit, prior)[i],
            search_hits(t, ctx, query, limit, prior)[j],
        ),
{
    let all = scored(t, ctx, None, query, looked_at(t, prior));
    let s = placed(t, all);
    let sorted = stable_sort::<Placed, ScoredOrder>(s);
    scored_order_is_strict_weak();
    stable_sort_is_in_order::<Placed, ScoredOrder>(s);
    stable_sort_is_permutation::<Placed, ScoredOrder>(s);
    stable_sort_takes_from::<Placed, ScoredOrder>(s, i);
    stable_sort_takes_from::<Placed, ScoredOrder>(s, j);
    let (a, b) = (sorted[i], sorted[j]);
    assert(top(s, limit)[i] == a && top(s, limit)[j] == b);
    let m = choose|m: int| 0 <= m < s.len() && s[m] == a;
    let n = choose|n: int| 0 <= n < s.len() && s[n] == b;
    candidates_match(t, ctx, None, query, looked_at(t, prior), m);
    candidates_match(t, ctx, None, query, looked_at(t, prior), n);
    assert(a.candidate == all[m]);
    assert(b.candidate == all[n]);
    nearness_in_bounds(t.slots[all[m].index as int].path, current_of(ctx));
    nearness_in_bounds(t.slots[all[n].index as int].path, current_of(ctx));
    tier_rank_is_injective(a.candidate.tier, b.candidate.tier);
    assert(!<ScoredOrder as Order<Placed>>::before(b, a));
}

// ---------------------------------------------------------------------------
// Prefix matches first

/// The candidate of slot `i` in an unscoped search.
pub open spec fn unscoped_candidate(t: Table, needle: Seq<u8>, i: int) -> Placed {
    Placed {
        candidate: candidate(t, None, i, match_score(needle, t.slots[i].name)->0),
        name: t.slots[i],
    }
}

/// Slot `i` matches well enough.
pub open spec fn found(t: Table, needle: Seq<u8>, min: int, i: int) -> bool {
    matched(t, None, needle, i) && match_score(needle, t.slots[i].name)->0 >= min
}

spec fn unscoped(t: Table, needle: Seq<u8>, min: int, ids: Seq<usize>, n: int) -> Seq<Placed> {
    placed(t, scored_below(t, None, None, needle, min, ids, n))
}

proof fn unscoped_step(t: Table, needle: Seq<u8>, min: int, ids: Seq<usize>, n: int)
    requires
        0 < n <= ids.len(),
        t.slots.len() <= usize::MAX,
    ensures
        unscoped(t, needle, min, ids, n) == (if found(t, needle, min, ids[n - 1] as int) {
            unscoped(t, needle, min, ids, n - 1).push(
                unscoped_candidate(t, needle, ids[n - 1] as int),
            )
        } else {
            unscoped(t, needle, min, ids, n - 1)
        }),
{
    let i = ids[n - 1] as int;
    let before = scored_below(t, None, None, needle, min, ids, n - 1);
    let c = candidate(t, None, i, match_score(needle, t.slots[i].name)->0);
    assert(placed(t, before.push(c)) =~= placed(t, before).push(
        unscoped_candidate(t, needle, i),
    ));
}

/// The candidates of distinct slots: each that matches well enough, once.
proof fn unscoped_facts(t: Table, needle: Seq<u8>, min: int, ids: Seq<usize>, n: int)
    requires
        0 <= n <= ids.len(),
        t.slots.len() <= usize::MAX,
        ids.no_duplicates(),
    ensures
        ({
            let s = unscoped(t, needle, min, ids, n);
            &&& forall|k: int|
                0 <= k < s.len() ==> found(t, needle, min, (#[trigger] s[k]).candidate.index as int)
                    && s[k] == unscoped_candidate(t, needle, s[k].candidate.index as int)
                    && ids.subrange(0, n).contains(s[k].candidate.index)
            &&& forall|a: int, b: int|
                0 <= a < b < s.len() ==> (#[trigger] s[a]).candidate.index != (
                #[trigger] s[b]).candidate.index
            &&& forall|j: int|
                0 <= j < n && found(t, needle, min, (#[trigger] ids[j]) as int) ==> s.contains(
                    unscoped_candidate(t, needle, ids[j] as int),
                )
        }),
    decreases n,
{
    if n > 0 {
        unscoped_facts(t, needle, min, ids, n - 1);
        unscoped_step(t, needle, min, ids, n);
        let before = unscoped(t, needle, min, ids, n - 1);
        let s = unscoped(t, needle, min, ids, n);
        let last = ids[n - 1];
        assert(ids.subrange(0, n) =~= ids.subrange(0, n - 1).push(last));
        assert forall|k: int| 0 <= k < s.len() implies found(
            t,
            needle,
            min,
            (#[trigger] s[k]).candidate.index as int,
        ) && s[k] == unscoped_candidate(t, needle, s[k].candidate.index as int) && ids.subrange(
            0,
            n,
        ).contains(s[k].candidate.index) by {
            if k < before.len() {
                assert(s[k] == before[k]);
                let x = before[k].candidate.index;
                assert(ids.subrange(0, n - 1).contains(x));
                let m = choose|m: int| 0 <= m < n - 1 && #[trigger] ids.subrange(0, n - 1)[m] == x;
                assert(ids.subrange(0, n)[m] == x);
            } else {
                assert(ids.subrange(0, n)[n - 1] == last);
            }
        }
        assert forall|a: int, b: int| 0 <= a < b < s.len() implies (
        #[trigger] s[a]).candidate.index != (#[trigger] s[b]).candidate.index by {
            assert(s[a] == before[a]);
            if b < before.len() {
                assert(s[b] == before[b]);
            } else {
                let x = before[a].candidate.index;
                assert(ids.subrange(0, n - 1).contains(x));
                let m = choose|m: int| 0 <= m < n - 1 && #[trigger] ids.subrange(0, n - 1)[m] == x;
                assert(ids[m] != ids[n - 1]);
            }
        }
        assert forall|j: int|
            0 <= j < n && found(t, needle, min, (#[trigger] ids[j]) as int) implies s.contains(
            unscoped_candidate(t, needle, ids[j] as int),
        ) by {
            let x = unscoped_candidate(t, needle, ids[j] as int);
            if j < n - 1 {
                assert(before.contains(x));
                let k = choose|k: int| 0 <= k < before.len() && before[k] == x;
                assert(s[k] == x);
            } else {
                assert(s[before.len() as int] == x);
            }
        }
    }
}

proof fn prefix_quality(t: Table, needle: Seq<u8>, i: int)
    requires
        t.is_active(i),
    ensures
        prefixed(t, needle, i) ==> found(t, needle, 0, i) && found(t, needle, gate(needle), i)
            && match_score(needle, t.slots[i].name)->0 >= 800,
        !prefixed(t, needle, i) && match_score(needle, t.slots[i].name) is Some ==> match_score(
            needle,
            t.slots[i].name,
        )->0 <= 650,
{
    let hay = folded(t.slots[i].name);
    if hay == needle {
        assert(hay.subrange(0, needle.len() as int) =~= needle);
    }
}

/// A match that is no prefix stands in no first-layer external header.
pub open spec fn others_are_global(t: Table, needle: Seq<u8>) -> bool {
    forall|i: int| #[trigger]
        t.is_active(i) && !prefixed(t, needle, i) && match_score(needle, t.slots[i].name) is Some
            && match_score(needle, t.slots[i].name)->0 >= gate(needle) ==> !(t.slots[i].external
            && t.direct_for(t.slots[i]))
}

/// Where prefix matches fill the limit, a search of them alone gives what a
/// search of the whole table gives, if no other match is of a stronger tier:
/// none is in a first-layer external header, or every hit is.
pub proof fn prefix_search_is_full_search(t: Table, query: Seq<char>, limit: int)
    requires
        t.slots.len() <= usize::MAX,
        trim(query).len() > 0,
        0 < limit <= prefix_slots(t, needle_of(query)).len(),
        others_are_global(t, needle_of(query)) || ranked_hits(
            t,
            None,
            needle_of(query),
            limit,
            prefix_slots(t, needle_of(query)),
        )[limit - 1].tier == ScopeTier::External,
    ensures
        ranked_hits(t, None, needle_of(query), limit, prefix_slots(t, needle_of(query)))
            == search_hits(t, None, query, limit, None),
{
    let needle = needle_of(query);
    let ids = prefix_slots(t, needle);
    let all = all_slots(t);
    let s = unscoped(t, needle, gate(needle), all, all.len() as int);
    let p = unscoped(t, needle, 0, ids, ids.len() as int);
    prefix_slots_facts(t, needle);
    prefix_count_is(t, needle, ids, ids.len() as int);
    inclusion(t, needle, s, p);
    stable_sort_is_permutation::<Placed, ScoredOrder>(s);
    stable_sort_is_permutation::<Placed, ScoredOrder>(p);
    heads_agree(t, needle, s, p, limit, limit);
    assert(top(s, limit) =~= top(p, limit));
}

proof fn prefix_count_is(t: Table, needle: Seq<u8>, ids: Seq<usize>, n: int)
    requires
        0 <= n <= ids.len(),
        t.slots.len() <= usize::MAX,
        forall|k: int| 0 <= k < ids.len() ==> prefixed(t, needle, (#[trigger] ids[k]) as int),
    ensures
        unscoped(t, needle, 0, ids, n).len() == n,
    decreases n,
{
    if n > 0 {
        prefix_count_is(t, needle, ids, n - 1);
        unscoped_step(t, needle, 0, ids, n);
        assert(prefixed(t, needle, ids[n - 1] as int));
        prefix_quality(t, needle, ids[n - 1] as int);
    }
}

/// `s` holds every candidate of the table, `p` the prefix matches.
spec fn full_and_prefixed(t: Table, needle: Seq<u8>, s: Seq<Placed>, p: Seq<Placed>) -> bool {
    &&& forall|k: int|
        0 <= k < s.len() ==> found(
            t,
            needle,
            gate(needle),
            (#[trigger] s[k]).candidate.index as int,
        ) && s[k] == unscoped_candidate(t, needle, s[k].candidate.index as int)
    &&& forall|k: int|
        0 <= k < p.len() ==> prefixed(t, needle, (#[trigger] p[k]).candidate.index as int) && p[k]
            == unscoped_candidate(t, needle, p[k].candidate.index as int)
    &&& s.no_duplicates()
    &&& p.no_duplicates()
    &&& forall|k: int| 0 <= k < p.len() ==> s.contains(#[trigger] p[k])
    &&& forall|k: int|
        0 <= k < s.len() && prefixed(t, needle, (#[trigger] s[k]).candidate.index as int)
            ==> p.contains(s[k])
}

proof fn inclusion(t: Table, needle: Seq<u8>, s: Seq<Placed>, p: Seq<Placed>)
    requires
        t.slots.len() <= usize::MAX,
        needle.len() > 0,
        s == unscoped(t, needle, gate(needle), all_slots(t), all_slots(t).len() as int),
        p == unscoped(
            t,
            needle,
            0,
            prefix_slots(t, needle),
            prefix_slots(t, needle).len() as int,
        ),
    ensures
        full_and_prefixed(t, needle, s, p),
{
    let ids = prefix_slots(t, needle);
    let all = all_slots(t);
    prefix_slots_facts(t, needle);
    assert(all.no_duplicates());
    unscoped_facts(t, needle, gate(needle), all, all.len() as int);
    unscoped_facts(t, needle, 0, ids, ids.len() as int);
    assert(ids.subrange(0, ids.len() as int) =~= ids);
    assert forall|k: int| 0 <= k < p.len() implies prefixed(
        t,
        needle,
        (#[trigger] p[k]).candidate.index as int,
    ) && p[k] == unscoped_candidate(t, needle, p[k].candidate.index as int) by {
        let x = p[k].candidate.index;
        assert(ids.contains(x));
        let m = choose|m: int| 0 <= m < ids.len() && ids[m] == x;
        assert(prefixed(t, needle, ids[m] as int));
    }
    assert forall|k: int| 0 <= k < p.len() implies s.contains(#[trigger] p[k]) by {
        let x = p[k].candidate.index as int;
        prefix_quality(t, needle, x);
        assert(all[x] == x as usize);
        assert(found(t, needle, gate(needle), all[x] as int));
    }
    assert forall|k: int|
        0 <= k < s.len() && prefixed(
            t,
            needle,
            (#[trigger] s[k]).candidate.index as int,
        ) implies p.contains(s[k]) by {
        let x = s[k].candidate.index as int;
        prefix_quality(t, needle, x);
        assert(ids.contains(x as usize));
        let m = choose|m: int| 0 <= m < ids.len() && ids[m] == x as usize;
        assert(found(t, needle, 0, ids[m] as int));
    }
    assert forall|i: int, j: int|
        0 <= i < s.len() && 0 <= j < s.len() && i != j implies s[i] != s[j] by {
        if i < j {
            assert(s[i].candidate.index != s[j].candidate.index);
        } else {
            assert(s[j].candidate.index != s[i].candidate.index);
        }
    }
    assert forall|i: int, j: int|
        0 <= i < p.len() && 0 <= j < p.len() && i != j implies p[i] != p[j] by {
        if i < j {
            assert(p[i].candidate.index != p[j].candidate.index);
        } else {
            assert(p[j].candidate.index != p[i].candidate.index);
        }
    }
}

/// A prefix match stands before any other match of no stronger tier.
proof fn prefix_goes_first(t: Table, needle: Seq<u8>, q: int, x: int)
    requires
        t.slots.len() <= usize::MAX,
        prefixed(t, needle, q),
        found(t, needle, gate(needle), x),
        !prefixed(t, needle, x),
        tier_in(None, t.slots[q].path, t.slots[q].external, t.direct_for(t.slots[q])).spec_rank()
            >= tier_in(
            None,
            t.slots[x].path,
            t.slots[x].external,
            t.direct_for(t.slots[x]),
        ).spec_rank(),
    ensures
        <ScoredOrder as Order<Placed>>::before(
            unscoped_candidate(t, needle, q),
            unscoped_candidate(t, needle, x),
        ),
{
    prefix_quality(t, needle, q);
    prefix_quality(t, needle, x);
}

/// The first `n` of both sorted sequences are the same.
proof fn heads_agree(
    t: Table,
    needle: Seq<u8>,
    s: Seq<Placed>,
    p: Seq<Placed>,
    limit: int,
    n: int,
)
    requires
        t.slots.len() <= usize::MAX,
        full_and_prefixed(t, needle, s, p),
        0 <= n <= limit <= p.len(),
        0 < limit,
        others_are_global(t, needle) || stable_sort::<Placed, ScoredOrder>(p)[limit
            - 1].candidate.tier == ScopeTier::External,
    ensures
        stable_sort::<Placed, ScoredOrder>(s).len() >= n,
        stable_sort::<Placed, ScoredOrder>(p).len() >= n,
        forall|i: int|
            0 <= i < n ==> stable_sort::<Placed, ScoredOrder>(s)[i] == stable_sort::<
                Placed,
                ScoredOrder,
            >(p)[i],
    decreases n,
{
    broadcast use vstd::seq_lib::group_to_multiset_ensures;

    let a = stable_sort::<Placed, ScoredOrder>(s);
    let b = stable_sort::<Placed, ScoredOrder>(p);
    scored_order_is_strict_weak();
    stable_sort_is_in_order::<Placed, ScoredOrder>(s);
    stable_sort_is_in_order::<Placed, ScoredOrder>(p);
    stable_sort_is_permutation::<Placed, ScoredOrder>(s);
    stable_sort_is_permutation::<Placed, ScoredOrder>(p);
    s.lemma_multiset_has_no_duplicates();
    a.lemma_multiset_has_no_duplicates_conv();
    p.lemma_multiset_has_no_duplicates();
    b.lemma_multiset_has_no_duplicates_conv();
    if n > 0 {
        heads_agree(t, needle, s, p, limit, n - 1);
        let i = n - 1;
        // The next prefix match is somewhere in the full order, not earlier.
        stable_sort_takes_from::<Placed, ScoredOrder>(p, i);
        let pk = choose|m: int| 0 <= m < p.len() && p[m] == b[i];
        assert(s.contains(p[pk]));
        assert(s.to_multiset().count(b[i]) > 0);
        assert(a.contains(b[i]));
        let m = choose|m: int| 0 <= m < a.len() && a[m] == b[i];
        assert(m >= i) by {
            if m < i {
                assert(a[m] == b[m]);
                assert(b[m] == b[i]);
            }
        }
        assert(a.len() > i);
        stable_sort_takes_from::<Placed, ScoredOrder>(s, i);
        let sk = choose|k: int| 0 <= k < s.len() && s[k] == a[i];
        let x = a[i].candidate.index as int;
        let q = b[i].candidate.index as int;
        assert(p[pk] == b[i] && prefixed(t, needle, q));
        assert(s[sk] == a[i] && found(t, needle, gate(needle), x));
        if m > i {
            assert(!<ScoredOrder as Order<Placed>>::before(a[m], a[i]));
        }
        if prefixed(t, needle, x) {
            assert(p.contains(s[sk]));
            assert(p.to_multiset().count(a[i]) > 0);
            assert(b.contains(a[i]));
            let w = choose|w: int| 0 <= w < b.len() && b[w] == a[i];
            assert(w >= i) by {
                if w < i {
                    assert(a[w] == b[w]);
                    assert(a[w] == a[i]);
                }
            }
            if w > i {
                assert(!<ScoredOrder as Order<Placed>>::before(b[w], b[i]));
            }
            if a[i] != b[i] {
                text_before_is_total(a[i].name.name, b[i].name.name);
                text_before_is_total(a[i].name.path, b[i].name.path);
                assert(a[i] == unscoped_candidate(t, needle, x));
                assert(b[i] == unscoped_candidate(t, needle, q));
                assert(false);
            }
        } else {
            if !others_are_global(t, needle) {
                if i < limit - 1 {
                    assert(!<ScoredOrder as Order<Placed>>::before(
                        b[limit - 1],
                        b[i],
                    ));
                    stable_sort_takes_from::<Placed, ScoredOrder>(p, limit - 1);
                    let lk = choose|k: int| 0 <= k < p.len() && p[k] == b[limit - 1];
                    let l = b[limit - 1].candidate.index as int;
                    assert(p[lk] == b[limit - 1] && prefixed(t, needle, l));
                    prefix_quality(t, needle, l);
                    prefix_quality(t, needle, q);
                    assert(b[i] == unscoped_candidate(t, needle, q));
                    assert(b[limit - 1] == unscoped_candidate(t, needle, l));
                }
                assert(b[i].candidate.tier == ScopeTier::External);
            } else {
                assert(t.is_active(x));
            }
            assert(b[i] == unscoped_candidate(t, needle, q));
            prefix_goes_first(t, needle, q, x);
            assert(a[i] == unscoped_candidate(t, needle, x));
            assert(false);
        }
    }
}

} // verus!
