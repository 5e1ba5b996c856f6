//! What a member chain before a cursor is, told by how it is written.

use vstd::prelude::*;

use crate::chars::{char_is_space, space_run_end, space_run_start};
use crate::text::{
    balanced_end, block_comment_end, chain_before, chain_from, first_chain, ident_run_end,
    ident_run_start, identifier_at, line_end, member_operator_start, quoted_end, selections_from,
    unary_run_end, whole_chain, Chain,
};

verus! {

// ---------------------------------------------------------------------------
// Chains as they are written

/// A letter, a digit or an underscore.
pub open spec fn is_word_char(c: char) -> bool {
    ('a' <= c && c <= 'z') || ('A' <= c && c <= 'Z') || ('0' <= c && c <= '9') || c == '_'
}

/// A plain name.
pub open spec fn is_plain_name(s: Seq<char>) -> bool {
    &&& s.len() > 0
    &&& !('0' <= s[0] && s[0] <= '9')
    &&& forall|i: int| 0 <= i < s.len() ==> is_word_char(#[trigger] s[i])
}

/// Blanks and tabs.
pub open spec fn are_gaps(s: Seq<char>) -> bool {
    forall|i: int| 0 <= i < s.len() ==> (#[trigger] s[i] == ' ' || s[i] == '\t')
}

/// Unary operators.
pub open spec fn are_unary(s: Seq<char>) -> bool {
    forall|i: int| 0 <= i < s.len() ==> (#[trigger] s[i] == '*' || s[i] == '&')
}

/// A step of a chain: a selected member, or a subscript.
pub enum Step {
    Dot(Seq<char>),
    Arrow(Seq<char>),
    Index(Seq<char>),
}

/// How many more square brackets are opened than closed among the first `k`
/// characters.
pub open spec fn depth(s: Seq<char>, k: int) -> int
    decreases k,
{
    if k <= 0 {
        0
    } else {
        depth(s, k - 1) + if s[k - 1] == '[' {
            1int
        } else if s[k - 1] == ']' {
            -1int
        } else {
            0int
        }
    }
}

impl Step {
    pub open spec fn text(self) -> Seq<char> {
        match self {
            Step::Dot(name) => seq!['.'] + name,
            Step::Arrow(name) => seq!['-', '>'] + name,
            Step::Index(inner) => seq!['['] + inner + seq![']'],
        }
    }

    /// The step selects a plain name, or its subscript has square brackets that
    /// balance, and neither parentheses nor what may open a literal or a
    /// comment.
    pub open spec fn is_proper(self) -> bool {
        match self {
            Step::Dot(name) | Step::Arrow(name) => is_plain_name(name),
            Step::Index(inner) => {
                &&& depth(inner, inner.len() as int) == 0
                &&& forall|k: int| 0 <= k <= inner.len() ==> #[trigger] depth(inner, k) >= 0
                &&& forall|k: int|
                    0 <= k < inner.len() ==> #[trigger] inner[k] != '"' && inner[k] != '\''
                        && inner[k] != '/' && inner[k] != '(' && inner[k] != ')'
            },
        }
    }
}

/// The text of the first `n` steps.
pub open spec fn steps_text(steps: Seq<Step>, n: int) -> Seq<char>
    decreases n,
{
    if n <= 0 {
        Seq::empty()
    } else {
        steps_text(steps, n - 1) + steps[n - 1].text()
    }
}

/// The members that the first `n` steps select, in order.
pub open spec fn selected(steps: Seq<Step>, n: int) -> Seq<Seq<char>>
    decreases n,
{
    if n <= 0 {
        Seq::empty()
    } else {
        match steps[n - 1] {
            Step::Dot(name) | Step::Arrow(name) => selected(steps, n - 1).push(name),
            Step::Index(_) => selected(steps, n - 1),
        }
    }
}

/// A character that ends whatever stands before it: it is no part of a chain,
/// and opens or closes nothing.
pub open spec fn is_stop(c: char) -> bool {
    c == ';' || c == ',' || c == '=' || c == '{' || c == '}' || c == '+' || c == '!' || c == '?'
        || c == ':' || c == '|' || c == '<' || c == '%' || c == '^' || c == '~'
}

// ---------------------------------------------------------------------------
// Reading a chain

pub open spec fn reads(s: Seq<char>, i: int, t: Seq<char>) -> bool {
    0 <= i && i + t.len() <= s.len() && forall|k: int|
        0 <= k < t.len() ==> s[i + k] == #[trigger] t[k]
}

pub proof fn part_reads(s: Seq<char>, i: int, t: Seq<char>, part: Seq<char>, skip: int)
    requires
        reads(s, i, t),
        0 <= skip,
        skip + part.len() <= t.len(),
        forall|k: int| 0 <= k < part.len() ==> t[skip + k] == #[trigger] part[k],
    ensures
        reads(s, i + skip, part),
{
    assert forall|k: int| 0 <= k < part.len() implies s[i + skip + k] == #[trigger] part[k] by {
        assert(s[i + (skip + k)] == t[skip + k]);
    }
}

proof fn word_read(s: Seq<char>, i: int, end: int)
    requires
        0 <= i <= end <= s.len(),
        forall|k: int| i <= k < end ==> is_word_char(#[trigger] s[k]),
        end < s.len() ==> !is_word_char(s[end]),
    ensures
        ident_run_end(s, i) == end,
    decreases end - i,
{
    if i < end {
        assert(is_word_char(s[i]));
        word_read(s, i + 1, end);
    }
}

pub proof fn name_read(s: Seq<char>, i: int, name: Seq<char>)
    requires
        is_plain_name(name),
        reads(s, i, name),
        i + name.len() < s.len() ==> !is_word_char(s[i + name.len()]),
    ensures
        identifier_at(s, i) == Some((name, i + name.len())),
{
    let end = i + name.len();
    assert(s[i + 0] == name[0]);
    assert(is_word_char(name[0]));
    assert forall|k: int| i <= k < end implies is_word_char(#[trigger] s[k]) by {
        assert(s[i + (k - i)] == name[k - i]);
        assert(is_word_char(name[k - i]));
    }
    word_read(s, i + 1, end);
    assert(s.subrange(i, end) =~= name) by {
        assert forall|k: int| 0 <= k < name.len() implies s.subrange(i, end)[k] == name[k] by {
            assert(s[i + k] == name[k]);
        }
    }
}

pub proof fn index_read(s: Seq<char>, i: int, inner: Seq<char>, k: int)
    requires
        reads(s, i, inner),
        i + inner.len() < s.len(),
        s[i + inner.len()] == ']',
        0 <= k <= inner.len(),
        (Step::Index(inner)).is_proper(),
    ensures
        balanced_end(s, i + k, (depth(inner, k) + 1) as nat, '[', ']') == Some(
            i + inner.len() + 1,
        ),
    decreases inner.len() - k,
{
    assert(depth(inner, k) >= 0);
    if k < inner.len() {
        assert(s[i + k] == inner[k]);
        assert(depth(inner, k + 1) >= 0);
        index_read(s, i, inner, k + 1);
    }
}

/// The chain in `s`: white space, unary operators, a receiver and steps.
spec fn is_written(
    s: Seq<char>,
    gap: Seq<char>,
    unary: Seq<char>,
    receiver: Seq<char>,
    steps: Seq<Step>,
) -> bool {
    &&& s == gap + unary + receiver + steps_text(steps, steps.len() as int)
    &&& are_gaps(gap)
    &&& are_unary(unary)
    &&& is_plain_name(receiver)
    &&& forall|i: int| 0 <= i < steps.len() ==> (#[trigger] steps[i]).is_proper()
}

pub proof fn steps_monotone(steps: Seq<Step>, n: int, m: int)
    requires
        0 <= n <= m <= steps.len(),
    ensures
        steps_text(steps, n).len() <= steps_text(steps, m).len(),
        steps_text(steps, m).subrange(0, steps_text(steps, n).len() as int) == steps_text(
            steps,
            n,
        ),
    decreases m,
{
    let (a, b) = (steps_text(steps, n), steps_text(steps, m));
    if n < m {
        steps_monotone(steps, n, m - 1);
        let c = steps_text(steps, m - 1);
        assert(b.subrange(0, a.len() as int) =~= c.subrange(0, a.len() as int));
    } else {
        assert(b.subrange(0, b.len() as int) =~= b);
    }
}

proof fn steps_read(s: Seq<char>, base: int, steps: Seq<Step>, n: int)
    requires
        0 <= n <= steps.len(),
        0 <= base,
        reads(s, base, steps_text(steps, steps.len() as int)),
        s.len() == base + steps_text(steps, steps.len() as int).len(),
        forall|i: int| 0 <= i < steps.len() ==> (#[trigger] steps[i]).is_proper(),
    ensures
        selections_from(s, base + steps_text(steps, n).len(), selected(steps, n)) == Some(
            (selected(steps, steps.len() as int), s.len() as int),
        ),
    decreases steps.len() - n,
{
    let total = steps.len() as int;
    let all = steps_text(steps, total);
    let at = base + steps_text(steps, n).len();
    if n < total {
        let step = steps[n];
        let t = step.text();
        let before = steps_text(steps, n);
        steps_monotone(steps, n + 1, total);
        assert(step.is_proper());
        let next = at + t.len();
        assert forall|k: int| 0 <= k < t.len() implies all[before.len() + k] == #[trigger] t[k] by {
            let both = steps_text(steps, n + 1);
            assert(all.subrange(0, both.len() as int)[before.len() + k] == both[before.len() + k]);
        }
        part_reads(s, base, all, t, before.len() as int);
        assert(s[at + 0] == t[0]);
        if n + 1 < total {
            steps_monotone(steps, n + 2, total);
            let more = steps_text(steps, n + 2);
            let d = steps_text(steps, n + 1).len() as int;
            assert(more[d] == steps[n + 1].text()[0]);
            assert(all.subrange(0, more.len() as int)[d] == all[d]);
            assert(s[base + d] == all[d]);
            assert(!is_word_char(s[next]));
        } else {
            assert(next == s.len());
        }
        match step {
            Step::Dot(name) => {
                part_reads(s, at, t, name, 1);
                name_read(s, at + 1, name);
                assert(s[at + 1 + 0] == name[0]);
                assert(is_word_char(name[0]));
            },
            Step::Arrow(name) => {
                assert(s[at + 1] == t[1]);
                part_reads(s, at, t, name, 2);
                name_read(s, at + 2, name);
                assert(s[at + 2 + 0] == name[0]);
                assert(is_word_char(name[0]));
            },
            Step::Index(inner) => {
                part_reads(s, at, t, inner, 1);
                assert(s[at + (t.len() - 1)] == t[t.len() - 1]);
                index_read(s, at + 1, inner, 0);
            },
        }
        steps_read(s, base, steps, n + 1);
    }
}

proof fn gap_read(s: Seq<char>, i: int, end: int)
    requires
        0 <= i <= end <= s.len(),
        forall|k: int| i <= k < end ==> (#[trigger] s[k] == ' ' || s[k] == '\t'),
        end < s.len() ==> is_word_char(s[end]) || s[end] == '*' || s[end] == '&',
    ensures
        space_run_end(s, i) == end,
    decreases end - i,
{
    if i < end {
        assert(s[i] == ' ' || s[i] == '\t');
        gap_read(s, i + 1, end);
    }
}

proof fn unary_read(s: Seq<char>, i: int, end: int)
    requires
        0 <= i <= end < s.len(),
        forall|k: int| i <= k < end ==> (#[trigger] s[k] == '*' || s[k] == '&'),
        is_word_char(s[end]),
    ensures
        unary_run_end(s, i) == end,
    decreases end - i,
{
    if i < end {
        assert(s[i] == '*' || s[i] == '&');
        if i + 1 < end {
            assert(s[i + 1] == '*' || s[i + 1] == '&');
        }
        assert(space_run_end(s, i + 1) == i + 1);
        unary_read(s, i + 1, end);
    }
}

/// Where the parts of a chain stand.
proof fn parts_stand(
    s: Seq<char>,
    gap: Seq<char>,
    unary: Seq<char>,
    receiver: Seq<char>,
    all: Seq<char>,
)
    requires
        s == gap + unary + receiver + all,
        are_gaps(gap),
        are_unary(unary),
        is_plain_name(receiver),
    ensures
        ({
            let a = gap.len() as int;
            let b = a + unary.len();
            let c = b + receiver.len();
            &&& s.len() == c + all.len()
            &&& forall|k: int| 0 <= k < a ==> (#[trigger] s[k] == ' ' || s[k] == '\t')
            &&& forall|k: int| a <= k < b ==> (#[trigger] s[k] == '*' || s[k] == '&')
            &&& is_word_char(s[b])
            &&& reads(s, b, receiver)
            &&& reads(s, c, all)
        }),
{
    let a = gap.len() as int;
    let b = a + unary.len();
    let c = b + receiver.len();
    assert forall|k: int| 0 <= k < a implies (#[trigger] s[k] == ' ' || s[k] == '\t') by {
        assert(s[k] == gap[k]);
    }
    assert forall|k: int| a <= k < b implies (#[trigger] s[k] == '*' || s[k] == '&') by {
        assert(s[k] == unary[k - a]);
    }
    assert(s[b] == receiver[0]);
    assert(is_word_char(receiver[0]));
    assert forall|k: int| 0 <= k < receiver.len() implies s[b + k] == #[trigger] receiver[k] by {}
    assert forall|k: int| 0 <= k < all.len() implies s[c + k] == #[trigger] all[k] by {}
}

/// No step begins with a word character.
pub proof fn steps_begin(steps: Seq<Step>)
    requires
        steps.len() > 0,
    ensures
        steps_text(steps, steps.len() as int).len() > 0,
        !is_word_char(steps_text(steps, steps.len() as int)[0]),
{
    let all = steps_text(steps, steps.len() as int);
    let t = steps[0].text();
    steps_monotone(steps, 1, steps.len() as int);
    assert(steps_text(steps, 0) =~= Seq::<char>::empty());
    assert(steps_text(steps, 1) =~= t);
    assert(t.len() > 0 && !is_word_char(t[0]));
    assert(all.subrange(0, t.len() as int)[0] == t[0]);
}

proof fn chain_read(
    s: Seq<char>,
    gap: Seq<char>,
    unary: Seq<char>,
    receiver: Seq<char>,
    steps: Seq<Step>,
)
    requires
        is_written(s, gap, unary, receiver, steps),
    ensures
        whole_chain(s) == Some(
            Chain { receiver, members: selected(steps, steps.len() as int) },
        ),
{
    let n = steps.len() as int;
    let all = steps_text(steps, n);
    let a = gap.len() as int;
    let b = a + unary.len();
    let c = b + receiver.len();
    parts_stand(s, gap, unary, receiver, all);
    assert(a < b ==> (s[a] == '*' || s[a] == '&'));
    gap_read(s, 0, a);
    gap_read(s, a, a);
    unary_read(s, a, b);
    if n > 0 {
        steps_begin(steps);
        assert(s[c + 0] == all[0]);
    }
    name_read(s, b, receiver);
    assert(steps_text(steps, 0).len() == 0);
    steps_read(s, c, steps, 0);
    assert(selected(steps, 0) =~= Seq::<Seq<char>>::empty());
    chain_is(s, a, b, c, receiver, selected(steps, n));
}

/// A chain of a receiver at `b` and selections from `c` on, which reach the
/// end.
proof fn chain_is(
    s: Seq<char>,
    a: int,
    b: int,
    c: int,
    receiver: Seq<char>,
    members: Seq<Seq<char>>,
)
    requires
        0 <= a <= b < c <= s.len(),
        space_run_end(s, 0) == a,
        space_run_end(s, a) == a,
        unary_run_end(s, a) == b,
        is_word_char(s[b]),
        identifier_at(s, b) == Some((receiver, c)),
        selections_from(s, c, Seq::empty()) == Some((members, s.len() as int)),
    ensures
        whole_chain(s) == Some(Chain { receiver, members }),
{
}

// ---------------------------------------------------------------------------
// What no chain spans

/// Behind the stop at `p` no square bracket closes.
spec fn is_stopped(s: Seq<char>, p: int) -> bool {
    0 <= p < s.len() && is_stop(s[p]) && forall|k: int| p <= k < s.len() ==> #[trigger] s[k] != ']'
}

proof fn space_stops(s: Seq<char>, i: int, p: int)
    requires
        is_stopped(s, p),
        0 <= i <= p,
    ensures
        i <= space_run_end(s, i) <= p,
    decreases p - i,
{
    if i < p {
        space_stops(s, i + 1, p);
    }
}

proof fn unary_stops(s: Seq<char>, i: int, p: int)
    requires
        is_stopped(s, p),
        0 <= i <= p,
    ensures
        i <= unary_run_end(s, i) <= p,
    decreases p - i,
{
    if s[i] == '*' || s[i] == '&' {
        space_stops(s, i + 1, p);
        unary_stops(s, space_run_end(s, i + 1), p);
    }
}

proof fn word_stops(s: Seq<char>, i: int, p: int)
    requires
        is_stopped(s, p),
        0 <= i <= p,
    ensures
        i <= ident_run_end(s, i) <= p,
    decreases p - i,
{
    if i < p {
        word_stops(s, i + 1, p);
    }
}

/// What balances ends with the closing character.
proof fn balance_ends(s: Seq<char>, i: int, d: nat, open: char, close: char)
    ensures
        match balanced_end(s, i, d, open, close) {
            Some(next) => i < next <= s.len() && s[next - 1] == close,
            None => true,
        },
    decreases s.len() - i,
{
    if 0 <= i < s.len() {
        let q = quoted_end(s, s[i], i + 1);
        let l = line_end(s, i + 2);
        let c = block_comment_end(s, i + 2);
        if i < q <= s.len() {
            balance_ends(s, q, d, open, close);
        }
        if i < l <= s.len() {
            balance_ends(s, l, d, open, close);
        }
        if i < c <= s.len() {
            balance_ends(s, c, d, open, close);
        }
        balance_ends(s, i + 1, d, open, close);
        balance_ends(s, i + 1, d + 1, open, close);
        if d > 1 {
            balance_ends(s, i + 1, (d - 1) as nat, open, close);
        }
        match balanced_end(s, i + 1, 1, '(', ')') {
            Some(next) => {
                if i < next <= s.len() {
                    balance_ends(s, next, d, open, close);
                }
            },
            None => {},
        }
    }
}

proof fn selections_stop(s: Seq<char>, i: int, members: Seq<Seq<char>>, p: int)
    requires
        is_stopped(s, p),
        0 <= i <= p,
    ensures
        selections_from(s, i, members) is Some ==> i <= (selections_from(s, i, members)->0).1 <= p,
    decreases p - i,
{
    space_stops(s, i, p);
    let at = space_run_end(s, i);
    if s[at] == '[' {
        balance_ends(s, at + 1, 1, '[', ']');
        match balanced_end(s, at + 1, 1, '[', ']') {
            Some(next) => {
                assert(next - 1 < p) by {
                    if next - 1 >= p {
                        assert(s[next - 1] != ']');
                    }
                }
                selections_stop(s, next, members, p);
            },
            None => {},
        }
    } else if s[at] == '.' || (s[at] == '-' && at + 1 < s.len() && s[at + 1] == '>') {
        let after = if s[at] == '.' {
            at + 1
        } else {
            at + 2
        };
        assert(after <= p) by {
            if s[at] != '.' {
                assert(at + 1 != p);
            }
        }
        space_stops(s, after, p);
        let from = space_run_end(s, after);
        match identifier_at(s, from) {
            Some((name, next)) => {
                word_stops(s, from + 1, p);
                selections_stop(s, next, members.push(name), p);
            },
            None => {},
        }
    }
}

proof fn chain_stops(s: Seq<char>, i: int, p: int)
    requires
        is_stopped(s, p),
        0 <= i <= p,
    ensures
        chain_from(s, i) is Some ==> i <= (chain_from(s, i)->0).1 <= p,
    decreases p - i,
{
    space_stops(s, i, p);
    unary_stops(s, space_run_end(s, i), p);
    let at = unary_run_end(s, space_run_end(s, i));
    if s[at] == '(' {
        chain_stops(s, at + 1, p);
        match chain_from(s, at + 1) {
            Some((inner, inner_end)) => {
                space_stops(s, inner_end, p);
                let close = space_run_end(s, inner_end);
                if s[close] == ')' {
                    selections_stop(s, close + 1, inner.members, p);
                }
            },
            None => {},
        }
    } else {
        match identifier_at(s, at) {
            Some((receiver, after)) => {
                word_stops(s, at + 1, p);
                selections_stop(s, after, Seq::empty(), p);
            },
            None => {},
        }
    }
}

proof fn no_chain_over(s: Seq<char>, p: int)
    requires
        is_stopped(s, p),
    ensures
        whole_chain(s) is None,
{
    space_stops(s, 0, p);
    chain_stops(s, space_run_end(s, 0), p);
    match chain_from(s, space_run_end(s, 0)) {
        Some((chain, next)) => {
            space_stops(s, next, p);
        },
        None => {},
    }
}

proof fn starts_skipped(s: Seq<char>, from: int, p: int, op: int)
    requires
        0 <= from <= p < op <= s.len(),
        is_stop(s[p]),
        forall|k: int| p <= k < op ==> #[trigger] s[k] != ']',
    ensures
        first_chain(s, from, op) == first_chain(s, p + 1, op),
    decreases p - from,
{
    let part = s.subrange(from, op);
    assert(is_stopped(part, p - from)) by {
        assert forall|k: int| p - from <= k < part.len() implies #[trigger] part[k] != ']' by {
            assert(part[k] == s[from + k]);
        }
    }
    no_chain_over(part, p - from);
    if from < p {
        starts_skipped(s, from + 1, p, op);
    }
}

// ---------------------------------------------------------------------------
// Laws

/// The line before the cursor: code that a stop ends, or none, a chain, a
/// selector and the letters of a member.
pub open spec fn chain_line(
    code: Seq<char>,
    gap: Seq<char>,
    unary: Seq<char>,
    receiver: Seq<char>,
    steps: Seq<Step>,
    arrow: bool,
    prefix: Seq<char>,
) -> Seq<char> {
    code + gap + unary + receiver + steps_text(steps, steps.len() as int) + (if arrow {
        seq!['-', '>']
    } else {
        seq!['.']
    }) + prefix
}

/// Member completion reads the whole chain before the selector: its receiver,
/// and every member that was selected, in order. Subscripts, unary operators,
/// the code before the chain and what follows the cursor play no part.
pub proof fn chain_has_every_member(
    line: Seq<char>,
    target: int,
    code: Seq<char>,
    gap: Seq<char>,
    unary: Seq<char>,
    receiver: Seq<char>,
    steps: Seq<Step>,
    arrow: bool,
    prefix: Seq<char>,
)
    requires
        0 <= target <= line.len(),
        line.subrange(0, target) == chain_line(code, gap, unary, receiver, steps, arrow, prefix),
        are_gaps(gap),
        are_unary(unary),
        is_plain_name(receiver),
        forall|i: int| 0 <= i < steps.len() ==> (#[trigger] steps[i]).is_proper(),
        forall|i: int| 0 <= i < prefix.len() ==> is_word_char(#[trigger] prefix[i]),
        code.len() > 0 ==> is_stop(code.last()) && forall|i: int|
            0 <= i < steps.len() ==> !((#[trigger] steps[i]) is Index),
    ensures
        chain_before(line, target) == Some(
            Chain { receiver, members: selected(steps, steps.len() as int) },
        ),
{
    let all = steps_text(steps, steps.len() as int);
    let s = gap + unary + receiver + all;
    let p = code.len() - 1;
    let op = p + 1 + s.len();
    line_parts(line, target, code, s, arrow, prefix, gap, unary, receiver, all);
    chain_read(s, gap, unary, receiver, steps);
    selector_found(line, op, arrow, target);
    first_is(line, p + 1, op, s);
    if code.len() > 0 {
        no_index_no_bracket(steps, steps.len() as int);
        no_bracket(s, gap, unary, receiver, all);
        assert forall|k: int| p <= k < op implies #[trigger] line[k] != ']' by {
            if k > p {
                assert(line.subrange(p + 1, op)[k - p - 1] == s[k - p - 1]);
            }
        }
        starts_skipped(line, 0, p, op);
    }
}

/// The chain that starts behind a stop, or at the start.
proof fn first_is(line: Seq<char>, from: int, op: int, s: Seq<char>)
    requires
        0 <= from < op <= line.len(),
        from > 0 ==> is_stop(line[from - 1]),
        line.subrange(from, op) == s,
        whole_chain(s) is Some,
    ensures
        first_chain(line, from, op) == whole_chain(s),
{
}

proof fn no_bracket(
    s: Seq<char>,
    gap: Seq<char>,
    unary: Seq<char>,
    receiver: Seq<char>,
    all: Seq<char>,
)
    requires
        s == gap + unary + receiver + all,
        are_gaps(gap),
        are_unary(unary),
        is_plain_name(receiver),
        forall|k: int| 0 <= k < all.len() ==> #[trigger] all[k] != ']',
    ensures
        forall|k: int| 0 <= k < s.len() ==> #[trigger] s[k] != ']',
{
    parts_stand(s, gap, unary, receiver, all);
    let b = (gap.len() + unary.len()) as int;
    let c = b + receiver.len();
    assert forall|j: int| 0 <= j < s.len() implies #[trigger] s[j] != ']' by {
        if b <= j < c {
            assert(s[b + (j - b)] == receiver[j - b]);
            assert(is_word_char(receiver[j - b]));
        } else if j >= c {
            assert(s[c + (j - c)] == all[j - c]);
        }
    }
}

/// Where the parts of a line stand.
proof fn line_parts(
    line: Seq<char>,
    target: int,
    code: Seq<char>,
    s: Seq<char>,
    arrow: bool,
    prefix: Seq<char>,
    gap: Seq<char>,
    unary: Seq<char>,
    receiver: Seq<char>,
    all: Seq<char>,
)
    requires
        0 <= target <= line.len(),
        s == gap + unary + receiver + all,
        line.subrange(0, target) == code + gap + unary + receiver + all + (if arrow {
            seq!['-', '>']
        } else {
            seq!['.']
        }) + prefix,
        forall|i: int| 0 <= i < prefix.len() ==> is_word_char(#[trigger] prefix[i]),
    ensures
        ({
            let op = (code.len() + s.len()) as int;
            let end = op + if arrow {
                2int
            } else {
                1int
            };
            &&& target == end + prefix.len()
            &&& line.subrange(code.len() as int, op) == s
            &&& code.len() > 0 ==> line[code.len() - 1] == code.last()
            &&& arrow ==> line[op] == '-' && line[op + 1] == '>'
            &&& !arrow ==> line[op] == '.'
            &&& forall|k: int| end <= k < target ==> is_word_char(#[trigger] line[k])
        }),
{
    let sel = if arrow {
        seq!['-', '>']
    } else {
        seq!['.']
    };
    let head = line.subrange(0, target);
    let op = (code.len() + s.len()) as int;
    assert(head =~= code + s + sel + prefix);
    let whole = code + s + sel + prefix;
    assert(sel.len() == if arrow {
        2int
    } else {
        1int
    });
    assert(whole.len() == op + sel.len() + prefix.len());
    assert(line.subrange(code.len() as int, op) =~= s) by {
        assert forall|k: int| 0 <= k < s.len() implies line[code.len() + k] == s[k] by {
            assert(head[code.len() + k] == whole[code.len() + k]);
        }
    }
    if code.len() > 0 {
        assert(head[code.len() - 1] == whole[code.len() - 1]);
    }
    assert(head[op] == whole[op] && whole[op] == sel[0]);
    if arrow {
        assert(head[op + 1] == whole[op + 1] && whole[op + 1] == sel[1]);
    }
    assert forall|k: int| op + sel.len() <= k < target implies is_word_char(#[trigger] line[k]) by {
        assert(head[k] == whole[k] && whole[k] == prefix[k - op - sel.len()]);
    }
}

pub proof fn selector_found(line: Seq<char>, op: int, arrow: bool, target: int)
    requires
        ({
            let end = op + if arrow {
                2int
            } else {
                1int
            };
            &&& 0 <= op
            &&& end <= target <= line.len()
            &&& arrow ==> line[op] == '-' && line[op + 1] == '>'
            &&& !arrow ==> line[op] == '.'
            &&& forall|k: int| end <= k < target ==> is_word_char(#[trigger] line[k])
        }),
    ensures
        member_operator_start(line, ident_run_start(line, target)) == Some(op),
{
    let end = op + if arrow {
        2int
    } else {
        1int
    };
    run_starts(line, end, target);
    assert(space_run_start(line, end) == end);
}

pub proof fn run_starts(s: Seq<char>, from: int, to: int)
    requires
        0 < from <= to <= s.len(),
        !is_word_char(s[from - 1]),
        forall|k: int| from <= k < to ==> is_word_char(#[trigger] s[k]),
    ensures
        ident_run_start(s, to) == from,
    decreases to,
{
    if from < to {
        assert(is_word_char(s[to - 1]));
        run_starts(s, from, to - 1);
    }
}

proof fn no_index_no_bracket(steps: Seq<Step>, n: int)
    requires
        0 <= n <= steps.len(),
        forall|i: int| 0 <= i < steps.len() ==> !((#[trigger] steps[i]) is Index),
        forall|i: int| 0 <= i < steps.len() ==> (#[trigger] steps[i]).is_proper(),
    ensures
        forall|k: int| 0 <= k < steps_text(steps, n).len() ==> #[trigger] steps_text(steps, n)[k]
            != ']',
    decreases n,
{
    if n > 0 {
        no_index_no_bracket(steps, n - 1);
        let before = steps_text(steps, n - 1);
        let t = steps_text(steps, n);
        let step = steps[n - 1];
        assert(step.is_proper() && !(step is Index));
        assert forall|k: int| 0 <= k < t.len() implies #[trigger] t[k] != ']' by {
            if k < before.len() {
                assert(t[k] == before[k]);
            } else {
                let j = k - before.len();
                assert(t[k] == step.text()[j]);
                match step {
                    Step::Dot(name) => {
                        if j > 0 {
                            assert(step.text()[j] == name[j - 1]);
                            assert(is_word_char(name[j - 1]));
                        }
                    },
                    Step::Arrow(name) => {
                        if j > 1 {
                            assert(step.text()[j] == name[j - 2]);
                            assert(is_word_char(name[j - 2]));
                        }
                    },
                    Step::Index(_) => {},
                }
            }
        }
    }
}

/// A chain of plain selections has as many members as selectors before the
/// last one.
pub proof fn plain_chain_has_a_member_per_selector(steps: Seq<Step>, n: int)
    requires
        0 <= n <= steps.len(),
        forall|i: int| 0 <= i < steps.len() ==> !((#[trigger] steps[i]) is Index),
    ensures
        selected(steps, n).len() == n,
        forall|i: int|
            0 <= i < n ==> #[trigger] selected(steps, n)[i] == match steps[i] {
                Step::Dot(name) => name,
                Step::Arrow(name) => name,
                Step::Index(inner) => inner,
            },
    decreases n,
{
    if n > 0 {
        plain_chain_has_a_member_per_selector(steps, n - 1);
        assert(!(steps[n - 1] is Index));
        let before = selected(steps, n - 1);
        let now = selected(steps, n);
        assert forall|i: int| 0 <= i < n implies #[trigger] now[i] == match steps[i] {
            Step::Dot(name) => name,
            Step::Arrow(name) => name,
            Step::Index(inner) => inner,
        } by {
            if i < n - 1 {
                assert(now[i] == before[i]);
            }
        }
    }
}

/// A prefix completes a member exactly where a dot or an arrow stands before
/// it, white space aside.
pub proof fn member_prefix_is_behind_an_operator(
    code: Seq<char>,
    gap: Seq<char>,
    prefix: Seq<char>,
    tail: Seq<char>,
)
    requires
        are_gaps(gap),
        forall|i: int| 0 <= i < prefix.len() ==> is_word_char(#[trigger] prefix[i]),
        code.len() > 0 ==> !char_is_space(code.last()),
        gap.len() == 0 && code.len() > 0 ==> !is_word_char(code.last()),
    ensures
        ({
            let line = code + gap + prefix + tail;
            let cursor = (code.len() + gap.len() + prefix.len()) as int;
            let n = code.len() as int;
            (member_operator_start(line, ident_run_start(line, cursor)) is Some) == (n > 0
                && code[n - 1] == '.' || n > 1 && code[n - 2] == '-' && code[n - 1] == '>')
        }),
{
    let line = code + gap + prefix + tail;
    let n = code.len() as int;
    let a = n + gap.len();
    let cursor = a + prefix.len();
    assert forall|i: int| a <= i < cursor implies is_word_char(#[trigger] line[i]) by {
        assert(line[i] == prefix[i - a]);
    }
    if a > 0 {
        if gap.len() > 0 {
            assert(line[a - 1] == gap[gap.len() - 1]);
        } else {
            assert(line[a - 1] == code[n - 1]);
        }
    }
    word_begins_at(line, a, cursor);
    assert forall|i: int| n <= i < a implies char_is_space(#[trigger] line[i]) by {
        assert(line[i] == gap[i - n]);
    }
    if n > 0 {
        assert(line[n - 1] == code[n - 1]);
    }
    gap_begins_at(line, n, a);
    if n > 1 {
        assert(line[n - 2] == code[n - 2]);
    }
}

proof fn word_begins_at(s: Seq<char>, from: int, i: int)
    requires
        0 <= from <= i <= s.len(),
        forall|k: int| from <= k < i ==> is_word_char(#[trigger] s[k]),
        from > 0 ==> !is_word_char(s[from - 1]),
    ensures
        ident_run_start(s, i) == from,
    decreases i - from,
{
    if from < i {
        assert(is_word_char(s[i - 1]));
        word_begins_at(s, from, i - 1);
    }
}

proof fn gap_begins_at(s: Seq<char>, from: int, i: int)
    requires
        0 <= from <= i <= s.len(),
        forall|k: int| from <= k < i ==> char_is_space(#[trigger] s[k]),
        from > 0 ==> !char_is_space(s[from - 1]),
    ensures
        space_run_start(s, i) == from,
    decreases i - from,
{
    if from < i {
        assert(char_is_space(s[i - 1]));
        gap_begins_at(s, from, i - 1);
    }
}

} // verus!
