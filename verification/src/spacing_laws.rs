//! What a normal form of a signature keeps, told by its characters.

use vstd::prelude::*;

use crate::chars::{
    char_is_space, first_occurrence, occurs_at, space_run_end, space_run_start, trim, trim_end,
    trim_start,
};
use crate::documentation::{declaration, hugs, normal, respaced, unblanked, unterminated, Spacing};

verus! {

// ---------------------------------------------------------------------------
// Ink

/// The first `n` characters without the white space among them.
pub open spec fn inked(s: Seq<char>, n: int) -> Seq<char>
    decreases n,
{
    if n <= 0 {
        Seq::empty()
    } else if char_is_space(s[n - 1]) {
        inked(s, n - 1)
    } else {
        inked(s, n - 1).push(s[n - 1])
    }
}

proof fn inked_agrees(a: Seq<char>, b: Seq<char>, n: int)
    requires
        0 <= n <= a.len(),
        n <= b.len(),
        forall|i: int| 0 <= i < n ==> a[i] == b[i],
    ensures
        inked(a, n) == inked(b, n),
    decreases n,
{
    if n > 0 {
        inked_agrees(a, b, n - 1);
    }
}

proof fn inked_pushed(s: Seq<char>, c: char)
    ensures
        inked(s.push(c), (s.len() + 1) as int) == if char_is_space(c) {
            inked(s, s.len() as int)
        } else {
            inked(s, s.len() as int).push(c)
        },
{
    inked_agrees(s.push(c), s, s.len() as int);
}

proof fn unblanking_keeps_ink(out: Seq<char>)
    ensures
        inked(unblanked(out), unblanked(out).len() as int) == inked(out, out.len() as int),
        unblanked(out).len() <= out.len(),
    decreases out.len(),
{
    if out.len() > 0 && out.last() == ' ' {
        let short = out.drop_last();
        unblanking_keeps_ink(short);
        inked_pushed(short, ' ');
        assert(short.push(' ') =~= out);
    }
}

proof fn respacing_keeps_ink(s: Seq<char>, n: int)
    requires
        0 <= n <= s.len(),
    ensures
        inked(respaced(s, n).out, respaced(s, n).out.len() as int) == inked(s, n),
    decreases n,
{
    if n > 0 {
        respacing_keeps_ink(s, n - 1);
        let w = respaced(s, n - 1);
        let c = s[n - 1];
        if !char_is_space(c) {
            let opened = w.out.len() > 0 && (w.out.last() == '(' || w.out.last() == '[');
            let spaced = if w.due && !(c == ')' || c == ']' || c == ',' || c == ';') && !opened {
                w.out.push(' ')
            } else {
                w.out
            };
            inked_pushed(w.out, ' ');
            unblanking_keeps_ink(spaced);
            let bare = if hugs(c) {
                unblanked(spaced)
            } else {
                spaced
            };
            inked_pushed(bare, c);
            assert(respaced(s, n).out == bare.push(c));
        }
    }
}

/// The normal form of a signature holds every character of its declaration but
/// the white space, in order, and nothing else.
pub proof fn normal_form_keeps_every_character(signature: Seq<char>)
    ensures
        inked(normal(signature), normal(signature).len() as int) == inked(
            declaration(signature),
            declaration(signature).len() as int,
        ),
{
    let d = declaration(signature);
    respacing_keeps_ink(d, d.len() as int);
}

// ---------------------------------------------------------------------------
// Declarations

/// A text without a body or white space at its ends.
pub open spec fn is_bare(s: Seq<char>) -> bool {
    &&& s.len() > 0
    &&& !char_is_space(s[0])
    &&& !char_is_space(s.last())
    &&& s.last() != ';'
    &&& forall|i: int| 0 <= i < s.len() ==> #[trigger] s[i] != '{'
}

pub open spec fn are_spaces(s: Seq<char>) -> bool {
    forall|i: int| 0 <= i < s.len() ==> char_is_space(#[trigger] s[i])
}

pub open spec fn are_semicolons(s: Seq<char>) -> bool {
    forall|i: int| 0 <= i < s.len() ==> #[trigger] s[i] == ';'
}

proof fn run_end_is(s: Seq<char>, i: int, to: int)
    requires
        0 <= i <= to < s.len(),
        forall|k: int| i <= k < to ==> char_is_space(#[trigger] s[k]),
        !char_is_space(s[to]),
    ensures
        space_run_end(s, i) == to,
    decreases to - i,
{
    if i < to {
        run_end_is(s, i + 1, to);
    }
}

proof fn run_start_is(s: Seq<char>, from: int, i: int)
    requires
        0 < from <= i <= s.len(),
        forall|k: int| from <= k < i ==> char_is_space(#[trigger] s[k]),
        !char_is_space(s[from - 1]),
    ensures
        space_run_start(s, i) == from,
    decreases i - from,
{
    if from < i {
        assert(char_is_space(s[i - 1]));
        run_start_is(s, from, i - 1);
    }
}

pub proof fn trims_to(lead: Seq<char>, s: Seq<char>, trail: Seq<char>)
    requires
        are_spaces(lead),
        are_spaces(trail),
        s.len() > 0,
        !char_is_space(s[0]),
        !char_is_space(s.last()),
    ensures
        trim(lead + s + trail) == s,
{
    let t = lead + s + trail;
    let a = lead.len() as int;
    let u = s + trail;
    assert forall|k: int| 0 <= k < a implies char_is_space(#[trigger] t[k]) by {
        assert(t[k] == lead[k]);
    }
    assert(t[a] == s[0]);
    run_end_is(t, 0, a);
    assert(t.subrange(a, t.len() as int) =~= u);
    assert(trim_start(t) == u);
    let b = s.len() as int;
    assert forall|k: int| b <= k < u.len() implies char_is_space(#[trigger] u[k]) by {
        assert(u[k] == trail[k - b]);
    }
    assert(u[b - 1] == s.last());
    run_start_is(u, b, u.len() as int);
    assert(u.subrange(0, b) =~= s);
    assert(trim_end(u) == s);
}

proof fn terminators_end(s: Seq<char>, from: int, end: int)
    requires
        0 < from <= end <= s.len(),
        forall|k: int| from <= k < end ==> #[trigger] s[k] == ';',
        s[from - 1] != ';',
        s[from - 1] != '{',
    ensures
        unterminated(s, end) == from,
    decreases end - from,
{
    if from < end {
        assert(s[end - 1] == ';');
        terminators_end(s, from, end - 1);
    }
}

proof fn brace_is_first(s: Seq<char>, i: int, at: int)
    requires
        0 <= i <= at < s.len(),
        s[at] == '{',
        forall|k: int| 0 <= k < at ==> #[trigger] s[k] != '{',
    ensures
        first_occurrence(s, "{"@, i) == Some(at),
    decreases at - i,
{
    reveal_strlit("{");
    if i < at {
        if occurs_at(s, "{"@, i) {
            assert(s.subrange(i, i + 1)[0] == s[i]);
        }
        brace_is_first(s, i + 1, at);
    } else {
        assert(s.subrange(at, at + 1) =~= "{"@);
    }
}

proof fn no_brace(s: Seq<char>, i: int)
    requires
        0 <= i,
        forall|k: int| 0 <= k < s.len() ==> #[trigger] s[k] != '{',
    ensures
        first_occurrence(s, "{"@, i) is None,
    decreases s.len() - i + 1,
{
    reveal_strlit("{");
    if i + 1 <= s.len() {
        if occurs_at(s, "{"@, i) {
            assert(s.subrange(i, i + 1)[0] == s[i]);
        }
        no_brace(s, i + 1);
    }
}

/// The declaration of a signature is what stands before its body, without
/// semicolons and white space.
pub proof fn declaration_is_before_the_body(
    lead: Seq<char>,
    s: Seq<char>,
    gap: Seq<char>,
    ends: Seq<char>,
    trail: Seq<char>,
    body: Seq<char>,
)
    requires
        are_spaces(lead),
        is_bare(s),
        are_spaces(gap),
        are_semicolons(ends),
        are_spaces(trail),
        body.len() > 0 ==> body[0] == '{',
    ensures
        declaration(lead + s + gap + ends + trail + body) == s,
{
    let all = lead + s + gap + ends + trail + body;
    let head = lead + s + gap + ends + trail;
    assert forall|k: int| 0 <= k < head.len() implies #[trigger] head[k] != '{' by {
        let a = lead.len() as int;
        let b = a + s.len();
        let c = b + gap.len();
        let d = c + ends.len();
        if k < a {
            assert(head[k] == lead[k]);
        } else if k < b {
            assert(head[k] == s[k - a]);
        } else if k < c {
            assert(head[k] == gap[k - b]);
        } else if k < d {
            assert(head[k] == ends[k - c]);
        } else {
            assert(head[k] == trail[k - d]);
        }
    }
    if body.len() > 0 {
        let at = head.len() as int;
        assert(all[at] == body[0]);
        assert forall|k: int| 0 <= k < at implies #[trigger] all[k] != '{' by {
            assert(all[k] == head[k]);
        }
        brace_is_first(all, 0, at);
        assert(all.subrange(0, at) =~= head);
    } else {
        assert(all =~= head);
        no_brace(all, 0);
    }
    terminated(lead, s, gap, ends, trail);
}

proof fn terminated(
    lead: Seq<char>,
    s: Seq<char>,
    gap: Seq<char>,
    ends: Seq<char>,
    trail: Seq<char>,
)
    requires
        are_spaces(lead),
        is_bare(s),
        are_spaces(gap),
        are_semicolons(ends),
        are_spaces(trail),
    ensures
        ({
            let t = trim(lead + s + gap + ends + trail);
            trim(t.subrange(0, unterminated(t, t.len() as int))) == s
        }),
{
    let head = lead + s + gap + ends + trail;
    let none = Seq::<char>::empty();
    let core = s + gap + ends;
    let n = s.len() as int;
    assert(s[n - 1] != '{');
    if ends.len() > 0 {
        assert(core[0] == s[0]);
        assert(core.last() == ends.last());
        assert(head =~= lead + core + trail);
        trims_to(lead, core, trail);
        let from = n + gap.len();
        assert forall|k: int| from <= k < core.len() implies #[trigger] core[k] == ';' by {
            assert(core[k] == ends[k - from]);
        }
        if gap.len() > 0 {
            assert(core[from - 1] == gap.last());
            assert(char_is_space(gap[gap.len() - 1]));
        } else {
            assert(core[from - 1] == s.last());
        }
        terminators_end(core, from, core.len() as int);
        assert(core.subrange(0, from) =~= none + s + gap);
        trims_to(none, s, gap);
    } else {
        let blank = gap + trail;
        assert forall|i: int| 0 <= i < blank.len() implies char_is_space(#[trigger] blank[i]) by {
            if i < gap.len() {
                assert(blank[i] == gap[i]);
            } else {
                assert(blank[i] == trail[i - gap.len()]);
            }
        }
        assert(head =~= lead + s + blank);
        trims_to(lead, s, blank);
        terminators_end(s, n, n);
        assert(s.subrange(0, n) =~= none + s + none);
        trims_to(none, s, none);
    }
}

// ---------------------------------------------------------------------------
// Spacing

proof fn same_state(a: Seq<char>, b: Seq<char>, n: int, m: int, k: int)
    requires
        0 <= n <= a.len(),
        0 <= m <= b.len(),
        0 <= k,
        n + k <= a.len(),
        m + k <= b.len(),
        respaced(a, n) == respaced(b, m),
        forall|i: int| 0 <= i < k ==> #[trigger] a[n + i] == b[m + i],
    ensures
        respaced(a, n + k) == respaced(b, m + k),
    decreases k,
{
    if k > 0 {
        same_state(a, b, n, m, k - 1);
        assert(a[n + (k - 1)] == b[m + (k - 1)]);
    }
}

proof fn gap_state(s: Seq<char>, n: int, k: int)
    requires
        0 <= n,
        0 < k,
        n + k <= s.len(),
        forall|i: int| n <= i < n + k ==> char_is_space(#[trigger] s[i]),
    ensures
        respaced(s, n + k) == (Spacing {
            out: respaced(s, n).out,
            due: respaced(s, n).out.len() > 0,
        }),
    decreases k,
{
    assert(char_is_space(s[n + k - 1]));
    if k > 1 {
        gap_state(s, n, k - 1);
    }
}

/// How much white space stands between two parts of a declaration plays no
/// part in its normal form.
pub proof fn width_of_gaps_plays_no_part(
    a: Seq<char>,
    b: Seq<char>,
    gap: Seq<char>,
    other: Seq<char>,
)
    requires
        is_bare(a + gap + b),
        is_bare(a + other + b),
        are_spaces(gap),
        are_spaces(other),
        gap.len() > 0,
        other.len() > 0,
    ensures
        normal(a + gap + b) == normal(a + other + b),
{
    let (s, t) = (a + gap + b, a + other + b);
    let none = Seq::<char>::empty();
    assert(s =~= none + s + none + none + none + none);
    assert(t =~= none + t + none + none + none + none);
    declaration_is_before_the_body(none, s, none, none, none, none);
    declaration_is_before_the_body(none, t, none, none, none, none);
    let n = a.len() as int;
    assert forall|i: int| 0 <= i < n implies #[trigger] s[0 + i] == t[0 + i] by {
        assert(s[i] == a[i] && t[i] == a[i]);
    }
    same_state(s, t, 0, 0, n);
    assert forall|i: int| n <= i < n + gap.len() implies char_is_space(#[trigger] s[i]) by {
        assert(s[i] == gap[i - n]);
    }
    assert forall|i: int| n <= i < n + other.len() implies char_is_space(#[trigger] t[i]) by {
        assert(t[i] == other[i - n]);
    }
    gap_state(s, n, gap.len() as int);
    gap_state(t, n, other.len() as int);
    let (p, q) = (n + gap.len(), n + other.len());
    assert forall|i: int| 0 <= i < b.len() implies #[trigger] s[p + i] == t[q + i] by {
        assert(s[p + i] == b[i] && t[q + i] == b[i]);
    }
    same_state(s, t, p, q, b.len() as int);
}

/// Where a normal form may hold a blank: one, between two characters neither
/// of which wants none.
pub open spec fn is_neat(s: Seq<char>) -> bool {
    forall|i: int|
        0 <= i < s.len() && char_is_space(#[trigger] s[i]) ==> {
            &&& s[i] == ' '
            &&& 0 < i < s.len() - 1
            &&& !char_is_space(s[i - 1])
            &&& s[i - 1] != '('
            &&& s[i - 1] != '['
            &&& !char_is_space(s[i + 1])
            &&& s[i + 1] != '('
            &&& s[i + 1] != ')'
            &&& s[i + 1] != '['
            &&& s[i + 1] != ']'
            &&& s[i + 1] != ','
            &&& s[i + 1] != '*'
            &&& s[i + 1] != '&'
            &&& s[i + 1] != ';'
        }
}

proof fn neat_so_far(s: Seq<char>, n: int)
    requires
        0 <= n <= s.len(),
    ensures
        is_neat(respaced(s, n).out),
    decreases n,
{
    if n > 0 {
        neat_so_far(s, n - 1);
        let w = respaced(s, n - 1);
        let c = s[n - 1];
        let out = w.out;
        if !char_is_space(c) {
            let opened = out.len() > 0 && (out.last() == '(' || out.last() == '[');
            let spaces = w.due && !(c == ')' || c == ']' || c == ',' || c == ';') && !opened;
            if out.len() > 0 {
                assert(!char_is_space(out[out.len() - 1]));
            }
            due_only_behind(s, n - 1);
            let r = respaced(s, n).out;
            if spaces && !hugs(c) {
                assert(r =~= out.push(' ').push(c));
            } else {
                if spaces {
                    assert(out.push(' ').drop_last() =~= out);
                    assert(unblanked(out.push(' ')) == unblanked(out));
                }
                assert(unblanked(out) == out);
                assert(r =~= out.push(c));
            }
            assert forall|i: int| 0 <= i < r.len() && char_is_space(#[trigger] r[i]) implies {
                &&& r[i] == ' '
                &&& 0 < i < r.len() - 1
                &&& !char_is_space(r[i - 1])
                &&& r[i - 1] != '('
                &&& r[i - 1] != '['
                &&& !char_is_space(r[i + 1])
                &&& r[i + 1] != '('
                &&& r[i + 1] != ')'
                &&& r[i + 1] != '['
                &&& r[i + 1] != ']'
                &&& r[i + 1] != ','
                &&& r[i + 1] != '*'
                &&& r[i + 1] != '&'
                &&& r[i + 1] != ';'
            } by {
                if i < out.len() {
                    assert(char_is_space(out[i]));
                }
            }
        }
    }
}

proof fn due_only_behind(s: Seq<char>, n: int)
    requires
        0 <= n <= s.len(),
    ensures
        respaced(s, n).due ==> respaced(s, n).out.len() > 0,
    decreases n,
{
    if n > 0 {
        due_only_behind(s, n - 1);
    }
}

/// A normal form is neat: no white space but single blanks, none at its ends,
/// none next to brackets and before punctuation.
pub proof fn normal_form_is_neat(signature: Seq<char>)
    ensures
        is_neat(normal(signature)),
{
    let d = declaration(signature);
    neat_so_far(d, d.len() as int);
}

} // verus!
