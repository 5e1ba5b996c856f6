//! What parentheses make of a member chain, told by how it is written.

use vstd::prelude::*;

use crate::chain_laws::{
    are_unary, index_read, is_plain_name, is_word_char, name_read, part_reads, reads, 
    selected, selector_found, steps_begin, steps_monotone, steps_text, Step,
};
use crate::chars::{char_is_space, space_run_end};
use crate::text::{
    chain_before, chain_from, first_chain, selections_from, unary_run_end, whole_chain, Chain,
};

verus! {

/// A part of a chain: unary operators before it and steps behind it.
pub struct Layer {
    pub unary: Seq<char>,
    pub steps: Seq<Step>,
}

pub open spec fn is_layer(layer: Layer) -> bool {
    are_unary(layer.unary) && forall|i: int|
        0 <= i < layer.steps.len() ==> (#[trigger] layer.steps[i]).is_proper()
}

/// A receiver with layers around it, up to layer `k`: all layers but the first
/// stand around parentheses.
pub open spec fn layered(receiver: Seq<char>, layers: Seq<Layer>, k: int) -> Seq<char>
    decreases k,
{
    if k < 0 {
        Seq::empty()
    } else {
        layers[k].unary + (if k == 0 {
            receiver
        } else {
            seq!['('] + layered(receiver, layers, k - 1) + seq![')']
        }) + steps_text(layers[k].steps, layers[k].steps.len() as int)
    }
}

/// The members that the layers select, from the inside out.
pub open spec fn layers_select(layers: Seq<Layer>, k: int) -> Seq<Seq<char>>
    decreases k + 1,
{
    if k < 0 {
        Seq::empty()
    } else {
        layers_select(layers, k - 1) + selected(layers[k].steps, layers[k].steps.len() as int)
    }
}

/// Nothing follows, or a closing parenthesis.
spec fn is_over(s: Seq<char>, end: int) -> bool {
    end == s.len() || (end < s.len() && s[end] == ')')
}

proof fn steps_read_on(
    s: Seq<char>,
    base: int,
    steps: Seq<Step>,
    n: int,
    acc: Seq<Seq<char>>,
)
    requires
        0 <= n <= steps.len(),
        0 <= base,
        reads(s, base, steps_text(steps, steps.len() as int)),
        is_over(s, base + steps_text(steps, steps.len() as int).len()),
        forall|i: int| 0 <= i < steps.len() ==> (#[trigger] steps[i]).is_proper(),
    ensures
        selections_from(s, base + steps_text(steps, n).len(), acc + selected(steps, n)) == Some(
            (
                acc + selected(steps, steps.len() as int),
                base + steps_text(steps, steps.len() as int).len(),
            ),
        ),
    decreases steps.len() - n,
{
    let total = steps.len() as int;
    let all = steps_text(steps, total);
    let at = base + steps_text(steps, n).len();
    if n < total {
        let step = steps[n];
        let t = step.text();
        let before = steps_text(steps, n);
        steps_monotone(steps, n + 1, total);
        assert(step.is_proper());
        let next = at + t.len();
        assert forall|k: int| 0 <= k < t.len() implies all[before.len() + k] == #[trigger] t[k] by {
            let both = steps_text(steps, n + 1);
            assert(all.subrange(0, both.len() as int)[before.len() + k] == both[before.len() + k]);
        }
        part_reads(s, base, all, t, before.len() as int);
        assert(s[at + 0] == t[0]);
        if n + 1 < total {
            steps_monotone(steps, n + 2, total);
            let more = steps_text(steps, n + 2);
            let d = steps_text(steps, n + 1).len() as int;
            assert(more[d] == steps[n + 1].text()[0]);
            assert(all.subrange(0, more.len() as int)[d] == all[d]);
            assert(s[base + d] == all[d]);
            assert(!is_word_char(s[next]));
        }
        assert(next < s.len() ==> !is_word_char(s[next]));
        let mine = acc + selected(steps, n);
        match step {
            Step::Dot(name) => {
                part_reads(s, at, t, name, 1);
                name_read(s, at + 1, name);
                assert(s[at + 1 + 0] == name[0]);
                assert(is_word_char(name[0]));
                assert(mine.push(name) =~= acc + selected(steps, n + 1));
            },
            Step::Arrow(name) => {
                assert(s[at + 1] == t[1]);
                part_reads(s, at, t, name, 2);
                name_read(s, at + 2, name);
                assert(s[at + 2 + 0] == name[0]);
                assert(is_word_char(name[0]));
                assert(mine.push(name) =~= acc + selected(steps, n + 1));
            },
            Step::Index(inner) => {
                part_reads(s, at, t, inner, 1);
                assert(s[at + (t.len() - 1)] == t[t.len() - 1]);
                index_read(s, at + 1, inner, 0);
            },
        }
        steps_read_on(s, base, steps, n + 1, acc);
    }
}

proof fn unary_read_on(s: Seq<char>, i: int, end: int)
    requires
        0 <= i <= end < s.len(),
        forall|k: int| i <= k < end ==> (#[trigger] s[k] == '*' || s[k] == '&'),
        is_word_char(s[end]) || s[end] == '(',
    ensures
        unary_run_end(s, i) == end,
        space_run_end(s, i) == i,
    decreases end - i,
{
    if i < end {
        assert(s[i] == '*' || s[i] == '&');
        unary_read_on(s, i + 1, end);
    }
}

proof fn layer_stands(
    s: Seq<char>,
    i: int,
    unary: Seq<char>,
    core: Seq<char>,
    rest: Seq<char>,
)
    requires
        reads(s, i, unary + core + rest),
        are_unary(unary),
        core.len() > 0,
    ensures
        forall|k: int| i <= k < i + unary.len() ==> (#[trigger] s[k] == '*' || s[k] == '&'),
        reads(s, i + unary.len(), core),
        reads(s, i + unary.len() + core.len(), rest),
        s[i + unary.len()] == core[0],
{
    let t = unary + core + rest;
    let a = unary.len() as int;
    let b = a + core.len();
    assert forall|k: int| i <= k < i + a implies (#[trigger] s[k] == '*' || s[k] == '&') by {
        assert(s[i + (k - i)] == t[k - i]);
        assert(t[k - i] == unary[k - i]);
    }
    assert forall|k: int| 0 <= k < core.len() implies t[a + k] == #[trigger] core[k] by {}
    part_reads(s, i, t, core, a);
    assert forall|k: int| 0 <= k < rest.len() implies t[b + k] == #[trigger] rest[k] by {}
    part_reads(s, i, t, rest, b);
    assert(s[i + a + 0] == core[0]);
}

proof fn layers_read(s: Seq<char>, i: int, receiver: Seq<char>, layers: Seq<Layer>, k: int)
    requires
        0 <= i,
        0 <= k < layers.len(),
        is_plain_name(receiver),
        forall|j: int| 0 <= j < layers.len() ==> is_layer(#[trigger] layers[j]),
        reads(s, i, layered(receiver, layers, k)),
        is_over(s, i + layered(receiver, layers, k).len()),
    ensures
        chain_from(s, i) == Some(
            (
                Chain { receiver, members: layers_select(layers, k) },
                i + layered(receiver, layers, k).len(),
            ),
        ),
        layered(receiver, layers, k).len() > 0,
        !char_is_space(layered(receiver, layers, k)[0]),
    decreases k,
{
    let layer = layers[k];
    let unary = layer.unary;
    let steps = layer.steps;
    let rest = steps_text(steps, steps.len() as int);
    let inner = layered(receiver, layers, k - 1);
    let core = if k == 0 {
        receiver
    } else {
        seq!['('] + inner + seq![')']
    };
    let text = layered(receiver, layers, k);
    assert(is_layer(layer));
    assert(text == unary + core + rest);
    layer_stands(s, i, unary, core, rest);
    let at = i + unary.len();
    let c = at + core.len();
    assert(steps_text(steps, 0).len() == 0);
    assert(selected(steps, 0) =~= Seq::<Seq<char>>::empty());
    if unary.len() > 0 {
        assert(text[0] == unary[0]);
    } else {
        assert(text[0] == core[0]);
    }
    if k == 0 {
        assert(is_word_char(receiver[0]));
        unary_read_on(s, i, at);
        if steps.len() > 0 {
            steps_begin(steps);
            assert(s[c + 0] == rest[0]);
        }
        name_read(s, at, receiver);
        let none = Seq::<Seq<char>>::empty();
        steps_read_on(s, c, steps, 0, none);
        assert(none + selected(steps, 0) =~= none);
        assert(layers_select(layers, -1) =~= none);
    } else {
        unary_read_on(s, i, at);
        assert forall|j: int| 0 <= j < inner.len() implies core[1 + j] == #[trigger] inner[j] by {}
        part_reads(s, at, core, inner, 1);
        assert(s[at + (core.len() - 1)] == core[core.len() - 1]);
        layers_read(s, at + 1, receiver, layers, k - 1);
        let close = at + 1 + inner.len();
        assert(s[close] == ')');
        assert(space_run_end(s, close) == close);
        let acc = layers_select(layers, k - 1);
        steps_read_on(s, c, steps, 0, acc);
        assert(acc + selected(steps, 0) =~= acc);
    }
}

/// Parentheses change nothing: a chain with parentheses and unary operators
/// around its parts, at the start of a line, has the receiver in the middle
/// and every member that is selected, from the inside out.
pub proof fn parentheses_keep_every_member(
    receiver: Seq<char>,
    layers: Seq<Layer>,
    arrow: bool,
    prefix: Seq<char>,
    tail: Seq<char>,
)
    requires
        layers.len() > 0,
        is_plain_name(receiver),
        forall|j: int| 0 <= j < layers.len() ==> is_layer(#[trigger] layers[j]),
        forall|i: int| 0 <= i < prefix.len() ==> is_word_char(#[trigger] prefix[i]),
    ensures
        ({
            let chain = layered(receiver, layers, layers.len() - 1);
            let selector = if arrow {
                seq!['-', '>']
            } else {
                seq!['.']
            };
            let line = chain + selector + prefix + tail;
            chain_before(line, (chain.len() + selector.len() + prefix.len()) as int) == Some(
                Chain { receiver, members: layers_select(layers, layers.len() - 1) },
            )
        }),
{
    let chain = layered(receiver, layers, layers.len() - 1);
    assert forall|k: int| 0 <= k < chain.len() implies chain[0 + k] == #[trigger] chain[k] by {}
    layers_read(chain, 0, receiver, layers, layers.len() - 1);
    assert(space_run_end(chain, 0) == 0);
    chain_at_the_start(chain, arrow, prefix, tail);
}

proof fn chain_at_the_start(chain: Seq<char>, arrow: bool, prefix: Seq<char>, tail: Seq<char>)
    requires
        chain.len() > 0,
        whole_chain(chain) is Some,
        forall|i: int| 0 <= i < prefix.len() ==> is_word_char(#[trigger] prefix[i]),
    ensures
        ({
            let selector = if arrow {
                seq!['-', '>']
            } else {
                seq!['.']
            };
            let line = chain + selector + prefix + tail;
            chain_before(line, (chain.len() + selector.len() + prefix.len()) as int)
                == whole_chain(chain)
        }),
{
    let selector = if arrow {
        seq!['-', '>']
    } else {
        seq!['.']
    };
    let line = chain + selector + prefix + tail;
    let op = chain.len() as int;
    let from = op + selector.len();
    let target = from + prefix.len();
    assert forall|k: int| from <= k < target implies is_word_char(#[trigger] line[k]) by {
        assert(line[k] == prefix[k - from]);
    }
    assert(line[op] == selector[0]);
    if arrow {
        assert(line[op + 1] == selector[1]);
    }
    selector_found(line, op, arrow, target);
    assert(line.subrange(0, op) =~= chain);
    assert(first_chain(line, 0, op) == whole_chain(chain));
}

} // verus!
