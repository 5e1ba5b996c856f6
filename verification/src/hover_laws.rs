//! What a hover shows of a signature and its guard, told by how they are
//! written.

use vstd::prelude::*;

use crate::chain_laws::{are_gaps, is_plain_name, is_word_char};
use crate::chars::{char_is_space, first_occurrence, occurs_at, space_run_end, trim};
use crate::comments::laws::{begins_otherwise, begins_so, gap_before, words_spelled};
use crate::comments::place_laws::{found_first, has_no_slash};
use crate::hover::{
    bracket, brackets_end, brackets_start, clean_token, defined_token, first_word, guard_label,
    guard_shown, ink_end, shown_signature, uncommented,
};
use crate::lines::begins;
use crate::spacing_laws::trims_to;

verus! {

// ---------------------------------------------------------------------------
// Signatures

/// A comment before a signature, with the white space before it.
pub enum Remark {
    Block(Seq<char>, Seq<char>),
    Line(Seq<char>, Seq<char>),
}

pub open spec fn remark_text(remark: Remark) -> Seq<char> {
    match remark {
        Remark::Block(gap, body) => gap + seq!['/', '*'] + body + seq!['*', '/'],
        Remark::Line(gap, body) => gap + seq!['/', '/'] + body + seq!['\n'],
    }
}

pub open spec fn is_remark(remark: Remark) -> bool {
    match remark {
        Remark::Block(gap, body) => are_gaps(gap) && has_no_slash(body),
        Remark::Line(gap, body) => are_gaps(gap) && forall|i: int|
            0 <= i < body.len() ==> #[trigger] body[i] != '\n',
    }
}

pub open spec fn remarks_text(remarks: Seq<Remark>, k: int) -> Seq<char>
    decreases remarks.len() - k,
{
    if k < 0 || k >= remarks.len() {
        Seq::empty()
    } else {
        remark_text(remarks[k]) + remarks_text(remarks, k + 1)
    }
}

pub proof fn block_passed(body: Seq<char>, rest: Seq<char>)
    requires
        has_no_slash(body),
    ensures
        ({
            let s = seq!['/', '*'] + body + seq!['*', '/'] + rest;
            &&& begins(s, "/*"@)
            &&& first_occurrence(s, "*/"@, 0) == Some(2 + body.len() as int)
        }),
{
    words_spelled();
    let s = seq!['/', '*'] + body + seq!['*', '/'] + rest;
    let at = 2 + body.len() as int;
    assert(s =~= "/*"@ + (body + seq!['*', '/'] + rest));
    begins_so("/*"@, body + seq!['*', '/'] + rest);
    assert(s.subrange(at, at + 2) =~= "*/"@);
    assert forall|k: int| 0 <= k < at implies !#[trigger] occurs_at(s, "*/"@, k) by {
        if occurs_at(s, "*/"@, k) {
            let part = s.subrange(k, k + 2);
            assert(part[0] == s[k] && part[1] == s[k + 1]);
            if 2 <= k + 1 < at {
                assert(s[k + 1] == body[k - 1]);
            }
        }
    }
    found_first(s, "*/"@, 0, at);
}

proof fn line_passed(body: Seq<char>, rest: Seq<char>)
    requires
        forall|i: int| 0 <= i < body.len() ==> #[trigger] body[i] != '\n',
    ensures
        ({
            let s = seq!['/', '/'] + body + seq!['\n'] + rest;
            &&& begins(s, "//"@)
            &&& !begins(s, "/*"@)
            &&& first_occurrence(s, "\n"@, 0) == Some(2 + body.len() as int)
        }),
{
    words_spelled();
    reveal_strlit("\n");
    let s = seq!['/', '/'] + body + seq!['\n'] + rest;
    let at = 2 + body.len() as int;
    assert(s =~= "//"@ + (body + seq!['\n'] + rest));
    begins_so("//"@, body + seq!['\n'] + rest);
    begins_otherwise(s, "/*"@, 1);
    assert(s.subrange(at, at + 1) =~= "\n"@);
    assert forall|k: int| 0 <= k < at implies !#[trigger] occurs_at(s, "\n"@, k) by {
        if occurs_at(s, "\n"@, k) {
            let part = s.subrange(k, k + 1);
            assert(part[0] == s[k]);
            if 2 <= k < at {
                assert(s[k] == body[k - 2]);
            }
        }
    }
    found_first(s, "\n"@, 0, at);
}

proof fn remark_passed(remark: Remark, rest: Seq<char>)
    requires
        is_remark(remark),
    ensures
        uncommented(remark_text(remark) + rest) == uncommented(rest),
{
    let s = remark_text(remark) + rest;
    match remark {
        Remark::Block(gap, body) => {
            let t = seq!['/', '*'] + body + seq!['*', '/'] + rest;
            assert(s =~= gap + t);
            gap_before(gap, t);
            block_passed(body, rest);
            let end = 2 + body.len() as int;
            assert(t.subrange(end + 2, t.len() as int) =~= rest);
        },
        Remark::Line(gap, body) => {
            let t = seq!['/', '/'] + body + seq!['\n'] + rest;
            assert(s =~= gap + t);
            gap_before(gap, t);
            line_passed(body, rest);
            let end = 2 + body.len() as int;
            assert(t.subrange(end + 1, t.len() as int) =~= rest);
        },
    }
}

proof fn remarks_passed(remarks: Seq<Remark>, k: int, rest: Seq<char>)
    requires
        0 <= k <= remarks.len(),
        forall|j: int| 0 <= j < remarks.len() ==> is_remark(#[trigger] remarks[j]),
    ensures
        uncommented(remarks_text(remarks, k) + rest) == uncommented(rest),
    decreases remarks.len() - k,
{
    let s = remarks_text(remarks, k) + rest;
    if k < remarks.len() {
        let more = remarks_text(remarks, k + 1) + rest;
        assert(s =~= remark_text(remarks[k]) + more);
        remark_passed(remarks[k], more);
        remarks_passed(remarks, k + 1, rest);
    } else {
        assert(s =~= rest);
    }
}

/// A signature is shown without the comments before it, however many there
/// are, and without white space around it.
pub proof fn signature_is_shown_without_comments(
    remarks: Seq<Remark>,
    gap: Seq<char>,
    signature: Seq<char>,
    tail: Seq<char>,
    name: Seq<char>,
)
    requires
        forall|j: int| 0 <= j < remarks.len() ==> is_remark(#[trigger] remarks[j]),
        are_gaps(gap),
        are_gaps(tail),
        signature.len() > 0,
        !char_is_space(signature[0]),
        !char_is_space(signature.last()),
        signature[0] != '/',
    ensures
        shown_signature(remarks_text(remarks, 0) + gap + signature + tail, name) == signature,
{
    let rest = gap + signature + tail;
    assert(remarks_text(remarks, 0) + gap + signature + tail =~= remarks_text(remarks, 0) + rest);
    remarks_passed(remarks, 0, rest);
    let t = signature + tail;
    assert(rest =~= gap + t);
    assert(t[0] == signature[0]);
    gap_before(gap, t);
    words_spelled();
    begins_otherwise(t, "/*"@, 0);
    begins_otherwise(t, "//"@, 0);
    assert(uncommented(rest) == t);
    let none = Seq::<char>::empty();
    assert(t =~= none + signature + tail);
    trims_to(none, signature, tail);
}

/// Where there is nothing but comments, the name is shown.
pub proof fn name_is_shown_without_a_signature(
    remarks: Seq<Remark>,
    gap: Seq<char>,
    name: Seq<char>,
)
    requires
        forall|j: int| 0 <= j < remarks.len() ==> is_remark(#[trigger] remarks[j]),
        are_gaps(gap),
    ensures
        shown_signature(remarks_text(remarks, 0) + gap, name) == name,
{
    remarks_passed(remarks, 0, gap);
    let none = Seq::<char>::empty();
    assert(gap + none =~= gap);
    gap_before(gap, none);
    words_spelled();
    begins_otherwise(none, "/*"@, 0);
    begins_otherwise(none, "//"@, 0);
    assert(trim(none).len() == 0);
}

// ---------------------------------------------------------------------------
// Guards

/// How a guard names its macro.
pub enum Directive {
    Ifdef,
    Ifndef,
    IfDefined,
}

/// A guard as it is written.
pub open spec fn guard_text(directive: Directive, name: Seq<char>) -> Seq<char> {
    match directive {
        Directive::Ifdef => "#ifdef"@ + seq![' '] + name,
        Directive::Ifndef => "#ifndef"@ + seq![' '] + name,
        Directive::IfDefined => "#if defined("@ + name + seq![')'],
    }
}

proof fn directives_spelled()
    ensures
        "#ifndef"@ =~= seq!['#', 'i', 'f', 'n', 'd', 'e', 'f'],
        "#ifdef"@ =~= seq!['#', 'i', 'f', 'd', 'e', 'f'],
        "#define"@ =~= seq!['#', 'd', 'e', 'f', 'i', 'n', 'e'],
        "#if defined("@ =~= seq!['#', 'i', 'f', ' ', 'd', 'e', 'f', 'i', 'n', 'e', 'd', '('],
        "defined"@ =~= seq!['d', 'e', 'f', 'i', 'n', 'e', 'd'],
        "("@ =~= seq!['('],
        ")"@ =~= seq![')'],
{
    reveal_strlit("#ifndef");
    reveal_strlit("#ifdef");
    reveal_strlit("#define");
    reveal_strlit("#if defined(");
    reveal_strlit("defined");
    reveal_strlit("(");
    reveal_strlit(")");
}

proof fn ink_ends(s: Seq<char>, i: int, end: int)
    requires
        0 <= i <= end <= s.len(),
        forall|k: int| i <= k < end ==> !char_is_space(#[trigger] s[k]),
        end == s.len(),
    ensures
        ink_end(s, i) == end,
    decreases end - i,
{
    if i < end {
        ink_ends(s, i + 1, end);
    }
}

proof fn name_has_ink(name: Seq<char>)
    requires
        is_plain_name(name),
    ensures
        forall|k: int|
            0 <= k < name.len() ==> !char_is_space(#[trigger] name[k]) && !bracket(name[k]),
        trim(name) == name,
        clean_token(name) == name,
{
    assert forall|k: int| 0 <= k < name.len() implies !char_is_space(#[trigger] name[k])
        && !bracket(name[k]) by {
        assert(is_word_char(name[k]));
    }
    let n = name.len() as int;
    let none = Seq::<char>::empty();
    assert(!char_is_space(name[0]) && !char_is_space(name[n - 1]));
    assert(none + name + none =~= name);
    trims_to(none, name, none);
    assert(brackets_end(name, 0) == 0);
    assert(brackets_start(name, 0, n) == n);
    assert(name.subrange(0, n) =~= name);
}

proof fn word_read(name: Seq<char>)
    requires
        is_plain_name(name),
    ensures
        first_word(seq![' '] + name) == Some(name),
{
    name_has_ink(name);
    let s = seq![' '] + name;
    assert forall|k: int| 1 <= k < s.len() implies !char_is_space(#[trigger] s[k]) by {
        assert(s[k] == name[k - 1]);
    }
    assert(!char_is_space(s[1]));
    assert(space_run_end(s, 1) == 1);
    assert(space_run_end(s, 0) == 1);
    ink_ends(s, 1, s.len() as int);
    assert(s.subrange(1, s.len() as int) =~= name);
}

proof fn guard_is_trim(directive: Directive, name: Seq<char>)
    requires
        is_plain_name(name),
    ensures
        trim(guard_text(directive, name)) == guard_text(directive, name),
        guard_text(directive, name).len() > 0,
{
    directives_spelled();
    let g = guard_text(directive, name);
    let none = Seq::<char>::empty();
    name_has_ink(name);
    assert(g[0] == '#');
    match directive {
        Directive::IfDefined => {
            assert(g.last() == ')');
        },
        _ => {
            assert(g.last() == name.last());
            assert(!char_is_space(name[name.len() - 1]));
        },
    }
    assert(none + g + none =~= g);
    trims_to(none, g, none);
}

proof fn defined_read(name: Seq<char>)
    requires
        is_plain_name(name),
    ensures
        defined_token(guard_text(Directive::IfDefined, name)) == Some(name),
{
    directives_spelled();
    let g = guard_text(Directive::IfDefined, name);
    let n = g.len() as int;
    assert(g.subrange(4, 11) =~= "defined"@);
    assert forall|k: int| 0 <= k < 4 implies !#[trigger] occurs_at(g, "defined"@, k) by {
        if occurs_at(g, "defined"@, k) {
            assert(g.subrange(k, k + 7)[0] == g[k]);
        }
    }
    found_first(g, "defined"@, 0, 4);
    let after = g.subrange(11, n);
    let inner = name + seq![')'];
    assert(after =~= "("@ + inner);
    let none = Seq::<char>::empty();
    assert(none + after =~= after);
    gap_before(none, after);
    begins_so("("@, inner);
    assert(after.subrange(1, after.len() as int) =~= inner);
    let end = name.len() as int;
    name_has_ink(name);
    assert(inner.subrange(end, end + 1) =~= ")"@);
    assert forall|k: int| 0 <= k < end implies !#[trigger] occurs_at(inner, ")"@, k) by {
        if occurs_at(inner, ")"@, k) {
            assert(inner.subrange(k, k + 1)[0] == inner[k]);
            assert(inner[k] == name[k]);
            assert(!bracket(name[k]));
        }
    }
    found_first(inner, ")"@, 0, end);
    assert(inner.subrange(0, end) =~= name);
}

/// The label of a guard is the macro that it asks for. A guard is shown unless
/// its macro ends like that of a header.
pub proof fn guard_is_labelled_by_its_macro(directive: Directive, name: Seq<char>)
    requires
        is_plain_name(name),
    ensures
        guard_label(guard_text(directive, name)) == name,
        guard_shown(guard_text(directive, name)) <==> !(name.len() >= 2 && name[name.len() - 2]
            == '_' && name[name.len() - 1] == 'H'),
{
    directives_spelled();
    let g = guard_text(directive, name);
    guard_is_trim(directive, name);
    name_has_ink(name);
    match directive {
        Directive::Ifdef => {
            let rest = seq![' '] + name;
            begins_otherwise(g, "#ifndef"@, 3);
            assert(g =~= "#ifdef"@ + rest);
            begins_so("#ifdef"@, rest);
            assert(g.subrange(6, g.len() as int) =~= rest);
            word_read(name);
        },
        Directive::Ifndef => {
            let rest = seq![' '] + name;
            assert(g =~= "#ifndef"@ + rest);
            begins_so("#ifndef"@, rest);
            assert(g.subrange(7, g.len() as int) =~= rest);
            word_read(name);
        },
        Directive::IfDefined => {
            begins_otherwise(g, "#ifndef"@, 3);
            begins_otherwise(g, "#ifdef"@, 3);
            begins_otherwise(g, "#define"@, 1);
            defined_read(name);
        },
    }
    reveal_strlit("_H");
    if name.len() >= 2 {
        let end = name.subrange(name.len() - 2, name.len() as int);
        assert(end[0] == name[name.len() - 2] && end[1] == name[name.len() - 1]);
        if end[0] == '_' && end[1] == 'H' {
            assert(end =~= "_H"@);
        }
    }
}

} // verus!
