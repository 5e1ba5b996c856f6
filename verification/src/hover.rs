//! Hover candidates and their Markdown.

use vstd::prelude::*;
use vstd::slice::slice_subrange;

use crate::chars::{
    char_is_space, chars_of, first_occurrence, is_space, occurs_at, skip_ws, space_run_end,
    string_of, trim, trim_end, trim_start, trimmed, trimmed_end, trimmed_start,
};
use crate::comments::extract::signature_comment;
use crate::comments::model::{CommentAnchor, CommentRenderOptions, RenderedSymbolComment};
use crate::comments::{
    comment_documentation_for_symbol, comment_markdown_for_symbol,
    comment_markdown_from_signature, opt_doc, raw_rendered, symbol_doc,
};
use crate::definitions::{
    opt_reason, rank_definition_records_with_scope, ranked_records, scoped_ranking,
    RankedDefinitionRecord, SymbolRecord,
};
use crate::lines::{begins, chars_match_at, find_text, push_all, push_text, starts_with, to_vec};
use crate::model::{CandidateRange, DefinitionCandidate};
use crate::reach::ReachScope;

verus! {

pub const HOVER_CANDIDATE_LIMIT: usize = 4;

#[derive(Debug, Clone, PartialEq, Eq)]
pub struct RankedHoverCandidate {
    pub candidate: DefinitionCandidate,
    pub signature: String,
    pub guard: Option<String>,
}

/// The hover candidate of a ranked record.
pub open spec fn hover_of(r: RankedDefinitionRecord) -> RankedHoverCandidate {
    RankedHoverCandidate {
        candidate: r.candidate,
        signature: r.record.signature,
        guard: r.record.guard,
    }
}

/// The first `limit` records of a ranking as hover candidates.
pub open spec fn hovers(s: Seq<RankedDefinitionRecord>, limit: int) -> Seq<RankedHoverCandidate> {
    let n = if s.len() > limit {
        limit
    } else {
        s.len() as int
    };
    s.subrange(0, n).map_values(|r: RankedDefinitionRecord| hover_of(r))
}

/// The best `limit` candidates, ranked as definitions are.
pub fn rank_hover_candidates(
    records: Vec<SymbolRecord>,
    current_rel_path: &str,
    scope: Option<&ReachScope>,
    limit: usize,
) -> (r: Vec<RankedHoverCandidate>)
    ensures
        r@ == hovers(
            ranked_records(
                scoped_ranking(records@, current_rel_path, scope),
                opt_reason(scope),
            ),
            limit as int,
        ),
{
    let mut ranked = rank_definition_records_with_scope(records, current_rel_path, scope);
    let ghost all = ranked@;
    let mut out: Vec<RankedHoverCandidate> = Vec::new();
    while ranked.len() > 0 && out.len() < limit
        invariant
            ranked@.len() + out@.len() == all.len(),
            out@.len() <= limit,
            ranked@ == all.subrange(out@.len() as int, all.len() as int),
            out@ == all.subrange(0, out@.len() as int).map_values(
                |r: RankedDefinitionRecord| hover_of(r),
            ),
        decreases ranked@.len(),
    {
        let ghost done = out@.len() as int;
        let item = ranked.remove(0);
        assert(item == all[done]);
        out.push(
            RankedHoverCandidate {
                candidate: item.candidate,
                signature: item.record.signature,
                guard: item.record.guard,
            },
        );
        proof {
            assert(ranked@ =~= all.subrange(done + 1, all.len() as int));
            assert(out@ =~= all.subrange(0, done + 1).map_values(
                |r: RankedDefinitionRecord| hover_of(r),
            ));
        }
    }
    out
}

// ---------------------------------------------------------------------------
// Comments

pub open spec fn default_options() -> CommentRenderOptions {
    CommentRenderOptions { max_comment_lines: 48, max_chars: 2000 }
}

fn anchor_for(symbol_name: &str, line: u32, range: &CandidateRange) -> (r: CommentAnchor)
    ensures
        r.symbol_name@ == symbol_name@,
        r.start_line == line,
{
    CommentAnchor {
        symbol_name: symbol_name.to_owned(),
        start_line: line,
        start_col: range.start_col,
        end_line: range.end_line,
        end_col: range.end_col,
    }
}

/// Markdown of the comment that belongs to a symbol.
pub fn comment_markdown_for_hover_symbol(
    source: &str,
    symbol_name: &str,
    symbol_start_line: u32,
    range: &CandidateRange,
) -> (r: Option<String>)
    ensures
        match symbol_doc(source@, symbol_start_line as int, symbol_name@, default_options()) {
            Some(doc) => r is Some && r->0@ == doc.markdown,
            None => r is None,
        },
{
    let anchor = anchor_for(symbol_name, symbol_start_line, range);
    match comment_markdown_for_symbol(source, &anchor, &CommentRenderOptions::default()) {
        Some(rendered) => Some(rendered.markdown),
        None => None,
    }
}

/// Documentation of a symbol, with its parameters.
pub fn comment_documentation_for_candidate_symbol(
    source: &str,
    symbol_name: &str,
    line: u32,
    range: &CandidateRange,
) -> (r: Option<RenderedSymbolComment>)
    ensures
        opt_doc(r) == symbol_doc(source@, line as int, symbol_name@, default_options()),
{
    let anchor = anchor_for(symbol_name, line, range);
    comment_documentation_for_symbol(source, &anchor, &CommentRenderOptions::default())
}

// ---------------------------------------------------------------------------
// Signatures and guards

/// `s` from `i` on with every code fence replaced.
pub open spec fn unfenced_from(s: Seq<char>, i: int) -> Seq<char>
    decreases s.len() - i,
{
    if i < 0 || i >= s.len() {
        Seq::empty()
    } else if i + 3 <= s.len() && occurs_at(s, "```"@, i) {
        "'''"@ + unfenced_from(s, i + 3)
    } else {
        seq![s[i]] + unfenced_from(s, i + 1)
    }
}

pub open spec fn unfenced(s: Seq<char>) -> Seq<char> {
    unfenced_from(s, 0)
}

fn push_unfenced(out: &mut Vec<char>, s: &[char])
    ensures
        final(out)@ == old(out)@ + unfenced(s@),
{
    let fence = chars_of("```");
    proof {
        reveal_strlit("```");
        reveal_strlit("'''");
    }
    let ghost before = out@;
    let mut i: usize = 0;
    while i < s.len()
        invariant
            i <= s@.len(),
            fence@ == "```"@,
            fence@.len() == 3,
            out@ + unfenced_from(s@, i as int) == before + unfenced(s@),
        decreases s@.len() - i,
    {
        let ghost now = out@;
        if chars_match_at(s, &fence, i) {
            push_text(out, "'''");
            assert(now + ("'''"@ + unfenced_from(s@, i + 3)) =~= out@ + unfenced_from(s@, i + 3));
            i = i + 3;
        } else {
            out.push(s[i]);
            assert(now + (seq![s@[i as int]] + unfenced_from(s@, i + 1)) =~= out@ + unfenced_from(
                s@,
                i + 1,
            ));
            i = i + 1;
        }
    }
    assert(out@ + unfenced_from(s@, i as int) =~= out@);
}

/// A signature without the comments it starts with.
pub open spec fn uncommented(s: Seq<char>) -> Seq<char>
    decreases s.len(),
{
    let rest = trim_start(s);
    if rest.len() > s.len() {
        rest
    } else if begins(rest, "/*"@) {
        match first_occurrence(rest, "*/"@, 0) {
            Some(end) => if 0 <= end && end + 2 <= rest.len() {
                uncommented(rest.subrange(end + 2, rest.len() as int))
            } else {
                Seq::empty()
            },
            None => Seq::empty(),
        }
    } else if begins(rest, "//"@) {
        match first_occurrence(rest, "\n"@, 0) {
            Some(end) => if 0 <= end && end + 1 <= rest.len() {
                uncommented(rest.subrange(end + 1, rest.len() as int))
            } else {
                Seq::empty()
            },
            None => Seq::empty(),
        }
    } else {
        rest
    }
}

fn strip_leading_signature_comments(signature: &[char]) -> (r: Vec<char>)
    ensures
        r@ == uncommented(signature@),
{
    proof {
        reveal_strlit("*/");
        reveal_strlit("\n");
    }
    let mut rest = signature;
    loop
        invariant
            uncommented(signature@) == uncommented(rest@),
            "*/"@.len() == 2,
            "\n"@.len() == 1,
        decreases rest@.len(),
    {
        let text = trimmed_start(rest);
        if starts_with(text, "/*") {
            match find_text(text, "*/") {
                Some(end) => {
                    rest = slice_subrange(text, end + 2, text.len());
                },
                None => {
                    return Vec::new();
                },
            }
        } else if starts_with(text, "//") {
            match find_text(text, "\n") {
                Some(end) => {
                    rest = slice_subrange(text, end + 1, text.len());
                },
                None => {
                    return Vec::new();
                },
            }
        } else {
            return to_vec(text);
        }
    }
}

/// What is shown of a signature: the text without leading comments, or the
/// name where nothing is left.
pub open spec fn shown_signature(signature: Seq<char>, name: Seq<char>) -> Seq<char> {
    let stripped = trim(uncommented(signature));
    if stripped.len() == 0 {
        name
    } else {
        stripped
    }
}

fn display_signature(signature: &str, fallback_name: &str) -> (r: Vec<char>)
    ensures
        r@ == shown_signature(signature@, fallback_name@),
{
    let bare = strip_leading_signature_comments(&chars_of(signature));
    let stripped = trimmed(&bare);
    if stripped.len() == 0 {
        chars_of(fallback_name)
    } else {
        to_vec(stripped)
    }
}

/// End of the characters that are not white space at `i`.
pub open spec fn ink_end(s: Seq<char>, i: int) -> int
    decreases s.len() - i,
{
    if 0 <= i < s.len() && !char_is_space(s[i]) {
        ink_end(s, i + 1)
    } else {
        i
    }
}

/// The first word of a text, if it has one.
pub open spec fn first_word(s: Seq<char>) -> Option<Seq<char>> {
    let start = space_run_end(s, 0);
    if start < s.len() {
        Some(s.subrange(start, ink_end(s, start)))
    } else {
        None
    }
}

pub open spec fn bracket(c: char) -> bool {
    c == '(' || c == ')' || c == '!'
}

pub open spec fn brackets_end(s: Seq<char>, i: int) -> int
    decreases s.len() - i,
{
    if 0 <= i < s.len() && bracket(s[i]) {
        brackets_end(s, i + 1)
    } else {
        i
    }
}

pub open spec fn brackets_start(s: Seq<char>, from: int, i: int) -> int
    decreases i,
{
    if from < i <= s.len() && 0 < i && bracket(s[i - 1]) {
        brackets_start(s, from, i - 1)
    } else {
        i
    }
}

/// A guard token without the brackets and negations round it.
pub open spec fn clean_token(s: Seq<char>) -> Seq<char> {
    let t = trim(s);
    let from = brackets_end(t, 0);
    t.subrange(from, brackets_start(t, from, t.len() as int))
}

/// The token that `defined` asks for.
pub open spec fn defined_token(s: Seq<char>) -> Option<Seq<char>> {
    match first_occurrence(s, "defined"@, 0) {
        Some(i) => {
            let after = trim_start(s.subrange(i + 7, s.len() as int));
            if begins(after, "("@) {
                let rest = after.subrange(1, after.len() as int);
                match first_occurrence(rest, ")"@, 0) {
                    Some(end) => Some(clean_token(rest.subrange(0, end))),
                    None => None,
                }
            } else {
                match first_word(after) {
                    Some(w) => Some(clean_token(w)),
                    None => None,
                }
            }
        },
        None => None,
    }
}

/// The word behind a directive that the text starts with.
pub open spec fn directive_word(s: Seq<char>, directive: Seq<char>) -> Option<Seq<char>> {
    if begins(s, directive) {
        first_word(s.subrange(directive.len() as int, s.len() as int))
    } else {
        None
    }
}

/// The short name of a guard, for its closing line.
pub open spec fn guard_label(guard: Seq<char>) -> Seq<char> {
    let t = trim(guard);
    match directive_word(t, "#ifndef"@) {
        Some(w) => clean_token(w),
        None => match directive_word(t, "#ifdef"@) {
            Some(w) => clean_token(w),
            None => match directive_word(t, "#define"@) {
                Some(w) => clean_token(w),
                None => match defined_token(t) {
                    Some(w) => w,
                    None => t,
                },
            },
        },
    }
}

/// A guard is shown unless it is the guard of a header.
pub open spec fn guard_shown(guard: Seq<char>) -> bool {
    let label = trim(guard_label(guard));
    trim(guard).len() > 0 && !(label.len() >= 2 && label.subrange(
        label.len() - 2,
        label.len() as int,
    ) == "_H"@)
}

fn find_first_word(s: &[char]) -> (r: Option<&[char]>)
    ensures
        match r {
            Some(w) => first_word(s@) == Some(w@),
            None => first_word(s@) is None,
        },
{
    let start: usize = skip_ws(s, 0);
    if start >= s.len() {
        return None;
    }
    let mut end: usize = start;
    while end < s.len() && !is_space(s[end])
        invariant
            start <= end <= s@.len(),
            ink_end(s@, start as int) == ink_end(s@, end as int),
        decreases s@.len() - end,
    {
        end = end + 1;
    }
    Some(slice_subrange(s, start, end))
}

fn clean_guard_token(token: &[char]) -> (r: Vec<char>)
    ensures
        r@ == clean_token(token@),
{
    let t = trimmed(token);
    let mut from: usize = 0;
    while from < t.len() && (t[from] == '(' || t[from] == ')' || t[from] == '!')
        invariant
            from <= t@.len(),
            brackets_end(t@, 0) == brackets_end(t@, from as int),
        decreases t@.len() - from,
    {
        from = from + 1;
    }
    let mut end: usize = t.len();
    while end > from && (t[end - 1] == '(' || t[end - 1] == ')' || t[end - 1] == '!')
        invariant
            from <= end <= t@.len(),
            brackets_start(t@, from as int, t@.len() as int) == brackets_start(
                t@,
                from as int,
                end as int,
            ),
        decreases end,
    {
        end = end - 1;
    }
    to_vec(slice_subrange(t, from, end))
}

pub open spec fn opt_chars(r: Option<Vec<char>>) -> Option<Seq<char>> {
    match r {
        Some(v) => Some(v@),
        None => None,
    }
}

fn defined_guard_token(value: &[char]) -> (r: Option<Vec<char>>)
    ensures
        opt_chars(r) == defined_token(value@),
{
    proof {
        reveal_strlit("defined");
        reveal_strlit("(");
    }
    let index: usize = match find_text(value, "defined") {
        Some(i) => i,
        None => {
            return None;
        },
    };
    let after = trimmed_start(slice_subrange(value, index + 7, value.len()));
    if starts_with(after, "(") {
        let rest = slice_subrange(after, 1, after.len());
        match find_text(rest, ")") {
            Some(end) => Some(clean_guard_token(slice_subrange(rest, 0, end))),
            None => None,
        }
    } else {
        match find_first_word(after) {
            Some(w) => Some(clean_guard_token(w)),
            None => None,
        }
    }
}

fn word_behind(s: &[char], directive: &str) -> (r: Option<Vec<char>>)
    ensures
        match directive_word(s@, directive@) {
            Some(w) => opt_chars(r) == Some(clean_token(w)),
            None => r is None,
        },
{
    if starts_with(s, directive) {
        let n: usize = chars_of(directive).len();
        match find_first_word(slice_subrange(s, n, s.len())) {
            Some(w) => Some(clean_guard_token(w)),
            None => None,
        }
    } else {
        None
    }
}

fn guard_closing_label(guard: &[char]) -> (r: Vec<char>)
    ensures
        r@ == guard_label(guard@),
{
    let t = trimmed(guard);
    match word_behind(t, "#ifndef") {
        Some(w) => {
            return w;
        },
        None => {},
    }
    match word_behind(t, "#ifdef") {
        Some(w) => {
            return w;
        },
        None => {},
    }
    match word_behind(t, "#define") {
        Some(w) => {
            return w;
        },
        None => {},
    }
    match defined_guard_token(t) {
        Some(w) => w,
        None => to_vec(t),
    }
}

fn is_header_guard_label(label: &[char]) -> (r: bool)
    ensures
        r == (trim(label@).len() >= 2 && trim(label@).subrange(
            trim(label@).len() - 2,
            trim(label@).len() as int,
        ) == "_H"@),
{
    let t = trimmed(label);
    let len: usize = t.len();
    proof {
        reveal_strlit("_H");
        if len >= 2 {
            let tail = t@.subrange(len - 2, len as int);
            assert((tail =~= "_H"@) == (tail[0] == '_' && tail[1] == 'H'));
        }
    }
    len >= 2 && t[len - 2] == '_' && t[len - 1] == 'H'
}

fn should_render_guard_wrapper(guard: &[char]) -> (r: bool)
    ensures
        r == guard_shown(guard@),
{
    trimmed(guard).len() > 0 && !is_header_guard_label(&guard_closing_label(guard))
}

// ---------------------------------------------------------------------------
// Markdown

/// The comment above a hover: the one that was found, or else the one in the
/// signature; nothing where it is blank.
pub open spec fn hover_comment(found: Option<Seq<char>>, signature: Seq<char>) -> Seq<char> {
    let own = match signature_comment(signature) {
        Some(raw) => match raw_rendered(raw, default_options()) {
            Some(r) => Some(r.markdown),
            None => None,
        },
        None => None,
    };
    let comment = if found is Some {
        found
    } else {
        own
    };
    match comment {
        Some(c) => if trim(c).len() > 0 {
            trim_end(c) + "\n\n"@
        } else {
            Seq::empty()
        },
        None => Seq::empty(),
    }
}

pub open spec fn shown_guard(guard: Option<String>) -> Option<Seq<char>> {
    match guard {
        Some(g) => if guard_shown(g@) {
            Some(g@)
        } else {
            None
        },
        None => None,
    }
}

/// The code block of a hover.
pub open spec fn hover_code(ranked: RankedHoverCandidate) -> Seq<char> {
    let guard = shown_guard(ranked.guard);
    "```c\n"@ + (match guard {
        Some(g) => unfenced(trim(g)) + "\n"@,
        None => Seq::empty(),
    }) + "// In "@ + ranked.candidate.path@ + "\n"@ + unfenced(
        shown_signature(ranked.signature@, ranked.candidate.name@),
    ) + "\n"@ + (match guard {
        Some(g) => "#endif // ^^ "@ + unfenced(guard_label(g)) + " ^^\n"@,
        None => Seq::empty(),
    }) + "```\n\n"@
}

/// The line of labels under a hover.
pub open spec fn hover_labels(c: DefinitionCandidate) -> Seq<char> {
    "<small><span style=\"color: var(--vscode-descriptionForeground);\"><em>tier: "@
        + c.tier.label() + " | confidence: "@ + c.confidence.label() + " | reason: "@
        + c.reason.label() + "</em></span></small>"@
}

fn push_comment(out: &mut Vec<char>, comment: &str)
    ensures
        final(out)@ == old(out)@ + (if trim(comment@).len() > 0 {
            trim_end(comment@) + "\n\n"@
        } else {
            Seq::empty()
        }),
{
    let ghost before = out@;
    let chars = chars_of(comment);
    if trimmed(&chars).len() > 0 {
        push_all(out, trimmed_end(&chars));
        push_text(out, "\n\n");
        assert(out@ =~= before + (trim_end(comment@) + "\n\n"@));
    } else {
        assert(out@ =~= before + Seq::<char>::empty());
    }
}

fn push_code(out: &mut Vec<char>, ranked: &RankedHoverCandidate)
    ensures
        final(out)@ == old(out)@ + hover_code(*ranked),
{
    let ghost before = out@;
    let mut code: Vec<char> = Vec::new();
    push_text(&mut code, "```c\n");
    assert(code@ =~= "```c\n"@);
    let guard: Option<Vec<char>> = match &ranked.guard {
        Some(g) => {
            let chars = chars_of(g.as_str());
            if should_render_guard_wrapper(&chars) {
                Some(chars)
            } else {
                None
            }
        },
        None => None,
    };
    assert(opt_chars(guard) == shown_guard(ranked.guard));
    let ghost opening = match shown_guard(ranked.guard) {
        Some(g) => unfenced(trim(g)) + "\n"@,
        None => Seq::empty(),
    };
    match &guard {
        Some(g) => {
            push_unfenced(&mut code, trimmed(g));
            push_text(&mut code, "\n");
        },
        None => {},
    }
    assert(code@ =~= "```c\n"@ + opening);
    push_text(&mut code, "// In ");
    push_text(&mut code, ranked.candidate.path.as_str());
    push_text(&mut code, "\n");
    let signature = display_signature(ranked.signature.as_str(), ranked.candidate.name.as_str());
    push_unfenced(&mut code, &signature);
    push_text(&mut code, "\n");
    let ghost middle = code@;
    let ghost closing = match shown_guard(ranked.guard) {
        Some(g) => "#endif // ^^ "@ + unfenced(guard_label(g)) + " ^^\n"@,
        None => Seq::empty(),
    };
    match &guard {
        Some(g) => {
            push_text(&mut code, "#endif // ^^ ");
            let label = guard_closing_label(g);
            push_unfenced(&mut code, &label);
            push_text(&mut code, " ^^\n");
        },
        None => {},
    }
    assert(code@ =~= middle + closing);
    push_text(&mut code, "```\n\n");
    assert(code@ == hover_code(*ranked));
    push_all(out, &code);
}

fn push_labels(out: &mut Vec<char>, c: &DefinitionCandidate)
    ensures
        final(out)@ == old(out)@ + hover_labels(*c),
{
    let mut labels: Vec<char> = Vec::new();
    push_text(
        &mut labels,
        "<small><span style=\"color: var(--vscode-descriptionForeground);\"><em>tier: ",
    );
    assert(labels@
        =~= "<small><span style=\"color: var(--vscode-descriptionForeground);\"><em>tier: "@);
    push_text(&mut labels, c.tier.as_str());
    push_text(&mut labels, " | confidence: ");
    push_text(&mut labels, c.confidence.as_str());
    push_text(&mut labels, " | reason: ");
    push_text(&mut labels, c.reason.as_str());
    push_text(&mut labels, "</em></span></small>");
    push_all(out, &labels);
}

pub open spec fn opt_str_text(s: Option<&str>) -> Option<Seq<char>> {
    match s {
        Some(t) => Some(t@),
        None => None,
    }
}

/// The Markdown of a hover: comment, code with its guard, and labels.
pub fn hover_markdown_for_candidate(
    ranked: &RankedHoverCandidate,
    comment_markdown: Option<&str>,
) -> (r: String)
    ensures
        r@ == hover_comment(opt_str_text(comment_markdown), ranked.signature@) + hover_code(
            *ranked,
        ) + hover_labels(ranked.candidate),
{
    let mut out: Vec<char> = Vec::new();
    match comment_markdown {
        Some(comment) => {
            push_comment(&mut out, comment);
        },
        None => {
            match comment_markdown_from_signature(
                ranked.signature.as_str(),
                &CommentRenderOptions::default(),
            ) {
                Some(rendered) => {
                    push_comment(&mut out, rendered.markdown.as_str());
                },
                None => {},
            }
        },
    }
    assert(out@ =~= hover_comment(opt_str_text(comment_markdown), ranked.signature@));
    push_code(&mut out, ranked);
    push_labels(&mut out, &ranked.candidate);
    string_of(&out)
}

// ---------------------------------------------------------------------------
// Laws

/// A run of two quotes at the start of unfenced text was there before.
proof fn unfenced_head(s: Seq<char>, i: int)
    requires
        0 <= i,
    ensures
        unfenced_from(s, i).len() >= 1 && unfenced_from(s, i)[0] == '`' ==> i < s.len() && s[i]
            == '`' && unfenced_from(s, i) == seq!['`'] + unfenced_from(s, i + 1),
{
    reveal_strlit("'''");
}

/// No code fence survives in unfenced text, so it cannot end the code block
/// that it is shown in.
pub proof fn unfenced_holds_no_fence(s: Seq<char>, i: int, at: int)
    requires
        0 <= i,
        0 <= at,
    ensures
        !occurs_at(unfenced_from(s, i), "```"@, at),
    decreases s.len() - i,
{
    reveal_strlit("```");
    reveal_strlit("'''");
    let out = unfenced_from(s, i);
    if occurs_at(out, "```"@, at) {
        let run = out.subrange(at, at + 3);
        assert(run[0] == '`' && run[1] == '`' && run[2] == '`');
        assert(out[at] == '`' && out[at + 1] == '`' && out[at + 2] == '`');
        if i < s.len() {
            if occurs_at(s, "```"@, i) {
                let rest = unfenced_from(s, i + 3);
                assert(out == "'''"@ + rest);
                assert(at >= 3);
                assert(rest.subrange(at - 3, at) =~= run);
                unfenced_holds_no_fence(s, i + 3, at - 3);
            } else {
                let rest = unfenced_from(s, i + 1);
                assert(out == seq![s[i]] + rest);
                if at >= 1 {
                    assert(rest.subrange(at - 1, at + 2) =~= run);
                    unfenced_holds_no_fence(s, i + 1, at - 1);
                } else {
                    assert(rest[0] == '`' && rest[1] == '`');
                    unfenced_head(s, i + 1);
                    assert(unfenced_from(s, i + 2)[0] == rest[1]);
                    unfenced_head(s, i + 2);
                    assert(s.subrange(i, i + 3) =~= "```"@);
                }
            }
        }
    }
}

} // verus!
