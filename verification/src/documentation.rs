//! Which candidate supplies documentation.

use vstd::prelude::*;
use vstd::slice::slice_subrange;

use crate::chars::{
    char_is_space, chars_of, first_occurrence, is_space, same_chars, string_of, trim, trimmed,
};
use crate::lines::{find_text, to_vec};
use crate::model::DefinitionCandidate;
use crate::project_context::ProjectContextIndex;

verus! {

/// A candidate as a source of documentation.
#[derive(Debug, PartialEq, Eq)]
pub struct DocumentationCandidate {
    pub candidate: DefinitionCandidate,
    pub signature: String,
}

impl Clone for DocumentationCandidate {
    fn clone(&self) -> (r: Self)
        ensures
            r == *self,
    {
        DocumentationCandidate {
            candidate: self.candidate.clone(),
            signature: self.signature.clone(),
        }
    }
}

/// Documentation stays with the candidate that was selected: no other is
/// taken for its similar path, project or signature.
pub fn rank_documentation_candidates(
    primary: &DocumentationCandidate,
    _candidates: &[DocumentationCandidate],
    _project_context: Option<&ProjectContextIndex>,
) -> (r: Vec<DocumentationCandidate>)
    ensures
        r@ == seq![*primary],
{
    let mut out: Vec<DocumentationCandidate> = Vec::new();
    out.push(primary.clone());
    assert(out@ =~= seq![*primary]);
    out
}

// ---------------------------------------------------------------------------
// Signatures

/// End of `s` without the terminators at its end.
pub open spec fn unterminated(s: Seq<char>, end: int) -> int
    decreases end,
{
    if 0 < end <= s.len() && (s[end - 1] == ';' || s[end - 1] == '{') {
        unterminated(s, end - 1)
    } else {
        end
    }
}

/// The declaration part of a signature: what stands before its body, without
/// a terminator.
pub open spec fn declaration(s: Seq<char>) -> Seq<char> {
    let head = match first_occurrence(s, "{"@, 0) {
        Some(i) => s.subrange(0, i),
        None => s,
    };
    let t = trim(head);
    trim(t.subrange(0, unterminated(t, t.len() as int)))
}

/// `out` without the blanks at its end.
pub open spec fn unblanked(out: Seq<char>) -> Seq<char>
    decreases out.len(),
{
    if out.len() > 0 && out.last() == ' ' {
        unblanked(out.drop_last())
    } else {
        out
    }
}

pub open spec fn hugs(c: char) -> bool {
    c == '(' || c == ')' || c == '[' || c == ']' || c == ',' || c == '*' || c == '&'
}

/// A signature being respaced: the text so far, and whether a space is due.
pub struct Spacing {
    pub out: Seq<char>,
    pub due: bool,
}

/// One more character: runs of white space become one blank, none stands next
/// to punctuation, and one follows a comma.
pub open spec fn respaced_char(w: Spacing, c: char) -> Spacing {
    if char_is_space(c) {
        Spacing { out: w.out, due: w.out.len() > 0 }
    } else {
        let opened = w.out.len() > 0 && (w.out.last() == '(' || w.out.last() == '[');
        let spaced = if w.due && !(c == ')' || c == ']' || c == ',' || c == ';') && !opened {
            w.out.push(' ')
        } else {
            w.out
        };
        Spacing {
            out: (if hugs(c) {
                unblanked(spaced)
            } else {
                spaced
            }).push(c),
            due: c == ',',
        }
    }
}

pub open spec fn respaced(s: Seq<char>, n: int) -> Spacing
    decreases n,
{
    if n <= 0 {
        Spacing { out: Seq::empty(), due: false }
    } else {
        respaced_char(respaced(s, n - 1), s[n - 1])
    }
}

/// The normal form of a signature.
pub open spec fn normal(signature: Seq<char>) -> Seq<char> {
    let d = declaration(signature);
    respaced(d, d.len() as int).out
}

fn declaration_of(signature: &[char]) -> (r: Vec<char>)
    ensures
        r@ == declaration(signature@),
{
    let head = match find_text(signature, "{") {
        Some(i) => slice_subrange(signature, 0, i),
        None => signature,
    };
    let t = trimmed(head);
    let mut end: usize = t.len();
    while end > 0 && (t[end - 1] == ';' || t[end - 1] == '{')
        invariant
            end <= t@.len(),
            unterminated(t@, t@.len() as int) == unterminated(t@, end as int),
        decreases end,
    {
        end = end - 1;
    }
    to_vec(trimmed(slice_subrange(t, 0, end)))
}

fn normalize(signature: &[char]) -> (r: Vec<char>)
    ensures
        r@ == normal(signature@),
{
    let text = declaration_of(signature);
    let mut out: Vec<char> = Vec::new();
    let mut due = false;
    let mut i: usize = 0;
    while i < text.len()
        invariant
            i <= text@.len(),
            respaced(text@, i as int) == (Spacing { out: out@, due }),
        decreases text@.len() - i,
    {
        let c = text[i];
        if is_space(c) {
            due = out.len() > 0;
        } else {
            let opened = out.len() > 0 && (out[out.len() - 1] == '(' || out[out.len() - 1] == '[');
            if due && !(c == ')' || c == ']' || c == ',' || c == ';') && !opened {
                out.push(' ');
            }
            if c == '(' || c == ')' || c == '[' || c == ']' || c == ',' || c == '*' || c == '&' {
                let ghost spaced = out@;
                while out.len() > 0 && out[out.len() - 1] == ' '
                    invariant
                        unblanked(spaced) == unblanked(out@),
                    decreases out@.len(),
                {
                    let ghost long = out@;
                    let _ = out.pop();
                    assert(out@ =~= long.drop_last());
                }
            }
            out.push(c);
            due = c == ',';
        }
        i = i + 1;
    }
    out
}

/// A signature without its body and terminator, spaced in one way.
pub fn normalize_signature(signature: &str) -> (r: String)
    ensures
        r@ == normal(signature@),
{
    let chars = chars_of(signature);
    string_of(&normalize(&chars))
}

/// Whether two signatures differ only in spacing, body and terminator.
pub fn signatures_compatible(left: &str, right: &str) -> (r: bool)
    ensures
        r == (normal(left@) == normal(right@)),
{
    let a = normalize(&chars_of(left));
    let b = normalize(&chars_of(right));
    same_chars(&a, &b)
}

} // verus!
