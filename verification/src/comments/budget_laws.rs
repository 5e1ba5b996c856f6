//! What a budget of lines leaves of a comment, and which comment a stored
//! signature starts with.

use vstd::prelude::*;

use crate::chain_laws::are_gaps;
use crate::comments::extract::{
    clamped, found, line_comment, line_comments_end, signature_comment,
};
use crate::comments::laws::{
    are_lines, begins_otherwise, begins_so, gap_before, joined_is_put_together, line_comments,
    lines_come_apart, opens_line, put_together, text_grows, words_spelled,
};
use crate::comments::model::{CommentPlacement, CommentStyle, Raw};
use crate::comments::place_laws::{code_is_no_comment, has_no_slash, line_shape};
use crate::hover_laws::block_passed;
use crate::lines::holds;

verus! {

/// A comment within its budget of lines is kept as it is. A longer one keeps
/// its first lines, as many as the budget says, and is marked; a block comment
/// that lost its end is closed on a line of its own.
pub proof fn budget_keeps_the_first_lines(raw: Raw, lines: Seq<Seq<char>>, max_lines: int)
    requires
        are_lines(lines),
        raw.text == put_together(lines),
        0 < max_lines,
    ensures
        lines.len() <= max_lines ==> clamped(raw, max_lines) == raw,
        lines.len() > max_lines ==> {
            let kept = lines.subrange(0, max_lines);
            let block = raw.style == CommentStyle::Block || raw.style == CommentStyle::DocBlock;
            &&& clamped(raw, max_lines).truncated
            &&& clamped(raw, max_lines).style == raw.style
            &&& clamped(raw, max_lines).placement == raw.placement
            &&& clamped(raw, max_lines).text == if block && !holds(put_together(kept), "*/"@) {
                put_together(kept.push(seq!['*', '/']))
            } else {
                put_together(kept)
            }
        },
{
    lines_come_apart(lines);
    if lines.len() > max_lines {
        let kept = lines.subrange(0, max_lines);
        let closed = kept.push(seq!['*', '/']);
        joined_is_put_together(kept);
        text_grows(closed, 0);
        assert(closed.drop_last() =~= kept);
        reveal_strlit("\n*/");
        assert("\n*/"@ =~= seq!['\n', '*', '/']);
        assert(put_together(closed) =~= put_together(kept) + "\n*/"@);
    }
}

/// A stored signature that starts with a block comment has that comment.
pub proof fn signature_has_its_block_comment(gap: Seq<char>, body: Seq<char>, rest: Seq<char>)
    requires
        are_gaps(gap),
        has_no_slash(body),
    ensures
        ({
            let comment = seq!['/', '*'] + body + seq!['*', '/'];
            signature_comment(gap + comment + rest) == Some(
                found(comment, CommentPlacement::SignatureFallback, 0, 0),
            )
        }),
{
    let comment = seq!['/', '*'] + body + seq!['*', '/'];
    let t = seq!['/', '*'] + body + seq!['*', '/'] + rest;
    assert(gap + comment + rest =~= gap + t);
    gap_before(gap, t);
    block_passed(body, rest);
    let end = 2 + body.len() as int;
    assert(t.subrange(0, end + 2) =~= comment);
}

proof fn comments_end_at(lines: Seq<Seq<char>>, i: int, n: int)
    requires
        0 <= i <= n <= lines.len(),
        forall|k: int| i <= k < n ==> line_comment(#[trigger] lines[k]),
        n < lines.len() ==> !line_comment(lines[n]),
    ensures
        line_comments_end(lines, i) == n,
    decreases n - i,
{
    if i < n {
        assert(line_comment(lines[i]));
        comments_end_at(lines, i + 1, n);
    }
}

/// A stored signature that starts with line comments has all of them.
pub proof fn signature_has_its_line_comments(
    marker: Seq<char>,
    lines: Seq<Seq<char>>,
    rest: Seq<Seq<char>>,
)
    requires
        opens_line(marker),
        lines.len() > 0,
        rest.len() > 0 ==> has_no_slash(rest[0]),
        are_lines(line_comments(Seq::empty(), marker, lines) + rest),
    ensures
        signature_comment(put_together(line_comments(Seq::empty(), marker, lines) + rest)) == Some(
            found(
                put_together(line_comments(Seq::empty(), marker, lines)),
                CommentPlacement::SignatureFallback,
                0,
                lines.len() - 1,
            ),
        ),
{
    let none = Seq::<char>::empty();
    let comments = line_comments(none, marker, lines);
    let all = comments + rest;
    let t = put_together(all);
    let n = lines.len() as int;
    let open = seq!['/', '/'];
    words_spelled();
    assert(all[0] == comments[0]);
    assert(all[0] =~= marker + (seq![' '] + lines[0]));
    let behind = t.subrange(2, t.len() as int);
    assert(t[0] == '/' && t[1] == '/') by {
        assert(t[0] == all[0][0] && t[1] == all[0][1]);
    }
    assert(t =~= open + behind);
    begins_so(open, behind);
    begins_otherwise(t, "/*"@, 1);
    assert(none + t =~= t);
    gap_before(none, t);
    lines_come_apart(all);
    assert forall|k: int| 0 <= k < n implies line_comment(#[trigger] all[k]) by {
        assert(all[k] == comments[k]);
        line_shape(none, marker, lines[k]);
    }
    if rest.len() > 0 {
        assert(all[n] == rest[0]);
        code_is_no_comment(rest[0]);
    }
    comments_end_at(all, 0, n);
    assert(all.subrange(0, n) =~= comments);
    joined_is_put_together(comments);
}

} // verus!
