//! Best-effort comment extraction, parsing and Markdown rendering.
//!
//! `source + CommentAnchor -> RawComment -> CommentDocument -> RenderedComment`

pub mod behind_laws;
pub mod budget_laws;
pub mod document_laws;
pub mod escape_laws;
pub mod extract;
pub mod laws;
pub mod markdown;
pub mod model;
pub mod page_laws;
pub mod parse;
pub mod place_laws;
pub mod tag_laws;

use vstd::prelude::*;

use crate::chars::{same_text, texts};
use crate::comments::extract::{
    attached, extract_comment, extract_signature_fallback, opt_clamped, signature_comment,
};
use crate::comments::markdown::{
    attribute_from, find_attribute, opt_rendered, render_document, rendered, Rendered,
};
use crate::comments::model::{
    block_views, Block, CommentAnchor, CommentBlock, CommentDiagnostics, CommentDocument,
    CommentRenderOptions, Document, Raw, RawComment, RenderedComment, RenderedParameterComment,
    RenderedSymbolComment, TagBlock, TextBlock,
};
use crate::comments::parse::{is_attachable_document, parse_raw_comment, parsed};
use crate::lines::lines_of;

verus! {

/// The Markdown of a raw comment.
pub open spec fn raw_rendered(raw: Raw, options: CommentRenderOptions) -> Option<Rendered> {
    rendered(
        parsed(raw.text, raw.style, raw.truncated, options.max_comment_lines as int),
        options.max_chars as int,
    )
}

/// The description of one parameter tag: its name and its rendered lines.
pub open spec fn parameter_doc(block: Block, max_chars: int) -> Option<(Seq<char>, Seq<char>)> {
    match block {
        Block::Tag(tag) => if tag.canonical_name != "param"@ {
            None
        } else {
            match attribute_from(tag.attributes, "name"@, 0) {
                Some(name) => match rendered(
                    Document {
                        blocks: seq![Block::Text(tag.lines)],
                        diagnostics: CommentDiagnostics::clean(),
                    },
                    max_chars,
                ) {
                    Some(text) => Some((name, text.markdown)),
                    None => None,
                },
                None => None,
            }
        },
        Block::Text(_) => None,
    }
}

/// The descriptions of the parameters among the first `n` blocks.
pub open spec fn parameter_docs(blocks: Seq<Block>, max_chars: int, n: int) -> Seq<
    (Seq<char>, Seq<char>),
>
    decreases n,
{
    if n <= 0 {
        Seq::empty()
    } else {
        match parameter_doc(blocks[n - 1], max_chars) {
            Some(d) => parameter_docs(blocks, max_chars, n - 1).push(d),
            None => parameter_docs(blocks, max_chars, n - 1),
        }
    }
}

/// Rendered documentation of a symbol.
pub struct SymbolDoc {
    pub markdown: Seq<char>,
    pub parameters: Seq<(Seq<char>, Seq<char>)>,
    pub diagnostics: CommentDiagnostics,
}

pub open spec fn parameter_views(v: Seq<RenderedParameterComment>) -> Seq<
    (Seq<char>, Seq<char>),
> {
    Seq::new(v.len(), |i: int| (v[i].name@, v[i].markdown@))
}

impl View for RenderedSymbolComment {
    type V = SymbolDoc;

    open spec fn view(&self) -> SymbolDoc {
        SymbolDoc {
            markdown: self.markdown@,
            parameters: parameter_views(self.parameters@),
            diagnostics: self.diagnostics,
        }
    }
}

pub open spec fn opt_doc(r: Option<RenderedSymbolComment>) -> Option<SymbolDoc> {
    match r {
        Some(c) => Some(c@),
        None => None,
    }
}

/// The documentation of a raw comment.
pub open spec fn raw_doc(raw: Raw, options: CommentRenderOptions) -> Option<SymbolDoc> {
    let document = parsed(raw.text, raw.style, raw.truncated, options.max_comment_lines as int);
    match raw_rendered(raw, options) {
        Some(r) => Some(
            SymbolDoc {
                markdown: r.markdown,
                parameters: parameter_docs(
                    document.blocks,
                    options.max_chars as int,
                    document.blocks.len() as int,
                ),
                diagnostics: r.diagnostics,
            },
        ),
        None => None,
    }
}

/// The documentation of the declaration of `name` on line `line` of `source`.
pub open spec fn symbol_doc(
    source: Seq<char>,
    line: int,
    name: Seq<char>,
    options: CommentRenderOptions,
) -> Option<SymbolDoc> {
    match opt_clamped(attached(lines_of(source), line, name), options.max_comment_lines as int) {
        Some(raw) => raw_doc(raw, options),
        None => None,
    }
}

/// Recover and render the nearest comment that belongs to a symbol.
pub fn comment_markdown_for_symbol(
    source: &str,
    anchor: &CommentAnchor,
    options: &CommentRenderOptions,
) -> (r: Option<RenderedComment>)
    ensures
        opt_rendered(r) == match symbol_doc(
            source@,
            anchor.start_line as int,
            anchor.symbol_name@,
            *options,
        ) {
            Some(doc) => Some(
                Rendered { markdown: doc.markdown, diagnostics: doc.diagnostics },
            ),
            None => None,
        },
{
    match comment_documentation_for_symbol(source, anchor, options) {
        Some(doc) => Some(
            RenderedComment { markdown: doc.markdown, diagnostics: doc.diagnostics },
        ),
        None => None,
    }
}

/// Recover documentation for a symbol together with the descriptions of its
/// parameters.
pub fn comment_documentation_for_symbol(
    source: &str,
    anchor: &CommentAnchor,
    options: &CommentRenderOptions,
) -> (r: Option<RenderedSymbolComment>)
    ensures
        opt_doc(r) == symbol_doc(
            source@,
            anchor.start_line as int,
            anchor.symbol_name@,
            *options,
        ),
{
    match extract_comment(source, anchor, options) {
        Some(raw) => render_raw_symbol_comment(&raw, options),
        None => None,
    }
}

/// Render the comment that a stored signature starts with.
pub fn comment_markdown_from_signature(signature: &str, options: &CommentRenderOptions) -> (r:
    Option<RenderedComment>)
    ensures
        opt_rendered(r) == match signature_comment(signature@) {
            Some(raw) => raw_rendered(raw, *options),
            None => None,
        },
{
    match extract_signature_fallback(signature) {
        Some(raw) => render_raw_comment(&raw, options),
        None => None,
    }
}

fn render_raw_comment(raw: &RawComment, options: &CommentRenderOptions) -> (r: Option<
    RenderedComment,
>)
    ensures
        opt_rendered(r) == raw_rendered(raw@, *options),
{
    let document = parse_raw_comment(raw, options);
    if !is_attachable_document(&document) {
        return None;
    }
    render_document(&document, options)
}

fn copy_strings(lines: &Vec<String>) -> (r: Vec<String>)
    ensures
        texts(r@) == texts(lines@),
{
    let mut out: Vec<String> = Vec::new();
    let mut i: usize = 0;
    while i < lines.len()
        invariant
            i <= lines@.len(),
            texts(out@) == texts(lines@).subrange(0, i as int),
        decreases lines@.len() - i,
    {
        let ghost before = texts(out@);
        out.push(lines[i].clone());
        i = i + 1;
        assert(texts(out@) =~= before.push(lines@[i - 1]@));
        assert(texts(out@) =~= texts(lines@).subrange(0, i as int));
    }
    assert(texts(out@) =~= texts(lines@));
    out
}

fn render_parameter(tag: &TagBlock, options: &CommentRenderOptions) -> (r: Option<
    RenderedParameterComment,
>)
    ensures
        match r {
            Some(p) => parameter_doc(Block::Tag(tag@), options.max_chars as int) == Some(
                (p.name@, p.markdown@),
            ),
            None => parameter_doc(Block::Tag(tag@), options.max_chars as int) is None,
        },
{
    if !same_text(tag.canonical_name.as_str(), "param") {
        return None;
    }
    let name = match find_attribute(&tag.attributes, "name") {
        Some(name) => name.to_owned(),
        None => {
            return None;
        },
    };
    let mut blocks: Vec<CommentBlock> = Vec::new();
    blocks.push(CommentBlock::Text(TextBlock { lines: copy_strings(&tag.lines) }));
    let document = CommentDocument {
        blocks,
        diagnostics: CommentDiagnostics {
            malformed_fallback: false,
            truncated: false,
            unclosed_xml: false,
        },
    };
    assert(document@.blocks =~= seq![Block::Text(tag@.lines)]);
    match render_document(&document, options) {
        Some(text) => Some(RenderedParameterComment { name, markdown: text.markdown }),
        None => None,
    }
}

fn render_raw_symbol_comment(raw: &RawComment, options: &CommentRenderOptions) -> (r: Option<
    RenderedSymbolComment,
>)
    ensures
        opt_doc(r) == raw_doc(raw@, *options),
{
    let document = parse_raw_comment(raw, options);
    if !is_attachable_document(&document) {
        return None;
    }
    let text = match render_document(&document, options) {
        Some(text) => text,
        None => {
            return None;
        },
    };
    let ghost all = block_views(document.blocks@);
    let mut parameters: Vec<RenderedParameterComment> = Vec::new();
    let mut i: usize = 0;
    assert(parameter_views(parameters@) =~= Seq::empty());
    while i < document.blocks.len()
        invariant
            i <= document.blocks@.len(),
            all == block_views(document.blocks@),
            parameter_views(parameters@) == parameter_docs(
                all,
                options.max_chars as int,
                i as int,
            ),
        decreases document.blocks@.len() - i,
    {
        assert(all[i as int] == document.blocks@[i as int]@);
        match &document.blocks[i] {
            CommentBlock::Tag(tag) => {
                match render_parameter(tag, options) {
                    Some(p) => {
                        let ghost before = parameter_views(parameters@);
                        let ghost pair = (p.name@, p.markdown@);
                        parameters.push(p);
                        assert(parameter_views(parameters@) =~= before.push(pair));
                    },
                    None => {},
                }
            },
            CommentBlock::Text(_) => {},
        }
        i = i + 1;
    }
    Some(
        RenderedSymbolComment {
            markdown: text.markdown,
            parameters,
            diagnostics: text.diagnostics,
        },
    )
}

} // verus!
