//! Comments near a declaration, from raw text to rendered Markdown.

use vstd::prelude::*;

use crate::chars::texts;

verus! {

/// Source anchor of the symbol whose nearby comment should be recovered.
#[derive(Debug, Clone, PartialEq, Eq)]
pub struct CommentAnchor {
    pub symbol_name: String,
    pub start_line: u32,
    pub start_col: u32,
    pub end_line: u32,
    pub end_col: u32,
}

/// Where a recovered comment sat relative to the declaration.
#[derive(Debug, Clone, Copy, PartialEq, Eq, Structural)]
pub enum CommentPlacement {
    TrailingSameLine,
    InlineLeadingSameLine,
    LeadingAbove,
    SignatureFallback,
}

/// Surface syntax of the comment markers.
#[derive(Debug, Clone, Copy, PartialEq, Eq, Structural)]
pub enum CommentStyle {
    Line,
    DocLine,
    Block,
    DocBlock,
}

/// Raw comment text with its markers.
#[derive(Debug, Clone, PartialEq, Eq)]
pub struct RawComment {
    pub text: String,
    pub placement: CommentPlacement,
    pub style: CommentStyle,
    pub start_line: u32,
    pub end_line: u32,
    /// Extraction stopped at the line budget.
    pub truncated: bool,
}

/// A raw comment with its text as a sequence.
pub struct Raw {
    pub text: Seq<char>,
    pub placement: CommentPlacement,
    pub style: CommentStyle,
    pub start_line: u32,
    pub end_line: u32,
    pub truncated: bool,
}

impl View for RawComment {
    type V = Raw;

    open spec fn view(&self) -> Raw {
        Raw {
            text: self.text@,
            placement: self.placement,
            style: self.style,
            start_line: self.start_line,
            end_line: self.end_line,
            truncated: self.truncated,
        }
    }
}

pub open spec fn opt_raw(r: Option<RawComment>) -> Option<Raw> {
    match r {
        Some(c) => Some(c@),
        None => None,
    }
}

/// A comment split into prose and tags.
#[derive(Debug, Clone, PartialEq, Eq)]
pub struct CommentDocument {
    pub blocks: Vec<CommentBlock>,
    pub diagnostics: CommentDiagnostics,
}

#[derive(Debug, Clone, PartialEq, Eq)]
pub enum CommentBlock {
    Text(TextBlock),
    Tag(TagBlock),
}

#[derive(Debug, Clone, PartialEq, Eq)]
pub struct TextBlock {
    pub lines: Vec<String>,
}

#[derive(Debug, Clone, PartialEq, Eq)]
pub struct TagBlock {
    pub canonical_name: String,
    pub raw_name: String,
    pub syntax: TagSyntax,
    pub attributes: Vec<TagAttribute>,
    pub lines: Vec<String>,
    pub raw: String,
}

#[derive(Debug, Clone, Copy, PartialEq, Eq, Structural)]
pub enum TagSyntax {
    DoxygenAt,
    DoxygenBackslash,
    DoxygenSlash,
    Xml,
}

#[derive(Debug, PartialEq, Eq)]
pub struct TagAttribute {
    pub name: String,
    pub value: String,
}

impl Clone for TagAttribute {
    fn clone(&self) -> (r: Self)
        ensures
            r == *self,
    {
        TagAttribute { name: self.name.clone(), value: self.value.clone() }
    }
}

/// A tag with its texts as sequences; attributes are name and value.
pub struct Tag {
    pub canonical_name: Seq<char>,
    pub raw_name: Seq<char>,
    pub syntax: TagSyntax,
    pub attributes: Seq<(Seq<char>, Seq<char>)>,
    pub lines: Seq<Seq<char>>,
    pub raw: Seq<char>,
}

/// A block with its texts as sequences.
pub enum Block {
    Text(Seq<Seq<char>>),
    Tag(Tag),
}

pub open spec fn attribute_views(v: Seq<TagAttribute>) -> Seq<(Seq<char>, Seq<char>)> {
    Seq::new(v.len(), |i: int| (v[i].name@, v[i].value@))
}

impl View for TagBlock {
    type V = Tag;

    open spec fn view(&self) -> Tag {
        Tag {
            canonical_name: self.canonical_name@,
            raw_name: self.raw_name@,
            syntax: self.syntax,
            attributes: attribute_views(self.attributes@),
            lines: texts(self.lines@),
            raw: self.raw@,
        }
    }
}

impl View for CommentBlock {
    type V = Block;

    open spec fn view(&self) -> Block {
        match self {
            CommentBlock::Text(t) => Block::Text(texts(t.lines@)),
            CommentBlock::Tag(t) => Block::Tag(t@),
        }
    }
}

pub open spec fn block_views(v: Seq<CommentBlock>) -> Seq<Block> {
    Seq::new(v.len(), |i: int| v[i]@)
}

/// A document with its blocks as sequences.
pub struct Document {
    pub blocks: Seq<Block>,
    pub diagnostics: CommentDiagnostics,
}

impl View for CommentDocument {
    type V = Document;

    open spec fn view(&self) -> Document {
        Document { blocks: block_views(self.blocks@), diagnostics: self.diagnostics }
    }
}

/// What went wrong while a comment was read.
#[derive(Debug, Clone, Copy, PartialEq, Eq, Structural)]
pub struct CommentDiagnostics {
    pub malformed_fallback: bool,
    pub truncated: bool,
    pub unclosed_xml: bool,
}

impl CommentDiagnostics {
    pub open spec fn clean() -> CommentDiagnostics {
        CommentDiagnostics { malformed_fallback: false, truncated: false, unclosed_xml: false }
    }
}

impl Default for CommentDiagnostics {
    fn default() -> (r: Self)
        ensures
            r == CommentDiagnostics::clean(),
    {
        CommentDiagnostics { malformed_fallback: false, truncated: false, unclosed_xml: false }
    }
}

/// Budgets of one comment recovery.
#[derive(Debug, Clone, Copy, PartialEq, Eq, Structural)]
pub struct CommentRenderOptions {
    pub max_comment_lines: usize,
    pub max_chars: usize,
}

impl Default for CommentRenderOptions {
    fn default() -> (r: Self)
        ensures
            r.max_comment_lines == 48,
            r.max_chars == 2000,
    {
        CommentRenderOptions { max_comment_lines: 48, max_chars: 2000 }
    }
}

/// Rendered comment Markdown.
#[derive(Debug, Clone, PartialEq, Eq)]
pub struct RenderedComment {
    pub markdown: String,
    pub diagnostics: CommentDiagnostics,
}

/// Rendered symbol documentation with descriptions by parameter name.
#[derive(Debug, Clone, PartialEq, Eq)]
pub struct RenderedSymbolComment {
    pub markdown: String,
    pub parameters: Vec<RenderedParameterComment>,
    pub diagnostics: CommentDiagnostics,
}

#[derive(Debug, PartialEq, Eq)]
pub struct RenderedParameterComment {
    pub name: String,
    pub markdown: String,
}

impl Clone for RenderedParameterComment {
    fn clone(&self) -> (r: Self)
        ensures
            r == *self,
    {
        RenderedParameterComment { name: self.name.clone(), markdown: self.markdown.clone() }
    }
}

} // verus!
