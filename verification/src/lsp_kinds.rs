//! Kinds that editors know, for the kinds that the index knows.

use vstd::prelude::*;

use crate::chars::same_text;
use crate::facts::SymbolKind;

verus! {

/// Kind of a symbol in the editor protocol.
#[derive(Debug, Clone, Copy, PartialEq, Eq, Structural)]
pub enum LspSymbolKind {
    Function,
    Constant,
    Struct,
    EnumMember,
    Variable,
    Field,
}

/// Kind of a completion item in the editor protocol.
#[derive(Debug, Clone, Copy, PartialEq, Eq, Structural)]
pub enum LspCompletionItemKind {
    Function,
    Constant,
    Struct,
    EnumMember,
    Variable,
    Field,
    Text,
}

/// The symbol kind of a stored kind; what is not known is a variable.
pub open spec fn symbol_kind_of(kind: Seq<char>) -> LspSymbolKind {
    if kind == "function"@ {
        LspSymbolKind::Function
    } else if kind == "macro"@ {
        LspSymbolKind::Constant
    } else if kind == "type"@ {
        LspSymbolKind::Struct
    } else if kind == "enum_constant"@ {
        LspSymbolKind::EnumMember
    } else {
        LspSymbolKind::Variable
    }
}

pub fn lsp_symbol_kind(kind: &str) -> (r: LspSymbolKind)
    ensures
        r == symbol_kind_of(kind@),
{
    if same_text(kind, "function") {
        LspSymbolKind::Function
    } else if same_text(kind, "macro") {
        LspSymbolKind::Constant
    } else if same_text(kind, "type") {
        LspSymbolKind::Struct
    } else if same_text(kind, "enum_constant") {
        LspSymbolKind::EnumMember
    } else {
        LspSymbolKind::Variable
    }
}

/// The symbol kind of a parsed kind.
pub open spec fn parsed_symbol_kind(kind: SymbolKind) -> LspSymbolKind {
    match kind {
        SymbolKind::Function => LspSymbolKind::Function,
        SymbolKind::Macro => LspSymbolKind::Constant,
        SymbolKind::Type => LspSymbolKind::Struct,
        SymbolKind::EnumConstant => LspSymbolKind::EnumMember,
        SymbolKind::GlobalVariable => LspSymbolKind::Variable,
        SymbolKind::Field => LspSymbolKind::Field,
    }
}

pub fn lsp_kind_from_parser(kind: SymbolKind) -> (r: LspSymbolKind)
    ensures
        r == parsed_symbol_kind(kind),
{
    match kind {
        SymbolKind::Function => LspSymbolKind::Function,
        SymbolKind::Macro => LspSymbolKind::Constant,
        SymbolKind::Type => LspSymbolKind::Struct,
        SymbolKind::EnumConstant => LspSymbolKind::EnumMember,
        SymbolKind::GlobalVariable => LspSymbolKind::Variable,
        SymbolKind::Field => LspSymbolKind::Field,
    }
}

/// The completion kind of a stored kind; what is not known is plain text.
pub open spec fn completion_kind_of(kind: Seq<char>) -> LspCompletionItemKind {
    if kind == "function"@ {
        LspCompletionItemKind::Function
    } else if kind == "macro"@ {
        LspCompletionItemKind::Constant
    } else if kind == "type"@ {
        LspCompletionItemKind::Struct
    } else if kind == "enum_constant"@ {
        LspCompletionItemKind::EnumMember
    } else if kind == "global_variable"@ {
        LspCompletionItemKind::Variable
    } else {
        LspCompletionItemKind::Text
    }
}

pub fn lsp_completion_kind(kind: &str) -> (r: LspCompletionItemKind)
    ensures
        r == completion_kind_of(kind@),
{
    if same_text(kind, "function") {
        LspCompletionItemKind::Function
    } else if same_text(kind, "macro") {
        LspCompletionItemKind::Constant
    } else if same_text(kind, "type") {
        LspCompletionItemKind::Struct
    } else if same_text(kind, "enum_constant") {
        LspCompletionItemKind::EnumMember
    } else if same_text(kind, "global_variable") {
        LspCompletionItemKind::Variable
    } else {
        LspCompletionItemKind::Text
    }
}

/// The completion kind of a parsed kind.
pub open spec fn parsed_completion_kind(kind: SymbolKind) -> LspCompletionItemKind {
    match kind {
        SymbolKind::Function => LspCompletionItemKind::Function,
        SymbolKind::Macro => LspCompletionItemKind::Constant,
        SymbolKind::Type => LspCompletionItemKind::Struct,
        SymbolKind::EnumConstant => LspCompletionItemKind::EnumMember,
        SymbolKind::GlobalVariable => LspCompletionItemKind::Variable,
        SymbolKind::Field => LspCompletionItemKind::Field,
    }
}

pub fn lsp_completion_kind_from_parser(kind: SymbolKind) -> (r: LspCompletionItemKind)
    ensures
        r == parsed_completion_kind(kind),
{
    match kind {
        SymbolKind::Function => LspCompletionItemKind::Function,
        SymbolKind::Macro => LspCompletionItemKind::Constant,
        SymbolKind::Type => LspCompletionItemKind::Struct,
        SymbolKind::EnumConstant => LspCompletionItemKind::EnumMember,
        SymbolKind::GlobalVariable => LspCompletionItemKind::Variable,
        SymbolKind::Field => LspCompletionItemKind::Field,
    }
}

} // verus!
