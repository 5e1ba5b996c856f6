use fossilsense::facts::SymbolKind;
use fossilsense::lsp_kinds::{
    lsp_completion_kind, lsp_completion_kind_from_parser, lsp_kind_from_parser, lsp_symbol_kind,
    LspCompletionItemKind, LspSymbolKind,
};

#[test]
fn completion_kind_mapping() {
    assert_eq!(
        lsp_completion_kind("function"),
        LspCompletionItemKind::Function
    );
    assert_eq!(
        lsp_completion_kind("macro"),
        LspCompletionItemKind::Constant
    );
    assert_eq!(lsp_completion_kind("type"), LspCompletionItemKind::Struct);
    assert_eq!(
        lsp_completion_kind("enum_constant"),
        LspCompletionItemKind::EnumMember
    );
    assert_eq!(
        lsp_completion_kind("global_variable"),
        LspCompletionItemKind::Variable
    );
    assert_eq!(lsp_completion_kind("unknown"), LspCompletionItemKind::Text);
}

#[test]
fn symbol_kind_mapping() {
    assert_eq!(lsp_symbol_kind("function"), LspSymbolKind::Function);
    assert_eq!(lsp_symbol_kind("macro"), LspSymbolKind::Constant);
    assert_eq!(lsp_symbol_kind("type"), LspSymbolKind::Struct);
    assert_eq!(lsp_symbol_kind("enum_constant"), LspSymbolKind::EnumMember);
    assert_eq!(lsp_symbol_kind("global_variable"), LspSymbolKind::Variable);
    assert_eq!(lsp_symbol_kind("unknown"), LspSymbolKind::Variable);
}

#[test]
fn parsed_kinds_map_alike() {
    assert_eq!(lsp_kind_from_parser(SymbolKind::Field), LspSymbolKind::Field);
    assert_eq!(lsp_kind_from_parser(SymbolKind::Macro), LspSymbolKind::Constant);
    assert_eq!(
        lsp_completion_kind_from_parser(SymbolKind::Field),
        LspCompletionItemKind::Field
    );
    assert_eq!(
        lsp_completion_kind_from_parser(SymbolKind::Type),
        LspCompletionItemKind::Struct
    );
}
