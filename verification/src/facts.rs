//! Declaration facts: kinds, roles and language families.

use vstd::prelude::*;

use crate::chars::same_text;

verus! {

#[derive(Debug, Clone, Copy, PartialEq, Eq, Hash, Structural)]
pub enum SymbolKind {
    Function,
    Macro,
    Type,
    EnumConstant,
    GlobalVariable,
    Field,
}

#[derive(Debug, Clone, Copy, PartialEq, Eq, Hash, Structural)]
pub enum SymbolRole {
    Declaration,
    TentativeDefinition,
    Definition,
    UnknownDeclarationOrDefinition,
}

/// Languages whose names are never candidates for one another.
#[derive(Debug, Clone, Copy, PartialEq, Eq, Hash, Structural)]
pub enum SemanticFamily {
    CFamily,
    Go,
}

#[derive(Debug, Clone, Copy, PartialEq, Eq, Hash, Structural)]
pub enum SemanticDeclarationKind {
    Function,
    Method,
    Object,
    Type,
    Alias,
    EnumConstant,
    Macro,
}

#[derive(Debug, Clone, Copy, PartialEq, Eq, Hash, Structural)]
pub enum SemanticDeclarationRole {
    Declaration,
    Definition,
    TentativeDefinition,
    Unknown,
}

pub open spec fn kind_of_declaration(kind: SemanticDeclarationKind) -> SymbolKind {
    match kind {
        SemanticDeclarationKind::Function | SemanticDeclarationKind::Method => SymbolKind::Function,
        SemanticDeclarationKind::Object => SymbolKind::GlobalVariable,
        SemanticDeclarationKind::Type | SemanticDeclarationKind::Alias => SymbolKind::Type,
        SemanticDeclarationKind::EnumConstant => SymbolKind::EnumConstant,
        SemanticDeclarationKind::Macro => SymbolKind::Macro,
    }
}

pub fn parser_kind_from_declaration_kind(kind: SemanticDeclarationKind) -> (r: SymbolKind)
    ensures
        r == kind_of_declaration(kind),
{
    match kind {
        SemanticDeclarationKind::Function | SemanticDeclarationKind::Method => SymbolKind::Function,
        SemanticDeclarationKind::Object => SymbolKind::GlobalVariable,
        SemanticDeclarationKind::Type | SemanticDeclarationKind::Alias => SymbolKind::Type,
        SemanticDeclarationKind::EnumConstant => SymbolKind::EnumConstant,
        SemanticDeclarationKind::Macro => SymbolKind::Macro,
    }
}

pub open spec fn role_of_declaration(role: SemanticDeclarationRole) -> SymbolRole {
    match role {
        SemanticDeclarationRole::Declaration => SymbolRole::Declaration,
        SemanticDeclarationRole::Definition => SymbolRole::Definition,
        SemanticDeclarationRole::TentativeDefinition => SymbolRole::TentativeDefinition,
        SemanticDeclarationRole::Unknown => SymbolRole::UnknownDeclarationOrDefinition,
    }
}

pub fn symbol_role_from_declaration_role(role: SemanticDeclarationRole) -> (r: SymbolRole)
    ensures
        r == role_of_declaration(role),
{
    match role {
        SemanticDeclarationRole::Declaration => SymbolRole::Declaration,
        SemanticDeclarationRole::Definition => SymbolRole::Definition,
        SemanticDeclarationRole::TentativeDefinition => SymbolRole::TentativeDefinition,
        SemanticDeclarationRole::Unknown => SymbolRole::UnknownDeclarationOrDefinition,
    }
}

/// The kind that an indexed kind name stands for; anything else is a
/// variable.
pub open spec fn kind_named(kind: Seq<char>) -> SymbolKind {
    if kind == "function"@ {
        SymbolKind::Function
    } else if kind == "macro"@ {
        SymbolKind::Macro
    } else if kind == "type"@ {
        SymbolKind::Type
    } else if kind == "enum_constant"@ {
        SymbolKind::EnumConstant
    } else if kind == "field"@ {
        SymbolKind::Field
    } else {
        SymbolKind::GlobalVariable
    }
}

pub fn parser_kind_from_str(kind: &str) -> (r: SymbolKind)
    ensures
        r == kind_named(kind@),
{
    if same_text(kind, "function") {
        SymbolKind::Function
    } else if same_text(kind, "macro") {
        SymbolKind::Macro
    } else if same_text(kind, "type") {
        SymbolKind::Type
    } else if same_text(kind, "enum_constant") {
        SymbolKind::EnumConstant
    } else if same_text(kind, "field") {
        SymbolKind::Field
    } else {
        SymbolKind::GlobalVariable
    }
}

/// Which of several declarations of one name is recalled first.
pub open spec fn role_priority(role: SymbolRole) -> int {
    match role {
        SymbolRole::Declaration => 4,
        SymbolRole::TentativeDefinition => 3,
        SymbolRole::Definition => 2,
        SymbolRole::UnknownDeclarationOrDefinition => 1,
    }
}

pub fn completion_role_recall_priority(role: SymbolRole) -> (r: u8)
    ensures
        r == role_priority(role),
{
    match role {
        SymbolRole::Declaration => 4,
        SymbolRole::TentativeDefinition => 3,
        SymbolRole::Definition => 2,
        SymbolRole::UnknownDeclarationOrDefinition => 1,
    }
}

// ---------------------------------------------------------------------------
// Facts of one file

/// A declaration found in a file.
#[derive(Debug, Clone, PartialEq, Eq)]
pub struct FileSymbol {
    pub name: String,
    pub kind: SymbolKind,
    pub role: SymbolRole,
    pub start_byte: usize,
    pub signature: String,
}

#[derive(Debug, Clone, PartialEq, Eq)]
pub struct TypeAlias {
    pub alias: String,
    pub start_byte: usize,
}

#[derive(Debug, Clone, PartialEq, Eq)]
pub struct RecordFact {
    pub display_name: String,
    pub start_byte: usize,
}

/// One use of a name.
#[derive(Debug, Clone, PartialEq, Eq)]
pub struct Occurrence {
    pub name: String,
    pub start_byte: usize,
}

#[derive(Debug, Clone, Copy, PartialEq, Eq, Structural)]
pub enum LocalBindingKind {
    Parameter,
    LocalVariable,
    LocalType,
}

#[derive(Debug, Clone, Copy, PartialEq, Eq, Structural)]
pub enum LocalBindingNamespace {
    Ordinary,
    Tag,
}

/// A name declared inside a function.
#[derive(Debug, Clone, PartialEq, Eq)]
pub struct LocalBinding {
    pub name: String,
    pub kind: LocalBindingKind,
    pub namespace: LocalBindingNamespace,
    pub type_text: Option<String>,
    pub decl_start_byte: usize,
    pub function_start_byte: usize,
    pub function_end_byte: usize,
    pub scope_start_byte: usize,
    pub scope_end_byte: usize,
}

#[derive(Debug, Clone, Copy, PartialEq, Eq, Structural)]
pub enum FactSource {
    Ast,
    LexicalFallback,
}

#[derive(Debug, Clone, Copy, PartialEq, Eq, Structural)]
pub struct FileDiagnostics {
    pub fallback_used: bool,
    pub ast_source: FactSource,
}

/// Which names a cursor position can refer to.
#[derive(Debug, Clone, Copy, PartialEq, Eq, Structural)]
pub enum LookupDomain {
    NonCode,
    Unsupported,
    Member,
    Label,
    QualifiedValue,
    QualifiedType,
    Tag,
    Type,
    Value,
}

#[derive(Debug, Clone, Copy, PartialEq, Eq, Structural)]
pub struct CursorSyntax {
    pub domain: LookupDomain,
}

/// What is known of a stretch of text; `conditional` text stands in a branch
/// of conditional compilation.
#[derive(Debug, Clone, Copy, PartialEq, Eq, Structural)]
pub struct CursorFact {
    pub start_byte: usize,
    pub end_byte: usize,
    pub conditional: bool,
}

#[derive(Debug, Clone, PartialEq, Eq)]
pub struct CursorFacts {
    pub facts: Vec<CursorFact>,
}

impl CursorFacts {
    pub open spec fn fact_from(self, byte: usize, i: int) -> Option<CursorFact>
        decreases self.facts@.len() - i,
    {
        if i < 0 || i >= self.facts@.len() {
            None
        } else if self.facts@[i].start_byte <= byte < self.facts@[i].end_byte {
            Some(self.facts@[i])
        } else {
            self.fact_from(byte, i + 1)
        }
    }

    /// The first fact whose stretch holds a byte.
    pub fn at(&self, byte: usize) -> (r: Option<CursorFact>)
        ensures
            r == self.fact_from(byte, 0),
    {
        let mut i: usize = 0;
        while i < self.facts.len()
            invariant
                i <= self.facts@.len(),
                self.fact_from(byte, 0) == self.fact_from(byte, i as int),
            decreases self.facts@.len() - i,
        {
            let fact = self.facts[i];
            if fact.start_byte <= byte && byte < fact.end_byte {
                return Some(fact);
            }
            i = i + 1;
        }
        None
    }
}

/// The facts of one parsed file.
#[derive(Debug, Clone, PartialEq, Eq)]
pub struct FileSemanticIndex {
    pub symbols: Vec<FileSymbol>,
    pub aliases: Vec<TypeAlias>,
    pub records: Vec<RecordFact>,
    pub occurrences: Vec<Occurrence>,
    pub local_bindings: Vec<LocalBinding>,
    pub diagnostics: FileDiagnostics,
    pub cursor: CursorFacts,
}

} // verus!
