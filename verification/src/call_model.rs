//! Facts about callables and call sites.

use vstd::prelude::*;

verus! {

#[derive(Debug, Clone, Copy, PartialEq, Eq, Hash, Structural)]
pub struct SourcePosition {
    pub line: u32,
    pub character: u32,
}

#[derive(Debug, Clone, Copy, PartialEq, Eq, Hash, Structural)]
pub struct SourceRange {
    pub start: SourcePosition,
    pub end: SourcePosition,
    pub start_byte: usize,
    pub end_byte: usize,
}

#[derive(Debug, Clone, Copy, PartialEq, Eq, Hash, Structural)]
pub enum CallForm {
    DirectName,
    QualifiedName,
    ParenthesizedName,
    MemberDot,
    MemberArrow,
    Unsupported,
}

impl CallForm {
    pub open spec fn names_function(self) -> bool {
        self == CallForm::DirectName || self == CallForm::QualifiedName || self
            == CallForm::ParenthesizedName
    }

    /// Whether the call names a free function.
    pub fn is_name_form(self) -> (r: bool)
        ensures
            r == self.names_function(),
    {
        match self {
            CallForm::DirectName | CallForm::QualifiedName | CallForm::ParenthesizedName => true,
            _ => false,
        }
    }
}

#[derive(Debug, Clone, Copy, PartialEq, Eq, Hash, Structural)]
pub enum OwnerKindHint {
    Namespace,
    Record,
    Unknown,
}

#[derive(Debug, Clone, Copy, PartialEq, Eq, Hash, Structural)]
pub enum CallableKind {
    Function,
    Method,
    Macro,
}

#[derive(Debug, Clone, Copy, PartialEq, Eq, Hash, Structural)]
pub enum AnchorRole {
    Declaration,
    Definition,
}

impl AnchorRole {
    pub open spec fn label(self) -> Seq<char> {
        match self {
            AnchorRole::Declaration => "declaration"@,
            AnchorRole::Definition => "definition"@,
        }
    }

    pub fn as_str(self) -> (r: &'static str)
        ensures
            r@ == self.label(),
    {
        match self {
            AnchorRole::Declaration => "declaration",
            AnchorRole::Definition => "definition",
        }
    }
}

/// Where a name is visible to the linker; an internal name belongs to one
/// file.
#[derive(Debug, PartialEq, Eq, Hash)]
pub enum LinkageDomain {
    External,
    Internal(String),
    Unknown,
}

impl Clone for LinkageDomain {
    fn clone(&self) -> (r: Self)
        ensures
            r == *self,
    {
        match self {
            LinkageDomain::External => LinkageDomain::External,
            LinkageDomain::Internal(path) => LinkageDomain::Internal(path.clone()),
            LinkageDomain::Unknown => LinkageDomain::Unknown,
        }
    }
}

#[derive(Debug, Clone, Copy, PartialEq, Eq, Hash, Structural)]
pub enum SignatureFidelity {
    AstExact,
    LexicalFallback,
}

#[derive(Debug, Clone, Copy, PartialEq, Eq, Hash, Structural)]
pub enum FactProvenance {
    Ast,
    Lexical,
}

/// What is known of a callable's parameter list.
#[derive(Debug, PartialEq, Eq)]
pub struct SignatureShape {
    pub normalized: String,
    pub min_arity: Option<u32>,
    pub max_arity: Option<u32>,
    pub variadic: bool,
}

impl SignatureShape {
    /// Whether a call with `arity` arguments fits. A list without an upper
    /// bound that is not variadic (`int f()` in C) leaves it open.
    pub open spec fn spec_accepts_arity(self, arity: u32) -> Option<bool> {
        match (self.min_arity, self.max_arity) {
            (Some(min), Some(max)) => Some(min <= arity <= max),
            (Some(min), None) => if self.variadic {
                Some(min <= arity)
            } else {
                None
            },
            (None, _) => None,
        }
    }

    pub fn accepts_arity(&self, arity: u32) -> (r: Option<bool>)
        ensures
            r == self.spec_accepts_arity(arity),
    {
        match (self.min_arity, self.max_arity) {
            (Some(min), Some(max)) => Some(min <= arity && arity <= max),
            (Some(min), None) => if self.variadic {
                Some(min <= arity)
            } else {
                None
            },
            (None, _) => None,
        }
    }
}

impl Clone for SignatureShape {
    fn clone(&self) -> (r: Self)
        ensures
            r == *self,
    {
        SignatureShape {
            normalized: self.normalized.clone(),
            min_arity: self.min_arity,
            max_arity: self.max_arity,
            variadic: self.variadic,
        }
    }
}

/// One declaration or definition of a callable.
#[derive(Debug, PartialEq, Eq)]
pub struct CallableAnchor {
    pub path: String,
    pub name: String,
    pub qualified_name: String,
    pub owner: Option<String>,
    pub owner_kind: Option<OwnerKindHint>,
    pub kind: CallableKind,
    pub role: AnchorRole,
    pub linkage: LinkageDomain,
    pub signature: SignatureShape,
    pub canonical_signature: String,
    pub presentation_signature: String,
    pub signature_fidelity: SignatureFidelity,
    pub name_range: SourceRange,
    pub declaration_range: SourceRange,
    pub body_range: Option<SourceRange>,
    pub guard: Option<String>,
    pub provenance: FactProvenance,
    pub syntax_error_overlap: bool,
    pub entity_key: String,
    pub anchor_fingerprint: String,
}

pub fn clone_opt_string(s: &Option<String>) -> (r: Option<String>)
    ensures
        r == *s,
{
    match s {
        Some(t) => Some(t.clone()),
        None => None,
    }
}

impl Clone for CallableAnchor {
    fn clone(&self) -> (r: Self)
        ensures
            r == *self,
    {
        CallableAnchor {
            path: self.path.clone(),
            name: self.name.clone(),
            qualified_name: self.qualified_name.clone(),
            owner: clone_opt_string(&self.owner),
            owner_kind: self.owner_kind,
            kind: self.kind,
            role: self.role,
            linkage: self.linkage.clone(),
            signature: self.signature.clone(),
            canonical_signature: self.canonical_signature.clone(),
            presentation_signature: self.presentation_signature.clone(),
            signature_fidelity: self.signature_fidelity,
            name_range: self.name_range,
            declaration_range: self.declaration_range,
            body_range: self.body_range,
            guard: clone_opt_string(&self.guard),
            provenance: self.provenance,
            syntax_error_overlap: self.syntax_error_overlap,
            entity_key: self.entity_key.clone(),
            anchor_fingerprint: self.anchor_fingerprint.clone(),
        }
    }
}

/// One call expression.
#[derive(Debug, PartialEq, Eq)]
pub struct CallSiteFact {
    pub path: String,
    pub caller_entity_key: String,
    pub expression_range: SourceRange,
    pub callee_range: SourceRange,
    pub callee_name: Option<String>,
    pub qualified_name: Option<String>,
    pub form: CallForm,
    pub argument_count: Option<u32>,
    pub guard: Option<String>,
    pub provenance: FactProvenance,
    pub syntax_error_overlap: bool,
    pub site_fingerprint: String,
}

} // verus!
