use fossilsense::cursor_binding::{
    resolve_local_cursor, BindingReason, BindingResolution, LocalBindingRef,
};
use fossilsense::facts::{
    CursorFact, CursorFacts, CursorSyntax, FactSource, FileDiagnostics, FileSemanticIndex,
    LocalBinding, LocalBindingKind, LocalBindingNamespace, LookupDomain,
};

fn index(bindings: Vec<LocalBinding>, facts: Vec<CursorFact>) -> FileSemanticIndex {
    FileSemanticIndex {
        symbols: Vec::new(),
        aliases: Vec::new(),
        records: Vec::new(),
        occurrences: Vec::new(),
        local_bindings: bindings,
        diagnostics: FileDiagnostics { fallback_used: false, ast_source: FactSource::Ast },
        cursor: CursorFacts { facts },
    }
}

fn binding(name: &str, kind: LocalBindingKind, decl: usize, scope: (usize, usize)) -> LocalBinding {
    LocalBinding {
        name: name.to_string(),
        kind,
        namespace: LocalBindingNamespace::Ordinary,
        type_text: None,
        decl_start_byte: decl,
        function_start_byte: 0,
        function_end_byte: 100,
        scope_start_byte: scope.0,
        scope_end_byte: scope.1,
    }
}

fn resolve(
    index: &FileSemanticIndex,
    domain: LookupDomain,
    word: &str,
    byte: usize,
) -> BindingResolution<LocalBindingRef> {
    resolve_local_cursor(index, &CursorSyntax { domain }, word, byte, 3)
}

fn reference(index: usize, decl: usize, scope: (usize, usize)) -> LocalBindingRef {
    LocalBindingRef {
        document_version: 3,
        binding_index: index,
        declaration_byte: decl,
        scope_start_byte: scope.0,
        scope_end_byte: scope.1,
    }
}

#[test]
fn latest_visible_binding_is_resolved() {
    let facts = index(
        vec![
            binding("x", LocalBindingKind::Parameter, 5, (0, 100)),
            binding("x", LocalBindingKind::LocalVariable, 30, (20, 60)),
        ],
        Vec::new(),
    );
    assert_eq!(
        resolve(&facts, LookupDomain::Value, "x", 50),
        BindingResolution::Resolved(reference(1, 30, (20, 60)))
    );
    assert_eq!(
        resolve(&facts, LookupDomain::Value, "x", 80),
        BindingResolution::Resolved(reference(0, 5, (0, 100)))
    );
    // On the declared name itself.
    assert_eq!(
        resolve(&facts, LookupDomain::Value, "x", 31),
        BindingResolution::Resolved(reference(1, 30, (20, 60)))
    );
}

#[test]
fn equal_declarations_are_ambiguous() {
    let facts = index(
        vec![
            binding("x", LocalBindingKind::LocalVariable, 5, (0, 100)),
            binding("x", LocalBindingKind::LocalVariable, 5, (0, 90)),
        ],
        Vec::new(),
    );
    assert_eq!(
        resolve(&facts, LookupDomain::Value, "x", 50),
        BindingResolution::Ambiguous(vec![
            reference(0, 5, (0, 100)),
            reference(1, 5, (0, 90)),
        ])
    );
}

#[test]
fn kinds_and_namespaces_must_agree() {
    let mut tag = binding("S", LocalBindingKind::LocalType, 5, (0, 100));
    tag.namespace = LocalBindingNamespace::Tag;
    let facts = index(
        vec![tag, binding("S", LocalBindingKind::LocalVariable, 8, (0, 100))],
        Vec::new(),
    );
    assert_eq!(
        resolve(&facts, LookupDomain::Tag, "S", 50),
        BindingResolution::Resolved(reference(0, 5, (0, 100)))
    );
    assert_eq!(
        resolve(&facts, LookupDomain::Type, "S", 50),
        BindingResolution::UnresolvedWithinDomain {
            domain: LookupDomain::Type,
            reason: BindingReason::LocalKindMismatch,
        }
    );
}

#[test]
fn conditional_declarations_prove_nothing() {
    let facts = index(
        vec![
            binding("x", LocalBindingKind::LocalVariable, 5, (0, 100)),
            binding("x", LocalBindingKind::LocalVariable, 30, (0, 100)),
        ],
        vec![CursorFact { start_byte: 0, end_byte: 10, conditional: true }],
    );
    assert_eq!(
        resolve(&facts, LookupDomain::Value, "x", 50),
        BindingResolution::Unsupported { domain_hint: LookupDomain::Value }
    );
}

#[test]
fn other_domains_are_left_to_others() {
    let facts = index(
        vec![binding("x", LocalBindingKind::LocalVariable, 5, (0, 100))],
        Vec::new(),
    );
    assert_eq!(
        resolve(&facts, LookupDomain::NonCode, "x", 50),
        BindingResolution::Unsupported { domain_hint: LookupDomain::NonCode }
    );
    assert_eq!(
        resolve(&facts, LookupDomain::Member, "x", 50),
        BindingResolution::UnresolvedWithinDomain {
            domain: LookupDomain::Member,
            reason: BindingReason::DedicatedDomain,
        }
    );
    assert_eq!(
        resolve(&facts, LookupDomain::QualifiedType, "x", 50),
        BindingResolution::UnresolvedWithinDomain {
            domain: LookupDomain::QualifiedType,
            reason: BindingReason::NoLocalBinding,
        }
    );
    assert_eq!(
        resolve(&facts, LookupDomain::Value, "y", 50),
        BindingResolution::UnresolvedWithinDomain {
            domain: LookupDomain::Value,
            reason: BindingReason::NoLocalBinding,
        }
    );
}
