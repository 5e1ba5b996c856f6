use fossilsense::documentation::{
    normalize_signature, rank_documentation_candidates, signatures_compatible,
    DocumentationCandidate,
};
use fossilsense::facts::{FileSymbol, SymbolKind, SymbolRole};
use fossilsense::model::{
    CandidateRange, DefinitionCandidate, ResolutionConfidence, ResolutionReason, ScopeTier,
};
use fossilsense::project_context::{ProjectContext, ProjectContextIndex, ProjectKey};

fn projects() -> ProjectContextIndex {
    let key = ProjectKey {
        workspace_root_id: "workspace".to_string(),
        project_path: "lib".to_string(),
    };
    ProjectContextIndex::new(
        "workspace".to_string(),
        "test".to_string(),
        vec![ProjectContext {
            key,
            workspace_name: "lib".to_string(),
            marker_files: vec!["lib/CMakeLists.txt".to_string()],
        }],
    )
}

fn candidate(path: &str, signature: &str, role: &str) -> DocumentationCandidate {
    DocumentationCandidate {
        candidate: DefinitionCandidate {
            name: "lookup".to_string(),
            kind: "function".to_string(),
            role: role.to_string(),
            path: path.to_string(),
            range: CandidateRange {
                start_line: 0,
                start_col: 0,
                end_line: 0,
                end_col: 6,
            },
            source: "workspace".to_string(),
            tier: ScopeTier::Reachable,
            base_match: 1_000,
            confidence: ResolutionConfidence::Reachable,
            reason: ResolutionReason::ReachableInclude,
        },
        signature: signature.to_string(),
    }
}

#[test]
fn selected_primary_is_not_replaced_by_a_similar_header() {
    let mut source = candidate("lib/ops_chain.c", "int lookup(int value)", "definition");
    source.candidate.tier = ScopeTier::Current;
    let header = candidate("lib/ops_chain.h", "int lookup(int value);", "declaration");
    let ranked = rank_documentation_candidates(
        &source,
        &[source.clone(), header.clone()],
        Some(&projects()),
    );
    assert_eq!(ranked, vec![source]);
}

#[test]
fn incompatible_overload_does_not_supply_documentation() {
    let source = candidate("lib/ops_chain.c", "int lookup(int value)", "definition");
    let header = candidate(
        "lib/ops_chain.h",
        "int lookup(const char *value);",
        "declaration",
    );
    let ranked = rank_documentation_candidates(&source, &[header], Some(&projects()));
    assert_eq!(ranked, vec![source]);
}

#[test]
fn missing_project_model_disables_header_preference() {
    let source = candidate("lib/ops_chain.c", "int lookup(int value)", "definition");
    let header = candidate("lib/ops_chain.h", "int lookup(int value);", "declaration");
    let ranked = rank_documentation_candidates(&source, &[header], None);
    assert_eq!(ranked, vec![source]);
}

#[test]
fn different_project_header_cannot_supply_documentation() {
    let source = candidate("lib/ops_chain.c", "int lookup(int value)", "definition");
    let header = candidate("other/ops_chain.h", "int lookup(int value);", "declaration");
    let key = ProjectKey {
        workspace_root_id: "workspace".to_string(),
        project_path: "other".to_string(),
    };
    let projects = ProjectContextIndex::new(
        "workspace".to_string(),
        "test".to_string(),
        vec![
            projects().projects()[0].clone(),
            ProjectContext {
                key,
                workspace_name: "other".to_string(),
                marker_files: vec!["other/CMakeLists.txt".to_string()],
            },
        ],
    );
    let ranked = rank_documentation_candidates(&source, &[header], Some(&projects));
    assert_eq!(ranked, vec![source]);
}

#[test]
fn parser_signatures_for_header_and_source_pair_are_compatible() {
    // The signatures that a parser stores for the two declarations.
    let header = FileSymbol {
        name: "pair_lookup".to_string(),
        kind: SymbolKind::Function,
        role: SymbolRole::Declaration,
        start_byte: 12,
        signature: "int pair_lookup(int value);".to_string(),
    };
    let source = FileSymbol {
        name: "pair_lookup".to_string(),
        kind: SymbolKind::Function,
        role: SymbolRole::Definition,
        start_byte: 0,
        signature: "int pair_lookup(int value) { return value; }".to_string(),
    };
    assert!(
        signatures_compatible(&header.signature, &source.signature),
        "header={:?}, source={:?}",
        header.signature,
        source.signature
    );
}

#[test]
fn normal_form_spaces_punctuation_in_one_way() {
    assert_eq!(
        normalize_signature("  int  pick ( int  *a ,const char * b ) ; "),
        "int pick(int*a, const char* b)"
    );
    assert_eq!(normalize_signature("int pick(void) { return 1; }"), "int pick(void)");
    assert!(!signatures_compatible("int a(int x)", "int a(long x)"));
}
