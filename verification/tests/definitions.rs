use fossilsense::definitions::{
    rank_definitions, rank_definitions_into_candidates,
    rank_definitions_into_candidates_with_scope, SymbolRecord,
};
use fossilsense::model::{ResolutionConfidence, ResolutionReason, ScopeTier};
use fossilsense::reach::{OpenReason, PathSet, ReachScope};
use fossilsense::resolver::confidence_reason_for;

fn record(name: &str, kind: &str, role: &str, path: &str, line: u32) -> SymbolRecord {
    record_src(name, kind, role, path, line, "workspace")
}

fn record_src(
    name: &str,
    kind: &str,
    role: &str,
    path: &str,
    line: u32,
    source: &str,
) -> SymbolRecord {
    SymbolRecord {
        id: 0,
        name: name.to_string(),
        kind: kind.to_string(),
        role: role.to_string(),
        path: path.to_string(),
        start_line: line,
        start_col: 0,
        end_line: line,
        end_col: 0,
        signature: String::new(),
        guard: None,
        source: source.to_string(),
        directly_included: false,
    }
}

#[test]
fn definition_outranks_declaration() {
    // No reach graph: both candidates are Global tier, so the tie breaks
    // by base_match — definition (1000) > declaration (0).
    let candidates = vec![
        record("foo", "function", "declaration", "include/foo.h", 1),
        record("foo", "function", "definition", "src/foo.c", 10),
    ];
    let ranked = rank_definitions(candidates, "src/main.c", None);
    assert_eq!(ranked[0].role, "definition");
    assert_eq!(ranked[0].path, "src/foo.c");
}

#[test]
fn closer_path_wins_among_definitions() {
    // No reach graph: both Global tier, both definitions (equal base_match);
    // locality (shared path prefix) breaks the tie.
    let candidates = vec![
        record("foo", "function", "definition", "other/foo.c", 1),
        record("foo", "function", "definition", "src/sub/foo.c", 1),
    ];
    let ranked = rank_definitions(candidates, "src/sub/main.c", None);
    assert_eq!(ranked[0].path, "src/sub/foo.c");
}

#[test]
fn external_first_layer_outranks_global_workspace() {
    // R2 behavior change: a first-layer external (directly #included)
    // outranks a global workspace candidate of the same name, because
    // External > Global and a direct include is reachability evidence.
    // (Renamed from `workspace_definition_outranks_external`; the old
    // "workspace always beats external" rule is reversed by strict-tier
    // ordering.)
    let candidates = vec![
        record_ext(
            "size_t",
            "type",
            "definition",
            "C:/mingw/include/stddef.h",
            10,
            true, // directly_included → first-layer external
        ),
        record("size_t", "type", "declaration", "src/types.h", 1),
    ];
    let ranked = rank_definitions(candidates, "src/main.c", None);
    assert_eq!(
        ranked[0].source, "external",
        "first-layer external outranks global workspace"
    );
    assert_eq!(ranked[1].source, "workspace");
}

#[test]
fn reachable_declaration_outranks_unreachable_definition() {
    // R2 behavior change: with a reach graph, tier dominates the
    // definition>declaration preference (now an intra-tier base_match
    // tiebreak). A reachable declaration (Reachable) outranks an
    // unreachable definition (Global) even though the definition has
    // higher base_match.
    let candidates = vec![
        record("foo", "function", "definition", "other/c.h", 1),
        record("foo", "function", "declaration", "inc/b.h", 1),
    ];
    let reach = reachable_set(&["src/main.c", "inc/b.h"]);
    let ranked = rank_definitions(candidates, "src/main.c", Some(&reach));
    assert_eq!(
        ranked[0].path, "inc/b.h",
        "reachable declaration outranks unreachable definition"
    );
    assert_eq!(ranked[0].role, "declaration");
    assert_eq!(ranked[1].path, "other/c.h");
    assert_eq!(ranked[1].role, "definition");
}

#[test]
fn external_only_definition_is_still_returned() {
    let candidates = vec![record_ext(
        "HANDLE",
        "type",
        "definition",
        "C:/mingw/include/windows.h",
        5,
        false,
    )];
    let ranked = rank_definitions(candidates, "src/main.c", None);
    assert_eq!(ranked.len(), 1);
    assert_eq!(ranked[0].name, "HANDLE");
}

/// External record with an explicit `directly_included` flag.
fn record_ext(
    name: &str,
    kind: &str,
    role: &str,
    path: &str,
    line: u32,
    directly_included: bool,
) -> SymbolRecord {
    let mut rec = record_src(name, kind, role, path, line, "external");
    rec.directly_included = directly_included;
    rec
}

fn reachable_set(paths: &[&str]) -> PathSet {
    PathSet::from_paths(paths.iter().map(|s| s.to_string()).collect())
}

#[test]
fn goto_with_scope_orders_current_reachable_external_unknown() {
    let mut external = record_ext("foo", "function", "definition", "C:/sdk/foo.h", 3, true);
    external.directly_included = true;
    let candidates = vec![
        record("foo", "function", "definition", "other/foo.c", 20),
        external,
        record("foo", "function", "definition", "inc/foo.h", 7),
        record("foo", "function", "definition", "src/main.c", 30),
    ];
    let scope = ReachScope {
        files: reachable_set(&["src/main.c", "inc/foo.h"]),
        heuristic_files: PathSet::new(),
        open: true,
        reason: Some(OpenReason::AmbiguousInclude),
    };
    let ranked =
        rank_definitions_into_candidates_with_scope(candidates, "src/main.c", Some(&scope));
    let paths: Vec<&str> = ranked
        .iter()
        .map(|candidate| candidate.path.as_str())
        .collect();
    assert_eq!(
        paths,
        vec!["src/main.c", "inc/foo.h", "C:/sdk/foo.h", "other/foo.c"]
    );
    assert_eq!(ranked[3].tier, ScopeTier::Unknown);
    assert_eq!(ranked[3].confidence, ResolutionConfidence::Ambiguous);
}

#[test]
fn goto_open_unresolved_scope_uses_fallback_for_unknown_candidates() {
    let candidates = vec![record("foo", "function", "definition", "other/foo.c", 20)];
    let scope = ReachScope {
        files: PathSet::new(),
        heuristic_files: PathSet::new(),
        open: true,
        reason: Some(OpenReason::UnresolvedInclude),
    };
    let ranked =
        rank_definitions_into_candidates_with_scope(candidates, "src/main.c", Some(&scope));
    assert_eq!(ranked[0].tier, ScopeTier::Unknown);
    assert_eq!(ranked[0].confidence, ResolutionConfidence::Fallback);
    assert_eq!(ranked[0].reason, ResolutionReason::GlobalFallback);
}

#[test]
fn confidence_reason_for_current_file_exact() {
    assert_eq!(
        confidence_reason_for(ScopeTier::Current, true, None),
        (ResolutionConfidence::Exact, ResolutionReason::CurrentFile)
    );
    // Non-exact name in current file drops to Reachable confidence, same reason.
    assert_eq!(
        confidence_reason_for(ScopeTier::Current, false, None),
        (
            ResolutionConfidence::Reachable,
            ResolutionReason::CurrentFile
        )
    );
}

#[test]
fn confidence_reason_for_reachable_external_and_fallback() {
    assert_eq!(
        confidence_reason_for(ScopeTier::Reachable, true, None),
        (
            ResolutionConfidence::Reachable,
            ResolutionReason::ReachableInclude
        )
    );
    assert_eq!(
        confidence_reason_for(ScopeTier::External, true, None),
        (
            ResolutionConfidence::Heuristic,
            ResolutionReason::ExternalFirstLayer
        )
    );
    assert_eq!(
        confidence_reason_for(ScopeTier::Unknown, true, None),
        (
            ResolutionConfidence::Fallback,
            ResolutionReason::GlobalFallback
        )
    );
    assert_eq!(
        confidence_reason_for(ScopeTier::Global, true, None),
        (
            ResolutionConfidence::Fallback,
            ResolutionReason::GlobalFallback
        )
    );
}

#[test]
fn goto_candidates_label_current_file_exact() {
    // A definition in the current file labels CurrentFile / Exact.
    let candidates = vec![record("foo", "function", "definition", "src/main.c", 10)];
    let labeled = rank_definitions_into_candidates(candidates, "src/main.c", None);
    assert_eq!(labeled.len(), 1);
    assert_eq!(labeled[0].reason, ResolutionReason::CurrentFile);
    assert_eq!(labeled[0].confidence, ResolutionConfidence::Exact);
}

#[test]
fn goto_candidates_label_reachable_include() {
    // A workspace definition in a reachable (determinate) file labels
    // ReachableInclude / Reachable.
    let candidates = vec![record("foo", "function", "definition", "inc/b.h", 1)];
    let reach = reachable_set(&["src/main.c", "inc/b.h"]);
    let labeled = rank_definitions_into_candidates(candidates, "src/main.c", Some(&reach));
    assert_eq!(labeled[0].reason, ResolutionReason::ReachableInclude);
    assert_eq!(labeled[0].confidence, ResolutionConfidence::Reachable);
}

#[test]
fn goto_candidates_label_external_first_layer() {
    // A definition in a directly-included external header labels
    // ExternalFirstLayer / Heuristic, even with no reach graph.
    let candidates = vec![record_ext(
        "size_t",
        "type",
        "definition",
        "C:/mingw/include/stddef.h",
        1,
        true,
    )];
    let labeled = rank_definitions_into_candidates(candidates, "src/main.c", None);
    assert_eq!(labeled[0].reason, ResolutionReason::ExternalFirstLayer);
    assert_eq!(labeled[0].confidence, ResolutionConfidence::Heuristic);
}

#[test]
fn goto_candidates_label_global_fallback() {
    // A workspace definition with no reach evidence labels GlobalFallback.
    let candidates = vec![record("foo", "function", "definition", "other/foo.c", 1)];
    let labeled = rank_definitions_into_candidates(candidates, "src/main.c", None);
    assert_eq!(labeled[0].reason, ResolutionReason::GlobalFallback);
    assert_eq!(labeled[0].confidence, ResolutionConfidence::Fallback);
    // Exact is never emitted for a GlobalFallback candidate.
    assert_ne!(labeled[0].confidence, ResolutionConfidence::Exact);
}

#[test]
fn goto_candidates_preserve_rank_definitions_ordering() {
    // The candidate ordering must be identical to the SymbolRecord
    // ranking — both go through the same resolver comparator.
    let candidates = vec![
        record_src(
            "size_t",
            "type",
            "definition",
            "C:/mingw/include/stddef.h",
            10,
            "external",
        ),
        record("size_t", "type", "declaration", "src/types.h", 1),
        record("size_t", "type", "definition", "src/types.c", 5),
    ];
    let ranked_paths: Vec<String> = rank_definitions(candidates.clone(), "src/main.c", None)
        .into_iter()
        .map(|r| r.path)
        .collect();
    let labeled_paths: Vec<String> =
        rank_definitions_into_candidates(candidates, "src/main.c", None)
            .into_iter()
            .map(|c| c.path)
            .collect();
    assert_eq!(ranked_paths, labeled_paths);
}

#[test]
fn goto_candidates_carry_indexed_facts() {
    // The candidate carries the indexed facts (name/kind/role/path/range/
    // source) alongside the tier/base_match/labels.
    let candidates = vec![record("foo", "function", "definition", "src/foo.c", 10)];
    let labeled = rank_definitions_into_candidates(candidates, "src/main.c", None);
    let c = &labeled[0];
    assert_eq!(c.name, "foo");
    assert_eq!(c.kind, "function");
    assert_eq!(c.role, "definition");
    assert_eq!(c.path, "src/foo.c");
    assert_eq!(c.source, "workspace");
    assert_eq!(c.range.start_line, 10);
    assert_eq!(c.tier, ScopeTier::Global);
    assert_eq!(
        c.base_match, 1100,
        "definition (1000) + function in .c (100)"
    );
}
