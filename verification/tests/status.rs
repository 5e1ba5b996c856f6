use fossilsense::leases::IndexDbLease;
use fossilsense::progress::{DegradedCapabilities, IndexState, IndexStats, IndexStatus};

fn stats() -> IndexStats {
    IndexStats {
        total_files: 9,
        processed_files: 7,
        indexed_files: 5,
        skipped_files: 2,
        symbols: 31,
        semantic_generation: 4,
        elapsed_ms: 120,
        reach_graph_ms: 3,
        ..IndexStats::default()
    }
}

#[test]
fn indexing_statuses_report_their_run() {
    let phase = IndexStatus::indexing_phase("ws".to_string(), &stats(), "parse".to_string());
    assert_eq!(phase.state, IndexState::Indexing);
    assert_eq!(phase.phase.as_deref(), Some("parse"));
    assert_eq!(phase.message, None);
    assert_eq!((phase.processed_files, phase.total_files, phase.symbols), (7, 9, 31));

    let told = IndexStatus::indexing_with_message("ws".to_string(), &stats(), "hi".to_string());
    assert_eq!(told.phase, None);
    assert_eq!(told.message.as_deref(), Some("hi"));
    assert_eq!(told.reach_graph_ms, 3);
}

#[test]
fn ready_statuses_carry_degraded_features() {
    let ready = IndexStatus::ready("ws".to_string(), &stats());
    assert_eq!(ready.state, IndexState::Ready);
    assert!(!ready.degraded_capabilities.any());
    let degraded = DegradedCapabilities {
        include_table: true,
        project_context: true,
        ..DegradedCapabilities::default()
    };
    let status = IndexStatus::ready_with_degraded("ws".to_string(), &stats(), degraded);
    assert!(status.degraded_capabilities.any());
    assert_eq!(
        status.degraded_capabilities.labels(),
        vec!["includeTable", "projectContext"]
    );
}

#[test]
fn failed_statuses_report_nothing_but_the_message() {
    let failed = IndexStatus::failed("ws".to_string(), "disk full".to_string());
    assert_eq!(failed.state, IndexState::Failed);
    assert_eq!(failed.message.as_deref(), Some("disk full"));
    assert_eq!((failed.total_files, failed.symbols, failed.elapsed_ms), (0, 0, 0));
}

#[test]
fn no_degraded_feature_has_no_label() {
    assert!(DegradedCapabilities::default().labels().is_empty());
    let all = DegradedCapabilities {
        reach_graph: true,
        include_table: true,
        reference_file_list: true,
        project_context: true,
    };
    assert_eq!(
        all.labels(),
        vec!["reachGraph", "includeTable", "referenceFileList", "projectContext"]
    );
}

#[test]
fn leases_know_what_they_hold() {
    let plain = IndexDbLease::acquire("a/index.sqlite".to_string());
    assert_eq!(plain.path(), "a/index.sqlite");
    assert_eq!(plain.generation_directory, None);
    let held = IndexDbLease::acquire_default_generation(
        "a/index-g1.sqlite".to_string(),
        Some("a".to_string()),
    )
    .expect("generation");
    assert_eq!(held.path(), "a/index-g1.sqlite");
    assert_eq!(held.generation_directory.as_deref(), Some("a"));
    assert_eq!(
        IndexDbLease::acquire_default_generation("x.sqlite".to_string(), None).unwrap_err(),
        "default index path is not a canonical generation database: x.sqlite"
    );
}
