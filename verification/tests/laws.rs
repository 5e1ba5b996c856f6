use fossilsense::facts::{SemanticFamily, SymbolKind, SymbolRole};
use fossilsense::memory::{NameSegmentMemoryBreakdown, SegmentRoom};
use fossilsense::model::ScopeTier;
use fossilsense::name_recall::{
    CompletionQueryCancellation, CompletionRecallMetrics, CompletionRecallQuery,
    CompletionRecallQuotas, NotCancellable,
};
use fossilsense::name_search::CompletionScope;
use fossilsense::name_segment::NameEntry;
use fossilsense::name_table::NameTable;
use fossilsense::name_tokens::{
    fuzzy_query_tokens, fuzzy_tokens_for_name, three_byte_prefix_bounds, three_byte_prefix_token,
};
use fossilsense::path_map::PathMap;
use fossilsense::project_context::ProjectKey;
use fossilsense::reach::{PathSet, ReachScope};
use fossilsense::recall_index::{
    add_indices, completion_recall_candidate_cap, leading_chars, KeyLists, NameRecallIndex,
};
use fossilsense::resolver::{locality, pack_score};
use fossilsense::segment_index::{IndexedSegment, MULTI_PATH_ID, UNSEEN_PATH_ID};
use fossilsense::signatures::{call_context_at, signature_parts};
use fossilsense::text::{byte_offset_at, completion_prefix_at, word_at};

fn row(id: i64, name: &str, path: &str, kind: &str) -> (i64, String, bool, String, String, bool) {
    (id, name.to_string(), false, path.to_string(), kind.to_string(), false)
}

fn scope(current: &str, reachable: &[&str], open: bool) -> CompletionScope {
    CompletionScope {
        current_path: Some(current.to_string()),
        direct_external_files: PathSet::new(),
        reach: ReachScope {
            files: PathSet::from_paths(reachable.iter().map(|s| s.to_string()).collect()),
            heuristic_files: PathSet::new(),
            open,
            reason: None,
        },
    }
}

#[test]
fn match_qualities_have_exact_scores() {
    let table = NameTable::build(vec![(1, "word_needle_x".to_string(), false)]);
    let quality = |query: &str| table.search_ranked(query, 1).first().map(|hit| hit.base_match);
    assert_eq!(quality("word_needle_x"), Some(1000));
    assert_eq!(quality("word"), Some(800));
    assert_eq!(quality("needle"), Some(650));
    assert_eq!(quality("eedle"), Some(500));
    assert_eq!(quality("wnx"), Some(400));
    assert_eq!(quality("wrx"), Some(200));
    assert_eq!(quality("xw_"), None);
}

#[test]
fn tier_wins_over_quality_and_quality_over_nearness() {
    let table = NameTable::build_with_paths(vec![
        row(1, "api", "far/a.c", "function"),
        row(2, "api_reachable", "inc/b.h", "function"),
        row(3, "my_api", "src/near.c", "function"),
    ]);
    let sc = scope("src/main.c", &["inc/b.h"], false);
    let hits = table.search_ranked_scoped("api", 10, Some(&sc));
    let order: Vec<(i64, ScopeTier)> = hits.iter().map(|hit| (hit.id, hit.tier)).collect();
    assert_eq!(
        order,
        vec![(2, ScopeTier::Reachable), (1, ScopeTier::Global), (3, ScopeTier::Global)]
    );
    assert_eq!(hits[0].score, 30_000 + 800);
    assert_eq!(pack_score(ScopeTier::Reachable, 800, 0), 30_800);
    assert_eq!(locality("src/near.c", Some("src/main.c")), 1);
}

#[test]
fn scopes_reorder_but_keep_every_hit() {
    let table = NameTable::build_with_paths(vec![
        row(1, "item_a", "a.c", "function"),
        row(2, "item_b", "b.c", "function"),
        row(3, "item_c", "c.c", "function"),
    ]);
    let mut plain: Vec<i64> =
        table.search_ranked_scoped("item", 10, None).iter().map(|hit| hit.id).collect();
    let sc = scope("c.c", &["b.c"], true);
    let scoped: Vec<i64> =
        table.search_ranked_scoped("item", 10, Some(&sc)).iter().map(|hit| hit.id).collect();
    assert_eq!(scoped, vec![3, 2, 1]);
    plain.reverse();
    assert_eq!(scoped, plain);
}

#[test]
fn channels_keep_their_share_of_the_total() {
    let mut rows = vec![row(1, "api_far_but_reachable", "inc/r.h", "function")];
    for i in 0..20 {
        rows.push(row(100 + i, &format!("api{i:02}"), "other/g.c", "function"));
    }
    let table = NameTable::build_with_paths(rows);
    let sc = scope("src/main.c", &["inc/r.h"], false);
    let quotas = CompletionRecallQuotas {
        total_indexed: 4,
        reachable: 1,
        external: 1,
        unknown: 1,
        global: 1,
        same_project: 0,
    };
    let (hits, pool, metrics) =
        table.search_completion_recall_pooled("api", quotas, Some(&sc), None);
    assert_eq!(hits.len(), 4);
    assert_eq!(pool.len(), 21);
    assert_eq!((metrics.reachable, metrics.global), (1, 3));
    assert_eq!(hits[0].id, 1);
}

#[test]
fn default_quotas_follow_the_limit() {
    let q = CompletionRecallQuotas::default_for_completion_limit(10);
    assert_eq!(
        (q.total_indexed, q.reachable, q.external, q.unknown, q.global, q.same_project),
        (30, 10, 5, 5, 10, 0)
    );
}

#[test]
fn metrics_add_up() {
    let mut a = CompletionRecallMetrics { reachable: 2, pool_total: 5, ..Default::default() };
    a.merge_from(CompletionRecallMetrics {
        reachable: 3,
        truncated: true,
        ..Default::default()
    });
    assert_eq!((a.reachable, a.pool_total, a.truncated, a.cancelled), (5, 5, true, false));
}

#[test]
fn coloring_counts_only_what_is_in_scope() {
    let table = NameTable::build_with_paths(vec![
        row(1, "FLAG", "inc/a.h", "macro"),
        row(2, "FLAG", "other/b.h", "macro"),
        row(3, "FLAG", "inc/a.h", "type"),
        row(4, "run", "inc/a.h", "function"),
    ]);
    let everywhere = table.colorable_kind_counts(&["FLAG", "run", "none"], None);
    let flag = everywhere.get("FLAG").expect("counted");
    assert_eq!((flag.macros, flag.types, flag.enum_constants), (2, 1, 0));
    assert!(everywhere.get("run").is_none());
    assert!(everywhere.get("none").is_none());

    let sc = scope("src/main.c", &["inc/a.h"], true);
    let scoped = table.colorable_kind_counts(&["FLAG"], Some(&sc));
    let flag = scoped.get("FLAG").expect("counted");
    assert_eq!((flag.macros, flag.types), (1, 1));
    let go = table.colorable_kind_counts_for_family(&["FLAG"], None, SemanticFamily::Go);
    assert!(go.get("FLAG").is_none());
}

#[test]
fn inclusion_evidence_can_be_overridden() {
    let table = NameTable::build_with_paths(vec![(
        1,
        "sys_call".to_string(),
        true,
        "C:/sys.h".to_string(),
        "function".to_string(),
        false,
    )]);
    assert_eq!(table.search_ranked("sys_call", 1)[0].tier, ScopeTier::Global);
    let mut direct: PathMap<bool> = PathMap::new();
    direct.set("C:/sys.h", true);
    let updated = table.with_direct_include_overrides(&direct);
    assert_eq!(updated.search_ranked("sys_call", 1)[0].tier, ScopeTier::External);
    assert_eq!(updated.compacted().search_ranked("sys_call", 1)[0].tier, ScopeTier::External);
}

#[test]
fn segments_are_indexed_by_head_token_path_and_spelling() {
    let table = NameTable::build_with_paths(vec![
        row(1, "beta_long_name", "src/b.c", "function"),
        row(2, "Beta", "src/a.c", "function"),
        row(3, "alpha", "src/a.c", "function"),
        row(4, "alpha", "src/b.c", "function"),
    ]);
    let part = &table.base;
    let index = &part.index.c_family;
    assert_eq!(index.sorted, vec![2, 3, 1, 0]);
    assert_eq!(index.heads.posting(u32::from(b'b')).to_vec(), vec![1, 0]);
    assert_eq!(index.heads.posting(u32::from(b'z')).len(), 0);
    let path_a = part.names.paths.find("src/a.c").expect("path") as u32;
    assert_eq!(index.paths.posting(path_a).to_vec(), vec![2, 1]);
    let alpha = part.names.names.find("alpha").expect("name");
    let beta = part.names.names.find("Beta").expect("name");
    assert_eq!(part.index.sole_path_by_name[alpha], MULTI_PATH_ID);
    assert_eq!(part.index.sole_path_by_name[beta], path_a);
    assert_ne!(part.index.sole_path_by_name[beta], UNSEEN_PATH_ID);
    let token = fuzzy_query_tokens(b"lph").0[0];
    assert_eq!(index.fuzzy.posting(token).to_vec(), vec![alpha as u32]);
    assert_eq!(index.prefix_paths.paths_for_prefix(b"be").len(), 2);
    assert_eq!(index.prefix_paths.paths_for_prefix(b"").len(), 0);
    assert_eq!(part.index.go_family.sorted.len(), 0);
}

#[test]
fn tokens_have_exact_values() {
    assert_eq!(three_byte_prefix_token(b"abc"), Some(0x61_62_63));
    assert_eq!(three_byte_prefix_token(b"a"), Some(0x61_00_00));
    assert_eq!(three_byte_prefix_token(b""), None);
    assert_eq!(three_byte_prefix_bounds(b"ab"), Some((0x61_62_00, 0x61_63_00)));
    assert_eq!(fuzzy_tokens_for_name("abc"), vec![0x63_62_61]);
    assert_eq!(
        fuzzy_tokens_for_name("a_b_c"),
        vec![0x5F_62_5F, 0x62_5F_61, 0x63_5F_62, 0x01_63_62_61]
    );
}

#[test]
fn memory_estimates_add_up_and_saturate() {
    let mut a = NameSegmentMemoryBreakdown {
        declaration_entry_bytes: 10,
        original_name_bytes: 5,
        ..Default::default()
    };
    assert_eq!(a.bytes(), 15);
    a.add_assign(NameSegmentMemoryBreakdown {
        original_name_bytes: usize::MAX,
        fixed_overhead_bytes: 1,
        ..Default::default()
    });
    assert_eq!(a.original_name_bytes, usize::MAX);
    assert_eq!(a.declaration_entry_bytes, 10);
    assert_eq!(a.bytes(), usize::MAX);
}

#[test]
fn memory_breakdown_covers_what_a_segment_holds() {
    let table = NameTable::build_with_paths(vec![
        row(1, "Alpha", "src/a.c", "function"),
        row(2, "beta", "src/b.c", "function"),
    ]);
    let room: SegmentRoom = table.base.measure();
    assert!(room.entries >= 2);
    assert_eq!((room.names.text, room.lower_text, room.paths.text), (9, 9, 14));
    assert!(room.names.records >= 2 && room.names.buckets >= 2 && room.names.filed >= 2);
    let breakdown = table.base.memory_breakdown();
    assert_eq!(breakdown.original_name_bytes, 9);
    assert_eq!(breakdown.shared_name_bytes, 0);
    assert_eq!(
        breakdown.sorting_index_bytes,
        std::mem::size_of::<usize>() * (room.c_family.sorted + room.go_family.sorted)
    );
    assert_eq!(breakdown.fixed_overhead_bytes, std::mem::size_of::<IndexedSegment>());
    // The table itself, its reach, and two counters each for base and reach.
    let beside = std::mem::size_of::<NameTable>()
        + std::mem::size_of::<ReachScope>()
        + 4 * std::mem::size_of::<usize>();
    assert!(table.accounted_bytes() >= breakdown.bytes() + beside);
    assert!(table.accounted_bytes() < 1 << 20);
    assert_eq!(room.breakdown().bytes(), table.base.accounted_bytes());
}

#[test]
fn calls_and_prefixes_ignore_what_follows_the_cursor() {
    let a = call_context_at("outer(one, inner(two", 0, 20);
    let b = call_context_at("outer(one, inner(two), three); more(", 0, 20);
    assert_eq!(a, b);
    assert_eq!(a.expect("call").name, "inner");
    assert_eq!(completion_prefix_at("abcdef", 3), completion_prefix_at("abc", 3));
}

#[test]
fn parameter_spans_are_trimmed_and_apart() {
    let parts = signature_parts("int f( int  a , char (*g)(int, int)  )");
    let spans: Vec<(u32, u32)> =
        parts.parameters.iter().map(|span| (span.start, span.end)).collect();
    assert_eq!(spans, vec![(7, 13), (16, 35)]);
    assert_eq!(&parts.label[16..35], "char (*g)(int, int)");
}

fn entry(id: i64, name: &str, path: &str, project: Option<ProjectKey>) -> NameEntry {
    NameEntry {
        id,
        name: name.to_string(),
        external: false,
        directly_included: false,
        path: path.to_string(),
        kind: SymbolKind::Function,
        role: SymbolRole::Definition,
        semantic_family: SemanticFamily::CFamily,
        project_key: project,
    }
}

#[test]
fn recall_keys_find_names_by_boundary_substring_and_subsequence() {
    let key =
        ProjectKey { workspace_root_id: "root".to_string(), project_path: "app".to_string() };
    let entries = vec![
        entry(1, "noise_fs_symbol", "a.c", None),
        entry(2, "fsOpen", "b.c", Some(key.clone())),
        entry(3, "zz", "b.c", Some(key.clone())),
    ];
    let index = NameRecallIndex::build(&entries);
    let under = |lists: &KeyLists, text: &str| lists.get(text).cloned().unwrap_or_default();
    assert_eq!(under(&index.boundary_prefix, "fs"), vec![0, 1]);
    assert_eq!(under(&index.boundary_prefix, "o"), vec![1]);
    assert_eq!(under(&index.boundary_prefix, "oi"), Vec::<usize>::new());
    assert_eq!(under(&index.substring3, "_fs"), vec![0]);
    assert_eq!(under(&index.subsequence3, "nfs"), vec![0]);
    // The longer name has its keys up to the limit, none of which start so late.
    assert_eq!(under(&index.subsequence3, "fso"), vec![1]);
    assert_eq!(under(&index.subsequence3, "zzz"), Vec::<usize>::new());
    assert_eq!(under(&index.by_path, "b.c"), vec![1, 2]);
    assert_eq!(index.projects, vec![key.clone()]);
    assert_eq!(index.by_project, vec![vec![1, 2]]);

    let mut out = vec![1];
    index.add_scope_seed_indices(&entries, b"fs", Some(&scope("a.c", &["b.c"], false)), 8, &mut out);
    assert_eq!(out, vec![1, 0]);
    let mut own = Vec::new();
    index.add_project_seed_indices(&entries, b"z", Some(&key), 1, &mut own);
    assert_eq!(own, vec![2]);
}

#[test]
fn subsequence_keys_are_bounded() {
    let long = "abcdefghijklmnopqrstuvwxyz0123456789";
    let index = NameRecallIndex::build(&[entry(1, long, "a.c", None)]);
    assert_eq!(index.subsequence3.lists.len(), 256);
    assert!(index.subsequence3.get("abc").is_some());
    assert!(index.subsequence3.get("yz0").is_none());
}

#[test]
fn indices_are_added_once_and_up_to_a_cap() {
    let mut out = vec![3];
    add_indices(&[1, 3, 2, 4], Some(2), &mut out);
    assert_eq!(out, vec![3, 1, 2]);
    add_indices(&[4, 4, 5], None, &mut out);
    assert_eq!(out, vec![3, 1, 2, 4, 5]);
    assert_eq!(leading_chars(&['a', 'b'], 2), Some(vec!['a', 'b']));
    assert_eq!(leading_chars(&['a'], 2), None);
    let quotas = CompletionRecallQuotas::default_for_completion_limit(10);
    assert_eq!(completion_recall_candidate_cap(quotas), 512);
    let wide = CompletionRecallQuotas::default_for_completion_limit(100);
    assert_eq!(completion_recall_candidate_cap(wide), 4_800);
}

#[test]
fn search_without_a_scope_is_a_search_of_the_whole_table() {
    let external = (
        9,
        "my_api".to_string(),
        true,
        "sdk/my.h".to_string(),
        "function".to_string(),
        true,
    );
    let plain = vec![
        row(1, "api_b", "a.c", "function"),
        row(2, "api_a", "b.c", "function"),
        row(3, "x_api", "c.c", "function"),
    ];
    let ids = |hits: Vec<fossilsense::name_search::RankedNameHit>| -> Vec<i64> {
        hits.iter().map(|hit| hit.id).collect()
    };
    let table = NameTable::build_with_paths(plain.clone());
    assert_eq!(ids(table.search_ranked("api", 2)), vec![2, 1]);
    assert_eq!(ids(table.search_ranked_scoped("api", 2, None)), vec![2, 1]);

    // A match of a stronger tier comes first though it is no prefix.
    let mut rows = plain;
    rows.push(external);
    let table = NameTable::build_with_paths(rows);
    assert_eq!(ids(table.search_ranked("api", 2)), vec![9, 2]);
    assert_eq!(ids(table.search_ranked("api", 3)), vec![9, 2, 1]);
    assert_eq!(ids(table.search_ranked_scoped("api", 2, None)), vec![9, 2]);
}

#[test]
fn recall_in_the_last_pool_is_recall_anew() {
    let table = NameTable::build_with_paths(vec![
        row(1, "api_read", "inc/r.h", "function"),
        row(2, "api_write", "src/w.c", "function"),
        row(3, "a_p_i_r", "other/x.c", "function"),
        row(4, "zebra", "other/z.c", "function"),
    ]);
    let sc = scope("src/main.c", &["inc/r.h"], false);
    let quotas = CompletionRecallQuotas::default_for_completion_limit(10);
    let (_, pool, _) = table.search_completion_recall_pooled("api", quotas, Some(&sc), None);
    assert_eq!(pool, vec![0, 1, 2]);
    let warm = table.search_completion_recall_pooled("api_r", quotas, Some(&sc), Some(&pool));
    let cold = table.search_completion_recall_pooled("api_r", quotas, Some(&sc), None);
    assert_eq!(warm.0, cold.0);
    assert_eq!(warm.1, cold.1);
    let m = cold.2;
    assert_eq!(m.reachable + m.external + m.unknown + m.global, m.indexed_returned);
    assert_eq!(m.indexed_returned, cold.0.len());
}

fn changed_table() -> NameTable {
    NameTable::build_with_paths(vec![
        row(1, "api_old", "a.c", "function"),
        row(2, "api_kept", "b.c", "function"),
        row(3, "other", "c.c", "function"),
    ])
    .with_updated_paths(
        &PathSet::from_paths(vec!["a.c".to_string()]),
        vec![
            row(4, "api_new", "a.c", "function"),
            row(5, "api_stray", "stray.c", "function"),
        ],
    )
}

#[test]
fn blank_searches_find_every_active_name_up_to_the_limit() {
    let table = changed_table();
    assert_eq!(table.len(), 3);
    for limit in 0..6 {
        assert_eq!(table.search_ranked("", limit).len(), limit.min(3));
    }
    assert!(table.search_ranked("api_stray", 9).is_empty());
    assert!(table.search_ranked("api_old", 9).is_empty());
}

#[test]
fn compaction_keeps_every_hit() {
    let table = changed_table();
    let compact = table.compacted();
    assert_eq!(compact.delta_segment_count(), 0);
    assert!(!compact.needs_compaction());
    assert_eq!(compact.len(), table.len());
    for query in ["", "api", "a", "oth", "zzz"] {
        for limit in [0, 1, 2, 9] {
            assert_eq!(compact.search_ranked(query, limit), table.search_ranked(query, limit));
        }
    }
}

#[test]
fn a_budget_for_the_active_names_changes_nothing() {
    let table = changed_table();
    let quotas = CompletionRecallQuotas::default_for_completion_limit(10);
    let plain = table.search_completion_recall_pooled("api", quotas, None, None);
    let bounded = table.search_completion_recall_pooled_controlled(CompletionRecallQuery {
        query: "api",
        quotas,
        scope: None,
        active_project: None,
        prior_pool: None,
        semantic_family: None,
        cancellation: Some(&NotCancellable),
        candidate_budget: table.len(),
    });
    assert_eq!(bounded.0, plain.0);
    assert_eq!(bounded.1, plain.1);
    assert!(!bounded.2.truncated);
    assert!(bounded.2.entries_inspected <= table.len());
}

#[test]
fn recall_returns_the_best_of_a_search_and_every_share() {
    let table = NameTable::build_with_paths(vec![
        row(1, "api", "g1.c", "function"),
        row(2, "api_a", "g2.c", "function"),
        row(3, "api_b", "g3.c", "function"),
        row(4, "my_api_r", "inc/r.h", "function"),
    ]);
    let sc = scope("src/main.c", &["inc/r.h"], false);
    let quotas = CompletionRecallQuotas {
        total_indexed: 3,
        reachable: 1,
        external: 0,
        unknown: 0,
        global: 1,
        same_project: 0,
    };
    let all = table.search_ranked_scoped("api", table.len(), Some(&sc));
    let (hits, pool, metrics) = table.search_completion_recall_pooled("api", quotas, Some(&sc), None);
    assert_eq!(hits.iter().map(|hit| hit.id).collect::<Vec<i64>>(), vec![4, 1, 2]);
    assert!(hits.iter().all(|hit| all.contains(hit)));
    assert!(hits.windows(2).all(|pair| pair[0].score >= pair[1].score));
    assert_eq!((metrics.reachable, metrics.global), (1, 2));
    assert_eq!(metrics.indexed_returned, 3);
    assert_eq!(metrics.pool_total, pool.len());
}

#[test]
fn completion_prefixes_count_utf16_units_and_start_the_word() {
    let line = "\u{1F600} foo_bar = 1";
    // The emoji takes two units.
    assert_eq!(completion_prefix_at(line, 6).as_deref(), Some("foo"));
    assert_eq!(word_at(line, 6).as_deref(), Some("foo_bar"));
    assert_eq!(completion_prefix_at("\u{1F600} foo!", 6).as_deref(), Some("foo"));
    assert_eq!(completion_prefix_at("7up", 3), None);
}

#[test]
fn positions_of_characters_lead_back() {
    let text = "ab\n\u{1F600}c\n\nd";
    let (mut line, mut column) = (0u32, 0u32);
    for (at, ch) in text.char_indices() {
        assert_eq!(byte_offset_at(text, line, column), at);
        if ch == '\n' {
            line += 1;
            column = 0;
        } else {
            column += ch.len_utf16() as u32;
        }
    }
    assert_eq!(byte_offset_at(text, line, column), text.len());
    // Within a pair of units the character is not passed.
    assert_eq!(byte_offset_at(text, 1, 1), 3);
    assert!(text.is_char_boundary(byte_offset_at(text, 1, 99)));
}

#[test]
fn packed_scores_take_any_sum_that_fits() {
    assert_eq!(pack_score(ScopeTier::Global, i32::MAX, 0), i32::MAX);
    assert_eq!(pack_score(ScopeTier::Current, i32::MIN, 0), i32::MIN + 40_000);
}

struct CancelAt {
    asked: std::sync::atomic::AtomicUsize,
    at: usize,
}

impl CompletionQueryCancellation for CancelAt {
    fn is_cancelled(&self) -> bool {
        self.asked.fetch_add(1, std::sync::atomic::Ordering::Relaxed) + 1 >= self.at
    }
}

#[test]
fn cancelled_recalls_stop_within_a_block_of_work() {
    let rows = (0..2_000).map(|i| row(i, &format!("api_{i:04}"), "a.c", "function")).collect();
    let table = NameTable::build_with_paths(rows);
    for (at, entries, selected) in [(1, 0, 0), (2, 256, 0), (4, 768, 0), (13, 2_000, 256)] {
        let cancellation = CancelAt { asked: std::sync::atomic::AtomicUsize::new(0), at };
        let (hits, pool, m) =
            table.search_completion_recall_pooled_controlled(CompletionRecallQuery {
                query: "api",
                quotas: CompletionRecallQuotas::default_for_completion_limit(10),
                scope: None,
                active_project: None,
                prior_pool: None,
                semantic_family: None,
                cancellation: Some(&cancellation),
                candidate_budget: 5_000,
            });
        assert!(m.cancelled && hits.is_empty() && pool.is_empty());
        assert_eq!(m.cancellation_checks, at);
        assert_eq!((m.entries_inspected, m.selection_entries_inspected), (entries, selected));
        assert!(m.entries_inspected + m.selection_entries_inspected <= 256 * (at - 1));
    }
}
