use fossilsense::current_file_overlay::{current_file_overlay_candidates, MAX_PROXIMITY_SCORE};
use fossilsense::facts::{
    CursorFacts, FactSource, FileDiagnostics, FileSemanticIndex, FileSymbol, Occurrence,
    RecordFact, SymbolKind, SymbolRole, TypeAlias,
};

/// The facts of a text without declarations: every identifier is an occurrence.
fn facts(text: &str) -> FileSemanticIndex {
    let mut occurrences = Vec::new();
    let bytes = text.as_bytes();
    let mut i = 0;
    while i < bytes.len() {
        if bytes[i].is_ascii_alphabetic() || bytes[i] == b'_' {
            let start = i;
            while i < bytes.len() && (bytes[i].is_ascii_alphanumeric() || bytes[i] == b'_') {
                i += 1;
            }
            occurrences.push(Occurrence { name: text[start..i].to_string(), start_byte: start });
        } else {
            i += 1;
        }
    }
    FileSemanticIndex {
        symbols: Vec::new(),
        aliases: Vec::new(),
        records: Vec::new(),
        occurrences,
        local_bindings: Vec::new(),
        diagnostics: FileDiagnostics { fallback_used: false, ast_source: FactSource::Ast },
        cursor: CursorFacts { facts: Vec::new() },
    }
}

fn symbol(text: &str, name: &str, kind: SymbolKind, role: SymbolRole) -> FileSymbol {
    FileSymbol {
        name: name.to_string(),
        kind,
        role,
        start_byte: text.find(name).unwrap(),
        signature: String::new(),
    }
}

fn cursor_from_marker(text: &str) -> (String, u32, u32) {
    let marker = "/*cursor*/";
    let cursor_byte = text.find(marker).expect("cursor marker");
    let text = text.replacen(marker, "", 1);
    let before = &text[..cursor_byte];
    let line = before.bytes().filter(|byte| *byte == b'\n').count() as u32;
    let line_start = before.rfind('\n').map_or(0, |index| index + 1);
    let character = before[line_start..]
        .chars()
        .map(|ch| ch.len_utf16() as u32)
        .sum();
    (text, line, character)
}

#[test]
fn overlay_extracts_unsaved_macros_aliases_enum_constants_functions_and_records() {
    let (text, line, character) = cursor_from_marker(
        "#define FS_MAGIC 1\n\
         typedef int FsAlias;\n\
         enum Color { FS_RED };\n\
         struct FsWidget { int id; };\n\
         int fs_do_work(void) { return 0; }\n\
         void f(void) { FS/*cursor*/ }\n",
    );
    let mut parsed = facts(&text);
    parsed.symbols = vec![
        symbol(&text, "FS_MAGIC", SymbolKind::Macro, SymbolRole::Definition),
        symbol(&text, "FS_RED", SymbolKind::EnumConstant, SymbolRole::Definition),
        symbol(&text, "fs_do_work", SymbolKind::Function, SymbolRole::Definition),
    ];
    parsed.aliases = vec![TypeAlias {
        alias: "FsAlias".to_string(),
        start_byte: text.find("FsAlias").unwrap(),
    }];
    parsed.records = vec![RecordFact {
        display_name: "FsWidget".to_string(),
        start_byte: text.find("FsWidget").unwrap(),
    }];

    let hits = current_file_overlay_candidates(&parsed, &text, line, character, "FS", 20);
    let names: Vec<_> = hits.iter().map(|hit| hit.name.as_str()).collect();

    assert!(names.contains(&"FS_MAGIC"));
    assert!(names.contains(&"FsAlias"));
    assert!(names.contains(&"FS_RED"));
    assert!(names.contains(&"FsWidget"));
    assert!(names.contains(&"fs_do_work"));
    assert!(hits.iter().filter(|hit| hit.semantic).count() >= 5);
}

#[test]
fn overlay_includes_function_declarations() {
    let (text, line, character) = cursor_from_marker(
        "int fs_do_work(void);\n\
         void f(void) { fs/*cursor*/ }\n",
    );
    let mut parsed = facts(&text);
    parsed.symbols =
        vec![symbol(&text, "fs_do_work", SymbolKind::Function, SymbolRole::Declaration)];

    let hits = current_file_overlay_candidates(&parsed, &text, line, character, "fs", 20);
    let hit = hits
        .iter()
        .find(|hit| hit.name == "fs_do_work")
        .expect("function declaration overlay candidate");

    assert_eq!(hit.kind, SymbolKind::Function);
    assert_eq!(hit.detail.as_deref(), Some("current"));
    assert!(hit.semantic);
}

#[test]
fn overlay_includes_cpp_using_aliases() {
    let (text, line, character) = cursor_from_marker(
        "using FsAlias = int;\n\
         void f(void) { Fs/*cursor*/ }\n",
    );
    let parsed = facts(&text);

    let hits = current_file_overlay_candidates(&parsed, &text, line, character, "Fs", 20);
    let hit = hits
        .iter()
        .find(|hit| hit.name == "FsAlias")
        .expect("C++ using alias overlay candidate");

    assert_eq!(hit.kind, SymbolKind::Type);
    assert_eq!(hit.detail.as_deref(), Some("current"));
    assert!(hit.semantic);
}

#[test]
fn nearby_usage_scores_distance_and_frequency_without_semantic_kind() {
    let (text, line, character) = cursor_from_marker(
        "void f(void) {\n\
             localThing();\n\
             localThing();\n\
             loc/*cursor*/\n\
         }\n",
    );
    let parsed = facts(&text);

    let hits = current_file_overlay_candidates(&parsed, &text, line, character, "loc", 20);
    let hit = hits
        .iter()
        .find(|hit| hit.name == "localThing")
        .expect("nearby word");

    assert!(hit.proximity_score > 0);
    assert!(hit.proximity_score <= 200);
    assert_eq!(hit.detail.as_deref(), Some("text"));
    assert_eq!(hit.kind, SymbolKind::GlobalVariable);
    assert!(!hit.semantic);
}

#[test]
fn raw_scanning_returns_prior_word_when_ast_occurrences_are_empty() {
    let (text, line, character) = cursor_from_marker(
        "void f(void) {\n\
             fallbackWord = 1;\n\
             fal/*cursor*/\n\
         }\n",
    );
    let mut parsed = facts(&text);
    parsed.occurrences.clear();
    parsed.symbols.clear();
    parsed.aliases.clear();
    parsed.records.clear();

    let hits = current_file_overlay_candidates(&parsed, &text, line, character, "fal", 20);

    assert!(hits.iter().any(|hit| hit.name == "fallbackWord"
        && hit.detail.as_deref() == Some("text")
        && !hit.semantic));
}

#[test]
fn short_prefix_gates_are_preserved_for_plain_substring_noise() {
    let (text, line, character) = cursor_from_marker(
        "void f(void) {\n\
             Foobar();\n\
             FooBar();\n\
             ba/*cursor*/\n\
         }\n",
    );
    let mut parsed = facts(&text);
    parsed.symbols.clear();
    parsed.aliases.clear();
    parsed.records.clear();

    let hits = current_file_overlay_candidates(&parsed, &text, line, character, "ba", 20);
    let names: Vec<_> = hits.iter().map(|hit| hit.name.as_str()).collect();

    assert!(names.contains(&"FooBar"));
    assert!(!names.contains(&"Foobar"));
    assert!(!names.contains(&"ba"));
}

#[test]
fn overlay_scores_repeated_nearby_words_exactly() {
    let (text, line, character) = cursor_from_marker("near(); near(); near(); ne/*cursor*/");
    let hits = current_file_overlay_candidates(&facts(&text), &text, line, character, "ne", 5);
    assert_eq!(hits.len(), 1);
    assert_eq!(hits[0].name, "near");
    // 120 for at most 32 bytes, and 20 for each use after the first.
    assert_eq!(hits[0].proximity_score, 160);
    assert_eq!(hits[0].source_start_byte, 16);
    assert!(hits[0].proximity_score <= MAX_PROXIMITY_SCORE);
}

#[test]
fn overlay_prefers_declarations_over_words_and_keeps_each_name_once() {
    let (text, line, character) =
        cursor_from_marker("int near_b; near_a(); near_a(); near_b = 1; nea/*cursor*/");
    let mut parsed = facts(&text);
    parsed.symbols =
        vec![symbol(&text, "near_b", SymbolKind::GlobalVariable, SymbolRole::Definition)];
    let hits = current_file_overlay_candidates(&parsed, &text, line, character, "nea", 5);
    let names: Vec<(&str, bool)> =
        hits.iter().map(|hit| (hit.name.as_str(), hit.semantic)).collect();
    assert_eq!(names, vec![("near_b", true), ("near_a", false)]);
    let one = current_file_overlay_candidates(&parsed, &text, line, character, "nea", 1);
    assert_eq!(one, hits[..1].to_vec());
}

#[test]
fn overlay_reads_raw_text_when_facts_are_lexical() {
    let (text, line, character) = cursor_from_marker("rawWord = 1; raw/*cursor*/");
    let mut parsed = facts(&text);
    parsed.occurrences =
        vec![Occurrence { name: "rawOther".to_string(), start_byte: 0 }];
    parsed.diagnostics.ast_source = FactSource::LexicalFallback;
    let hits = current_file_overlay_candidates(&parsed, &text, line, character, "raw", 5);
    let names: Vec<&str> = hits.iter().map(|hit| hit.name.as_str()).collect();
    assert_eq!(names, vec!["rawWord"]);
}

#[test]
fn overlay_limits_cut_one_list_with_declared_names_first() {
    let text = "int api_declared; api_used api_used api_other\napi";
    let mut index = facts(text);
    index.symbols.push(symbol(
        text,
        "api_declared",
        SymbolKind::Function,
        SymbolRole::Definition,
    ));
    let all = current_file_overlay_candidates(&index, text, 1, 3, "api", 10);
    let names: Vec<&str> = all.iter().map(|c| c.name.as_str()).collect();
    assert_eq!(names, vec!["api_declared", "api_used", "api_other"]);
    for limit in 0..4 {
        let some = current_file_overlay_candidates(&index, text, 1, 3, "api", limit);
        assert_eq!(some, all[..limit.min(3)].to_vec());
    }
    for c in &all {
        assert_eq!(c.match_score, 550);
        assert!(0 <= c.proximity_score && c.proximity_score <= MAX_PROXIMITY_SCORE);
        assert_eq!(c.detail.as_deref(), Some(if c.semantic { "current" } else { "text" }));
    }
    assert!(all[0].semantic && !all[1].semantic);
}
