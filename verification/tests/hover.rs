use fossilsense::definitions::SymbolRecord;
use fossilsense::hover::{
    comment_documentation_for_candidate_symbol, comment_markdown_for_hover_symbol,
    hover_markdown_for_candidate, rank_hover_candidates, HOVER_CANDIDATE_LIMIT,
};
use fossilsense::model::CandidateRange;
use fossilsense::reach::{PathSet, ReachScope};

fn symbol_record(
    name: &str,
    kind: &str,
    role: &str,
    path: &str,
    line: u32,
    signature: &str,
) -> SymbolRecord {
    SymbolRecord {
        id: 0,
        name: name.to_string(),
        kind: kind.to_string(),
        role: role.to_string(),
        path: path.to_string(),
        start_line: line,
        start_col: 0,
        end_line: line,
        end_col: 0,
        signature: signature.to_string(),
        guard: None,
        source: "workspace".to_string(),
        directly_included: false,
    }
}

#[test]
fn hover_candidates_preserve_signatures_and_scope_order() {
    let records = vec![
        symbol_record(
            "foo",
            "function",
            "definition",
            "other/foo.c",
            20,
            "int foo(float x)",
        ),
        symbol_record(
            "foo",
            "macro",
            "definition",
            "src/main.c",
            2,
            "#define foo(x) (x)",
        ),
        symbol_record(
            "foo",
            "function",
            "declaration",
            "inc/foo.h",
            7,
            "int foo(int x);",
        ),
    ];
    let reach = ReachScope {
        files: PathSet::from_paths(vec!["src/main.c".to_string(), "inc/foo.h".to_string()]),
        heuristic_files: PathSet::new(),
        open: false,
        reason: None,
    };
    let ranked = rank_hover_candidates(records, "src/main.c", Some(&reach), 4);
    assert_eq!(ranked[0].candidate.path, "src/main.c");
    assert_eq!(ranked[0].signature, "#define foo(x) (x)");
    assert_eq!(ranked[1].candidate.path, "inc/foo.h");
    assert_eq!(ranked[1].signature, "int foo(int x);");
}

#[test]
fn hover_candidates_cap_after_ranking() {
    let records = vec![
        symbol_record("foo", "function", "definition", "b.c", 0, "int foo(int b)"),
        symbol_record("foo", "function", "definition", "a.c", 0, "int foo(int a)"),
    ];
    let ranked = rank_hover_candidates(records, "main.c", None, 1);
    assert_eq!(ranked.len(), 1);
    assert_eq!(ranked[0].candidate.path, "a.c");
}

#[test]
fn doxygen_comment_renders_structured_sections() {
    let source = "/**\n * @brief Adds two values.\n * @param lhs left side\n * @param rhs right side\n * @return the sum\n */\nint add(int lhs, int rhs);\n";
    let markdown = comment_markdown_for_hover_symbol(
        source,
        "add",
        6,
        &CandidateRange {
            start_line: 6,
            start_col: 0,
            end_line: 6,
            end_col: 3,
        },
    )
    .expect("comment");
    assert!(markdown.contains("### Brief"));
    assert!(markdown.contains("Adds two values."));
    assert!(markdown.contains("### Parameters"));
    assert!(markdown.contains("- `lhs` — left side"));
    assert!(markdown.contains("- `rhs` — right side"));
    assert!(markdown.contains("### Returns"));
    assert!(markdown.contains("the sum"));
    assert!(!markdown.contains("*/"));
}

#[test]
fn ordinary_line_comments_render_as_prose() {
    let source = "// Initializes the driver.\n// Safe to call twice.\nvoid init(void);\n";
    let markdown = comment_markdown_for_hover_symbol(
        source,
        "init",
        2,
        &CandidateRange {
            start_line: 2,
            start_col: 0,
            end_line: 2,
            end_col: 4,
        },
    )
    .expect("comment");
    assert!(markdown.contains("Initializes the driver.  \nSafe to call twice."));
}

#[test]
fn trailing_comments_attach_for_common_forms() {
    for source in [
        "size_t db_size; // cache size in database\n",
        "size_t db_size; /* cache size in database */\n",
        "size_t db_size; /** cache size in database */\n",
    ] {
        let markdown = comment_markdown_for_hover_symbol(
            source,
            "db_size",
            0,
            &CandidateRange {
                start_line: 0,
                start_col: 0,
                end_line: 0,
                end_col: 7,
            },
        )
        .expect("comment");
        assert!(
            markdown.contains("cache size in database"),
            "missing prose in {markdown:?} for {source:?}"
        );
        assert!(!markdown.contains('*') || !markdown.trim_start().starts_with('*'));
    }
}

#[test]
fn messy_comment_degrades_to_readable_text() {
    let source =
        "/* ***\n * @weird custom tag is kept readable\n * warning without marker\n */\nint odd(void);\n";
    let markdown = comment_markdown_for_hover_symbol(
        source,
        "odd",
        4,
        &CandidateRange {
            start_line: 4,
            start_col: 0,
            end_line: 4,
            end_col: 3,
        },
    )
    .expect("comment");
    assert!(markdown.contains("### Weird") || markdown.contains("custom tag is kept readable"));
    assert!(markdown.contains("custom tag is kept readable"));
    assert!(markdown.contains("warning without marker"));
    assert!(!markdown.contains("/*"));
}

#[test]
fn file_header_comment_does_not_attach_to_first_symbol() {
    let source = "/*\n * Copyright 2026 Example Corp.\n * Project: boot firmware\n * License: internal use only\n */\nint first_symbol(void);\n";
    assert!(comment_markdown_for_hover_symbol(
        source,
        "first_symbol",
        5,
        &CandidateRange {
            start_line: 5,
            start_col: 0,
            end_line: 5,
            end_col: 12,
        },
    )
    .is_none());
}

#[test]
fn doxygen_file_comment_does_not_attach_to_first_symbol() {
    let source =
        "/**\n * @file driver.h\n * @brief Shared driver declarations.\n */\nint first_symbol(void);\n";
    assert!(comment_markdown_for_hover_symbol(
        source,
        "first_symbol",
        4,
        &CandidateRange {
            start_line: 4,
            start_col: 0,
            end_line: 4,
            end_col: 12,
        },
    )
    .is_none());
}

#[test]
fn blank_line_between_comment_and_symbol_blocks_attachment() {
    let source = "// Docs for previous thing\n\nint current;\n";
    assert!(comment_markdown_for_hover_symbol(
        source,
        "current",
        2,
        &CandidateRange {
            start_line: 2,
            start_col: 0,
            end_line: 2,
            end_col: 7,
        },
    )
    .is_none());
}

#[test]
fn trailing_inline_block_comment_does_not_attach_to_next_symbol() {
    let source = "int old; /* note for old */\nint current;\n";
    assert!(comment_markdown_for_hover_symbol(
        source,
        "current",
        1,
        &CandidateRange {
            start_line: 1,
            start_col: 0,
            end_line: 1,
            end_col: 7,
        },
    )
    .is_none());
}

#[test]
fn block_comment_with_internal_blank_line_still_attaches() {
    let source = "/**\n * First paragraph.\n\n * Second paragraph.\n */\nint current;\n";
    let markdown = comment_markdown_for_hover_symbol(
        source,
        "current",
        5,
        &CandidateRange {
            start_line: 5,
            start_col: 0,
            end_line: 5,
            end_col: 7,
        },
    )
    .expect("comment");
    assert!(markdown.contains("First paragraph."));
    assert!(markdown.contains("Second paragraph."));
}

#[test]
fn inline_leading_block_comment_on_symbol_line_still_attaches() {
    let source = "/** Test to see if a format is supported. */ bool test_fmt(void);\n";
    let markdown = comment_markdown_for_hover_symbol(
        source,
        "test_fmt",
        0,
        &CandidateRange {
            start_line: 0,
            start_col: 0,
            end_line: 0,
            end_col: 8,
        },
    )
    .expect("comment");
    assert!(markdown.contains("Test to see if a format is supported."));
}

#[test]
fn closing_block_comment_on_symbol_line_still_attaches() {
    let source = "/**\n * Test to see if a format is supported.\n */ bool test_fmt(void);\n";
    let markdown = comment_markdown_for_hover_symbol(
        source,
        "test_fmt",
        2,
        &CandidateRange {
            start_line: 2,
            start_col: 0,
            end_line: 2,
            end_col: 8,
        },
    )
    .expect("comment");
    assert!(markdown.contains("Test to see if a format is supported."));
}

#[test]
fn doxygen_param_direction_renders_as_parameter_list() {
    let source = "/**\n * @brief Copies bytes.\n * @param[in] src source bytes\n * @param[out] dst destination bytes\n */\nvoid copy(void *dst, const void *src);\n";
    let markdown = comment_markdown_for_hover_symbol(
        source,
        "copy",
        5,
        &CandidateRange {
            start_line: 5,
            start_col: 0,
            end_line: 5,
            end_col: 4,
        },
    )
    .expect("comment");
    assert!(markdown.contains("### Brief") || markdown.contains("Copies bytes."));
    assert!(markdown.contains("### Parameters"));
    assert!(markdown.contains("- `src` *(in)* — source bytes"));
    assert!(markdown.contains("- `dst` *(out)* — destination bytes"));
}

#[test]
fn xml_summary_and_unknown_tags_use_fallback_headings() {
    let source = "/// <summary>\n/// cache size in database\n/// </summary>\nsize_t db_size;\n";
    let markdown = comment_markdown_for_hover_symbol(
        source,
        "db_size",
        3,
        &CandidateRange {
            start_line: 3,
            start_col: 0,
            end_line: 3,
            end_col: 7,
        },
    )
    .expect("comment");
    assert!(markdown.contains("### Summary"));
    assert!(markdown.contains("cache size in database"));
}

#[test]
fn code_line_between_comment_and_symbol_blocks_attachment() {
    let source = "// Docs for old thing\nint old;\nint current;\n";
    assert!(comment_markdown_for_hover_symbol(
        source,
        "current",
        2,
        &CandidateRange {
            start_line: 2,
            start_col: 0,
            end_line: 2,
            end_col: 7,
        },
    )
    .is_none());
}

#[test]
fn hover_markdown_uses_signature_and_hides_source_ranges() {
    let ranked = rank_hover_candidates(
        vec![symbol_record(
            "foo",
            "function",
            "definition",
            "src/foo.c",
            42,
            "int foo(int x)",
        )],
        "src/main.c",
        None,
        1,
    )
    .remove(0);
    let markdown = hover_markdown_for_candidate(&ranked, Some("Does work."));
    assert!(markdown.contains("```c\n// In src/foo.c\nint foo(int x)\n```"));
    assert!(markdown.contains("Does work."));
    assert!(markdown.contains("tier: global"));
    assert!(!markdown.contains(":43"));
    assert!(!markdown.contains("start_line"));
}

#[test]
fn hover_markdown_renders_quiet_source_header_and_metadata() {
    let ranked = rank_hover_candidates(
        vec![symbol_record(
            "ff_sws_lut3d_test_fmt",
            "function",
            "definition",
            "libswscale/lut3d.c",
            12,
            "bool ff_sws_lut3d_test_fmt(enum AVPixelFormat fmt, int output)",
        )],
        "libswscale/lut3d.c",
        None,
        1,
    )
    .remove(0);

    let markdown = hover_markdown_for_candidate(&ranked, None);

    assert!(markdown.contains(
        "```c\n// In libswscale/lut3d.c\nbool ff_sws_lut3d_test_fmt(enum AVPixelFormat fmt, int output)\n```"
    ));
    assert!(markdown.contains(
        "<small><span style=\"color: var(--vscode-descriptionForeground);\"><em>tier: current | confidence: exact | reason: current_file</em></span></small>"
    ));
    assert!(!markdown.contains("FossilSense candidate"));
    assert!(!markdown.contains("function definition in"));
}

#[test]
fn hover_markdown_splits_signature_comment_and_omits_header_guard_wrapper() {
    let mut ranked = rank_hover_candidates(
        vec![symbol_record(
            "ff_sws_lut3d_test_fmt",
            "function",
            "declaration",
            "libswscale/lut3d.h",
            5,
            "/** * Test to see if a given format is supported by the 3DLUT input/output code. */ bool ff_sws_lut3d_test_fmt(enum AVPixelFormat fmt, int output);",
        )],
        "libswscale/lut3d.c",
        None,
        1,
    )
    .remove(0);
    ranked.guard = Some("#ifndef SWSCALE_LUT3D_H".to_string());

    let markdown = hover_markdown_for_candidate(&ranked, None);

    assert!(markdown.contains(
        "Test to see if a given format is supported by the 3DLUT input/output code."
    ));
    assert!(markdown.contains(
        "```c\n// In libswscale/lut3d.h\nbool ff_sws_lut3d_test_fmt(enum AVPixelFormat fmt, int output);\n```"
    ));
    assert!(!markdown.contains("#ifndef SWSCALE_LUT3D_H"));
    assert!(!markdown.contains("#endif // ^^ SWSCALE_LUT3D_H ^^"));
    assert!(!markdown.contains("/**"));
    assert!(!markdown.contains("*/ bool"));
    assert!(!markdown.contains("guard:"));
}

#[test]
fn hover_markdown_keeps_non_header_guard_wrapper() {
    let mut ranked = rank_hover_candidates(
        vec![symbol_record(
            "platform_init",
            "function",
            "declaration",
            "include/platform.h",
            8,
            "void platform_init(void);",
        )],
        "src/main.c",
        None,
        1,
    )
    .remove(0);
    ranked.guard = Some("#ifdef CONFIG_PLATFORM_INIT".to_string());

    let markdown = hover_markdown_for_candidate(&ranked, None);

    assert!(markdown.contains(
        "```c\n#ifdef CONFIG_PLATFORM_INIT\n// In include/platform.h\nvoid platform_init(void);\n#endif // ^^ CONFIG_PLATFORM_INIT ^^\n```"
    ));
}

#[test]
fn hover_text_cannot_end_its_code_block() {
    let mut ranked = rank_hover_candidates(
        vec![symbol_record("foo", "function", "definition", "src/foo.c", 1, "int foo(````)")],
        "src/main.c",
        None,
        HOVER_CANDIDATE_LIMIT,
    )
    .remove(0);
    ranked.guard = Some("#if defined(FOO)```".to_string());
    let markdown = hover_markdown_for_candidate(&ranked, None);
    assert!(markdown.starts_with(
        "```c\n#if defined(FOO)'''\n// In src/foo.c\nint foo('''`)\n#endif // ^^ FOO ^^\n```\n\n"
    ));
    assert_eq!(markdown.matches("```").count(), 2);
}

#[test]
fn blank_signature_shows_the_name() {
    let ranked = rank_hover_candidates(
        vec![symbol_record("foo", "macro", "definition", "a.c", 1, "// only a comment")],
        "a.c",
        None,
        1,
    )
    .remove(0);
    let markdown = hover_markdown_for_candidate(&ranked, Some("  "));
    assert!(markdown.starts_with("```c\n// In a.c\nfoo\n```\n\n"));
}

#[test]
fn candidate_documentation_lists_parameters() {
    let source = "/**\n * Adds.\n * @param lhs left side\n */\nint add(int lhs);\n";
    let doc = comment_documentation_for_candidate_symbol(
        source,
        "add",
        4,
        &CandidateRange { start_line: 4, start_col: 0, end_line: 4, end_col: 3 },
    )
    .expect("documentation");
    assert_eq!(doc.parameters.len(), 1);
    assert_eq!(doc.parameters[0].name, "lhs");
    assert_eq!(doc.parameters[0].markdown, "left side\n");
}
