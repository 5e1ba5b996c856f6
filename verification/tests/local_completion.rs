use fossilsense::facts::{LocalBinding, LocalBindingKind, LocalBindingNamespace};
use fossilsense::local_completion::{
    local_binding_visible_for_completion, local_completion_candidates,
};

fn binding(
    name: &str,
    kind: LocalBindingKind,
    decl_start_byte: usize,
    function_start_byte: usize,
    function_end_byte: usize,
) -> LocalBinding {
    LocalBinding {
        name: name.to_string(),
        kind,
        namespace: LocalBindingNamespace::Ordinary,
        type_text: Some("int".to_string()),
        decl_start_byte,
        function_start_byte,
        function_end_byte,
        scope_start_byte: function_start_byte,
        scope_end_byte: function_end_byte,
    }
}

#[test]
fn local_completion_keeps_parameters_and_prior_locals() {
    let text = "int f(int count) {\n    int cursor_limit;\n    cur\n}\n";
    let cursor = text.find("cur\n").expect("cursor");
    let bindings = vec![
        binding(
            "count",
            LocalBindingKind::Parameter,
            text.find("count").unwrap(),
            0,
            text.len(),
        ),
        binding(
            "cursor_limit",
            LocalBindingKind::LocalVariable,
            text.find("cursor_limit").unwrap(),
            0,
            text.len(),
        ),
    ];
    let hits = local_completion_candidates(&bindings, text, 2, 7, "cur", 10);
    assert_eq!(hits.len(), 1);
    assert_eq!(hits[0].name, "cursor_limit");
    assert!(hits[0].score > 0);
    assert!(bindings[1].decl_start_byte < cursor);
}

#[test]
fn local_completion_excludes_later_declarations() {
    let text = "int f(void) {\n    fut\n    int future_value;\n}\n";
    let bindings = vec![binding(
        "future_value",
        LocalBindingKind::LocalVariable,
        text.find("future_value").unwrap(),
        0,
        text.len(),
    )];
    let hits = local_completion_candidates(&bindings, text, 1, 7, "fut", 10);
    assert!(hits.is_empty());
}

#[test]
fn local_completion_requires_cursor_inside_function_range() {
    let text = "int f(void) { int local_value; }\nloc\n";
    let bindings = vec![binding(
        "local_value",
        LocalBindingKind::LocalVariable,
        18,
        0,
        31,
    )];
    let hits = local_completion_candidates(&bindings, text, 1, 3, "loc", 10);
    assert!(hits.is_empty());
}

#[test]
fn parsed_local_completion_requires_cursor_inside_function_body() {
    let text = "int f(int count, int cou) {\n    cou\n}\n";
    // Bindings of a function are visible in its body.
    let body = text.find('{').unwrap();
    let end = text.rfind('}').unwrap() + 1;
    let local_bindings = vec![
        binding("count", LocalBindingKind::Parameter, text.find("count").unwrap(), body, end),
        binding("cou", LocalBindingKind::Parameter, text.find("cou)").unwrap(), body, end),
    ];

    let signature_hits =
        local_completion_candidates(&local_bindings, text, 0, 24, "cou", 10);
    assert!(
        signature_hits.is_empty(),
        "local bindings must not activate while editing the function signature"
    );

    let body_hits = local_completion_candidates(&local_bindings, text, 1, 7, "cou", 10);
    assert!(body_hits.iter().any(|hit| hit.name == "count"));
}

#[test]
fn local_completion_preserves_short_prefix_noise_gate() {
    let text = "void f(void) {\n    int Foobar;\n    int FooBar;\n    ba\n}\n";
    let bindings = vec![
        binding(
            "Foobar",
            LocalBindingKind::LocalVariable,
            text.find("Foobar").unwrap(),
            0,
            text.len(),
        ),
        binding(
            "FooBar",
            LocalBindingKind::LocalVariable,
            text.find("FooBar").unwrap(),
            0,
            text.len(),
        ),
    ];
    let hits = local_completion_candidates(&bindings, text, 3, 6, "ba", 10);
    assert_eq!(
        hits.iter().map(|hit| hit.name.as_str()).collect::<Vec<_>>(),
        vec!["FooBar"]
    );
}

#[test]
fn local_completion_keeps_nearest_same_name_and_formats_detail() {
    let text = "int f(int value) {\n    long value;\n    val\n}\n";
    let bindings = vec![
        LocalBinding {
            name: "value".to_string(),
            kind: LocalBindingKind::Parameter,
            type_text: Some("int".to_string()),
            decl_start_byte: text.find("value").unwrap(),
            function_start_byte: 0,
            function_end_byte: text.len(),
            namespace: LocalBindingNamespace::Ordinary,
            scope_start_byte: 0,
            scope_end_byte: text.len(),
        },
        LocalBinding {
            name: "value".to_string(),
            kind: LocalBindingKind::LocalVariable,
            type_text: Some("long".to_string()),
            decl_start_byte: text.rfind("value").unwrap(),
            function_start_byte: 0,
            function_end_byte: text.len(),
            namespace: LocalBindingNamespace::Ordinary,
            scope_start_byte: 0,
            scope_end_byte: text.len(),
        },
    ];

    let hits = local_completion_candidates(&bindings, text, 2, 7, "val", 10);

    assert_eq!(hits.len(), 1);
    assert_eq!(hits[0].kind, LocalBindingKind::LocalVariable);
    assert_eq!(hits[0].detail, "local: long");
}

#[test]
fn local_completion_ranks_by_match_then_by_nearness() {
    let text = "int f(void) {\n    int total;\n    int totals;\n    tot\n}\n";
    let bindings = vec![
        binding("total", LocalBindingKind::LocalVariable, 22, 0, text.len()),
        binding("totals", LocalBindingKind::LocalVariable, 37, 0, text.len()),
    ];
    let hits = local_completion_candidates(&bindings, text, 3, 7, "tot", 10);
    let names: Vec<&str> = hits.iter().map(|hit| hit.name.as_str()).collect();
    assert_eq!(names, vec!["totals", "total"]);
    assert_eq!(hits[0].match_score, hits[1].match_score);
    assert_eq!(hits[0].score, 40_000 + hits[0].match_score);
    let one = local_completion_candidates(&bindings, text, 3, 7, "tot", 1);
    assert_eq!(one, hits[..1].to_vec());
}

#[test]
fn binding_is_visible_only_behind_its_declaration_in_its_scope() {
    let mut b = binding("x", LocalBindingKind::LocalType, 10, 0, 40);
    b.scope_start_byte = 5;
    b.scope_end_byte = 20;
    b.type_text = None;
    assert!(!local_binding_visible_for_completion(&b, 10));
    assert!(local_binding_visible_for_completion(&b, 11));
    assert!(local_binding_visible_for_completion(&b, 20));
    assert!(!local_binding_visible_for_completion(&b, 21));
    let hits = local_completion_candidates(&[b], "aaaaaaaaaaaaaaaa", 0, 15, "x", 4);
    assert_eq!(hits[0].detail, "type");
}

#[test]
fn local_completion_offers_what_an_inner_block_declared() {
    let text = "int f(void) {\n    int total; { int totals; }\n    tot\n}\n";
    let outer = binding("total", LocalBindingKind::LocalVariable, 22, 0, text.len());
    let mut inner = binding("totals", LocalBindingKind::LocalVariable, 35, 0, text.len());
    inner.scope_start_byte = text.find("{ int totals").unwrap();
    inner.scope_end_byte = text.find("; }").unwrap() + 3;
    let mut shadow = binding("total", LocalBindingKind::Parameter, 36, 0, text.len());
    shadow.scope_start_byte = inner.scope_start_byte;
    shadow.scope_end_byte = inner.scope_end_byte;
    let hits =
        local_completion_candidates(&[outer.clone(), inner.clone()], text, 2, 7, "tot", 10);
    let names: Vec<&str> = hits.iter().map(|hit| hit.name.as_str()).collect();
    assert_eq!(names, vec!["totals", "total"]);
    assert!(!local_binding_visible_for_completion(&inner, text.find("tot\n").unwrap() + 3));

    // The latest declaration of a name stands for it, whatever its block.
    let hits = local_completion_candidates(&[outer, shadow], text, 2, 7, "tot", 10);
    assert_eq!(hits.len(), 1);
    assert_eq!(hits[0].decl_start_byte, 36);
    assert_eq!(hits[0].kind, LocalBindingKind::Parameter);
}
