use fossilsense::call_model::CallForm;
use fossilsense::callables::arity::ArgumentState;
use fossilsense::signatures::{call_context_at, signature_parts, signature_parts_for_name};

#[test]
fn call_context_after_open_paren_is_first_argument() {
    let text = "int main(void) {\n  foo(\n}\n";
    let ctx = call_context_at(text, 1, 6).expect("call context");
    assert_eq!(ctx.name, "foo");
    assert_eq!(ctx.active_argument, 0);
    assert_eq!(
        ctx.argument_state,
        ArgumentState::Partial {
            minimum_arity: 0,
            active_argument: 0,
        }
    );
}

#[test]
fn call_context_distinguishes_empty_and_started_arguments() {
    let empty = call_context_at("foo(", 0, 4).expect("empty call");
    let first = call_context_at("foo(value", 0, 9).expect("first argument");
    let second_empty = call_context_at("foo(value, ", 0, 11).expect("second argument");
    let second = call_context_at("foo(value, next", 0, 15).expect("second value");
    assert_eq!(
        empty.argument_state,
        ArgumentState::Partial {
            minimum_arity: 0,
            active_argument: 0,
        }
    );
    assert_eq!(
        first.argument_state,
        ArgumentState::Partial {
            minimum_arity: 1,
            active_argument: 0,
        }
    );
    assert_eq!(
        second_empty.argument_state,
        ArgumentState::Partial {
            minimum_arity: 1,
            active_argument: 1,
        }
    );
    assert_eq!(
        second.argument_state,
        ArgumentState::Partial {
            minimum_arity: 2,
            active_argument: 1,
        }
    );
}

#[test]
fn call_context_counts_only_top_level_commas() {
    let text = "void f(void) {\n  foo(a, bar(b, c), arr[1, 2], \n}\n";
    let ctx = call_context_at(text, 1, 34).expect("call context");
    assert_eq!(ctx.name, "foo");
    assert_eq!(ctx.active_argument, 3);
}

#[test]
fn call_context_uses_nearest_nested_call() {
    let text = "void f(void) {\n  outer(alpha, inner(beta, \n}\n";
    let ctx = call_context_at(text, 1, 28).expect("call context");
    assert_eq!(ctx.name, "inner");
    assert_eq!(ctx.active_argument, 1);
}

#[test]
fn call_context_rejects_control_keywords() {
    let text = "void f(void) {\n  if (ready, \n}\n";
    assert!(call_context_at(text, 1, 13).is_none());
}

#[test]
fn call_context_keeps_template_like_argument_commas_as_unknown() {
    let text = "void f(void) {\n  foo(std::pair<int, int>{}, \n}\n";
    let line = 1;
    let character = text.lines().nth(1).expect("line").chars().count() as u32;
    let context = call_context_at(text, line, character).expect("best-effort call context");
    assert_eq!(context.name, "foo");
    assert_eq!(context.active_argument, 1);
    assert_eq!(context.argument_state, ArgumentState::Unknown);
}

#[test]
fn call_context_allows_commas_after_less_than_expression() {
    let text = "void f(void) {\n  if (idx < limit) {}\n  foo(first, \n}\n";
    let line = 2;
    let character = text.lines().nth(2).expect("line").chars().count() as u32;
    let ctx = call_context_at(text, line, character).expect("call context");
    assert_eq!(ctx.name, "foo");
    assert_eq!(ctx.active_argument, 1);
}

#[test]
fn call_context_ignores_commas_inside_string_literals() {
    let text = "void f(void) {\n  log_message(\"a,b\", \n}\n";
    let line = 1;
    let character = text.lines().nth(1).expect("line").chars().count() as u32;
    let ctx = call_context_at(text, line, character).expect("call context");
    assert_eq!(ctx.name, "log_message");
    assert_eq!(ctx.active_argument, 1);
}

#[test]
fn call_context_keeps_member_forms_unsupported_and_normalizes_qualified_names() {
    let dot = call_context_at("obj.foo(", 0, 8).expect("dot member call");
    assert_eq!(dot.name, "foo");
    assert_eq!(dot.form, CallForm::MemberDot);
    assert_eq!(dot.qualified_name, None);

    let arrow = call_context_at("obj -> foo(", 0, 11).expect("arrow member call");
    assert_eq!(arrow.form, CallForm::MemberArrow);

    let qualified = call_context_at("net :: io :: open(", 0, 18).expect("qualified call");
    assert_eq!(qualified.form, CallForm::QualifiedName);
    assert_eq!(qualified.qualified_name.as_deref(), Some("net::io::open"));
}

#[test]
fn signature_parts_extracts_simple_parameters() {
    let parts = signature_parts("int foo(int a, const char *name)");
    assert_eq!(parts.label, "int foo(int a, const char *name)");
    let labels: Vec<&str> = parts
        .parameters
        .iter()
        .map(|span| &parts.label[span.start as usize..span.end as usize])
        .collect();
    assert_eq!(labels, vec!["int a", "const char *name"]);
}

#[test]
fn signature_parts_keeps_void_parameter_list_empty() {
    let parts = signature_parts("void reset(void)");
    assert!(parts.parameters.is_empty());
}

#[test]
fn signature_parts_ignores_nested_commas() {
    let parts = signature_parts("void visit(int (*cb)(int, int), int flags)");
    let labels: Vec<&str> = parts
        .parameters
        .iter()
        .map(|span| &parts.label[span.start as usize..span.end as usize])
        .collect();
    assert_eq!(labels, vec!["int (*cb)(int, int)", "int flags"]);
}

#[test]
fn signature_parts_do_not_fabricate_parameters_for_function_pointer_return() {
    let parts = signature_parts("int (*factory(void))(int);");
    assert_eq!(parts.label, "int (*factory(void))(int);");
    assert!(parts.parameters.is_empty());
}

#[test]
fn signature_parts_extracts_pointer_return_parameters() {
    let parts = signature_parts_for_name("char *dup_string(const char *s)", "dup_string");
    let labels: Vec<&str> = parts
        .parameters
        .iter()
        .map(|span| &parts.label[span.start as usize..span.end as usize])
        .collect();
    assert_eq!(labels, vec!["const char *s"]);
}

#[test]
fn signature_parts_for_name_skips_prefix_attributes() {
    let parts = signature_parts_for_name("__attribute__((nonnull(1))) int foo(int x)", "foo");
    let labels: Vec<&str> = parts
        .parameters
        .iter()
        .map(|span| &parts.label[span.start as usize..span.end as usize])
        .collect();
    assert_eq!(labels, vec!["int x"]);
}

#[test]
fn malformed_signature_returns_whole_label_without_parameters() {
    let parts = signature_parts("int broken(int a, ");
    assert_eq!(parts.label, "int broken(int a, ");
    assert!(parts.parameters.is_empty());
}
