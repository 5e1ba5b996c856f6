use fossilsense::query::COMPLETION_LOCALITY_BONUS;
use fossilsense::text::{
    byte_offset_at, completion_prefix_at, completion_word_score, is_member_completion_context,
    member_access_chain_at, member_receiver_name, word_at, MemberAccessChain,
};

#[test]
fn word_at_finds_identifier() {
    let line = "    return hello_value();";
    // cursor inside "hello_value"
    let col = line.find("hello_value").unwrap() as u32 + 3;
    assert_eq!(word_at(line, col).as_deref(), Some("hello_value"));
}

#[test]
fn word_at_handles_cursor_after_word() {
    let line = "int main";
    assert_eq!(word_at(line, 8).as_deref(), Some("main"));
}

#[test]
fn word_at_returns_none_on_whitespace() {
    let line = "a   b";
    assert_eq!(word_at(line, 2), None);
}

#[test]
fn word_at_rejects_number_literals() {
    assert_eq!(word_at("return 42;", 8), None);
    assert_eq!(word_at("return foo42;", 11).as_deref(), Some("foo42"));
    assert_eq!(word_at("_value = 1;", 0).as_deref(), Some("_value"));
}

#[test]
fn word_at_extracts_single_char_identifier() {
    assert_eq!(word_at("x = 1;", 0).as_deref(), Some("x"));
}

#[test]
fn completion_prefix_only_uses_text_before_cursor() {
    assert_eq!(
        completion_prefix_at("hello_value", 2).as_deref(),
        Some("he")
    );
    assert_eq!(
        completion_prefix_at("return hello_value();", 12).as_deref(),
        Some("hello")
    );
}

#[test]
fn completion_prefix_handles_cursor_after_word() {
    assert_eq!(completion_prefix_at("int main", 8).as_deref(), Some("main"));
    assert_eq!(completion_prefix_at("a   b", 2), None);
    assert_eq!(completion_prefix_at("return 42", 9), None);
}

#[test]
fn member_completion_context_detects_dot_and_arrow() {
    assert!(is_member_completion_context("object.me", 9));
    assert!(is_member_completion_context("object->me", 10));
    assert!(is_member_completion_context("object.", 7));
    assert!(is_member_completion_context("object->", 8));
    assert!(!is_member_completion_context("global_me", 9));
}

#[test]
fn member_receiver_name_extracts_simple_receiver() {
    // `obj.fie<cursor>` -> receiver "obj".
    assert_eq!(member_receiver_name("obj.fie", 7).as_deref(), Some("obj"));
    // `ptr->v<cursor>` -> receiver "ptr".
    assert_eq!(member_receiver_name("ptr->v", 6).as_deref(), Some("ptr"));
    // Right after the operator, before typing anything.
    assert_eq!(member_receiver_name("ptr->", 5).as_deref(), Some("ptr"));
    assert_eq!(member_receiver_name("obj.", 4).as_deref(), Some("obj"));
}

#[test]
fn member_receiver_name_rejects_call_chain_and_index() {
    // Call result: `get()->v` -> no simple receiver.
    assert_eq!(member_receiver_name("get()->v", 8), None);
    // Multi-segment chain has a chain parser, but the compatibility API
    // still exposes only a bare receiver.
    assert_eq!(member_receiver_name("a.b.c", 5), None);
    // Indexed receiver: `arr[i].x` resolves to the base receiver.
    assert_eq!(member_receiver_name("arr[i].x", 8).as_deref(), Some("arr"));
    // Not a member context at all.
    assert_eq!(member_receiver_name("plain", 5), None);
}

#[test]
fn member_access_chain_extracts_supported_c_lvalue_segments() {
    assert_eq!(
        member_access_chain_at("void f(void) { a.mem1.xxx", 26),
        Some(MemberAccessChain {
            receiver: "a".to_string(),
            completed_members: vec!["mem1".to_string()],
        })
    );
    assert_eq!(
        member_access_chain_at("ptr->inner.value", 16),
        Some(MemberAccessChain {
            receiver: "ptr".to_string(),
            completed_members: vec!["inner".to_string()],
        })
    );
    assert_eq!(
        member_access_chain_at("a.mem1[n].xxx", 14),
        Some(MemberAccessChain {
            receiver: "a".to_string(),
            completed_members: vec!["mem1".to_string()],
        })
    );
    assert_eq!(
        member_access_chain_at("(*ptr).inner.value", 18),
        Some(MemberAccessChain {
            receiver: "ptr".to_string(),
            completed_members: vec!["inner".to_string()],
        })
    );
    assert_eq!(
        member_access_chain_at("arr[i].value", 12),
        Some(MemberAccessChain {
            receiver: "arr".to_string(),
            completed_members: Vec::new(),
        })
    );
    assert_eq!(member_access_chain_at("get()->value", 12), None);
}

#[test]
fn byte_offset_at_maps_line_and_column() {
    let text = "ab\ncd->e\n";
    // Line 1, column 2 -> just after "cd".
    assert_eq!(byte_offset_at(text, 1, 2), 5);
    assert_eq!(&text[..byte_offset_at(text, 1, 2)], "ab\ncd");
}

#[test]
fn local_word_short_prefix_rejects_plain_substring() {
    let bonus = COMPLETION_LOCALITY_BONUS;

    assert!(
        completion_word_score("l", "lerp3u16", bonus).is_some(),
        "single-char prefix should keep the initial completion session alive"
    );
    assert!(completion_word_score("fo", "Foobar", bonus).is_some());
    assert!(
        completion_word_score("ba", "FooBar", bonus).is_some(),
        "boundary substring should survive at len 2"
    );
    assert!(
        completion_word_score("ba", "Foobar", bonus).is_none(),
        "plain substring should be dropped at len 2"
    );
    assert!(
        completion_word_score("oba", "Foobar", bonus).is_some(),
        "len >= 3 keeps the existing local substring recall"
    );
}
