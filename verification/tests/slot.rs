use contexting_core::slot::{extract_slots, fill_slot};

#[test]
fn fill_slot_single() {
    assert_eq!(fill_slot("Hello {{name}}!", "name", "Alice"), "Hello Alice!");
}

#[test]
fn fill_slot_multiple_occurrences() {
    assert_eq!(fill_slot("{{x}} and {{x}}", "x", "y"), "y and y");
}

#[test]
fn fill_slot_no_match() {
    assert_eq!(fill_slot("Hello world", "name", "Alice"), "Hello world");
}

#[test]
fn extract_slots_order_and_dedup() {
    let slots = extract_slots("{{a}} {{b}} {{a}} {{c}}");
    assert_eq!(slots, vec!["a", "b", "c"]);
}

#[test]
fn extract_slots_empty() {
    assert!(extract_slots("no slots here").is_empty());
}

#[test]
fn fill_slot_inserts_content_as_is() {
    assert_eq!(fill_slot("pay {{x}}", "x", "$0 and $1"), "pay $0 and $1");
}

#[test]
fn fill_slot_is_not_recursive() {
    assert_eq!(fill_slot("{{x}}", "x", "{{x}}{{x}}"), "{{x}}{{x}}");
    assert_eq!(fill_slot("{{{x}}}", "x", "y"), "{y}");
}

#[test]
fn fill_slot_with_own_tag_is_identity() {
    let t = "a {{x}} b {{x}}{{y}}";
    assert_eq!(fill_slot(t, "x", "{{x}}"), t);
}

#[test]
fn extract_slots_unicode_word_names() {
    assert_eq!(extract_slots("{{名前}} {{café_2}}"), vec!["名前", "café_2"]);
}

#[test]
fn extract_slots_rejects_non_word_names() {
    assert!(extract_slots("{{a-b}} {{}} {{ a }} {a} {{a}").is_empty());
}

#[test]
fn extract_slots_nested_braces() {
    assert_eq!(extract_slots("{{{a}}} {{{{b}}}}"), vec!["a", "b"]);
    assert_eq!(extract_slots("{{a{{b}}"), vec!["b"]);
}

#[test]
fn extract_slots_of_separated_concatenation() {
    let a = "{{x}} {{y}}";
    let b = "{{y}} {{z}} {{x}} {{w}}";
    let joined = a.to_string() + " " + b;
    assert_eq!(extract_slots(&joined), vec!["x", "y", "z", "w"]);
    assert_eq!(extract_slots("{{x}}\n{{z}}"), vec!["x", "z"]);
}

#[test]
fn extract_slots_of_placeholders_round_trip() {
    let ws = vec!["role", "名前", "a_1"];
    let text: String = ws.iter().map(|w| format!("{{{{{}}}}}", w)).collect();
    assert_eq!(extract_slots(&text), ws);
}
