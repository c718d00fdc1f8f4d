use contexting_core::{Context, ContextValue};

#[test]
fn context_insert_and_get() {
    let mut c = Context::new();
    assert_eq!(c.get("k"), None);
    assert_eq!(c.insert("k".to_string(), ContextValue::Number("1".to_string())), None);
    assert_eq!(
        c.insert("k".to_string(), ContextValue::String("v".to_string())),
        Some(ContextValue::Number("1".to_string()))
    );
    c.insert("other".to_string(), ContextValue::Null);
    assert_eq!(c.get("k"), Some(&ContextValue::String("v".to_string())));
    assert_eq!(c.get("other"), Some(&ContextValue::Null));
    assert_eq!(c.get("none"), None);
}

#[test]
fn context_len_keys_remove() {
    let mut c = Context::new();
    assert!(c.is_empty());
    c.insert("a".to_string(), ContextValue::Bool(true));
    c.insert("b".to_string(), ContextValue::Number("2".to_string()));
    c.insert("a".to_string(), ContextValue::Null);
    assert_eq!(c.len(), 2);
    assert!(!c.is_empty());
    assert!(c.contains_key("a"));
    assert!(!c.contains_key("c"));
    let mut keys = c.keys();
    keys.sort();
    assert_eq!(keys, vec!["a".to_string(), "b".to_string()]);
    assert_eq!(c.remove("a"), Some(ContextValue::Null));
    assert_eq!(c.remove("a"), None);
    assert_eq!(c.len(), 1);
    assert_eq!(c.get("b"), Some(&ContextValue::Number("2".to_string())));
    assert_eq!(c.keys(), vec!["b".to_string()]);
}
