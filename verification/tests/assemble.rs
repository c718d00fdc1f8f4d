use contexting_core::assemble::{apply_base_rules, apply_injection, assemble_with};
use std::sync::atomic::{AtomicUsize, Ordering};
use std::sync::Arc;
use contexting_core::{assemble, create_injector, Context, ContextValue, InjectorFn};

fn ctx(pairs: &[(&str, &str)]) -> Context {
    let mut c = Context::new();
    for (k, v) in pairs {
        c.insert(k.to_string(), ContextValue::String(v.to_string()));
    }
    c
}

#[test]
fn inline_injection() {
    let rules = vec![
        create_injector::<InjectorFn>("role", Box::new(|_| "senior engineer".to_string())).unwrap(),
    ];
    let result = assemble("You are a {{role}}.", &rules, &ctx(&[]));
    assert_eq!(result, "You are a senior engineer.");
}

#[test]
fn appended_injection() {
    let rules = vec![
        create_injector::<InjectorFn>("rules", Box::new(|_| "Be safe.".to_string())).unwrap(),
    ];
    let result = assemble("Hello {{name}}.", &rules, &ctx(&[("name", "Alice")]));
    assert_eq!(result, "Hello Alice.\n\nBe safe.");
}

#[test]
fn empty_appended_not_added() {
    let rules = vec![
        create_injector::<InjectorFn>("rules", Box::new(|_| String::new())).unwrap(),
    ];
    let result = assemble("Hello.", &rules, &ctx(&[]));
    assert_eq!(result, "Hello.");
}

#[test]
fn base_rule_fill_from_context() {
    let no_rules: Vec<contexting_core::Injector> = Vec::new();
    let result = assemble("Hi {{name}}!", &no_rules, &ctx(&[("name", "Bob")]));
    assert_eq!(result, "Hi Bob!");
}

#[test]
fn multiple_injectors_and_trailing() {
    let rules = vec![
        create_injector::<InjectorFn>("role", Box::new(|_| "assistant".to_string())).unwrap(),
        create_injector::<InjectorFn>("extra", Box::new(|_| "Be concise.".to_string())).unwrap(),
        create_injector::<InjectorFn>("more", Box::new(|_| "Be helpful.".to_string())).unwrap(),
    ];
    let result = assemble("You are a {{role}}.", &rules, &ctx(&[]));
    assert_eq!(result, "You are a assistant.\n\nBe concise.\n\nBe helpful.");
}

#[test]
fn context_dependent_injection() {
    let rules = vec![
        create_injector::<InjectorFn>(
            "role",
            Box::new(|ctx| {
                if ctx.get("senior") == Some(&ContextValue::Bool(true)) {
                    "senior".to_string()
                } else {
                    "junior".to_string()
                }
            }),
        )
        .unwrap(),
    ];
    let mut context = Context::new();
    context.insert("senior".to_string(), ContextValue::Bool(true));
    let result = assemble("You are a {{role}}.", &rules, &context);
    assert_eq!(result, "You are a senior.");
}

#[test]
fn readme_inline_appended_and_base_fill() {
    let role = create_injector::<InjectorFn>(
        "role",
        Box::new(|ctx| {
            if ctx.get("senior") == Some(&ContextValue::Bool(true)) {
                "senior software engineer".to_string()
            } else {
                "helpful coding".to_string()
            }
        }),
    )
    .unwrap();
    let constraints = create_injector::<InjectorFn>(
        "constraints",
        Box::new(|ctx| {
            if ctx.get("safe") == Some(&ContextValue::Bool(true)) {
                "Never suggest running untrusted code. Always explain risks.".to_string()
            } else {
                String::new()
            }
        }),
    )
    .unwrap();
    let lang = create_injector::<InjectorFn>(
        "lang",
        Box::new(|ctx| {
            if ctx.get("lang") == Some(&ContextValue::String("javascript".to_string())) {
                "javascript, node and typescript".to_string()
            } else {
                "python and java".to_string()
            }
        }),
    )
    .unwrap();
    let mut context = Context::new();
    context.insert("senior".to_string(), ContextValue::Bool(true));
    context.insert("safe".to_string(), ContextValue::Bool(true));
    context.insert("lang".to_string(), ContextValue::String("javascript".to_string()));
    let prompt = assemble(
        "You are a {{role}} assistant for the language {{lang}}.",
        &vec![role, constraints, lang],
        &context,
    );
    assert_eq!(
        prompt,
        "You are a senior software engineer assistant for the language javascript, node and typescript.\n\nNever suggest running untrusted code. Always explain risks."
    );
}

#[test]
fn readme_base_fill_only() {
    let no_rules: Vec<contexting_core::Injector> = Vec::new();
    let prompt = assemble(
        "Hello {{name}}, you are using {{lang}}.",
        &no_rules,
        &ctx(&[("name", "Alice"), ("lang", "python")]),
    );
    assert_eq!(prompt, "Hello Alice, you are using python.");
}

#[test]
fn numbers_fill_other_values_do_not() {
    let mut context = Context::new();
    context.insert("n".to_string(), ContextValue::Number("42".to_string()));
    context.insert("b".to_string(), ContextValue::Bool(false));
    context.insert("z".to_string(), ContextValue::Null);
    let filled = apply_base_rules("{{n}} {{b}} {{z}} {{missing}}", &context);
    assert_eq!(filled, "42 {{b}} {{z}} {{missing}}");
}

#[test]
fn fill_reaches_slots_written_by_earlier_fills() {
    let filled = apply_base_rules("{{a}} {{b}}", &ctx(&[("a", "{{b}}"), ("b", "x")]));
    assert_eq!(filled, "x x");
}

#[test]
fn injection_wins_over_context() {
    let rules = vec![
        create_injector::<InjectorFn>("name", Box::new(|_| "Injected".to_string())).unwrap(),
    ];
    let result = assemble("Hi {{name}}", &rules, &ctx(&[("name", "Context")]));
    assert_eq!(result, "Hi Injected");
}

#[test]
fn apply_injection_cases() {
    assert_eq!(
        apply_injection("a {{x}} b {{x}}", "x", "y".to_string()),
        ("a y b y".to_string(), None)
    );
    assert_eq!(
        apply_injection("a b", "x", "y".to_string()),
        ("a b".to_string(), Some("y".to_string()))
    );
    assert_eq!(apply_injection("a b", "x", String::new()), ("a b".to_string(), None));
}

#[test]
fn assemble_with_given_texts() {
    let injected = vec![
        ("role".to_string(), "tester".to_string()),
        ("tail".to_string(), "Bye.".to_string()),
        ("empty".to_string(), String::new()),
    ];
    let prompt = assemble_with("I am {{role}}, {{name}}.", &injected, &ctx(&[("name", "Eve")]));
    assert_eq!(prompt, "I am tester, Eve.\n\nBye.");
}

#[test]
fn identity_without_rules_or_context() {
    let no_rules: Vec<contexting_core::Injector> = Vec::new();
    let t = "Keep {{this}} and {{that}} as they are.";
    assert_eq!(assemble(t, &no_rules, &Context::new()), t);
}

#[test]
fn injector_runs_once_per_assembly() {
    let calls = Arc::new(AtomicUsize::new(0));
    let counter = calls.clone();
    let rules = vec![create_injector::<InjectorFn>(
        "x",
        Box::new(move |_| {
            counter.fetch_add(1, Ordering::SeqCst);
            "v".to_string()
        }),
    )
    .unwrap()];
    assert_eq!(assemble("{{x}}{{x}}", &rules, &Context::new()), "vv");
    assert_eq!(calls.load(Ordering::SeqCst), 1);
}
