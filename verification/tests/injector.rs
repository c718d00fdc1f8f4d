use contexting_core::injector::is_blank;
use contexting_core::{create_injector, InjectorError, InjectorFn};

#[test]
fn create_injector_valid() {
    let inj = create_injector::<InjectorFn>("role", Box::new(|_| "engineer".to_string()));
    assert!(inj.is_ok());
    assert_eq!(inj.unwrap().slot, "role");
}

#[test]
fn create_injector_empty_slot() {
    assert!(create_injector::<InjectorFn>("", Box::new(|_| "x".to_string())).is_err());
    assert!(create_injector::<InjectorFn>("  ", Box::new(|_| "x".to_string())).is_err());
}

#[test]
fn create_injector_error_variant_and_message() {
    match create_injector::<InjectorFn>("\t\n", Box::new(|_| "x".to_string())) {
        Err(e) => {
            assert_eq!(e, InjectorError::EmptySlot);
            assert_eq!(e.message(), "slot must be a non-empty string");
        }
        Ok(_) => panic!("a blank slot must be refused"),
    }
}

#[test]
fn create_injector_keeps_slot_as_given() {
    let inj = create_injector::<InjectorFn>(" role ", Box::new(|_| "x".to_string())).unwrap();
    assert_eq!(inj.slot, " role ");
}

#[test]
fn blank_follows_unicode_white_space() {
    assert!(is_blank(""));
    assert!(is_blank(" \t\r\n"));
    assert!(is_blank("\u{3000}\u{A0}\u{2028}"));
    assert!(!is_blank(" a "));
    assert!(!is_blank("\u{200B}"));
}
