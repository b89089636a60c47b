use proc_macro2::{Ident, Span};
use rtic_zero::tokens::{valid_ident, valid_tokens};

#[test]
fn identifiers() {
    assert!(valid_ident("t1"));
    assert!(valid_ident("_"));
    assert!(valid_ident("_private"));
    assert!(valid_ident("GPIOA"));
    assert!(valid_ident("fn"));
    assert!(valid_ident("été"));
    assert!(!valid_ident(""));
    assert!(!valid_ident("1"));
    assert!(!valid_ident("3a"));
    assert!(!valid_ident("a-b"));
    assert!(!valid_ident("a b"));
    assert!(!valid_ident("r#x"));
}

#[test]
fn token_text() {
    assert!(valid_tokens("u32"));
    assert!(valid_tokens("[u8; 4]"));
    assert!(valid_tokens("Option<u64>"));
    assert!(valid_tokens(""));
    assert!(!valid_tokens("(u8"));
    assert!(!valid_tokens("/* open"));
    assert!(!valid_tokens("\"open"));
}

#[test]
fn accepted_identifiers_are_proc_macro2_identifiers() {
    for s in ["t1", "_", "GPIOA", "systick", "été", "x_1"] {
        assert!(valid_ident(s));
        assert_eq!(Ident::new(s, Span::call_site()).to_string(), s);
    }
}
