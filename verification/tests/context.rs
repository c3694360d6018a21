//! Reify-context tests: static until a dynamic argument appears.

use stylist::context::ReifyContext;

#[test]
fn test_new_context_is_static() {
    let ctx = ReifyContext::new();
    assert!(ctx.is_static());
}

#[test]
fn test_default_context_is_static() {
    let ctx = ReifyContext::default();
    assert!(ctx.is_static());
}

#[test]
fn test_dynamic_argument_makes_context_dynamic() {
    let mut ctx = ReifyContext::new();
    ctx.uses_dynamic_argument();
    assert!(!ctx.is_static());
}

#[test]
fn test_dynamic_usage_is_irreversible() {
    let mut ctx = ReifyContext::new();
    ctx.uses_dynamic_argument();
    ctx.uses_dynamic_argument();
    assert!(!ctx.is_static());
}
