//! Pinpoint scenarios: one construct per test, with the exact expected tree,
//! plus the error cases.

use stylist::ast::{Block, Rule, RuleContent, ScopeContent, Selector, Sheet, StringFragment,
    StyleAttribute};
use stylist::parser::Parser;

fn lit(s: &str) -> StringFragment {
    StringFragment::Literal(s.to_string())
}

fn ph(name: &str) -> StringFragment {
    StringFragment::Interpolation(name.to_string())
}

fn sel(fragments: Vec<StringFragment>) -> Selector {
    Selector { fragments }
}

fn attr(key: &str, value: Vec<StringFragment>) -> StyleAttribute {
    StyleAttribute { key: key.to_string(), value }
}

fn block(condition: Vec<Selector>, attrs: Vec<StyleAttribute>) -> ScopeContent {
    ScopeContent::Block(Block { condition, style_attributes: attrs })
}

#[test]
fn test_single_dangling_attribute() {
    let parsed = Parser::parse("color: red;").expect("Failed to Parse Style");
    let expected = Sheet::from(vec![block(vec![], vec![attr("color", vec![lit("red")])])]);
    assert_eq!(parsed, expected);
}

#[test]
fn test_single_nested_block() {
    let parsed = Parser::parse(".nested { width: 100px; }").expect("Failed to Parse Style");
    let expected = Sheet::from(vec![block(
        vec![sel(vec![lit(".nested")])],
        vec![attr("width", vec![lit("100px")])],
    )]);
    assert_eq!(parsed, expected);
}

#[test]
fn test_single_media_rule() {
    let parsed = Parser::parse("@media screen and (max-width: 500px) { color: red; }")
        .expect("Failed to Parse Style");
    let expected = Sheet::from(vec![ScopeContent::Rule(Rule {
        condition: vec![lit("@media "), lit("screen and (max-width: 500px)")],
        content: vec![RuleContent::Block(Block {
            condition: vec![],
            style_attributes: vec![attr("color", vec![lit("red")])],
        })],
    })]);
    assert_eq!(parsed, expected);
}

#[test]
fn test_selector_list_order() {
    let parsed = Parser::parse("div, span { color: yellow; }").expect("Failed to Parse Style");
    let expected = Sheet::from(vec![block(
        vec![sel(vec![lit("div")]), sel(vec![lit("span")])],
        vec![attr("color", vec![lit("yellow")])],
    )]);
    assert_eq!(parsed, expected);
}

#[test]
fn test_value_interpolation() {
    let parsed = Parser::parse("color: ${theme_color};").expect("Failed to Parse Style");
    let expected = Sheet::from(vec![block(
        vec![],
        vec![attr("color", vec![ph("theme_color")])],
    )]);
    assert_eq!(parsed, expected);
}

#[test]
fn test_quoted_brace_selector() {
    let parsed =
        Parser::parse(r#"[placeholder="\" {}"] { width: 100px; }"#).expect("Failed to Parse Style");
    let expected = Sheet::from(vec![block(
        vec![sel(vec![lit(r#"[placeholder="\" {}"]"#)])],
        vec![attr("width", vec![lit("100px")])],
    )]);
    assert_eq!(parsed, expected);
}

#[test]
fn test_opaque_at_rule() {
    let parsed =
        Parser::parse("@keyframes anim { from { width: 0; } to { width: 100px; } }")
            .expect("Failed to Parse Style");
    let expected = Sheet::from(vec![ScopeContent::Rule(Rule {
        condition: vec![lit("@keyframes anim")],
        content: vec![
            RuleContent::String("from".to_string()),
            RuleContent::String("{".to_string()),
            RuleContent::String("width: 0;".to_string()),
            RuleContent::String("}".to_string()),
            RuleContent::String("to".to_string()),
            RuleContent::String("{".to_string()),
            RuleContent::String("width: 100px;".to_string()),
            RuleContent::String("}".to_string()),
        ],
    })]);
    assert_eq!(parsed, expected);
}

#[test]
fn test_opaque_at_rule_with_quoted_brace() {
    let parsed = Parser::parse(r#"@font-face { src: url("a{.woff"); }"#)
        .expect("Failed to Parse Style");
    let expected = Sheet::from(vec![ScopeContent::Rule(Rule {
        condition: vec![lit("@font-face")],
        content: vec![RuleContent::String(r#"src: url("a{.woff");"#.to_string())],
    })]);
    assert_eq!(parsed, expected);
}

#[test]
fn test_media_without_space_is_an_error() {
    let err = Parser::parse("@media(min-width:0){color:red;}").unwrap_err();
    assert_eq!(err.offset, 0);
}

#[test]
fn test_missing_semicolon_is_an_error() {
    let err = Parser::parse("color: red").unwrap_err();
    assert_eq!(err.offset, 0);
}

#[test]
fn test_error_offset_after_first_item() {
    let err = Parser::parse("color: red; }").unwrap_err();
    assert_eq!(err.offset, 12);
}

#[test]
fn test_unterminated_string_is_an_error() {
    assert!(Parser::parse(r#"content: "unterminated;"#).is_err());
}

#[test]
fn test_unterminated_block_is_an_error() {
    assert!(Parser::parse(".a { color: red; ").is_err());
}

#[test]
fn test_empty_value_is_an_error() {
    assert!(Parser::parse("color: ;").is_err());
}

#[test]
fn test_error_message_names_offset() {
    let err = Parser::parse("color: red").unwrap_err();
    assert_eq!(
        err.message(),
        "expected a style attribute, a block or an at-rule at character 0"
    );
}

#[test]
fn test_parse_is_deterministic() {
    let text = ".a { color: red; } @media screen { width: ${w}; }";
    let first = Parser::parse(text).expect("Failed to Parse Style");
    let second = Parser::parse(text).expect("Failed to Parse Style");
    assert_eq!(first, second);
    assert!(first.same_as(&second));
}

#[test]
fn test_duplicate_preserves_structure() {
    let text = ".a, ${b} { color: ${c}; } @supports (a: b) { x: y; } @keyframes k { from {} }";
    let parsed = Parser::parse(text).expect("Failed to Parse Style");
    let copy = parsed.duplicate();
    assert_eq!(parsed, copy);
    assert!(parsed.same_as(&copy));
}

#[test]
fn test_same_as_detects_difference() {
    let one = Parser::parse("color: red;").unwrap();
    let two = Parser::parse("color: blue;").unwrap();
    assert!(!one.same_as(&two));
    assert_ne!(one, two);
}

#[test]
fn test_write_style_reconstructs_attribute() {
    let sheet = Parser::parse("color: ${a} red;").expect("Failed to Parse Style");
    let ScopeContent::Block(b) = &sheet.contents[0] else {
        panic!("expected a block");
    };
    let mut out = String::new();
    b.style_attributes[0].write_style(&mut out);
    assert_eq!(out, "color: ${a} red;");
}

#[test]
fn test_write_style_keeps_literals_verbatim() {
    let sheet = Parser::parse(r#"content: ";";"#).expect("Failed to Parse Style");
    let ScopeContent::Block(b) = &sheet.contents[0] else {
        panic!("expected a block");
    };
    let mut out = String::new();
    b.style_attributes[0].write_style(&mut out);
    assert_eq!(out, r#"content: ";";"#);
}

#[test]
fn test_sheet_len() {
    let parsed = Parser::parse("color: red; .a {} @media x and y {}").unwrap();
    assert_eq!(parsed.len(), 3);
    assert!(!parsed.is_empty());
}

#[test]
fn test_non_ascii_identifier() {
    let parsed = Parser::parse("börder-cölor: réd;").expect("Failed to Parse Style");
    let expected = Sheet::from(vec![block(
        vec![],
        vec![attr("börder-cölor", vec![lit("réd")])],
    )]);
    assert_eq!(parsed, expected);
}

#[test]
fn test_underscore_placeholder() {
    let parsed = Parser::parse("color: ${_x1};").expect("Failed to Parse Style");
    let expected = Sheet::from(vec![block(vec![], vec![attr("color", vec![ph("_x1")])])]);
    assert_eq!(parsed, expected);
}

#[test]
fn test_placeholder_with_inner_whitespace() {
    let parsed = Parser::parse("color: ${ theme };").expect("Failed to Parse Style");
    let expected = Sheet::from(vec![block(vec![], vec![attr("color", vec![ph("theme")])])]);
    assert_eq!(parsed, expected);
}

#[test]
fn test_trailing_comma_in_selector_list() {
    let parsed = Parser::parse("div, { color: red; }").expect("Failed to Parse Style");
    let expected = Sheet::from(vec![block(
        vec![sel(vec![lit("div")])],
        vec![attr("color", vec![lit("red")])],
    )]);
    assert_eq!(parsed, expected);
}

#[test]
fn test_attribute_without_trailing_semicolon() {
    let parsed = Parser::parse(".a { color: red }").expect("Failed to Parse Style");
    let expected = Sheet::from(vec![block(
        vec![sel(vec![lit(".a")])],
        vec![attr("color", vec![lit("red")])],
    )]);
    assert_eq!(parsed, expected);
}

#[test]
fn test_bare_dollar_is_an_error() {
    assert!(Parser::parse("width: 100$;").is_err());
}

#[test]
fn test_nested_media_rules() {
    let parsed =
        Parser::parse("@media a b { @media c d { color: red; } }").expect("Failed to Parse Style");
    let expected = Sheet::from(vec![ScopeContent::Rule(Rule {
        condition: vec![lit("@media "), lit("a b")],
        content: vec![RuleContent::Rule(Rule {
            condition: vec![lit("@media "), lit("c d")],
            content: vec![RuleContent::Block(Block {
                condition: vec![],
                style_attributes: vec![attr("color", vec![lit("red")])],
            })],
        })],
    })]);
    assert_eq!(parsed, expected);
}

#[test]
fn test_comment_splits_selector_literals() {
    let parsed = Parser::parse("div /*x*/ span { color: red; }").expect("Failed to Parse Style");
    let expected = Sheet::from(vec![block(
        vec![sel(vec![lit("div "), lit(" span")])],
        vec![attr("color", vec![lit("red")])],
    )]);
    assert_eq!(parsed, expected);
}
