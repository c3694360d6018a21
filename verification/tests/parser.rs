//! Parser tests: the original scenarios of the stylesheet grammar.

use stylist::ast::{Block, Rule, RuleContent, ScopeContent, Selector, Sheet, StringFragment,
    StyleAttribute};
use stylist::parser::Parser;

fn lit(s: &str) -> StringFragment {
    StringFragment::Literal(s.to_string())
}

fn ph(name: &str) -> StringFragment {
    StringFragment::Interpolation(name.to_string())
}

fn sel(fragments: Vec<StringFragment>) -> Selector {
    Selector { fragments }
}

fn attr(key: &str, value: Vec<StringFragment>) -> StyleAttribute {
    StyleAttribute { key: key.to_string(), value }
}

fn block(condition: Vec<Selector>, attrs: Vec<StyleAttribute>) -> ScopeContent {
    ScopeContent::Block(Block { condition, style_attributes: attrs })
}

fn media(condition: Vec<StringFragment>, content: Vec<RuleContent>) -> ScopeContent {
    ScopeContent::Rule(Rule { condition, content })
}

fn rblock(condition: Vec<Selector>, attrs: Vec<StyleAttribute>) -> RuleContent {
    RuleContent::Block(Block { condition, style_attributes: attrs })
}

#[test]
fn test_empty_rule() {
    let test_str = r#""#;
    assert!(Parser::parse(test_str)
        .expect("Failed to Parse Style")
        .is_empty());
}

#[test]
fn test_simple_example() {
    let test_str = r#"
            background-color: red;

            .nested {
                background-color: blue;
                width: 100px;
            }"#;
    let parsed = Parser::parse(test_str).expect("Failed to Parse Style");

    let expected = Sheet::from(vec![
        block(vec![], vec![attr("background-color", vec![lit("red")])]),
        block(
            vec![sel(vec![lit(".nested")])],
            vec![
                attr("background-color", vec![lit("blue")]),
                attr("width", vec![lit("100px")]),
            ],
        ),
    ]);
    assert_eq!(parsed, expected);
}

#[test]
fn test_simple_selector_with_at() {
    let test_str = r#"
            background-color: red;
            content: ";";

            [placeholder="someone@example.com"] {
                background-color: blue;
                width: 100px;
            }"#;
    let parsed = Parser::parse(test_str).expect("Failed to Parse Style");

    let expected = Sheet::from(vec![
        block(
            vec![],
            vec![
                attr("background-color", vec![lit("red")]),
                attr("content", vec![lit(r#"";""#)]),
            ],
        ),
        block(
            vec![sel(vec![lit(r#"[placeholder="someone@example.com"]"#)])],
            vec![
                attr("background-color", vec![lit("blue")]),
                attr("width", vec![lit("100px")]),
            ],
        ),
    ]);
    assert_eq!(parsed, expected);
}

#[test]
fn test_simple_escape() {
    let test_str = r#"
            [placeholder="\" {}"] {
                background-color: blue;
                width: 100px;
            }"#;
    let parsed = Parser::parse(test_str).expect("Failed to Parse Style");

    let expected = Sheet::from(vec![block(
        vec![sel(vec![lit(r#"[placeholder="\" {}"]"#)])],
        vec![
            attr("background-color", vec![lit("blue")]),
            attr("width", vec![lit("100px")]),
        ],
    )]);
    assert_eq!(parsed, expected);
}

#[test]
fn test_rule_with_ampersand() {
    let test_str = r#"
            &:hover {
                background-color: #d0d0d9;
            }"#;
    let parsed = Parser::parse(test_str).expect("Failed to Parse Style");

    let expected = Sheet::from(vec![block(
        vec![sel(vec![lit("&:hover")])],
        vec![attr("background-color", vec![lit("#d0d0d9")])],
    )]);
    assert_eq!(parsed, expected);
}

#[test]
fn test_multiple_media_queries() {
    let test_str = r#"
                @media screen and (max-width: 500px) {
                    background-color: red;
                }

                @media screen and (max-width: 200px) {
                    color: yellow;
                }

            "#;
    let parsed = Parser::parse(test_str).expect("Failed to Parse Style");

    let expected = Sheet::from(vec![
        media(
            vec![lit("@media "), lit("screen and (max-width: 500px)")],
            vec![rblock(vec![], vec![attr("background-color", vec![lit("red")])])],
        ),
        media(
            vec![lit("@media "), lit("screen and (max-width: 200px)")],
            vec![rblock(vec![], vec![attr("color", vec![lit("yellow")])])],
        ),
    ]);
    assert_eq!(parsed, expected);
}

#[test]
fn test_media_query_then_normal_class() {
    let test_str = r#"
                @media screen and (max-width: 500px) {
                    background-color: red;
                }

                .some-class2 {
                    color: yellow;
                }

            "#;
    let parsed = Parser::parse(test_str).expect("Failed to Parse Style");

    let expected = Sheet::from(vec![
        media(
            vec![lit("@media "), lit("screen and (max-width: 500px)")],
            vec![rblock(vec![], vec![attr("background-color", vec![lit("red")])])],
        ),
        block(
            vec![sel(vec![lit(".some-class2")])],
            vec![attr("color", vec![lit("yellow")])],
        ),
    ]);
    assert_eq!(parsed, expected);
}

#[test]
fn test_selector_list() {
    let test_str = r#"
                div, span {
                    color: yellow;
                }

                &, & input {
                    color: pink;
                }

            "#;
    let parsed = Parser::parse(test_str).expect("Failed to Parse Style");

    let expected = Sheet::from(vec![
        block(
            vec![sel(vec![lit("div")]), sel(vec![lit("span")])],
            vec![attr("color", vec![lit("yellow")])],
        ),
        block(
            vec![sel(vec![lit("&")]), sel(vec![lit("& input")])],
            vec![attr("color", vec![lit("pink")])],
        ),
    ]);
    assert_eq!(parsed, expected);
}

#[test]
fn test_supports_rule() {
    let test_str = r#"
                @supports (backdrop-filter: blur(2px)) or (-webkit-backdrop-filter: blur(2px)) {
                    backdrop-filter: blur(2px);
                    -webkit-backdrop-filter: blur(2px);
                    background-color: rgb(0, 0, 0, 0.7);
                }

                @supports not ((backdrop-filter: blur(2px)) or (-webkit-backdrop-filter: blur(2px))) {
                    background-color: rgb(25, 25, 25);
                }

            "#;
    let parsed = Parser::parse(test_str).expect("Failed to Parse Style");

    let expected = Sheet::from(vec![
        media(
            vec![
                lit("@supports "),
                lit("(backdrop-filter: blur(2px)) or (-webkit-backdrop-filter: blur(2px))"),
            ],
            vec![rblock(
                vec![],
                vec![
                    attr("backdrop-filter", vec![lit("blur(2px)")]),
                    attr("-webkit-backdrop-filter", vec![lit("blur(2px)")]),
                    attr("background-color", vec![lit("rgb(0, 0, 0, 0.7)")]),
                ],
            )],
        ),
        media(
            vec![
                lit("@supports "),
                lit("not ((backdrop-filter: blur(2px)) or (-webkit-backdrop-filter: blur(2px)))"),
            ],
            vec![rblock(
                vec![],
                vec![attr("background-color", vec![lit("rgb(25, 25, 25)")])],
            )],
        ),
    ]);
    assert_eq!(parsed, expected);
}

#[test]
fn test_selectors_list_2() {
    assert_eq!(Parser::selector("&", 0), Some((sel(vec![lit("&")]), 1)));
    assert_eq!(
        Parser::selector("& input", 0),
        Some((sel(vec![lit("& input")]), 7))
    );
}

#[test]
fn test_interpolation() {
    let test_str = r#"
            background-color: red;

            .nested, ${var_a} {
                background-color: blue;
                width: 100px;
            }"#;
    let parsed = Parser::parse(test_str).expect("Failed to Parse Style");

    let expected = Sheet::from(vec![
        block(vec![], vec![attr("background-color", vec![lit("red")])]),
        block(
            vec![sel(vec![lit(".nested")]), sel(vec![ph("var_a")])],
            vec![
                attr("background-color", vec![lit("blue")]),
                attr("width", vec![lit("100px")]),
            ],
        ),
    ]);
    assert_eq!(parsed, expected);
}

#[test]
fn test_empty_block() {
    let test_str = r#".nested {}"#;
    let parsed = Parser::parse(test_str).expect("Failed to Parse Style");

    let expected = Sheet::from(vec![block(vec![sel(vec![lit(".nested")])], vec![])]);
    assert_eq!(parsed, expected);
}

#[test]
fn test_empty_media_rule() {
    let test_str = r#"@media screen and (max-width: 500px) {}"#;
    let parsed = Parser::parse(test_str).expect("Failed to Parse Style");

    let expected = Sheet::from(vec![media(
        vec![lit("@media "), lit("screen and (max-width: 500px)")],
        vec![],
    )]);
    assert_eq!(parsed, expected);
}

#[test]
fn test_empty() {
    let test_str = r#""#;
    let parsed = Parser::parse(test_str).expect("Failed to Parse Style");

    let expected = Sheet::from(vec![]);
    assert_eq!(parsed, expected);
}

#[test]
fn test_pseudo_sel() {
    let test_str = r#"
                color: ${color};

                span, ${sel_div} {
                    background-color: blue;
                }

                :not(${sel_root}) {
                    background-color: black;
                }

                @media screen and ${breakpoint} {
                    display: flex;
                }
            "#;
    let parsed = Parser::parse(test_str).expect("Failed to Parse Style");

    let expected = Sheet::from(vec![
        block(vec![], vec![attr("color", vec![ph("color")])]),
        block(
            vec![sel(vec![lit("span")]), sel(vec![ph("sel_div")])],
            vec![attr("background-color", vec![lit("blue")])],
        ),
        block(
            vec![sel(vec![lit(":not("), ph("sel_root"), lit(")")])],
            vec![attr("background-color", vec![lit("black")])],
        ),
        media(
            vec![lit("@media "), lit("screen and "), ph("breakpoint")],
            vec![rblock(vec![], vec![attr("display", vec![lit("flex")])])],
        ),
    ]);
    assert_eq!(parsed, expected);
}

#[test]
fn test_comment() {
    let test_str = r#"
                /* some comment */
                color: /**/${color};

                span, ${sel_div} {
                    /* comment before block */
                    background-color /* comment before colon */ : blue /* comment after attribute */;
                    /* comment after block */
                }

                :not(${sel_root}) {
                    background-color: black;
                }

                @media screen and ${breakpoint} {
                    /* a comment with * */
                    display: flex;
                }
            "#;
    let parsed = Parser::parse(test_str).expect("Failed to Parse Style");

    let expected = Sheet::from(vec![
        block(vec![], vec![attr("color", vec![ph("color")])]),
        block(
            vec![sel(vec![lit("span")]), sel(vec![ph("sel_div")])],
            vec![attr("background-color", vec![lit("blue")])],
        ),
        block(
            vec![sel(vec![lit(":not("), ph("sel_root"), lit(")")])],
            vec![attr("background-color", vec![lit("black")])],
        ),
        media(
            vec![lit("@media "), lit("screen and "), ph("breakpoint")],
            vec![rblock(vec![], vec![attr("display", vec![lit("flex")])])],
        ),
    ]);
    assert_eq!(parsed, expected);
}

#[test]
fn test_pseudo_sel_escaped() {
    let test_str = r#"
                color: "$${color}";

                span, ${sel_div} {
                    background-color: blue;
                }

                :not(${sel_root}) {
                    background-color: black;
                }

                @media screen and ${breakpoint} {
                    display: flex;
                }
            "#;
    let parsed = Parser::parse(test_str).expect("Failed to Parse Style");

    let expected = Sheet::from(vec![
        block(vec![], vec![attr("color", vec![lit("\"$${color}\"")])]),
        block(
            vec![sel(vec![lit("span")]), sel(vec![ph("sel_div")])],
            vec![attr("background-color", vec![lit("blue")])],
        ),
        block(
            vec![sel(vec![lit(":not("), ph("sel_root"), lit(")")])],
            vec![attr("background-color", vec![lit("black")])],
        ),
        media(
            vec![lit("@media "), lit("screen and "), ph("breakpoint")],
            vec![rblock(vec![], vec![attr("display", vec![lit("flex")])])],
        ),
    ]);
    assert_eq!(parsed, expected);
}
