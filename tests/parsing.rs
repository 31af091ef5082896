use stilts::types::{
    OwnedArm, OwnedBlock, OwnedBranch, OwnedExpr, OwnedFor, OwnedIf, OwnedItem, OwnedMacro,
    OwnedMatch, OwnedRoot,
};
use stilts::{chars_of, delimited, parse_template, Delims, Located};

const TEMPLATE: &str = r###"
{% extends "base.html" %}

{% fn my_func(s: &str) -> String {
    let mut out = "OOF".to_string();
    out.push_str(s);
    out
} %}

{% macro my_mac(time: std::time::Duration) %}
    INSIDE MY MAC
{% end %}

{% block head %}
    {% a %}
    {% super() %}
    overwrites
{% end %}

{% block header %}
    {% for i in 0..10 %}
        {% match i %}
            {% when 2 if i != 0 %}
                {% i.json() %}
            {% when 3 | 4 %}
                {% a %}
            {% when _ %}
        {% end %}
    {% end %}
    {% if true %}
        {% a %}
    {% else %}
        {% a %}
    {% end %}
{% end %}

{% block main %}
    {% "Hello Word" %}
    {% include "other.html" %}
    {% a %}
{% end %}

{% block footer %}
    {% call my_mac(std::time::Duration::from_secs(50)) %}
    {% my_func(s) %}
{% end %}
"###;

const TEMPLATE_RAW: &str = r###"
{% extends "base.html" %}

{% fn my_func(s: &str) -> String {
    let mut out = "OOF".to_string();
    out.push_str(s);
    out
} %}

{% macro my_mac(time: std::time::Duration) %}
    INSIDE MY MAC
{% end %}

{% block head %}
    {% a %}
    {% super() %}
    overwrites
{% end %}

{% block header %}
    {% for i in 0..10 %}
        {% match i %}
            {% when 2 if i != 0 %}
                {% i.json() %}
            {% when 3 | 4 %}
                {% a %}
            {% when _ %}
        {% end %}
    {% end %}
    {% if true %}
        {% a %}
    {% else %}
        {% a %}
    {% end %}
{% end %}

{% block main %}
    {% "Hello Word" %}
    {% include "other.html" %}
    {% a %}
{% end %}

{% block footer %}
    {% call my_mac(std::time::Duration::from_secs(50)) %}
    {% let s = r#"MYSTR%}"#; %}
    {% my_func(s) %}
{% end %}
"###;

fn text(s: &str) -> OwnedItem {
    OwnedItem::Content(s.to_string())
}

fn expr(s: &str) -> OwnedItem {
    OwnedItem::Expr(OwnedExpr::Expr(s.to_string()))
}

fn block(name: &str, content: Vec<OwnedItem>) -> OwnedItem {
    OwnedItem::Block(OwnedBlock { name: name.to_string(), content })
}

fn parse_owned(src: &str) -> Result<OwnedRoot, stilts::Diagnostic> {
    let chars = chars_of(src);
    parse_template(&chars, &Delims::default()).map(|r| r.into_owned())
}

#[test]
fn lib_parse_example_template() {
    let res = parse_owned(TEMPLATE).unwrap();
    let expects = OwnedRoot {
        content: vec![
            OwnedItem::Expr(OwnedExpr::Extends("base.html".to_string())),
            text("\n\n"),
            OwnedItem::Expr(OwnedExpr::Stmt(
                "fn my_func(s: &str) -> String {\n    let mut out = \"OOF\".to_string();\n    out.push_str(s);\n    out\n}"
                    .to_string(),
            )),
            text("\n\n"),
            OwnedItem::Macro(OwnedMacro {
                name: "my_mac".to_string(),
                args: "time: std::time::Duration".to_string(),
                content: vec![text("\n    INSIDE MY MAC\n")],
            }),
            text("\n\n"),
            block(
                "head",
                vec![
                    text("\n    "),
                    expr("a"),
                    text("\n    "),
                    OwnedItem::Expr(OwnedExpr::SuperCall),
                    text("\n    overwrites\n"),
                ],
            ),
            text("\n\n"),
            block(
                "header",
                vec![
                    text("\n    "),
                    OwnedItem::For(OwnedFor {
                        pat: "i".to_string(),
                        expr: "0..10".to_string(),
                        content: vec![
                            text("\n        "),
                            OwnedItem::Match(OwnedMatch {
                                expr: "i".to_string(),
                                arms: vec![
                                    OwnedArm {
                                        pat: "2".to_string(),
                                        guard: Some("i != 0".to_string()),
                                        content: vec![text("\n                "), expr("i.json()"), text("\n            ")],
                                    },
                                    OwnedArm {
                                        pat: "3 | 4".to_string(),
                                        guard: None,
                                        content: vec![text("\n                "), expr("a"), text("\n            ")],
                                    },
                                    OwnedArm {
                                        pat: "_".to_string(),
                                        guard: None,
                                        content: vec![text("\n        ")],
                                    },
                                ],
                            }),
                            text("\n    "),
                        ],
                    }),
                    text("\n    "),
                    OwnedItem::If(OwnedIf {
                        cond: "true".to_string(),
                        content: vec![text("\n        "), expr("a"), text("\n    ")],
                        branch: OwnedBranch::Else {
                            content: vec![text("\n        "), expr("a"), text("\n    ")],
                        },
                    }),
                    text("\n"),
                ],
            ),
            text("\n\n"),
            block(
                "main",
                vec![
                    text("\n    "),
                    expr("\"Hello Word\""),
                    text("\n    "),
                    OwnedItem::Expr(OwnedExpr::Include { reference: "other.html".to_string(), args: String::new() }),
                    text("\n    "),
                    expr("a"),
                    text("\n"),
                ],
            ),
            text("\n\n"),
            block(
                "footer",
                vec![
                    text("\n    "),
                    OwnedItem::Expr(OwnedExpr::MacroCall {
                        name: "my_mac".to_string(),
                        args: "std::time::Duration::from_secs(50)".to_string(),
                    }),
                    text("\n    "),
                    expr("my_func(s)"),
                    text("\n"),
                ],
            ),
            text("\n"),
        ],
    };
    assert_eq!(res.content.len(), expects.content.len());
    for (i, (got, want)) in res.content.iter().zip(expects.content.iter()).enumerate() {
        assert_eq!(got, want, "item {i}");
    }
    assert_eq!(res, expects);
}

#[test]
fn tests_parse_example_template() {
    parse_owned(TEMPLATE_RAW).unwrap();
}

#[test]
fn raw_string_holding_the_closing_delimiter_stays_one_statement() {
    let root = parse_owned("{% let s = r#\"MYSTR%}\"#; %}").unwrap();
    assert_eq!(
        root.content,
        vec![OwnedItem::Expr(OwnedExpr::Stmt("let s = r#\"MYSTR%}\"#;".to_string()))]
    );
}

#[test]
fn text_without_constructs_is_one_content_item() {
    let src = "Just some <b>text</b>, no constructs at all.\n";
    let root = parse_owned(src).unwrap();
    assert_eq!(root.content, vec![text(src)]);
}

#[test]
fn closing_delimiter_inside_a_string_does_not_close() {
    let chars = chars_of("{% call f(\"%}\") %}");
    let input = Located::new(&chars);
    let (rest, inner, whole) = delimited(input, &Delims::default()).ok().unwrap();
    assert_eq!(inner.content(), "call f(\"%}\") ");
    assert_eq!(whole.content(), "{% call f(\"%}\") %}");
    assert_eq!(rest.len(), 0);
    let root = parse_owned("{% call f(\"%}\") %}").unwrap();
    assert_eq!(
        root.content,
        vec![OwnedItem::Expr(OwnedExpr::MacroCall { name: "f".to_string(), args: "\"%}\"".to_string() })]
    );
}

#[test]
fn unterminated_if_points_at_its_opening_tag() {
    let err = parse_owned("{% if true %} no end").err().unwrap();
    assert_eq!(err.message, "expected closing {% end %} expression");
    assert_eq!(err.label_text, "opening block expression");
    assert_eq!(err.span_bytes, Some((0, "{% if true %}".len())));
}

#[test]
fn unterminated_block_after_text_points_at_its_tag() {
    let src = "héllo {% block b %}body";
    let err = parse_owned(src).err().unwrap();
    assert_eq!(err.message, "expected closing {% end %} expression");
    assert_eq!(err.span_bytes, Some(("héllo ".len(), "{% block b %}".len())));
    assert_eq!(err.display_simple(), "expected closing {% end %} expression [1:6] \"héllo {% block b %}body\"");
}

#[test]
fn extends_after_the_first_item_is_refused() {
    let err = parse_owned("a {% extends \"x\" %}").err().unwrap();
    assert_eq!(err.message, "extends must be the first item of a template");
}

#[test]
fn block_inside_for_is_refused() {
    let err = parse_owned("{% for x in xs %}{% block b %}{% end %}{% end %}").err().unwrap();
    assert_eq!(err.message, "block is not allowed here");
}

#[test]
fn host_code_that_does_not_parse_is_an_error() {
    assert!(parse_owned("{% 1 + %}").is_err());
}

#[test]
fn else_if_chain_and_custom_delimiters() {
    let chars = chars_of("<<if a>>A<<else if b>>B<<else>>C<<end>>");
    let root = parse_template(&chars, &Delims::new("<<", ">>")).unwrap().into_owned();
    assert_eq!(
        root.content,
        vec![OwnedItem::If(OwnedIf {
            cond: "a".to_string(),
            content: vec![text("A")],
            branch: OwnedBranch::ElseIf {
                cond: "b".to_string(),
                content: vec![text("B")],
                branch: Box::new(OwnedBranch::Else { content: vec![text("C")] }),
            },
        })]
    );
}

#[test]
fn unclosed_tag_at_root_is_an_error() {
    let err = parse_owned("a {% b").err().unwrap();
    assert_eq!(err.message, "expected a closing delimiter");
    assert_eq!(err.span_bytes, Some((2, 0)));
    assert!(parse_owned("{% %}").is_err());
}

#[test]
fn include_with_fields() {
    let root = parse_owned("{% include \"row.html\" x: 1, y: 2 %}").unwrap();
    assert_eq!(
        root.content,
        vec![OwnedItem::Expr(OwnedExpr::Include { reference: "row.html".to_string(), args: "x: 1, y: 2".to_string() })]
    );
}

#[test]
fn string_escapes_in_references() {
    let root = parse_owned("{% extends \"a\\\"b\\\\c\" %}").unwrap();
    assert_eq!(root.content, vec![OwnedItem::Expr(OwnedExpr::Extends("a\"b\\c".to_string()))]);
}

#[test]
fn for_and_when_split_at_any_blank() {
    let root = parse_owned("{% for x\tin\nxs %}{% match x %}{% when 1\nif y %}a{% end %}{% end %}").unwrap();
    match &root.content[0] {
        OwnedItem::For(f) => {
            assert_eq!(f.pat, "x");
            assert_eq!(f.expr, "xs");
            match &f.content[0] {
                OwnedItem::Match(m) => {
                    assert_eq!(m.arms.len(), 1);
                    assert_eq!(m.arms[0].pat, "1");
                    assert_eq!(m.arms[0].guard, Some("y".to_string()));
                }
                other => panic!("expected a match, got {other:?}"),
            }
        }
        other => panic!("expected a for, got {other:?}"),
    }
}

#[test]
fn quote_in_a_character_literal_opens_no_string() {
    let root = parse_owned("{% c == '\"' %}x").unwrap();
    assert_eq!(
        root.content,
        vec![OwnedItem::Expr(OwnedExpr::Expr("c == '\"'".to_string())), text("x")]
    );
}
