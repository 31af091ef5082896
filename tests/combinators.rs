use stilts::graph::{extension, TemplateSource};
use stilts::{
    chars_of, expect_end, find, ident, multispace0, parse_template, space0, space1, string_contents, tag,
    take_till, take_until, Delims, ErrMode, Located,
};

#[test]
fn tag_matches_backtracks_or_needs_more() {
    let chars = chars_of("{% x");
    let input = Located::new(&chars);
    let lit = chars_of("{%");
    let (rest, m) = tag(input, &lit).ok().unwrap();
    assert_eq!(m.content(), "{%");
    assert_eq!(rest.content(), " x");
    let other = chars_of("%}");
    assert!(matches!(tag(input, &other), Err(ErrMode::Backtrack(_))));
    let short = chars_of("{");
    let short_in = Located::new(&short);
    assert!(matches!(tag(short_in, &lit), Err(ErrMode::Incomplete(_))));
}

#[test]
fn take_until_stops_before_and_take_till_consumes() {
    let chars = chars_of("abc%}def%}");
    let input = Located::new(&chars);
    let pat = chars_of("%}");
    let (rest, taken) = take_until(input, &pat).ok().unwrap();
    assert_eq!(taken.content(), "abc");
    assert_eq!(rest.content(), "%}def%}");
    let (rest, skipped, m) = take_till(input, &pat).ok().unwrap();
    assert_eq!(skipped.content(), "abc");
    assert_eq!(m.content(), "%}");
    assert_eq!(rest.content(), "def%}");
    let none = chars_of("#");
    assert!(matches!(take_until(input, &none), Err(ErrMode::Backtrack(_))));
    assert_eq!(find(input, &pat, 4), Some(8));
}

#[test]
fn blanks_and_identifiers() {
    let chars = chars_of(" \t\nname_1 rest");
    let input = Located::new(&chars);
    let (after_space, sp) = space0(input);
    assert_eq!(sp.content(), " \t");
    assert!(space1(after_space).is_err());
    let (after_all, _) = multispace0(input);
    let (rest, name) = ident(after_all).ok().unwrap();
    assert_eq!(name.content(), "name_1");
    assert_eq!(rest.content(), " rest");
    let digits = chars_of("1abc");
    assert!(ident(Located::new(&digits)).is_err());
}

#[test]
fn string_literal_with_escapes() {
    let chars = chars_of("\"a\\\"b\\\\\" tail");
    let (rest, value) = string_contents(Located::new(&chars)).ok().unwrap();
    assert_eq!(value, "a\"b\\");
    assert_eq!(rest.content(), " tail");
    let bad = chars_of("\"a\\nb\"");
    assert!(string_contents(Located::new(&bad)).is_err());
    let open = chars_of("\"never closed");
    assert!(string_contents(Located::new(&open)).is_err());
}

#[test]
fn expect_end_rewrites_incomplete_and_keeps_cut() {
    let chars = chars_of("{% for x in y %}");
    let tag_window = Located::new(&chars);
    let incomplete = ErrMode::Incomplete(stilts::Diagnostic::new("ran out"));
    match expect_end(tag_window, incomplete) {
        ErrMode::Cut(d) => {
            assert_eq!(d.message, "expected closing {% end %} expression");
            assert_eq!(d.span_bytes, Some((0, chars.len())));
        }
        other => panic!("expected a cut, got {other:?}"),
    }
    let cut = ErrMode::Cut(stilts::Diagnostic::new("kept"));
    match expect_end(tag_window, cut) {
        ErrMode::Cut(d) => assert_eq!(d.message, "kept"),
        other => panic!("expected a cut, got {other:?}"),
    }
}

#[test]
fn media_type_and_extension_of_a_reference() {
    assert_eq!(TemplateSource::new_file("pages/index.html").mime_type(), Some("text/html".to_string()));
    assert_eq!(TemplateSource::Literal("x".to_string()).mime_type(), None);
    assert_eq!(TemplateSource::new_file("a.js").as_path(), Some("a.js".to_string()));
    assert_eq!(extension("dir.d/page.html"), "html");
    assert_eq!(extension("dir.d/.hidden"), "");
    assert_eq!(extension("noext"), "");
}

#[test]
fn host_failure_is_marked_inside_its_fragment() {
    let src = "ab {% let = 3; %}";
    let chars = chars_of(src);
    let err = parse_template(&chars, &Delims::default()).err().unwrap();
    let (offset, len) = err.span_bytes.unwrap();
    assert!(offset >= "ab {% ".len());
    assert!(offset + len <= src.len());
    assert!(!err.message.is_empty());
}

#[test]
fn diagnostic_at_the_end_of_a_text_quotes_its_last_line() {
    let chars = chars_of("ab\n");
    let at = Located::new(&chars).slice(3, 3);
    let d = stilts::Diagnostic::new("m").span(at);
    assert_eq!(d.display_simple(), "m [2:0] \"ab\"");
    let mid = Located::new(&chars).slice(1, 2);
    assert_eq!(stilts::Diagnostic::new("m").span(mid).display_simple(), "m [1:1] \"ab\"");
}
