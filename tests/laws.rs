use stilts::graph::find_block;
use stilts::types::Item;
use stilts::{chars_of, parse_template, Delims, Located};

fn covered(items: &[Item]) -> String {
    items.iter().map(|i| i.span().content()).collect()
}

#[test]
fn parsed_items_cover_the_text_without_gaps() {
    let mut seed: u64 = 0x2545_f491_4f6c_dd1d;
    let pieces = ["abc", "  ", "\n", "é", "{% x %}", "{% \"%}\" %}", "<p>", "%}"];
    for _ in 0..200 {
        let mut src = String::new();
        let n = (seed % 7) as usize + 1;
        for _ in 0..n {
            seed ^= seed << 13;
            seed ^= seed >> 7;
            seed ^= seed << 17;
            src.push_str(pieces[(seed % pieces.len() as u64) as usize]);
        }
        let chars = chars_of(&src);
        let root = parse_template(&chars, &Delims::default()).unwrap();
        assert_eq!(root.span.end_offset(), chars.len());
        assert_eq!(covered(&root.content), root.span.content());
        assert_eq!(root.span.offset(), 0);
    }
}

#[test]
fn block_bodies_are_covered_too() {
    let src = "x{% block a %} one {% b %} two {% block c %}3{% end %}{% end %}y";
    let chars = chars_of(src);
    let root = parse_template(&chars, &Delims::default()).unwrap();
    assert_eq!(covered(&root.content), src);
    match &root.content[1] {
        Item::Block(b) => {
            assert_eq!(covered(&b.content), b.body.content());
            assert_eq!(b.body.content(), " one {% b %} two {% block c %}3{% end %}");
        }
        _ => panic!("expected a block"),
    }
}

#[test]
fn plain_text_round_trips() {
    for src in ["a", "hello world", "  leading blanks", "ünïcödé\n\tlines\n", "% } { %"] {
        let chars = chars_of(src);
        let root = parse_template(&chars, &Delims::default()).unwrap();
        assert_eq!(root.content.len(), 1);
        match &root.content[0] {
            Item::Content(l) => assert_eq!(l.content(), src),
            _ => panic!("expected content"),
        }
    }
}

#[test]
fn nested_block_is_in_the_registry() {
    let src = "{% block outer %}{% block middle %}{% block inner %}deep{% end %}{% end %}{% end %}";
    let chars = chars_of(src);
    let root = parse_template(&chars, &Delims::default()).unwrap().into_owned();
    let found = find_block(&root.content, "inner").unwrap();
    assert_eq!(found.name, "inner");
    assert!(find_block(&root.content, "middle").is_some());
    assert!(find_block(&root.content, "outer").is_some());
    assert!(find_block(&root.content, "absent").is_none());
}

#[test]
fn later_block_of_the_same_name_wins() {
    let src = "{% block a %}{% block x %}first{% end %}{% end %}{% block x %}second{% end %}";
    let chars = chars_of(src);
    let root = parse_template(&chars, &Delims::default()).unwrap().into_owned();
    let found = find_block(&root.content, "x").unwrap();
    assert_eq!(format!("{:?}", found.content), "[Content(\"second\")]");
}

#[test]
fn cursor_slices_and_bytes() {
    let chars = chars_of("añb€c");
    let all = Located::new(&chars);
    assert_eq!(all.byte_len(), "añb€c".len());
    let s = all.try_slice(1, 4).unwrap();
    assert_eq!(s.content(), "ñb€");
    assert_eq!(s.byte_offset(), 1);
    assert_eq!(s.byte_len(), "ñb€".len());
    assert_eq!(s.offset(), 1);
    assert!(all.try_slice(2, 6).is_none());
    assert!(all.try_slice(3, 2).is_none());
    let t = all.slice(4, 5);
    assert_eq!(s.join(t).content(), "ñb€c");
    assert_eq!(s.here().content(), "");
    assert_eq!(s.span(), 1..4);
    assert_eq!(s.source(), "añb€c");
    assert_eq!(s.full(), "añb€c");
    assert_eq!(s.spanned(), "ñb€");
}

#[test]
fn line_and_column_of_a_byte_offset() {
    let chars = chars_of("ab\ncdé\nf");
    assert_eq!(stilts::get_line_col(&chars, 0), (1, 0));
    assert_eq!(stilts::get_line_col(&chars, 4), (2, 1));
    assert_eq!(stilts::get_line_col(&chars, "ab\ncdé\n".len()), (3, 0));
    assert_eq!(stilts::get_offset(&chars, 2, 2), 4);
    assert_eq!(stilts::get_offset(&chars, 9, 1), chars.len());
}

#[test]
fn delimiters_default_and_custom() {
    let d = Delims::default();
    assert_eq!(d.open(), "{%");
    assert_eq!(d.close(), "%}");
    let c = Delims::new("<<", ">>");
    assert_eq!(c.open(), "<<");
    assert_eq!(c.close(), ">>");
}
