use protomatrix::kicad9::error::Error;
use protomatrix::kicad9::sexp::{parse, Sexp};

fn parse_error(input: &str) -> (String, Option<usize>) {
    match parse(input) {
        Err(Error::Parse { message, offset }) => (message, offset),
        other => panic!("expected a parse error, got {:?}", other),
    }
}

#[test]
fn parses_nested_lists_atoms_numbers_and_strings() {
    let s = parse("  (pad \"1\" thru_hole circle (at -1.27 0) (layers \"*.Cu\" \"*.Mask\"))  ").unwrap();
    assert_eq!(s.list_name(), Some("pad"));
    let rest = s.list_rest().unwrap();
    assert_eq!(rest.len(), 5);
    assert_eq!(rest[0].string(), Some("1"));
    assert_eq!(rest[1].string(), Some("thru_hole"));
    assert_eq!(rest[2].string(), Some("circle"));
    let at = s.find("at").unwrap();
    let at_rest = at.as_list().unwrap();
    assert_eq!(at_rest[0].string(), Some("-1.27"));
    assert_eq!(at_rest[1].string(), Some("0"));
    let layers = s.find("layers").unwrap().list_rest().unwrap();
    assert_eq!(layers[0].string(), Some("*.Cu"));
    assert_eq!(layers[1].string(), Some("*.Mask"));
    assert!(s.find("size").is_none());
}

#[test]
fn quoted_strings_keep_spaces_and_escapes() {
    let s = parse("(descr \"a \\\"b\\\" c\")").unwrap();
    let rest = s.list_rest().unwrap();
    assert_eq!(rest[0].string(), Some("a \"b\" c"));
}

#[test]
fn quoted_list_name() {
    let s = parse("(\"my name\" x)").unwrap();
    assert_eq!(s.list_name(), Some("my name"));
}

#[test]
fn find_all_keeps_order() {
    let s = parse("(f (p 1) (q 2) (p 3) x)").unwrap();
    let ps = s.find_all("p");
    assert_eq!(ps.len(), 2);
    assert_eq!(ps[0].list_rest().unwrap()[0].string(), Some("1"));
    assert_eq!(ps[1].list_rest().unwrap()[0].string(), Some("3"));
    let first = s.find("p").unwrap();
    assert_eq!(first.list_rest().unwrap()[0].string(), Some("1"));
    assert!(s.find_all("z").is_empty());
}

#[test]
fn atom_accessors() {
    let s = parse("word").unwrap();
    assert_eq!(s.string(), Some("word"));
    assert!(s.list_name().is_none());
    assert!(s.list_rest().is_none());
    assert!(s.as_list().is_none());
    assert!(s.find("word").is_none());
    assert!(s.find_all("word").is_empty());
    match s {
        Sexp::Atom(t) => assert_eq!(t, "word"),
        Sexp::List(..) => panic!("expected an atom"),
    }
}

#[test]
fn error_on_empty_input() {
    assert_eq!(parse_error(""), ("Unexpected end of input".to_string(), Some(0)));
    assert_eq!(parse_error("   "), ("Unexpected end of input".to_string(), Some(3)));
}

#[test]
fn error_on_unclosed_list() {
    assert_eq!(parse_error("(a"), ("Unclosed list".to_string(), Some(2)));
}

#[test]
fn error_on_trailing_content() {
    assert_eq!(
        parse_error("(a) )"),
        ("Trailing content after s-expression".to_string(), Some(4))
    );
}

#[test]
fn error_on_unexpected_character() {
    assert_eq!(parse_error(")"), ("Unexpected character ')'".to_string(), Some(0)));
}

#[test]
fn error_offset_counts_bytes() {
    assert_eq!(parse_error("(é !)"), ("Unexpected character '!'".to_string(), Some(4)));
}

#[test]
fn error_on_nested_list_as_name() {
    assert_eq!(
        parse_error("(()"),
        ("Empty list or nested list as list name".to_string(), Some(1))
    );
}

#[test]
fn error_on_unclosed_string() {
    assert_eq!(parse_error("(a \"bc"), ("Unclosed string".to_string(), Some(6)));
}

#[test]
fn negative_number_and_lone_minus() {
    let s = parse("(n -3.5 -)").unwrap();
    let rest = s.list_rest().unwrap();
    assert_eq!(rest[0].string(), Some("-3.5"));
    assert_eq!(rest[1].string(), Some("-"));
}

#[test]
fn error_display_text() {
    let e = match parse("") {
        Err(e) => e,
        Ok(_) => panic!("expected an error"),
    };
    assert_eq!(e.display(), "Parse error at offset 0: Unexpected end of input");
    let e2 = Error::Parse { message: "pad: expected list".to_string(), offset: None };
    assert_eq!(e2.display(), "Parse error: pad: expected list");
}

#[test]
fn surrounding_whitespace_reads_the_same() {
    let plain = parse("(footprint \"A\" (layer F.Cu) 12 x_y)").unwrap();
    let padded = parse(" \t\n\r(footprint \"A\" (layer F.Cu) 12 x_y)\u{a0}\n  ").unwrap();
    assert_eq!(format!("{:?}", plain), format!("{:?}", padded));
    let atom = parse("abc").unwrap();
    let atom_padded = parse("\u{3000}abc\u{2028}").unwrap();
    assert_eq!(format!("{:?}", atom), format!("{:?}", atom_padded));
}

#[test]
fn find_is_first_of_find_all() {
    let s = parse("(fp (pad \"2\") x (pad \"1\") (layer F.Cu))").unwrap();
    let all = s.find_all("pad");
    assert_eq!(all.len(), 2);
    assert_eq!(format!("{:?}", s.find("pad")), format!("{:?}", Some(all[0])));
    assert!(s.find("model").is_none());
    assert!(s.find_all("model").is_empty());
    let atom = parse("x").unwrap();
    assert!(atom.find("pad").is_none());
    assert!(atom.find_all("pad").is_empty());
}
