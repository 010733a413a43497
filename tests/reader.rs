use chibi::{ParseTree, Primitive, categorize, parse, tokenize};

fn atom(p: Primitive) -> ParseTree {
    ParseTree::Element(p)
}

fn ident(s: &str) -> Primitive {
    Primitive::Identifier(String::from(s))
}

#[test]
fn parses_expressions() {
    let parse_tree = ParseTree::List(vec![ParseTree::List(vec![
        atom(ident("+")),
        atom(Primitive::Integer(1)),
        ParseTree::List(vec![
            atom(ident("-")),
            atom(Primitive::Integer(1)),
            atom(Primitive::Integer(1)),
        ]),
    ])]);
    assert_eq!(parse("(+ 1 (- 1 1))"), parse_tree);
}

#[test]
fn parses_primatives() {
    assert_eq!(parse("123"), ParseTree::List(vec![atom(Primitive::Integer(123))]));
    assert_eq!(
        parse("\"string\""),
        ParseTree::List(vec![atom(Primitive::String(String::from("string")))])
    );
    assert_eq!(parse("1.5"), ParseTree::List(vec![atom(Primitive::Float(String::from("1.5")))]));
    assert_eq!(parse("hello"), ParseTree::List(vec![atom(ident("hello"))]));
}

#[test]
fn tokenize_isolates_parentheses() {
    assert_eq!(tokenize("(+ 1 1)"), vec!["(", "+", "1", "1", ")"]);
    assert_eq!(tokenize("  (a\t(b))\n"), vec!["(", "a", "(", "b", ")", ")"]);
    assert!(tokenize("   ").is_empty());
}

#[test]
fn literal_tokens_read_alone() {
    assert_eq!(parse("-5"), ParseTree::List(vec![atom(Primitive::Integer(-5))]));
    assert_eq!(parse("foo"), ParseTree::List(vec![atom(ident("foo"))]));
    assert_eq!(parse("\"hi\""), ParseTree::List(vec![atom(Primitive::String(String::from("hi")))]));
}

#[test]
fn integers_truncate_and_clamp() {
    assert_eq!(categorize(&String::from("1e3")), atom(Primitive::Integer(1000)));
    assert_eq!(categorize(&String::from("12e-1")), atom(Primitive::Integer(1)));
    assert_eq!(categorize(&String::from("-19e-1")), atom(Primitive::Integer(-1)));
    assert_eq!(categorize(&String::from("5e-3")), atom(Primitive::Integer(0)));
    assert_eq!(categorize(&String::from("99999999999")), atom(Primitive::Integer(i32::MAX)));
    assert_eq!(categorize(&String::from("-99999999999")), atom(Primitive::Integer(i32::MIN)));
    assert_eq!(categorize(&String::from("2147483647")), atom(Primitive::Integer(i32::MAX)));
    assert_eq!(categorize(&String::from("+42")), atom(Primitive::Integer(42)));
    assert_eq!(categorize(&String::from("1E999999999999999999999")), atom(Primitive::Integer(i32::MAX)));
    assert_eq!(categorize(&String::from("0e999")), atom(Primitive::Integer(0)));
}

#[test]
fn special_float_words_read_as_integers() {
    assert_eq!(categorize(&String::from("inf")), atom(Primitive::Integer(i32::MAX)));
    assert_eq!(categorize(&String::from("-Infinity")), atom(Primitive::Integer(i32::MIN)));
    assert_eq!(categorize(&String::from("NaN")), atom(Primitive::Integer(0)));
}

#[test]
fn floats_keep_their_text() {
    assert_eq!(categorize(&String::from(".5")), atom(Primitive::Float(String::from(".5"))));
    assert_eq!(categorize(&String::from("1.")), atom(Primitive::Float(String::from("1."))));
    assert_eq!(categorize(&String::from("-2.5e3")), atom(Primitive::Float(String::from("-2.5e3"))));
}

#[test]
fn non_numbers_are_symbols() {
    assert_eq!(categorize(&String::from("-")), atom(ident("-")));
    assert_eq!(categorize(&String::from("e5")), atom(ident("e5")));
    assert_eq!(categorize(&String::from("1.2.3")), atom(ident("1.2.3")));
    assert_eq!(categorize(&String::from(".")), atom(ident(".")));
    assert_eq!(categorize(&String::from("1e")), atom(ident("1e")));
    assert_eq!(categorize(&String::from("\"")), atom(ident("\"")));
}

#[test]
fn reader_is_lenient() {
    assert_eq!(parse(")"), ParseTree::List(vec![]));
    assert_eq!(
        parse("a ) b"),
        ParseTree::List(vec![atom(ident("a")), atom(ident("b"))])
    );
    assert_eq!(
        parse("(+ 1"),
        ParseTree::List(vec![ParseTree::List(vec![atom(ident("+")), atom(Primitive::Integer(1))])])
    );
    assert_eq!(parse("()"), ParseTree::List(vec![ParseTree::List(vec![])]));
}

#[test]
fn sibling_expressions_share_the_top_level() {
    assert_eq!(
        parse("(a) b"),
        ParseTree::List(vec![ParseTree::List(vec![atom(ident("a"))]), atom(ident("b"))])
    );
}
