use sexpr_reader::lexer::Lexer;
use sexpr_reader::parse::Parser;
use sexpr_reader::token::ReadError;
use sexpr_reader::token::TokType;
use sexpr_reader::val::Decimal;
use sexpr_reader::val::Val;

fn ident(s: &str) -> Val {
    Val::Ident(s.as_bytes().to_vec())
}

fn text(s: &str) -> Val {
    Val::Str(s.as_bytes().to_vec())
}

fn num(mant: u64, scale: u64) -> Val {
    Val::Num(Decimal { mant, scale })
}

fn list(elems: Vec<Val>) -> Val {
    let mut v = Val::Nil;
    for e in elems.into_iter().rev() {
        v = Val::cons(e, v);
    }
    v
}

fn parse_one(input: &[u8]) -> Val {
    let p = Parser::new();
    let mut it = p.parse(input);
    match it.next() {
        Ok(Some(v)) => v,
        other => panic!("expected one form, got {:?}", other.map(|_| ())),
    }
}

fn parse_err(input: &[u8]) -> ReadError {
    let p = Parser::new();
    let mut it = p.parse(input);
    match it.next() {
        Err(e) => e,
        Ok(Some(_)) => panic!("expected an error, got a form"),
        Ok(None) => panic!("expected an error, got end of input"),
    }
}

#[test]
fn empty_input_has_no_tokens() {
    let lx = Lexer::new();
    let mut it = lx.lex(b"");
    assert!(matches!(it.next(), Ok(None)));
    assert!(matches!(it.next(), Ok(None)));
}

#[test]
fn blank_input_has_no_forms() {
    let p = Parser::new();
    let mut it = p.parse(b"  \t\n  ");
    assert!(matches!(it.next(), Ok(None)));
}

#[test]
fn parses_nested_list() {
    let v = parse_one(b"(this is (a 42 #t \"list\"))");
    let expected = list(vec![
        ident("this"),
        ident("is"),
        list(vec![ident("a"), num(42, 0), Val::Bool(true), text("list")]),
    ]);
    assert!(v.equal_to(&expected));
    let p = Parser::new();
    let mut it = p.parse(b"(this is (a 42 #t \"list\"))");
    assert!(matches!(it.next(), Ok(Some(_))));
    assert!(matches!(it.next(), Ok(None)));
}

#[test]
fn parses_and_prints_dotted_pair() {
    let v = parse_one(b"(a . b)");
    let expected = Val::cons(ident("a"), ident("b"));
    assert!(v.equal_to(&expected));
    assert_eq!(v.to_text(), b"(a . b)".to_vec());
}

#[test]
fn quote_sugar_expands() {
    let v = parse_one(b"'x");
    let expected = Val::cons(ident("quote"), Val::cons(ident("x"), Val::Nil));
    assert!(v.equal_to(&expected));
    assert_eq!(v.to_text(), b"(quote x)".to_vec());
}

#[test]
fn print_then_reparse_is_identity() {
    let v = list(vec![
        ident("foo"),
        num(314, 2),
        Val::Bool(false),
        text("a string"),
        num(42, 0),
    ]);
    let printed = v.to_text();
    let w = parse_one(&printed);
    assert!(w.equal_to(&v));
}

#[test]
fn unterminated_list_is_reported() {
    let e = parse_err(b"(a b");
    assert!(matches!(e, ReadError::UnterminatedList { .. }));
}

#[test]
fn line_and_column_are_tracked() {
    let lx = Lexer::new();
    let mut it = lx.lex(b"a\nb");
    let ta = it.next().unwrap().unwrap();
    assert_eq!(ta.text, b"a".to_vec());
    assert_eq!(ta.line, 0);
    assert_eq!(ta.col, 0);
    let tb = it.next().unwrap().unwrap();
    assert_eq!(tb.text, b"b".to_vec());
    assert_eq!(tb.line, 1);
    assert_eq!(tb.col, 0);
}

#[test]
fn lexical_error_is_reported() {
    let e = parse_err(b"[");
    assert_eq!(e, ReadError::LexicalError { line: 0, col: 0 });
}

#[test]
fn unterminated_string_is_reported() {
    let e = parse_err(b"\"abc");
    assert!(matches!(e, ReadError::UnterminatedString { .. }));
}

#[test]
fn oversized_number_is_invalid() {
    let e = parse_err(b"99999999999999999999999");
    assert!(matches!(e, ReadError::InvalidNumber { .. }));
}

#[test]
fn stray_comma_is_unexpected() {
    let e = parse_err(b",");
    assert!(matches!(e, ReadError::UnexpectedToken { t: TokType::COMMA, .. }));
}

#[test]
fn character_literal_is_unexpected() {
    let e = parse_err(b"#\\a");
    assert!(matches!(e, ReadError::UnexpectedToken { t: TokType::CHARACTER, .. }));
}

#[test]
fn stray_dot_is_unexpected() {
    let e = parse_err(b".");
    assert!(matches!(e, ReadError::UnexpectedToken { t: TokType::DOT, .. }));
}

#[test]
fn dotted_pair_allows_one_tail() {
    let e = parse_err(b"(a . b c)");
    assert!(matches!(e, ReadError::UnexpectedToken { .. }));
}

#[test]
fn error_aborts_only_current_form() {
    let p = Parser::new();
    let mut it = p.parse(b", b");
    assert!(matches!(it.next(), Err(ReadError::UnexpectedToken { .. })));
    let v = it.next().unwrap().unwrap();
    assert!(v.equal_to(&ident("b")));
    assert!(matches!(it.next(), Ok(None)));
}

#[test]
fn empty_list_is_nil_and_prints_marker() {
    let v = parse_one(b"()");
    assert!(v.equal_to(&Val::Nil));
    assert_eq!(v.to_text(), b"<nil>".to_vec());
}

#[test]
fn booleans_parse_by_spelling() {
    assert!(parse_one(b"#t").equal_to(&Val::Bool(true)));
    assert!(parse_one(b"#T").equal_to(&Val::Bool(true)));
    assert!(parse_one(b"#f").equal_to(&Val::Bool(false)));
    assert!(parse_one(b"#F").equal_to(&Val::Bool(false)));
    assert_eq!(Val::Bool(true).to_text(), b"#t".to_vec());
    assert_eq!(Val::Bool(false).to_text(), b"#f".to_vec());
}

#[test]
fn numbers_normalise_and_print_canonically() {
    let v = parse_one(b"3.14");
    assert!(v.equal_to(&num(314, 2)));
    assert_eq!(v.to_text(), b"3.14".to_vec());
    assert_eq!(parse_one(b".5").to_text(), b"0.5".to_vec());
    assert_eq!(parse_one(b"1.50").to_text(), b"1.5".to_vec());
    assert_eq!(parse_one(b"42.0").to_text(), b"42".to_vec());
    assert_eq!(parse_one(b"007").to_text(), b"7".to_vec());
    assert!(parse_one(b".5").equal_to(&num(5, 1)));
}

#[test]
fn string_bodies_keep_escapes() {
    let v = parse_one(b"\"a\\\" b\"");
    assert!(v.equal_to(&text("a\\\" b")));
    assert_eq!(v.to_text(), b"\"a\\\" b\"".to_vec());
}

#[test]
fn maximal_munch_prefers_longest_match() {
    let m = sexpr_reader::matcher::Matcher::new();
    assert_eq!(m.match_str(b"#t rest", 0), (TokType::BOOLEAN, 2));
    assert_eq!(m.match_str(b"abc12 x", 0), (TokType::IDENT, 5));
    assert_eq!(m.match_str(b"3.14)", 0), (TokType::NUMBER, 4));
    assert_eq!(m.match_str(b"42.x", 0), (TokType::NUMBER, 2));
    assert_eq!(m.match_str(b"#\\space!", 0), (TokType::CHARACTER, 7));
    assert_eq!(m.match_str(b"\"ab\" c", 0), (TokType::STRING, 4));
    assert_eq!(m.match_str(b"\"ab", 0), (TokType::DQUOTE, 1));
    assert_eq!(m.match_str(b"", 0), (TokType::EOF, 0));
}

#[test]
fn lexer_skips_whitespace_between_tokens() {
    let lx = Lexer::new();
    let mut it = lx.lex(b"  ( \t a");
    let t1 = it.next().unwrap().unwrap();
    assert_eq!(t1.t, TokType::LPAREN);
    assert_eq!(t1.col, 2);
    let t2 = it.next().unwrap().unwrap();
    assert_eq!(t2.t, TokType::IDENT);
    assert_eq!(t2.text, b"a".to_vec());
    assert!(matches!(it.next(), Ok(None)));
}
