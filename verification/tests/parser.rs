use scan::parser::{compile, Arg, Error, ErrorKind, IntType, Parser};
use scan::util::Token;

fn lit(text: &str) -> Arg {
    Arg::Lit(text.to_string())
}

fn error(offset: usize, kind: ErrorKind) -> Result<Vec<Arg>, Error> {
    Err(Error { offset, kind })
}

#[test]
fn integer_and_string_placeholders() {
    assert_eq!(
        compile("{u32} {s}"),
        Ok(vec![Arg::Int(IntType::U32), Arg::Whitespace, Arg::Strin])
    );
}

#[test]
fn escaped_braces_join_the_literal_and_a_space_stays_whitespace() {
    assert_eq!(
        compile("{{literal}} {u8}"),
        Ok(vec![lit("{literal}"), Arg::Whitespace, Arg::Int(IntType::U8)])
    );
}

#[test]
fn empty_pattern_has_no_operations() {
    assert_eq!(compile(""), Ok(vec![]));
}

#[test]
fn every_type() {
    assert_eq!(compile("{i8}"), Ok(vec![Arg::Int(IntType::I8)]));
    assert_eq!(compile("{u8}"), Ok(vec![Arg::Int(IntType::U8)]));
    assert_eq!(compile("{i16}"), Ok(vec![Arg::Int(IntType::I16)]));
    assert_eq!(compile("{u16}"), Ok(vec![Arg::Int(IntType::U16)]));
    assert_eq!(compile("{i32}"), Ok(vec![Arg::Int(IntType::I32)]));
    assert_eq!(compile("{u32}"), Ok(vec![Arg::Int(IntType::U32)]));
    assert_eq!(compile("{i64}"), Ok(vec![Arg::Int(IntType::I64)]));
    assert_eq!(compile("{u64}"), Ok(vec![Arg::Int(IntType::U64)]));
    assert_eq!(compile("{i}"), Ok(vec![Arg::Int(IntType::I)]));
    assert_eq!(compile("{u}"), Ok(vec![Arg::Int(IntType::U)]));
    assert_eq!(compile("{f32}"), Ok(vec![Arg::Float(false)]));
    assert_eq!(compile("{f64}"), Ok(vec![Arg::Float(true)]));
    assert_eq!(compile("{s}"), Ok(vec![Arg::Strin]));
}

#[test]
fn signedness_of_integer_types() {
    for t in [IntType::I8, IntType::I16, IntType::I32, IntType::I64, IntType::I] {
        assert!(t.signed());
    }
    for t in [IntType::U8, IntType::U16, IntType::U32, IntType::U64, IntType::U] {
        assert!(!t.signed());
    }
}

#[test]
fn spaces_inside_a_placeholder_are_skipped() {
    assert_eq!(compile("{ u8 }"), Ok(vec![Arg::Int(IntType::U8)]));
    assert_eq!(compile("{\t s  \t}"), Ok(vec![Arg::Strin]));
}

#[test]
fn colon_and_braces_join_literal_text() {
    assert_eq!(compile("a:b"), Ok(vec![lit("a:b")]));
    assert_eq!(compile("x{{y}}z"), Ok(vec![lit("x{y}z")]));
    assert_eq!(compile("::"), Ok(vec![lit("::")]));
    assert_eq!(compile("{{}}"), Ok(vec![lit("{}")]));
}

#[test]
fn runs_of_blanks_are_one_whitespace() {
    assert_eq!(compile("a  \t b"), Ok(vec![lit("a"), Arg::Whitespace, lit("b")]));
    assert_eq!(compile("   "), Ok(vec![Arg::Whitespace]));
}

#[test]
fn literals_apart_are_not_joined() {
    assert_eq!(
        compile("a{u8}b"),
        Ok(vec![lit("a"), Arg::Int(IntType::U8), lit("b")])
    );
}

#[test]
fn pattern_for_a_year_and_a_place() {
    assert_eq!(
        compile(" {u32} {s} "),
        Ok(vec![
            Arg::Whitespace,
            Arg::Int(IntType::U32),
            Arg::Whitespace,
            Arg::Strin,
            Arg::Whitespace
        ])
    );
}

#[test]
fn three_braces() {
    assert_eq!(compile("{{{u8}"), Ok(vec![lit("{"), Arg::Int(IntType::U8)]));
    assert_eq!(compile("{u8}}}"), error(3, ErrorKind::UnexpectedToken));
    assert_eq!(compile("{u8} }}"), Ok(vec![Arg::Int(IntType::U8), Arg::Whitespace, lit("}")]));
    assert_eq!(compile("}}}"), error(2, ErrorKind::UnexpectedToken));
}

#[test]
fn character_outside_printable_ascii() {
    assert_eq!(compile("ab\u{e9}"), error(2, ErrorKind::ExpectedAscii));
    assert_eq!(compile("\n"), error(0, ErrorKind::ExpectedAscii));
    assert_eq!(compile("{u8}\u{7f}"), error(4, ErrorKind::ExpectedAscii));
    assert_eq!(compile("a \u{1}"), error(2, ErrorKind::ExpectedAscii));
}

#[test]
fn bad_character_goes_before_any_other_error() {
    assert_eq!(compile("}\u{e9}"), error(1, ErrorKind::ExpectedAscii));
}

#[test]
fn closing_brace_that_closes_nothing() {
    assert_eq!(compile("}"), error(0, ErrorKind::UnexpectedToken));
    assert_eq!(compile("ab }"), error(3, ErrorKind::UnexpectedToken));
}

#[test]
fn placeholder_without_a_type() {
    assert_eq!(compile("{}"), error(1, ErrorKind::ExpectedType));
    assert_eq!(compile("a{ :}"), error(3, ErrorKind::ExpectedType));
    assert_eq!(compile("{{{}}"), error(3, ErrorKind::ExpectedType));
}

#[test]
fn unknown_type() {
    assert_eq!(compile("{x}"), error(1, ErrorKind::UnknownType));
    assert_eq!(compile("ab{ u7}"), error(4, ErrorKind::UnknownType));
    assert_eq!(compile("{U8}"), error(1, ErrorKind::UnknownType));
    assert_eq!(compile("{i128}"), error(1, ErrorKind::UnknownType));
}

#[test]
fn pattern_that_ends_inside_a_placeholder() {
    assert_eq!(compile("{"), error(0, ErrorKind::UnexpectedEof));
    assert_eq!(compile("ab{  "), error(2, ErrorKind::UnexpectedEof));
    assert_eq!(compile("{u8"), error(0, ErrorKind::UnexpectedEof));
    assert_eq!(compile("a {u8  "), error(2, ErrorKind::UnexpectedEof));
}

#[test]
fn placeholder_that_is_not_closed() {
    assert_eq!(compile("{u8 x}"), error(4, ErrorKind::UnexpectedToken));
    assert_eq!(compile("{u8:}"), error(3, ErrorKind::UnexpectedToken));
    assert_eq!(compile("{u8{"), error(3, ErrorKind::UnexpectedToken));
}

#[test]
fn parser_compiles_like_compile() {
    assert_eq!(
        Parser::new("x{f64}").parse(),
        Ok(vec![lit("x"), Arg::Float(true)])
    );
    assert_eq!(Parser::new("{").parse(), error(0, ErrorKind::UnexpectedEof));
}

#[test]
fn tokenize_reports_the_first_bad_character() {
    let mut p = Parser::new("a\u{0}\u{1}");
    assert_eq!(p.tokenize(), Err(Error { offset: 1, kind: ErrorKind::ExpectedAscii }));
    let mut p = Parser::new("a b");
    assert_eq!(p.tokenize(), Ok(()));
}

#[test]
fn tokens_are_plain_values() {
    assert_eq!(Token::Literal(3), Token::Literal(3));
    assert_ne!(Token::Literal(3), Token::Literal(4));
    assert_ne!(Token::LeftBrace, Token::LeftBraceBrace);
}

#[test]
fn every_kind_of_error_has_its_words() {
    assert_eq!(ErrorKind::ExpectedAscii.message(), "expected Ascii character");
    assert_eq!(ErrorKind::UnexpectedToken.message(), "Unexpected token");
    assert_eq!(ErrorKind::ExpectedType.message(), "Expected type");
    assert_eq!(ErrorKind::UnexpectedEof.message(), "Unexpected EOF");
    assert_eq!(ErrorKind::UnknownType.message(), "Unknown type");
}
