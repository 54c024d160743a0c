use kupo::lexer::{lex, parse_radix, IntError};
use kupo::located::Located;
use kupo::token::{Grouping, Invalid, Operator, Token};

fn values(s: &str) -> Vec<Token> {
    lex(s).0.into_iter().map(|t: Located<Token>| t.value).collect()
}

fn ident(s: &str) -> Token {
    Token::Identifier(s.to_string())
}

#[test]
fn lexes_a_small_definition() {
    assert_eq!(
        values("def main() { print(1+2*3) }"),
        vec![
            Token::Keyword("def".to_string()),
            ident("main"),
            Token::Grouping(Grouping::LParen),
            Token::Grouping(Grouping::RParen),
            Token::Grouping(Grouping::LBrace),
            ident("print"),
            Token::Grouping(Grouping::LParen),
            Token::Integer(1),
            Token::Operator(Operator::OAdd),
            Token::Integer(2),
            Token::Operator(Operator::OMultiply),
            Token::Integer(3),
            Token::Grouping(Grouping::RParen),
            Token::Grouping(Grouping::RBrace),
        ]
    );
}

#[test]
fn spans_are_byte_offsets() {
    let (tokens, eof) = lex("é @x := 'a'");
    assert_eq!(tokens[0].value, Token::Invalid(Invalid::Char('é')));
    assert_eq!((tokens[0].start, tokens[0].end), (0, 2));
    assert_eq!(tokens[1].value, Token::Variable("@x".to_string()));
    assert_eq!((tokens[1].start, tokens[1].end), (3, 5));
    assert_eq!(tokens[2].value, Token::Operator(Operator::OAssignNew));
    assert_eq!(tokens[3].value, Token::StringLiteral("a".to_string()));
    assert_eq!((eof.start, eof.end), (12, 12));
}

#[test]
fn integers_in_every_radix() {
    assert_eq!(
        values("0x1F 0o17 0d99 0b1_01 42"),
        vec![Token::Integer(31), Token::Integer(15), Token::Integer(99), Token::Integer(5), Token::Integer(42)]
    );
}

#[test]
fn too_large_integer_is_invalid() {
    assert_eq!(
        values("99999999999999999999999"),
        vec![Token::Invalid(Invalid::Integer(
            "invalid integer: 99999999999999999999999 (number too large to fit in target type)".to_string()
        ))]
    );
}

#[test]
fn comments_and_whitespace_are_skipped() {
    assert_eq!(values("  # a comment\n\tfoo # more"), vec![ident("foo")]);
    assert_eq!(values(""), vec![]);
}

#[test]
fn string_escapes() {
    assert_eq!(
        values(r#""a\n\t\\\"b" 'it\'s' "\x41é""#),
        vec![
            Token::StringLiteral("a\n\t\\\"b".to_string()),
            Token::StringLiteral("it's".to_string()),
            Token::StringLiteral("Aé".to_string()),
        ]
    );
}

#[test]
fn bad_strings_are_invalid() {
    assert_eq!(
        values("\"abc"),
        vec![Token::Invalid(Invalid::StringLiteral(4, "EOF in string".to_string()))]
    );
    assert_eq!(
        values("\"ab\ncd\""),
        vec![
            Token::Invalid(Invalid::StringLiteral(3, "newline in string".to_string())),
            ident("cd"),
            Token::Invalid(Invalid::StringLiteral(7, "EOF in string".to_string())),
        ]
    );
    assert_eq!(
        values(r#""\q""#),
        vec![Token::Invalid(Invalid::StringLiteral(2, "unrecognized escape sequence: q".to_string()))]
    );
    assert_eq!(
        values(r#""\uD800""#),
        vec![Token::Invalid(Invalid::StringLiteral(
            2,
            "character code doesn't map to valid unicode character: 55296".to_string()
        ))]
    );
    assert_eq!(
        values(r#""\xZZ""#),
        vec![Token::Invalid(Invalid::StringLiteral(
            2,
            "malformatted character code escape sequence".to_string()
        ))]
    );
}

#[test]
fn keywords_and_identifiers() {
    assert_eq!(
        values("view in or returning"),
        vec![
            Token::Keyword("view".to_string()),
            Token::Keyword("in".to_string()),
            Token::Keyword("or".to_string()),
            ident("returning"),
        ]
    );
}

#[test]
fn parse_radix_reports_each_error() {
    let d = |s: &str| s.chars().collect::<Vec<char>>();
    assert_eq!(parse_radix(&d("ff"), 16), Ok(255));
    assert_eq!(parse_radix(&d(""), 10), Err(IntError::Empty));
    assert_eq!(parse_radix(&d("12a"), 10), Err(IntError::InvalidDigit));
    assert_eq!(parse_radix(&d("18446744073709551616"), 10), Err(IntError::Overflow));
    assert_eq!(parse_radix(&d("18446744073709551615"), 10), Ok(u64::MAX));
}
