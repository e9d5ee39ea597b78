use pkgbuild::ast::assignment::{parse_assignment, AssignmentValue};
use pkgbuild::ast::comment::Comment;
use pkgbuild::ast::function::parse_function;
use pkgbuild::ast::pkgbuild::{ErrorKind, PkgBuild};
use pkgbuild::ast::span::{Position, Span};
use pkgbuild::ast::token::Token;
use pkgbuild::ast::value::Value;

#[test]
fn test_parse_literal() {
    let input = Span::new("pkgname=rust\n");
    let (input, token) = parse_assignment(input).unwrap();
    assert_eq!(token.to_string(), "pkgname=rust");
    assert_eq!(input.to_string(), "");
}

#[test]
fn test_parse_array() {
    let input = Span::new("arch=('x86_64' 'aarch64')\n");
    let (input, token) = parse_assignment(input).unwrap();
    assert_eq!(token.to_string(), "arch=('x86_64' 'aarch64')");
    assert_eq!(input.to_string(), "");
}

#[test]
fn test_parse_comment() {
    let input = Span::new("# this is a comment\npkgname=rust\n");
    let (input, token) = Comment::parse(input).unwrap();
    assert_eq!(token.to_string(), "# this is a comment");
    assert_eq!(input.to_string(), "pkgname=rust\n");
}

#[test]
fn test_parse_function() {
    let input = Span::new("function fname ()\n");
    let (input, token) = parse_function(input).unwrap();
    assert_eq!(token.to_string(), "function fname ()");
    assert_eq!(input.to_string(), "");
}

#[test]
fn single_quote_escape_is_kept() {
    let (rest, v) = Value::parse(Span::new("'a\\'b'")).unwrap();
    assert_eq!(v, Value::Singlequoted("a\\'b".to_string()));
    assert_eq!(v.to_string(), "'a\\'b'");
    assert_eq!(rest.to_string(), "");
}

#[test]
fn double_quote_escape_is_kept() {
    let (rest, v) = Value::parse(Span::new("\"x \\\"y\\\"\" z")).unwrap();
    assert_eq!(v, Value::Doublequoted("x \\\"y\\\"".to_string()));
    assert_eq!(v.to_string(), "\"x \\\"y\\\"\"");
    assert_eq!(rest.to_string(), " z");
}

#[test]
fn empty_quoted_values_are_accepted() {
    let (_, v) = Value::parse(Span::new("''")).unwrap();
    assert_eq!(v, Value::Singlequoted(String::new()));
    let (_, v) = Value::parse(Span::new("\"\"")).unwrap();
    assert_eq!(v, Value::Doublequoted(String::new()));
}

#[test]
fn unterminated_quote_fails() {
    assert!(Value::parse(Span::new("'abc")).is_none());
    assert!(Value::parse(Span::new("\"abc\\\"")).is_none());
}

#[test]
fn unquoted_value_stops_at_other_characters() {
    let (rest, v) = Value::parse(Span::new("a-b_c.1!x")).unwrap();
    assert_eq!(v, Value::Unquoted("a-b_c.1".to_string()));
    assert_eq!(rest.to_string(), "!x");
    assert!(Value::parse(Span::new("!x")).is_none());
    assert!(Value::parse(Span::new("")).is_none());
    assert!(Value::parse(Span::new("é")).is_none());
}

#[test]
fn array_keeps_order() {
    let (rest, token) = parse_assignment(Span::new("arch=('x86_64' 'aarch64')\n")).unwrap();
    assert_eq!(
        token,
        Token::Assignment(
            "arch".to_string(),
            AssignmentValue::Array(vec![
                Value::Singlequoted("x86_64".to_string()),
                Value::Singlequoted("aarch64".to_string()),
            ])
        )
    );
    assert_eq!(token.to_string(), "arch=('x86_64' 'aarch64')");
    assert_eq!(rest.to_string(), "");
}

#[test]
fn empty_array_is_accepted() {
    let (_, token) = parse_assignment(Span::new("depends=()\n")).unwrap();
    assert_eq!(token, Token::Assignment("depends".to_string(), AssignmentValue::Array(vec![])));
    assert_eq!(token.to_string(), "depends=()");
}

#[test]
fn malformed_arrays_fail() {
    assert!(parse_assignment(Span::new("arch=('a' 'b'\n")).is_none());
    assert!(parse_assignment(Span::new("arch=('a' 'b')")).is_none());
    assert!(parse_assignment(Span::new("arch=('a'  'b')\n")).is_none());
}

#[test]
fn unquoted_charset_boundary() {
    let (rest, token) = parse_assignment(Span::new("pkgname=foo\n")).unwrap();
    assert_eq!(
        token,
        Token::Assignment(
            "pkgname".to_string(),
            AssignmentValue::Literal(Value::Unquoted("foo".to_string()))
        )
    );
    assert_eq!(rest.to_string(), "");
    let (rest, token) = parse_assignment(Span::new("pkgname=foo!\n")).unwrap();
    assert_eq!(token.to_string(), "pkgname=foo");
    assert_eq!(rest.to_string(), "!\n");
    let err = PkgBuild::parse("pkgname=foo!\n").unwrap_err();
    assert_eq!(err.kind, ErrorKind::Unrecognized);
    assert_eq!(err.position, Position { offset: 11, line: 1, column: 12 });
    assert_eq!(err.rest, "!\n");
}

#[test]
fn literal_eats_following_blank_space() {
    let (rest, _) = parse_assignment(Span::new("  a=b  \n\n#x\n")).unwrap();
    assert_eq!(rest.to_string(), "#x\n");
}

#[test]
fn key_stays_on_its_line() {
    assert!(parse_assignment(Span::new("abc\nd=e\n")).is_none());
    assert!(parse_assignment(Span::new("=e\n")).is_none());
}

#[test]
fn comment_wins_over_assignment() {
    let (rest, token) = Token::parse(Span::new("#comment\n")).unwrap();
    assert!(matches!(token, Token::Comment(_)));
    assert_eq!(rest.to_string(), "");
    let (_, token) = Token::parse(Span::new("#a=b\n")).unwrap();
    match token {
        Token::Comment(c) => {
            assert_eq!(c.comment, "a=b");
            assert_eq!(c.span, Position { offset: 0, line: 1, column: 1 });
        }
        _ => panic!("not a comment"),
    }
}

#[test]
fn comment_needs_line_break() {
    assert!(Comment::parse(Span::new("# no end")).is_none());
    let err = PkgBuild::parse("# no end").unwrap_err();
    assert_eq!(err.kind, ErrorKind::Malformed);
    assert_eq!(err.rest, "# no end");
}

#[test]
fn function_forms() {
    let (rest, token) = parse_function(Span::new("function fname ()\n")).unwrap();
    assert_eq!(token, Token::Function("fname".to_string(), String::new()));
    assert_eq!(rest.to_string(), "");
    let (_, token) = parse_function(Span::new("function fname (a b)\n")).unwrap();
    assert_eq!(token, Token::Function("fname".to_string(), "a b".to_string()));
    assert_eq!(token.to_string(), "function fname (a b)");
    let (rest, token) = parse_function(Span::new("function build {\n  make\n}\n")).unwrap();
    assert_eq!(token, Token::Function("build".to_string(), String::new()));
    assert_eq!(rest.to_string(), "  make\n}\n");
    assert!(parse_function(Span::new("build() {\n")).is_none());
    assert!(parse_function(Span::new("function f ()")).is_none());
}

#[test]
fn end_to_end() {
    let input = "pkgname=rust\npkgver=1.51.0\npkgrel=1\n# comment out of nowhere\narch=('x86_64' 'aarch64')\n";
    let doc = PkgBuild::parse(input).unwrap();
    let tokens = doc.tokens();
    assert_eq!(tokens.len(), 5);
    assert_eq!(tokens[0].to_string(), "pkgname=rust");
    assert_eq!(tokens[1].to_string(), "pkgver=1.51.0");
    assert_eq!(tokens[2].to_string(), "pkgrel=1");
    match &tokens[3] {
        Token::Comment(c) => {
            assert_eq!(c.comment, " comment out of nowhere");
            assert_eq!(c.span, Position { offset: 36, line: 4, column: 1 });
        }
        _ => panic!("not a comment"),
    }
    assert!(matches!(tokens[4], Token::Assignment(_, AssignmentValue::Array(_))));
    assert_eq!(doc.to_string(), input);
    assert_eq!(PkgBuild::new(input), doc);
}

#[test]
fn round_trip_and_idempotence() {
    let input = "# head\npkgname=('a' \"b\" c)\nfunction package (x)\npkgdesc=\"it's\"\n";
    let doc = PkgBuild::parse(input).unwrap();
    let text = doc.to_string();
    assert_eq!(text, input);
    assert_eq!(PkgBuild::parse(&text).unwrap(), doc);
}

#[test]
fn idempotence_on_loose_input() {
    let input = "pkgname=foo  \n\n\nfunction f () {\n";
    let doc = PkgBuild::parse(input).unwrap();
    let text = doc.to_string();
    assert_eq!(text, "pkgname=foo\nfunction f ()\n");
    assert_eq!(PkgBuild::parse(&text).unwrap(), doc);
}

#[test]
fn new_keeps_tokens_before_a_stop() {
    let doc = PkgBuild::new("a=b\n}\nc=d\n");
    assert_eq!(doc.tokens().len(), 1);
    assert_eq!(doc.to_string(), "a=b\n");
    let err = PkgBuild::parse("a=b\n}\nc=d\n").unwrap_err();
    assert_eq!(err.kind, ErrorKind::Unrecognized);
    assert_eq!(err.position, Position { offset: 4, line: 2, column: 1 });
    assert_eq!(err.rest, "}\nc=d\n");
}

#[test]
fn malformed_assignment_is_reported() {
    let err = PkgBuild::parse("arch=('a'\n").unwrap_err();
    assert_eq!(err.kind, ErrorKind::Malformed);
    assert_eq!(err.position.offset, 0);
}

#[test]
fn empty_input_has_no_tokens() {
    let doc = PkgBuild::parse("").unwrap();
    assert_eq!(doc.tokens().len(), 0);
    assert_eq!(doc.to_string(), "");
}
