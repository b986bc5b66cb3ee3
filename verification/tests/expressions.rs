use rvalues::lexer::Token;
use rvalues::parser::{parse, Expr, ParseError};

fn show(e: &Expr) -> String {
    match e {
        Expr::Num(n) => n.clone(),
        Expr::Str(s) => format!("'{}'", s),
        Expr::Var(v) => format!("${}", v),
        Expr::Func(n, args) => format!("{}({})", n, args.iter().map(show).collect::<Vec<_>>().join(",")),
        Expr::Binary(op, l, r) => format!("({} {} {})", show(l), op, show(r)),
        Expr::Unary(op, x) => format!("({}{})", op, show(x)),
    }
}

fn parsed(input: &str) -> Vec<String> {
    parse(input).unwrap().iter().map(show).collect()
}

#[test]
fn operators_bind_by_precedence() {
    assert_eq!(parsed("1 + 2 * 3"), vec!["(1 + (2 * 3))"]);
    assert_eq!(parsed("(1 + 2) * 3"), vec!["((1 + 2) * 3)"]);
    assert_eq!(parsed("1 - 2 - 3"), vec!["((1 - 2) - 3)"]);
    assert_eq!(parsed("$1 == 2 && $2 < 3.5"), vec!["(($1 == 2) && ($2 < 3.5))"]);
    assert_eq!(parsed("-$1 . 'x'"), vec!["((-$1) . 'x')"]);
}

#[test]
fn calls_names_and_sequences() {
    assert_eq!(parsed("upper($1, 'a')"), vec!["upper($1,'a')"]);
    assert_eq!(parsed("today()"), vec!["today()"]);
    assert_eq!(parsed("abc"), vec!["'abc'"]);
    assert_eq!(parsed("1; 2"), vec!["1", "2"]);
    assert!(parsed("").is_empty());
}

#[test]
fn parse_errors() {
    assert!(matches!(parse("1 2"), Err(ParseError::Trailing(Some(Token::Num(n)))) if n == "2"));
    assert!(matches!(parse(")"), Err(ParseError::Unexpected(Some(Token::RParen)))));
    assert!(matches!(parse("1 +"), Err(ParseError::Unexpected(None))));
    assert!(matches!(parse("(1"), Err(ParseError::Message(m)) if m == "Expected matching ')'"));
    assert!(matches!(parse("f(1"), Err(ParseError::Message(m)) if m == "Expected matching ')' in function call"));
    assert!(matches!(parse("f(1, g())"), Err(ParseError::Message(m)) if m == "Expected matching ')' in function call"));
    assert!(matches!(parse("'abc"), Err(ParseError::Lex(m)) if m == "Unterminated string literal"));
    assert!(matches!(parse("$"), Err(ParseError::Lex(m)) if m == "Unnamed variable after $"));
}
