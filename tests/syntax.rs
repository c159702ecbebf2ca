use lisper::expr::Expr;
use lisper::lexer::{lex, parse_int, Token};
use lisper::parser::{parse, ParseError};
use lisper::render::{int_to_text, render_expr};

fn kinds(src: &str) -> Vec<String> {
    lex(src)
        .iter()
        .map(|t| match t {
            Token::OpenParen => "(".to_string(),
            Token::CloseParen => ")".to_string(),
            Token::Integer(n) => format!("int {}", n),
            Token::Boolean(b) => format!("bool {}", b),
            Token::If => "if".to_string(),
            Token::BinaryOp(s) => format!("op {}", s),
            Token::Keyword(s) => format!("kw {}", s),
            Token::Symbol(s) => format!("sym {}", s),
        })
        .collect()
}

#[test]
fn lexes_an_expression() {
    assert_eq!(
        kinds("(if (< x -2) true (print +5))"),
        vec!["(", "if", "(", "op <", "sym x", "int -2", ")", "bool true", "(", "kw print", "int 5", ")", ")"]
    );
}

#[test]
fn lexes_operators_and_keywords() {
    assert_eq!(
        kinds("- != and or not def defun lambda >= <="),
        vec!["op -", "op !=", "op and", "op or", "op not", "kw def", "kw defun", "kw lambda", "op >=", "op <="]
    );
}

#[test]
fn lexes_white_space_of_every_kind() {
    assert_eq!(kinds("  (\t1\n\r2 )  "), vec!["(", "int 1", "int 2", ")"]);
    assert_eq!(kinds("a\u{3000}b"), vec!["sym a", "sym b"]);
    assert_eq!(kinds(""), Vec::<String>::new());
}

#[test]
fn words_end_at_parentheses() {
    assert_eq!(kinds("(abc)xyz("), vec!["(", "sym abc", ")", "sym xyz", "("]);
}

#[test]
fn integer_literals() {
    assert_eq!(parse_int("42"), Some(42));
    assert_eq!(parse_int("-17"), Some(-17));
    assert_eq!(parse_int("+8"), Some(8));
    assert_eq!(parse_int("007"), Some(7));
    assert_eq!(parse_int("9223372036854775807"), Some(i64::MAX));
    assert_eq!(parse_int("-9223372036854775808"), Some(i64::MIN));
    assert_eq!(parse_int("9223372036854775808"), None);
    assert_eq!(parse_int("123456789012345678901234567890"), None);
    assert_eq!(parse_int("-"), None);
    assert_eq!(parse_int(""), None);
    assert_eq!(parse_int("1a"), None);
}

#[test]
fn integer_text() {
    assert_eq!(int_to_text(0), "0");
    assert_eq!(int_to_text(-1203), "-1203");
    assert_eq!(int_to_text(i64::MIN), "-9223372036854775808");
    assert_eq!(int_to_text(i64::MAX), "9223372036854775807");
}

#[test]
fn parses_nested_lists() {
    let e = parse(&lex("(+ 1 (* 2 3) ())")).ok().unwrap();
    assert_eq!(render_expr(&e), "(Binary op + 1 (Binary op * 2 3) ())");
    match e {
        Expr::List(items) => assert_eq!(items.len(), 4),
        other => panic!("unexpected {:?}", other),
    }
}

#[test]
fn parse_rejects_empty_input_and_a_leading_close() {
    match parse(&lex("")) {
        Err(e) => assert_eq!(e.message(), "Opening parenthesis expected"),
        Ok(e) => panic!("unexpected {:?}", e),
    }
    match parse(&lex(") 1")) {
        Err(ParseError::ParenExpected) => {}
        other => panic!("unexpected {:?}", other),
    }
}

#[test]
fn parses_a_single_atom() {
    match parse(&lex("42")) {
        Ok(Expr::Integer(42)) => {}
        other => panic!("unexpected {:?}", other),
    }
    match parse(&lex("false")) {
        Ok(Expr::Boolean(false)) => {}
        other => panic!("unexpected {:?}", other),
    }
}

#[test]
fn unclosed_lists_are_rejected() {
    match parse(&lex("(1 (2 (3")) {
        Err(ParseError::UnclosedList) => {}
        other => panic!("unexpected {:?}", other),
    }
    match parse(&lex("(+ 1 2")) {
        Err(e) => assert_eq!(e.message(), "Closing parenthesis expected"),
        Ok(e) => panic!("unexpected {:?}", e),
    }
}

#[test]
fn input_after_the_expression_is_rejected() {
    match parse(&lex("(1 2) (3)")) {
        Err(ParseError::TrailingInput) => {}
        other => panic!("unexpected {:?}", other),
    }
    match parse(&lex("1 2")) {
        Err(e) => assert_eq!(e.message(), "Unexpected input after the expression"),
        Ok(e) => panic!("unexpected {:?}", e),
    }
}

#[test]
fn rendered_atoms_parse_back() {
    for src in ["-9223372036854775808", "0", "17", "true", "false"] {
        let e = parse(&lex(src)).ok().unwrap();
        let text = render_expr(&e);
        assert_eq!(text, src);
        assert!(parse(&lex(&text)).ok().unwrap().same_as(&e));
    }
}

#[test]
fn renders_every_kind() {
    let e = parse(&lex("(if def x true false -4)")).ok().unwrap();
    assert_eq!(render_expr(&e), "(-=- [def] x true false -4)");
}
