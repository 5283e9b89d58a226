use lisp_rs::lexer::{tokenize, Token};

#[test]
fn test_add() {
    let tokens = tokenize("(+ 1 2)").unwrap_or(vec![]);
    assert_eq!(
        tokens,
        vec![
            Token::LParen,
            Token::BinaryOp("+".to_string()),
            Token::Integer(1),
            Token::Integer(2),
            Token::RParen,
        ]
    );
}

#[test]
fn lexer_test_area_of_a_circle() {
    let program = "
        (
            (define r 10)
            (define pi 314)
            (* pi (* r r))
        )
    ";
    let tokens = tokenize(program).unwrap_or(vec![]);
    assert_eq!(
        tokens,
        vec![
            Token::LParen,
            Token::LParen,
            Token::Keyword("define".to_string()),
            Token::Symbol("r".to_string()),
            Token::Integer(10),
            Token::RParen,
            Token::LParen,
            Token::Keyword("define".to_string()),
            Token::Symbol("pi".to_string()),
            Token::Integer(314),
            Token::RParen,
            Token::LParen,
            Token::BinaryOp("*".to_string()),
            Token::Symbol("pi".to_string()),
            Token::LParen,
            Token::BinaryOp("*".to_string()),
            Token::Symbol("r".to_string()),
            Token::Symbol("r".to_string()),
            Token::RParen,
            Token::RParen,
            Token::RParen
        ]
    );
}

#[test]
fn test_string_token() {
    let tokens = tokenize("(\"hello world\")").unwrap();
    assert_eq!(
        tokens,
        vec![
            Token::LParen,
            Token::Str("hello world".to_string()),
            Token::RParen,
        ]
    );
}

#[test]
fn test_unterminated_string() {
    let err = tokenize("\"abc").unwrap_err();
    assert_eq!(err.err, "Unterminated string: abc".to_string());
}

#[test]
fn test_keywords_operators_and_if() {
    let tokens = tokenize("if map != x2").unwrap();
    assert_eq!(
        tokens,
        vec![
            Token::If,
            Token::Keyword("map".to_string()),
            Token::BinaryOp("!=".to_string()),
            Token::Symbol("x2".to_string()),
        ]
    );
}

#[test]
fn test_words_split_by_parens_without_spaces() {
    let tokens = tokenize("(a(b)c)").unwrap();
    assert_eq!(
        tokens,
        vec![
            Token::LParen,
            Token::Symbol("a".to_string()),
            Token::LParen,
            Token::Symbol("b".to_string()),
            Token::RParen,
            Token::Symbol("c".to_string()),
            Token::RParen,
        ]
    );
}

#[test]
fn test_token_render() {
    assert_eq!(Token::Integer(-5).render(), "-5".to_string());
    assert_eq!(Token::Symbol("pi".to_string()).render(), "pi".to_string());
    assert_eq!(Token::Str("a b".to_string()).render(), "\"a b\"".to_string());
    assert_eq!(Token::If.render(), "if".to_string());
    assert_eq!(Token::LParen.render(), "(".to_string());
    assert_eq!(Token::RParen.render(), ")".to_string());
}

#[test]
fn test_token_error_message() {
    let err = tokenize("\"oops").unwrap_err();
    assert_eq!(
        err.message(),
        "unexpected character: Unterminated string: oops".to_string()
    );
}
