use motif_core::query::lexer::{lex, LexError, Token};

fn toks(s: &str) -> Vec<Token> {
    lex(s).unwrap().into_iter().map(|t| t.token).collect()
}

#[test]
fn lexes_create_node() {
    assert_eq!(
        toks("CREATE (n:Person {age: 30})"),
        vec![
            Token::Create,
            Token::LParen,
            Token::Ident("n".into()),
            Token::Colon,
            Token::Ident("Person".into()),
            Token::LBrace,
            Token::Ident("age".into()),
            Token::Colon,
            Token::Integer(30),
            Token::RBrace,
            Token::RParen,
        ]
    );
}

#[test]
fn lexes_match_with_param_and_string() {
    assert_eq!(
        toks("MATCH (n) WHERE n.name = 'Alice' RETURN n LIMIT 10"),
        vec![
            Token::Match,
            Token::LParen,
            Token::Ident("n".into()),
            Token::RParen,
            Token::Where,
            Token::Ident("n".into()),
            Token::Dot,
            Token::Ident("name".into()),
            Token::Eq,
            Token::String("Alice".into()),
            Token::Return,
            Token::Ident("n".into()),
            Token::Limit,
            Token::Integer(10),
        ]
    );
}

#[test]
fn lexes_param_and_negative() {
    assert_eq!(
        toks("$x -42 1.5"),
        vec![Token::Param("x".into()), Token::Integer(-42), Token::Float(1.5f64.to_bits())]
    );
}

#[test]
fn comparison_operators() {
    assert_eq!(
        toks("< <= > >= = == !="),
        vec![Token::Lt, Token::LtEq, Token::Gt, Token::GtEq, Token::Eq, Token::Eq, Token::NotEq]
    );
}

#[test]
fn unterminated_string_errors() {
    let err = lex("'hi").unwrap_err();
    assert!(matches!(err, LexError::UnterminatedString { .. }));
}

#[test]
fn keywords_are_case_insensitive() {
    assert_eq!(toks("create Match WhErE"), vec![Token::Create, Token::Match, Token::Where]);
}

#[test]
fn edge_punctuation_and_ordering_keywords() {
    assert_eq!(
        toks("(a)-[r:K]->(b) ORDER BY x DESC count(*) DETACH"),
        vec![
            Token::LParen,
            Token::Ident("a".into()),
            Token::RParen,
            Token::Dash,
            Token::LBracket,
            Token::Ident("r".into()),
            Token::Colon,
            Token::Ident("K".into()),
            Token::RBracket,
            Token::Arrow,
            Token::LParen,
            Token::Ident("b".into()),
            Token::RParen,
            Token::Order,
            Token::By,
            Token::Ident("x".into()),
            Token::Desc,
            Token::Ident("count".into()),
            Token::LParen,
            Token::Star,
            Token::RParen,
            Token::Detach,
        ]
    );
}

#[test]
fn decimal_literals_round_to_nearest_double() {
    for text in ["0.1", "3.7", "30.5", "-2.25", "123456.789", "0.000001", "9007199254740993.0"] {
        let expected: f64 = text.parse().unwrap();
        assert_eq!(toks(text), vec![Token::Float(expected.to_bits())], "{text}");
    }
    assert_eq!(toks("-0.0"), vec![Token::Float((-0.0f64).to_bits())]);
}

#[test]
fn string_escapes_and_offsets() {
    let spans = lex("  'a\\'b\\n' \"q\\\"\"").unwrap();
    assert_eq!(spans[0].offset, 2);
    assert_eq!(spans[0].token, Token::String("a'b\n".into()));
    assert_eq!(spans[1].token, Token::String("q\"".into()));
    assert!(matches!(lex("'\\z'"), Err(LexError::InvalidEscape { offset: 1 })));
}

#[test]
fn lexer_errors() {
    assert!(matches!(lex("!x"), Err(LexError::Unexpected { ch: '!', offset: 0 })));
    assert!(matches!(lex("a # b"), Err(LexError::Unexpected { ch: '#', offset: 2 })));
    assert!(matches!(lex("$ x"), Err(LexError::Unexpected { ch: '$', offset: 0 })));
    assert!(matches!(lex("1."), Err(LexError::InvalidNumber { offset: 0 })));
    assert!(matches!(lex("9223372036854775808"), Err(LexError::InvalidNumber { .. })));
    assert_eq!(toks("-9223372036854775808"), vec![Token::Integer(i64::MIN)]);
}
