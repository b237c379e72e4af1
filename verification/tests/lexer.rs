use eir_core::token::{Float, Integer, LexError, LexErrorKind, Lexer, Token};

fn lex_all(input: &str) -> Vec<Result<(usize, Token, usize), LexError>> {
    let mut lexer = Lexer::new(input.chars().collect());
    let mut out = Vec::new();
    while let Some(item) = lexer.lex() {
        out.push(item);
    }
    assert!(lexer.lex().is_none());
    out
}

fn tokens(input: &str) -> Vec<Token> {
    lex_all(input).into_iter().map(|r| r.unwrap().1).collect()
}

#[test]
fn lexes_a_tuple_of_every_kind_of_token() {
    let found = tokens("{ foo, 'bar baz', \"hi\", 12, 3.5 }");
    assert_eq!(
        found,
        vec![
            Token::CurlyOpen,
            Token::Atom("foo".to_string()),
            Token::Comma,
            Token::Atom("bar baz".to_string()),
            Token::Comma,
            Token::String("hi".to_string()),
            Token::Comma,
            Token::Integer(Integer("12".to_string())),
            Token::Comma,
            Token::Float(Float("3.5".to_string())),
            Token::CurlyClose,
            Token::EOF,
        ]
    );
    match &found[9] {
        Token::Float(Float(text)) => assert_eq!(text.parse::<f64>().unwrap(), 3.5),
        other => panic!("not a float: {:?}", other),
    }
}

#[test]
fn spans_count_characters() {
    let found = lex_all("  ab_1@, [7.25|x]. ");
    let spans: Vec<(usize, usize)> =
        found.iter().map(|r| r.as_ref().map(|t| (t.0, t.2)).unwrap()).collect();
    assert_eq!(
        spans,
        vec![(2, 7), (7, 8), (9, 10), (10, 14), (14, 15), (15, 16), (16, 17), (17, 18), (19, 19)]
    );
    let kinds: Vec<Token> = found.into_iter().map(|r| r.unwrap().1).collect();
    assert_eq!(
        kinds,
        vec![
            Token::Atom("ab_1@".to_string()),
            Token::Comma,
            Token::SquareOpen,
            Token::Float(Float("7.25".to_string())),
            Token::Pipe,
            Token::Atom("x".to_string()),
            Token::SquareClose,
            Token::Dot,
            Token::EOF,
        ]
    );
}

#[test]
fn a_dot_without_digits_ends_the_integer() {
    assert_eq!(
        tokens("12.x"),
        vec![
            Token::Integer(Integer("12".to_string())),
            Token::Dot,
            Token::Atom("x".to_string()),
            Token::EOF
        ]
    );
    assert_eq!(tokens("5."), vec![Token::Integer(Integer("5".to_string())), Token::Dot, Token::EOF]);
}

#[test]
fn integers_of_any_size() {
    let digits = "123456789012345678901234567890";
    assert_eq!(tokens(digits), vec![Token::Integer(Integer(digits.to_string())), Token::EOF]);
}

#[test]
fn empty_input_yields_end_of_file_once() {
    let mut lexer = Lexer::new(Vec::new());
    assert_eq!(lexer.lex(), Some(Ok((0, Token::EOF, 0))));
    assert_eq!(lexer.span(), (0, 0));
    assert_eq!(lexer.lex(), None);
    assert_eq!(lexer.lex(), None);
}

#[test]
fn nul_ends_the_input() {
    assert_eq!(tokens("a\0b"), vec![Token::Atom("a".to_string()), Token::EOF]);
}

#[test]
fn unicode_white_space_is_skipped() {
    assert_eq!(
        tokens("\u{2003}a\u{00A0}\t\n\u{3000}b"),
        vec![Token::Atom("a".to_string()), Token::Atom("b".to_string()), Token::EOF]
    );
    for c in ['\u{9}', '\u{D}', ' ', '\u{85}', '\u{1680}', '\u{200A}', '\u{2028}', '\u{205F}'] {
        assert!(c.is_whitespace());
        assert!(eir_core::token::char_is_whitespace(c));
    }
    for c in ['\u{8}', '\u{E}', '\u{180E}', '\u{200B}', '\u{FEFF}', 'a'] {
        assert!(!c.is_whitespace());
        assert!(!eir_core::token::char_is_whitespace(c));
    }
}

#[test]
fn white_space_agrees_with_the_standard_library() {
    let mut n: u32 = 0;
    while n <= 0x10FFFF {
        if let Some(c) = char::from_u32(n) {
            assert_eq!(eir_core::token::char_is_whitespace(c), c.is_whitespace(), "{:x}", n);
        }
        n += 1;
    }
}

#[test]
fn an_atom_starts_with_a_lower_case_letter() {
    assert_eq!(
        lex_all("Foo"),
        vec![Err(LexError { kind: LexErrorKind::UnrecognizedCharacter, start: 0, end: 1 })]
    );
    assert_eq!(
        lex_all("a #"),
        vec![
            Ok((0, Token::Atom("a".to_string()), 1)),
            Err(LexError { kind: LexErrorKind::UnrecognizedCharacter, start: 2, end: 3 })
        ]
    );
}

#[test]
fn escapes_are_rejected() {
    assert_eq!(
        lex_all("\"a\\n\""),
        vec![Err(LexError { kind: LexErrorKind::BadEscape, start: 0, end: 3 })]
    );
    assert_eq!(
        lex_all("'\\'"),
        vec![Err(LexError { kind: LexErrorKind::BadEscape, start: 0, end: 2 })]
    );
}

#[test]
fn unterminated_literals_are_rejected() {
    let mut lexer = Lexer::new("x \"abc".chars().collect());
    assert_eq!(lexer.lex(), Some(Ok((0, Token::Atom("x".to_string()), 1))));
    assert_eq!(lexer.span(), (0, 1));
    assert_eq!(
        lexer.lex(),
        Some(Err(LexError { kind: LexErrorKind::UnterminatedLiteral, start: 2, end: 6 }))
    );
    assert_eq!(lexer.span(), (2, 6));
    assert_eq!(lexer.lex(), None);
}

#[test]
fn quotes_keep_what_is_between_them() {
    assert_eq!(
        tokens("'' \"\" 'A b' \"it's\""),
        vec![
            Token::Atom("".to_string()),
            Token::String("".to_string()),
            Token::Atom("A b".to_string()),
            Token::String("it's".to_string()),
            Token::EOF
        ]
    );
}
