use interpreter::error::Error;
use interpreter::error::ParseError;
use interpreter::error::ParseErrorKind;
use interpreter::fixed::Real;
use interpreter::lexer;
use interpreter::source_pos::SourcePos;
use interpreter::tokens::{lookup_identity, Token, TokenKind};

fn error_at(kind: ParseErrorKind, line: u32, col: u32) -> Result<Token, Error> {
    Err(Error::ParseError(ParseError::new(kind, SourcePos::new(line, col))))
}

fn kinds(input: &str) -> Vec<Result<TokenKind, Error>> {
    let mut lexer = lexer::Lexer::new(input);
    let mut out = Vec::new();
    for _ in 0..64 {
        match lexer.next_token() {
            Ok(t) => {
                let eof = t.is_eof();
                out.push(Ok(t.kind));
                if eof {
                    break;
                }
            }
            Err(e) => out.push(Err(e)),
        }
    }
    out
}

#[test]
fn next_token_test() {
    let mut lexer = lexer::Lexer::new("1 + 3 * 5");
    let tokens = vec![
        TokenKind::Int(1),
        TokenKind::Plus,
        TokenKind::Int(3),
        TokenKind::Mul,
        TokenKind::Int(5),
        TokenKind::EndOfFile,
    ];

    for t in &tokens {
        let token = lexer.next_token().unwrap();
        assert_eq!(token.kind, *t);
    }
}

#[test]
fn test_neverending_string() {
    let mut lexer = lexer::Lexer::new("\"This string never ends");
    let err = Err(Error::ParseError(ParseError::new(
        ParseErrorKind::InfiniteString,
        SourcePos::new(1, 23),
    )));
    assert_eq!(err, lexer.next_token());
}

#[test]
fn test_string() {
    let mut lexer = lexer::Lexer::new(
        "\"Hello World\"\
    \"\"
    \"33..89\"
    \"\\n\\r\\t\\n\"",
    );
    let tokens = vec![
        TokenKind::Str("Hello World".to_string()),
        TokenKind::Str("".to_string()),
        TokenKind::Str("33..89".to_string()),
        TokenKind::Str("\\n\\r\\t\\n".to_string()),
        TokenKind::EndOfFile,
    ];

    for t in &tokens {
        let token = lexer.next_token().unwrap();
        assert_eq!(token.kind, *t);
    }
}

#[test]
fn test_string_escape() {
    let mut lexer = lexer::Lexer::new("\" \\\\ \\n \\t \\r \"");
    let tokens = vec![
        TokenKind::Str(" \\\\ \\n \\t \\r ".to_string()),
        TokenKind::EndOfFile,
    ];

    for t in &tokens {
        let token = lexer.next_token().unwrap();
        assert_eq!(token.kind, *t);
    }
}

#[test]
fn test_string_illegal_newline() {
    let mut lexer = lexer::Lexer::new("\" \n");
    let err = Err(Error::ParseError(ParseError::new(
        ParseErrorKind::StringEOL,
        SourcePos::new(1, 3),
    )));
    assert_eq!(err, lexer.next_token());
}

#[test]
fn test_error_illegals() {
    let mut lexer = lexer::Lexer::new("$%`^~💡");
    assert_eq!(lexer.next_token(), error_at(ParseErrorKind::Illegal('$'), 1, 1));
    assert_eq!(lexer.next_token(), error_at(ParseErrorKind::Illegal('%'), 1, 2));
    assert_eq!(lexer.next_token(), error_at(ParseErrorKind::Illegal('`'), 1, 3));
    assert_eq!(lexer.next_token(), error_at(ParseErrorKind::Illegal('^'), 1, 4));
    assert_eq!(lexer.next_token(), error_at(ParseErrorKind::Illegal('~'), 1, 5));
    assert_eq!(lexer.next_token(), error_at(ParseErrorKind::Illegal('💡'), 1, 6));
}

#[test]
fn blank_input_gives_one_end_of_file() {
    for input in ["", "   \t\n  ", "# only a comment", "  # one\n\t# two\n   ", "\n\n#\n"] {
        let mut lexer = lexer::Lexer::new(input);
        let token = lexer.next_token().unwrap();
        assert_eq!(token.kind, TokenKind::EndOfFile);
        assert_eq!(lexer.next_token().unwrap().kind, TokenKind::EndOfFile);
        let mut again = lexer::Lexer::new(input);
        assert!(again.next_item().is_none());
    }
}

#[test]
fn unterminated_string_then_end_of_file() {
    let mut lexer = lexer::Lexer::new("\"This string never ends");
    assert_eq!(lexer.next_token(), error_at(ParseErrorKind::InfiniteString, 1, 23));
    assert_eq!(lexer.next_token().unwrap().kind, TokenKind::EndOfFile);
}

#[test]
fn newline_in_string_is_reported_at_the_newline() {
    let mut lexer = lexer::Lexer::new("\"\n\"");
    assert_eq!(lexer.next_token(), error_at(ParseErrorKind::StringEOL, 1, 2));
    assert_eq!(lexer.next_token(), error_at(ParseErrorKind::InfiniteString, 2, 1));
    assert_eq!(lexer.next_token().unwrap().kind, TokenKind::EndOfFile);
}

#[test]
fn illegal_characters_then_end_of_file() {
    let mut lexer = lexer::Lexer::new("$%`^~");
    for (i, c) in "$%`^~".chars().enumerate() {
        assert_eq!(lexer.next_token(), error_at(ParseErrorKind::Illegal(c), 1, i as u32 + 1));
    }
    assert_eq!(lexer.next_token().unwrap().kind, TokenKind::EndOfFile);
}

#[test]
fn number_literals() {
    assert_eq!(
        kinds("3."),
        vec![Ok(TokenKind::Real(Real::from(3))), Ok(TokenKind::EndOfFile)]
    );
    assert_eq!(kinds("3"), vec![Ok(TokenKind::Int(3)), Ok(TokenKind::EndOfFile)]);
    assert_eq!(
        kinds("2.5"),
        vec![Ok(TokenKind::Real(Real::from_bits(163840))), Ok(TokenKind::EndOfFile)]
    );
    assert_eq!(
        kinds("2147483647"),
        vec![Ok(TokenKind::Int(2147483647)), Ok(TokenKind::EndOfFile)]
    );
}

#[test]
fn number_literal_errors() {
    let mut lexer = lexer::Lexer::new("2147483648 40000.5");
    assert_eq!(lexer.next_token(), error_at(ParseErrorKind::LargeInt, 1, 10));
    assert_eq!(lexer.next_token(), error_at(ParseErrorKind::BadRealLiteral, 1, 18));
    assert_eq!(lexer.next_token().unwrap().kind, TokenKind::EndOfFile);
}

#[test]
fn ranges_and_dots() {
    assert_eq!(
        kinds("1..5 1...5 a.b ."),
        vec![
            Ok(TokenKind::Int(1)),
            Ok(TokenKind::ExclusiveRange),
            Ok(TokenKind::Int(5)),
            Ok(TokenKind::Int(1)),
            Ok(TokenKind::InclusiveRange),
            Ok(TokenKind::Int(5)),
            Ok(TokenKind::Identity("a".to_string())),
            Ok(TokenKind::Dot),
            Ok(TokenKind::Identity("b".to_string())),
            Ok(TokenKind::Dot),
            Ok(TokenKind::EndOfFile),
        ]
    );
}

#[test]
fn operators_with_and_without_equals() {
    assert_eq!(
        kinds("! != = == + += - -= * *= / /= > >= < <="),
        vec![
            Ok(TokenKind::Not),
            Ok(TokenKind::NotEqual),
            Ok(TokenKind::Assignment),
            Ok(TokenKind::Equal),
            Ok(TokenKind::Plus),
            Ok(TokenKind::PlusAssignment),
            Ok(TokenKind::Minus),
            Ok(TokenKind::MinusAssignment),
            Ok(TokenKind::Mul),
            Ok(TokenKind::MulAssignment),
            Ok(TokenKind::Div),
            Ok(TokenKind::DivAssignment),
            Ok(TokenKind::GreaterThan),
            Ok(TokenKind::GreaterEqual),
            Ok(TokenKind::LessThan),
            Ok(TokenKind::LessEqual),
            Ok(TokenKind::EndOfFile),
        ]
    );
    assert_eq!(
        kinds("@,;{}[]()?&|"),
        vec![
            Ok(TokenKind::At),
            Ok(TokenKind::Comma),
            Ok(TokenKind::Semicolon),
            Ok(TokenKind::LeftCurlyParam),
            Ok(TokenKind::RightCurlyParam),
            Ok(TokenKind::LeftSquareParam),
            Ok(TokenKind::RightSquareParam),
            Ok(TokenKind::LeftParam),
            Ok(TokenKind::RightParam),
            Ok(TokenKind::QuestionMark),
            Ok(TokenKind::And),
            Ok(TokenKind::Or),
            Ok(TokenKind::EndOfFile),
        ]
    );
}

#[test]
fn keywords_and_names() {
    assert_eq!(
        kinds("fn true false if else while for break return nil _x1 héllo fnord"),
        vec![
            Ok(TokenKind::Function),
            Ok(TokenKind::True),
            Ok(TokenKind::False),
            Ok(TokenKind::If),
            Ok(TokenKind::Else),
            Ok(TokenKind::While),
            Ok(TokenKind::For),
            Ok(TokenKind::Break),
            Ok(TokenKind::Return),
            Ok(TokenKind::Nil),
            Ok(TokenKind::Identity("_x1".to_string())),
            Ok(TokenKind::Identity("héllo".to_string())),
            Ok(TokenKind::Identity("fnord".to_string())),
            Ok(TokenKind::EndOfFile),
        ]
    );
    assert_eq!(lookup_identity("while".to_string()), TokenKind::While);
    assert_eq!(lookup_identity("If".to_string()), TokenKind::Identity("If".to_string()));
}

#[test]
fn unknown_escape_stops_the_string() {
    let mut lexer = lexer::Lexer::new("\"a\\qb\"");
    assert_eq!(lexer.next_token(), error_at(ParseErrorKind::UnknownEscape('q'), 1, 4));
    let t = lexer.next_token().unwrap();
    assert_eq!(t.kind, TokenKind::Identity("qb".to_string()));
    assert_eq!(t.pos, SourcePos::new(1, 4));
    assert_eq!(lexer.next_token(), error_at(ParseErrorKind::InfiniteString, 1, 6));
}

#[test]
fn positions_follow_lines_and_columns() {
    let mut lexer = lexer::Lexer::new("a\n  bc # note\n\t42");
    let a = lexer.next_token().unwrap();
    assert_eq!((a.line(), a.col()), (1, 1));
    let b = lexer.next_token().unwrap();
    assert_eq!(b.pos, SourcePos::new(2, 3));
    assert_eq!(lexer.pos(), 3);
    assert_eq!(lexer.line(), 2);
    let n = lexer.next_token().unwrap();
    assert_eq!(n.kind, TokenKind::Int(42));
    assert_eq!(n.pos, SourcePos::new(3, 2));
    assert_eq!(lexer.line(), 3);
    assert_eq!(lexer.next_token().unwrap().pos, SourcePos::new(3, 4));
}

#[test]
fn next_item_reads_until_the_end() {
    let mut lexer = lexer::Lexer::new("x $ 1");
    assert_eq!(lexer.next_item().unwrap().unwrap().kind, TokenKind::Identity("x".to_string()));
    assert!(lexer.next_item().unwrap().is_err());
    assert_eq!(lexer.next_item().unwrap().unwrap().kind, TokenKind::Int(1));
    assert!(lexer.next_item().is_none());
    assert!(lexer.next_item().is_none());
}

#[test]
fn token_predicates() {
    let pos = SourcePos::new(1, 1);
    let t = |k: TokenKind| Token::new(k, pos.clone());
    assert!(t(TokenKind::While).is_keyword());
    assert!(t(TokenKind::QuestionMark).is_keyword());
    assert!(!t(TokenKind::Plus).is_keyword());
    assert!(t(TokenKind::DivAssignment).is_assignment());
    assert!(!t(TokenKind::Equal).is_assignment());
    assert!(t(TokenKind::Minus).is_arithmetic());
    assert!(!t(TokenKind::MinusAssignment).is_arithmetic());
    assert!(t(TokenKind::Nil).is_literal());
    assert!(t(TokenKind::Str("s".to_string())).is_literal());
    assert!(!t(TokenKind::Identity("s".to_string())).is_literal());
    assert!(t(TokenKind::Identity("s".to_string())).is_identity());
    assert!(t(TokenKind::EndOfFile).is_eof());
    assert!(!t(TokenKind::Dot).is_eof());
}

#[test]
fn error_descriptions() {
    let e = ParseError::new(ParseErrorKind::StringEOL, SourcePos::new(1, 1));
    assert_eq!(e.description(), "newline in string literal");
    assert_eq!(Error::ParseError(e).description(), "newline in string literal");
    assert_eq!(Error::DivisionByZero.description(), "division by zero");
    let i = ParseError::new(ParseErrorKind::Illegal('$'), SourcePos::new(2, 7));
    assert_eq!(i.description(), "illegal character");
    assert_eq!((i.pos.line(), i.pos.col()), (2, 7));
}

#[test]
fn unicode_white_space_is_skipped() {
    let mut lexer = lexer::Lexer::new("\u{3000}\u{a0}7\u{200b}");
    let t = lexer.next_token().unwrap();
    assert_eq!(t.kind, TokenKind::Int(7));
    assert_eq!(t.pos, SourcePos::new(1, 3));
    assert_eq!(lexer.next_token(), error_at(ParseErrorKind::Illegal('\u{200b}'), 1, 4));
}
