use interop_lang::lexer::Lexer;
use interop_lang::parser::{compile, parse_expr, parse_func, ParseError};
use interop_lang::token::{CharErrorKind, StringErrorKind, TokenErrorKind, TokenType};

fn tokens(input: &str, incl_comments: bool, markers: bool) -> Vec<(u32, TokenType, u32)> {
    let mut lexer = Lexer::new(input, incl_comments, markers);
    let mut out = Vec::new();
    while let Some(Ok(t)) = lexer.next() {
        out.push(t);
    }
    out
}

#[test]
fn token_texts_rebuild_input_without_layout() {
    let input = "a  # note\n b(1, \"x y\")\n";
    let mut text = String::new();
    for (start, kind, end) in tokens(input, false, false) {
        let piece = &input[start as usize..end as usize];
        if kind == TokenType::Semi && piece == "\n" {
            continue;
        }
        text.push_str(piece);
    }
    assert_eq!(text, "ab(1,\"x y\")");
}

#[test]
fn tokens_in_bounds_and_in_order() {
    let input = "func f(a: Int) -> a.b(\"ß\", 'c') # end\n";
    for markers in [false, true] {
        let ts = tokens(input, true, markers);
        let mut prev = 0;
        for (start, _, end) in ts {
            assert!(start <= end && end as usize <= input.len());
            assert!(prev <= start);
            prev = start;
        }
    }
}

#[test]
fn newline_becomes_semi_only_after_statement_end() {
    let ts: Vec<TokenType> = tokens("x\n\n(\ny)\nend\n+\n1 # c\n", true, false)
        .into_iter()
        .map(|t| t.1)
        .collect();
    assert_eq!(
        ts,
        vec![
            TokenType::Ident,
            TokenType::Semi,
            TokenType::LeftParen,
            TokenType::Ident,
            TokenType::RightParen,
            TokenType::Semi,
            TokenType::End,
            TokenType::Semi,
            TokenType::Plus,
            TokenType::NumberLit,
            TokenType::Comment,
            TokenType::Semi,
        ]
    );
}

#[test]
fn newline_after_error_token_is_skipped() {
    let ts = tokens("$\nx", false, false);
    assert_eq!(ts[0].1, TokenType::Error(TokenErrorKind::UnknownType));
    assert_eq!(ts[1].1, TokenType::Ident);
    assert_eq!(ts.len(), 2);
}

#[test]
fn escape_flag_follows_backslashes() {
    assert_eq!(tokens("\"abc\"", false, false)[0].1, TokenType::StringLit(false));
    assert_eq!(tokens(r#""a\nb""#, false, false)[0].1, TokenType::StringLit(true));
    assert_eq!(
        tokens(r#""a\qb""#, false, false)[0].1,
        TokenType::Error(TokenErrorKind::InvalidString(StringErrorKind::InvalidEscape))
    );
    assert_eq!(tokens("'x'", false, false)[0].1, TokenType::CharLit(false));
    assert_eq!(tokens(r"'\n'", false, false)[0].1, TokenType::CharLit(true));
    assert_eq!(
        tokens(r"'\xZ1'", false, false)[0].1,
        TokenType::Error(TokenErrorKind::InvalidChar(CharErrorKind::CharTooLong))
    );
    assert_eq!(
        tokens(r"'\xZ'", false, false)[0].1,
        TokenType::Error(TokenErrorKind::InvalidChar(CharErrorKind::InvalidHexEscape))
    );
}

#[test]
fn unicode_arrow_and_ascii_arrow() {
    let ts = tokens("-> \u{2192} -x", false, false);
    assert_eq!(ts[0], (0, TokenType::RArrow, 2));
    assert_eq!(ts[1], (3, TokenType::RArrow, 6));
    assert_eq!(ts[2], (7, TokenType::Minus, 8));
}

#[test]
fn unicode_letters_make_identifiers() {
    // alphabetic start, alphanumeric continuation (an Arabic-Indic digit)
    let ts = tokens("ßa\u{663} éé", false, false);
    assert_eq!(ts, vec![(0, TokenType::Ident, 5), (6, TokenType::Ident, 10)]);
    // a symbol that is no letter stays unknown
    assert_eq!(tokens("\u{2603}", false, false)[0].1, TokenType::Error(TokenErrorKind::UnknownType));
}

#[test]
fn keywords_and_lookalikes() {
    let ts: Vec<TokenType> = tokens("if iff then thenx else end ends func not and or true false", false, false)
        .into_iter()
        .map(|t| t.1)
        .collect();
    assert_eq!(ts, vec![
            TokenType::If,
            TokenType::Ident,
            TokenType::Then,
            TokenType::Ident,
            TokenType::Else,
            TokenType::End,
            TokenType::Ident,
            TokenType::Func,
            TokenType::Not,
            TokenType::And,
            TokenType::Or,
            TokenType::True,
            TokenType::False,
        ]);
}

#[test]
fn positional_after_named_is_rejected() {
    assert!(parse_expr("f(a=1, 2)").is_err());
    assert!(parse_expr("f(1, a=2)").is_ok());
    assert!(parse_expr("f(a=1, b=2)").is_ok());
}

#[test]
fn bare_if_in_condition_is_rejected() {
    assert!(parse_expr("if if a then b else c then: 1 end").is_err());
    assert!(parse_expr("if (if a then b else c) then: 1 end").is_ok());
}

#[test]
fn mixed_if_forms_are_rejected() {
    assert!(parse_expr("if a then: 1 else 2 end").is_err());
    assert!(parse_expr("if a then 1 else: 2 end").is_err());
    assert!(parse_expr("if a then: 1 else: 2 end").is_ok());
}

#[test]
fn func_without_parens_is_rejected() {
    assert_eq!(
        parse_func("func f -> 1"),
        Err(ParseError::UnrecognizedToken { start: 7, token: TokenType::RArrow, end: 9 })
    );
}

#[test]
fn error_at_end_of_input() {
    assert_eq!(parse_expr("f("), Err(ParseError::UnrecognizedEof { location: 2 }));
    assert_eq!(parse_expr(""), Err(ParseError::UnrecognizedEof { location: 0 }));
}

#[test]
fn error_at_end_marker() {
    assert_eq!(
        compile("func f("),
        Err(ParseError::UnrecognizedToken { start: 7, token: TokenType::EndOfInput, end: 7 })
    );
}

#[test]
fn error_on_integer_overflow() {
    assert_eq!(
        parse_expr("x(2147483648)"),
        Err(ParseError::IntegerOverflow { start: 2, end: 12 })
    );
    assert!(parse_expr("2147483647").is_ok());
}

#[test]
fn error_on_lexer_error_token() {
    assert_eq!(
        parse_expr("a and 'xy'"),
        Err(ParseError::UnrecognizedToken {
            start: 6,
            token: TokenType::Error(TokenErrorKind::InvalidChar(CharErrorKind::CharTooLong)),
            end: 10,
        })
    );
}

#[test]
fn error_on_trailing_token() {
    assert_eq!(
        parse_expr("a b"),
        Err(ParseError::UnrecognizedToken { start: 2, token: TokenType::Ident, end: 3 })
    );
}

#[test]
fn file_needs_start_marker_and_separators() {
    assert!(compile("func a() -> 1 func b() -> 2").is_err());
    assert!(compile("func a() -> 1; func b() -> 2").is_ok());
    assert_eq!(compile("").map(|d| d.len()), Ok(0));
}
