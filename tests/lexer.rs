use interop_lang::lexer::Lexer;
use interop_lang::token::{CharErrorKind, StringErrorKind, TokenErrorKind, TokenType};

fn lexer_single_token_test(input: &str, token_type: TokenType, start: u32, end: u32) {
    let mut lexer = Lexer::new(input, false, false);
    assert_eq!(lexer.next(), Some(Ok((start, token_type, end))));
    assert_eq!(lexer.next(), None);
}

// *** Single Token Tests ***

#[test]
fn string_basic() {
    lexer_single_token_test(r#""hello""#, TokenType::StringLit(false), 0, 7);
}

#[test]
fn string_basic_unicode() {
    lexer_single_token_test(r#""helloß""#, TokenType::StringLit(false), 0, 9);
}

#[test]
fn string_escapes() {
    lexer_single_token_test(
        r#" "\\\t\n\r\0\" \u012789 \uaBcDeF \x09 \xaF" "#,
        TokenType::StringLit(true),
        1,
        43,
    );
}

#[test]
fn string_unterminated() {
    let tt = TokenType::Error(TokenErrorKind::InvalidString(StringErrorKind::Unterminated));
    lexer_single_token_test(r#""hello"#, tt, 0, 6);
    // In simple escape
    lexer_single_token_test(r#""\"#, tt, 0, 2);
    // In unicode escape
    lexer_single_token_test(r#""\u"#, tt, 0, 3);
    // In hex escape
    lexer_single_token_test(r#""\x"#, tt, 0, 3);
}

#[test]
fn string_invalid_char() {
    let tt = TokenType::Error(TokenErrorKind::InvalidString(StringErrorKind::InvalidChar));
    let mut buffer = String::with_capacity(3);

    buffer.push('"');
    buffer.push('\n');
    buffer.push('"');
    lexer_single_token_test(&buffer, tt, 0, 3);

    buffer.clear();
    buffer.push('"');
    buffer.push('\r');
    buffer.push('"');
    lexer_single_token_test(&buffer, tt, 0, 3);
}

#[test]
fn string_invalid_escape() {
    let tt = |kind| TokenType::Error(TokenErrorKind::InvalidString(kind));
    // In simple escape
    lexer_single_token_test(r#""\|""#, tt(StringErrorKind::InvalidEscape), 0, 4);
    // In unicode escape
    lexer_single_token_test(r#""\u|""#, tt(StringErrorKind::InvalidUnicodeEscape), 0, 5);
    // In hex escape
    lexer_single_token_test(r#""\x|""#, tt(StringErrorKind::InvalidHexEscape), 0, 5);
}

// *** Char Tests ***

#[test]
fn char_basic() {
    lexer_single_token_test(r#"'a'"#, TokenType::CharLit(false), 0, 3);
}

#[test]
fn char_basic_unicode() {
    lexer_single_token_test(r#"'ß'"#, TokenType::CharLit(false), 0, 4);
}

#[test]
fn char_escapes() {
    lexer_single_token_test(r#"'\t'"#, TokenType::CharLit(true), 0, 4);
    lexer_single_token_test(r#"'\u019aEf'"#, TokenType::CharLit(true), 0, 10);
    lexer_single_token_test(r#"'\x0F'"#, TokenType::CharLit(true), 0, 6);
}

#[test]
fn char_unterminated() {
    let tt = TokenType::Error(TokenErrorKind::InvalidChar(CharErrorKind::Unterminated));
    lexer_single_token_test(r#"'a"#, tt, 0, 2);
    // In simple escape
    lexer_single_token_test(r#"'\"#, tt, 0, 2);
    // In unicode escape
    lexer_single_token_test(r#"'\u0"#, tt, 0, 4);
    // In hex escape
    lexer_single_token_test(r#"'\xF"#, tt, 0, 4);
}

#[test]
fn char_invalid_char() {
    let tt = TokenType::Error(TokenErrorKind::InvalidChar(CharErrorKind::InvalidChar));
    let mut buffer = String::with_capacity(3);

    buffer.push('\'');
    buffer.push('\n');
    buffer.push('\'');
    lexer_single_token_test(&buffer, tt, 0, 3);

    buffer.clear();
    buffer.push('\'');
    buffer.push('\r');
    buffer.push('\'');
    lexer_single_token_test(&buffer, tt, 0, 3);
}

#[test]
fn char_invalid_escape() {
    let tt = |kind| TokenType::Error(TokenErrorKind::InvalidChar(kind));
    // In simple escape
    lexer_single_token_test(r#"'\|'"#, tt(CharErrorKind::InvalidEscape), 0, 4);
    // In unicode escape
    lexer_single_token_test(r#"'\u|'"#, tt(CharErrorKind::InvalidUnicodeEscape), 0, 5);
    // In hex escape
    lexer_single_token_test(r#"'\x|'"#, tt(CharErrorKind::InvalidHexEscape), 0, 5);
}

#[test]
fn char_empty() {
    let tt = TokenType::Error(TokenErrorKind::InvalidChar(CharErrorKind::InvalidChar));
    lexer_single_token_test("''", tt, 0, 2);
}

#[test]
fn end_marker_at_input_end() {
    let mut lexer = Lexer::new(" ;", false, true);
    assert_eq!(lexer.next(), Some(Ok((0, TokenType::StartOfInput, 0))));
    assert_eq!(lexer.next(), Some(Ok((1, TokenType::Semi, 2))));
    assert_eq!(lexer.next(), Some(Ok((2, TokenType::EndOfInput, 2))));
    assert_eq!(lexer.next(), None);
}

#[test]
fn char_too_long() {
    let tt = TokenType::Error(TokenErrorKind::InvalidChar(CharErrorKind::CharTooLong));
    lexer_single_token_test(r#"'ab'"#, tt, 0, 4);
}

// *** Bool Literal Tests ***

#[test]
fn bool_true() {
    lexer_single_token_test("true", TokenType::True, 0, 4);
}

#[test]
fn bool_false() {
    lexer_single_token_test("false", TokenType::False, 0, 5);
}

// *** Boolean Op Tests ***

#[test]
fn bool_op() {
    lexer_single_token_test("or", TokenType::Or, 0, 2);
    lexer_single_token_test("and", TokenType::And, 0, 3);
    lexer_single_token_test("not", TokenType::Not, 0, 3);
}

// *** Full Lexer Tests ***

#[test]
fn lexer_full_no_comments() {
    lexer_full(false, true);
}

#[test]
fn lexer_full_incl_comments() {
    lexer_full(true, true);
}

#[test]
fn lexer_full_no_comments_or_markers() {
    lexer_full(false, false);
}

#[test]
fn lexer_full_incl_comments_but_no_markers() {
    lexer_full(true, false);
}

fn lexer_full(incl_comments: bool, gen_input_markers: bool) {
    const INPUT: &str = r#" 123;(45)
    6 * 7 +  8 # This is a comment

    # This is another comment
    - 9 ;

    if then ifs else end
    _this_IS_an_Iß3NT

    func,:=->
    "This is a string!\n"
    "#;

    let mut lexer = Lexer::new(INPUT, incl_comments, gen_input_markers);
    if gen_input_markers {
        assert_eq!(lexer.next(), Some(Ok((0, TokenType::StartOfInput, 0))));
    }

    assert_eq!(lexer.next(), Some(Ok((1, TokenType::NumberLit, 4))));
    assert_eq!(lexer.next(), Some(Ok((4, TokenType::Semi, 5))));
    assert_eq!(lexer.next(), Some(Ok((5, TokenType::LeftParen, 6))));
    assert_eq!(lexer.next(), Some(Ok((6, TokenType::NumberLit, 8))));
    assert_eq!(lexer.next(), Some(Ok((8, TokenType::RightParen, 9))));
    // Special semi due to line ending in right parent
    assert_eq!(lexer.next(), Some(Ok((9, TokenType::Semi, 10))));

    assert_eq!(lexer.next(), Some(Ok((14, TokenType::NumberLit, 15))));
    assert_eq!(lexer.next(), Some(Ok((16, TokenType::Multiply, 17))));
    assert_eq!(lexer.next(), Some(Ok((18, TokenType::NumberLit, 19))));
    assert_eq!(lexer.next(), Some(Ok((20, TokenType::Plus, 21))));
    assert_eq!(lexer.next(), Some(Ok((23, TokenType::NumberLit, 24))));
    if incl_comments {
        assert_eq!(lexer.next(), Some(Ok((25, TokenType::Comment, 44))));
    }
    // Special semi due to line ending in number (there is a space after the 8)
    assert_eq!(lexer.next(), Some(Ok((44, TokenType::Semi, 45))));

    if incl_comments {
        assert_eq!(lexer.next(), Some(Ok((50, TokenType::Comment, 75))));
    }
    assert_eq!(lexer.next(), Some(Ok((80, TokenType::Minus, 81))));
    assert_eq!(lexer.next(), Some(Ok((82, TokenType::NumberLit, 83))));
    assert_eq!(lexer.next(), Some(Ok((84, TokenType::Semi, 85))));

    assert_eq!(lexer.next(), Some(Ok((91, TokenType::If, 93))));
    assert_eq!(lexer.next(), Some(Ok((94, TokenType::Then, 98))));
    assert_eq!(lexer.next(), Some(Ok((99, TokenType::Ident, 102))));
    assert_eq!(lexer.next(), Some(Ok((103, TokenType::Else, 107))));
    assert_eq!(lexer.next(), Some(Ok((108, TokenType::End, 111))));
    assert_eq!(lexer.next(), Some(Ok((111, TokenType::Semi, 112))));

    assert_eq!(lexer.next(), Some(Ok((116, TokenType::Ident, 134))));
    // Special semi due to line ending in identifier
    assert_eq!(lexer.next(), Some(Ok((134, TokenType::Semi, 135))));

    assert_eq!(lexer.next(), Some(Ok((140, TokenType::Func, 144))));
    assert_eq!(lexer.next(), Some(Ok((144, TokenType::Comma, 145))));
    assert_eq!(lexer.next(), Some(Ok((145, TokenType::Colon, 146))));
    assert_eq!(lexer.next(), Some(Ok((146, TokenType::Assign, 147))));
    assert_eq!(lexer.next(), Some(Ok((147, TokenType::RArrow, 149))));

    assert_eq!(
        lexer.next(),
        Some(Ok((154, TokenType::StringLit(true), 175)))
    );

    if gen_input_markers {
        // The end marker sits at the end of the input
        let len = INPUT.len() as u32;
        assert_eq!(lexer.next(), Some(Ok((len, TokenType::EndOfInput, len))));
    }
    assert_eq!(lexer.next(), None);
    // It should keep returning None on successive attempts
    assert_eq!(lexer.next(), None);
}
