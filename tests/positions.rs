use interop_lang::ast::{CharLit, StringLit};
use interop_lang::pos::PosResolver;
use interop_lang::token::{Pos, Token, TokenType};

#[test]
fn resolver_walks_forward() {
    let mut r = PosResolver::new("ab\nßd");
    assert_eq!(r.pos_to_line_col(Pos(0)), Some((1, 1)));
    assert_eq!(r.pos_to_line_col(Pos(0)), Some((1, 1)));
    assert_eq!(r.pos_to_line_col(Pos(1)), Some((1, 2)));
    assert_eq!(r.pos_to_line_col(Pos(3)), Some((2, 1)));
    // inside the two-byte character
    assert_eq!(r.pos_to_line_col(Pos(4)), None);
    assert_eq!(r.pos_to_line_col(Pos(5)), Some((2, 2)));
    // out of order
    assert_eq!(r.pos_to_line_col(Pos(1)), None);
    // past the end
    assert_eq!(r.pos_to_line_col(Pos(9)), None);
}

#[test]
fn token_rows_and_slices() {
    let input = "x\n  yß z";
    let t = Token::new(TokenType::Ident, 4, 7);
    assert_eq!(t.as_str_slice(input), "yß");
    assert_eq!(t.start_row_col(input), (2, 3));
    assert_eq!(t.end_row_col(input), (2, 5));
    // an offset that starts no character counts the whole text
    let u = Token::new(TokenType::Ident, 6, 6);
    assert_eq!(u.start_row_col(input), (2, 7));
}

#[test]
fn literals_cache_their_plain_form() {
    let s = StringLit::from_str("\"hi\"", false);
    assert_eq!(s.parsed(), Some("\"hi\""));
    let e = StringLit::from_string(String::from("\"h\\ni\""), true);
    assert_eq!(e.parsed(), None);
    let c = CharLit::from_str("'q'", false);
    assert_eq!(c.parsed(), Some('q'));
    let d = CharLit::from_string(String::from("'\\n'"), true);
    assert_eq!(d.parsed(), None);
}
