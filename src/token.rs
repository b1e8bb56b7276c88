//! Token kinds and spanned tokens.
use vstd::prelude::*;
use vstd::string::StringSliceAdditionalSpecFns;
use vstd::utf8::{
    encode_utf8_valid_utf8, is_char_boundary, is_char_boundary_iff_not_is_continuation_byte,
    is_char_boundary_start_end_of_seq,
};
use crate::pos::{char_at_byte, lemma_line_col_bound, line_col, row_col};
use crate::text::{
    byte_len, byte_offset, char_width, chars_of, lemma_byte_offset_mono, lemma_byte_offset_step,
    lemma_encode_len_ge,
};

verus! {

#[derive(Clone, Copy, Debug, PartialEq, Eq, Structural)]
pub enum StringErrorKind {
    Unterminated,
    InvalidChar,
    InvalidEscape,
    InvalidHexEscape,
    InvalidUnicodeEscape,
}

#[derive(Clone, Copy, Debug, PartialEq, Eq, Structural)]
pub enum CharErrorKind {
    Unterminated,
    CharTooLong,
    InvalidChar,
    InvalidEscape,
    InvalidHexEscape,
    InvalidUnicodeEscape,
}

#[derive(Clone, Copy, Debug, PartialEq, Eq, Structural)]
pub enum TokenErrorKind {
    UnknownType,
    InvalidString(StringErrorKind),
    InvalidChar(CharErrorKind),
}

#[derive(Clone, Copy, Debug, PartialEq, Eq, Structural)]
pub enum TokenType {
    // Input markers
    StartOfInput,
    EndOfInput,
    Comment,
    // Expression literals
    Ident,
    NumberLit,
    /// `true` when the literal holds at least one escape
    StringLit(bool),
    /// `true` when the literal holds at least one escape
    CharLit(bool),
    // Symbols
    LeftParen,
    RightParen,
    Semi,
    Colon,
    Assign,
    Dot,
    Comma,
    RArrow,
    // Math operators
    Multiply,
    Divide,
    Plus,
    Minus,
    // Keywords
    Or,
    And,
    Not,
    True,
    False,
    Func,
    End,
    If,
    Then,
    Else,
    Error(TokenErrorKind),
}

/// The kinds after which a newline ends the statement.
pub open spec fn ends_statement(last: Option<TokenType>) -> bool {
    match last {
        Some(TokenType::Ident) => true,
        Some(TokenType::NumberLit) => true,
        Some(TokenType::RightParen) => true,
        Some(TokenType::End) => true,
        _ => false,
    }
}

/// The keyword table: the kind of a keyword's text, `None` for any other text.
pub open spec fn keyword_kind(s: Seq<char>) -> Option<TokenType> {
    if s == seq!['t', 'r', 'u', 'e'] {
        Some(TokenType::True)
    } else if s == seq!['f', 'a', 'l', 's', 'e'] {
        Some(TokenType::False)
    } else if s == seq!['o', 'r'] {
        Some(TokenType::Or)
    } else if s == seq!['a', 'n', 'd'] {
        Some(TokenType::And)
    } else if s == seq!['n', 'o', 't'] {
        Some(TokenType::Not)
    } else if s == seq!['f', 'u', 'n', 'c'] {
        Some(TokenType::Func)
    } else if s == seq!['e', 'n', 'd'] {
        Some(TokenType::End)
    } else if s == seq!['i', 'f'] {
        Some(TokenType::If)
    } else if s == seq!['t', 'h', 'e', 'n'] {
        Some(TokenType::Then)
    } else if s == seq!['e', 'l', 's', 'e'] {
        Some(TokenType::Else)
    } else {
        None
    }
}

/// A token as the lexer hands it out: start byte, kind, end byte.
pub type SpannedToken = (u32, TokenType, u32);

/// A byte offset into the input.
#[derive(Clone, Copy, Debug, PartialEq, Eq, Structural)]
pub struct Pos(pub u32);

/// A token with the byte range `start..end` of its text.
#[derive(Clone, Copy, Debug, PartialEq, Eq, Structural)]
pub struct Token {
    pub token_type: TokenType,
    pub start: u32,
    pub end: u32,
}

impl Token {
    pub fn new(token_type: TokenType, start: u32, end: u32) -> (r: Self)
        ensures
            r.token_type == token_type,
            r.start == start,
            r.end == end,
    {
        Token { token_type, start, end }
    }

    /// The token's text: the bytes `start..end` of `input`, which must lie
    /// on character boundaries.
    pub fn as_str_slice<'a>(&self, input: &'a str) -> (r: &'a str)
        requires
            self.start <= self.end <= input.spec_bytes().len(),
            is_char_boundary(input.spec_bytes(), self.start as int),
            is_char_boundary(input.spec_bytes(), self.end as int),
        ensures
            r.spec_bytes() == input.spec_bytes().subrange(
                self.start as int,
                self.end as int,
            ),
    {
        let (head, _) = input.split_at(self.end as usize);
        proof {
            encode_utf8_valid_utf8(input@);
            encode_utf8_valid_utf8(head@);
            let b = self.start as int;
            if b < head.spec_bytes().len() {
                is_char_boundary_iff_not_is_continuation_byte(head.spec_bytes(), b);
                is_char_boundary_iff_not_is_continuation_byte(input.spec_bytes(), b);
            } else {
                is_char_boundary_start_end_of_seq(head.spec_bytes());
            }
        }
        let (_, mid) = head.split_at(self.start as usize);
        assert(mid.spec_bytes() =~= input.spec_bytes().subrange(
            self.start as int,
            self.end as int,
        ));
        mid
    }

    /// Line and column of the token's first byte.
    pub fn start_row_col(&self, input: &str) -> (r: (u32, u32))
        requires
            input.len() < u32::MAX,
        ensures
            r.0 == row_col(input@, self.start as int).0,
            r.1 == row_col(input@, self.start as int).1,
    {
        Self::row_col(self.start as usize, input)
    }

    /// Line and column of the byte after the token.
    pub fn end_row_col(&self, input: &str) -> (r: (u32, u32))
        requires
            input.len() < u32::MAX,
        ensures
            r.0 == row_col(input@, self.end as int).0,
            r.1 == row_col(input@, self.end as int).1,
    {
        Self::row_col(self.end as usize, input)
    }

    fn row_col(start_or_end: usize, input: &str) -> (r: (u32, u32))
        requires
            input.len() < u32::MAX,
        ensures
            r.0 == row_col(input@, start_or_end as int).0,
            r.1 == row_col(input@, start_or_end as int).1,
    {
        // the byte length fits a usize, so the bound on `input.len()` bounds it exactly
        let _ = byte_len(input);
        let chars = chars_of(input);
        let ghost s = chars@;
        let mut line: u32 = 1;
        let mut col: u32 = 1;
        let mut byte: usize = 0;
        let mut i: usize = 0;
        assert(s.take(0) =~= Seq::<char>::empty());
        while i < chars.len() && byte != start_or_end
            invariant
                s == chars@,
                s == input@,
                input.spec_bytes().len() < u32::MAX,
                i <= chars.len(),
                byte == byte_offset(s, i as int),
                (line as int, col as int) == line_col(s, i as int),
                char_at_byte(s, start_or_end as int, 0) == char_at_byte(s, start_or_end as int, i as int),
            decreases chars.len() - i,
        {
            let c = chars[i];
            proof {
                lemma_byte_offset_step(s, i as int);
                lemma_byte_offset_mono(s, i + 1, s.len() as int);
                lemma_encode_len_ge(s);
                lemma_line_col_bound(s, i + 1);
                assert(s.take(s.len() as int) =~= s);
            }
            if c == '\n' {
                line = line + 1;
                col = 1;
            } else {
                col = col + 1;
            }
            byte = byte + char_width(c);
            i = i + 1;
        }
        (line, col)
    }
}

} // verus!
