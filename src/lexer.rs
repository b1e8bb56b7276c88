//! The lexer: a pull-model token stream with automatic semicolon insertion.
//!
//! The scanners are stated over the input's characters and character
//! indices; the tokens handed out carry byte offsets into the UTF-8 text.
use vstd::prelude::*;
use crate::text::{byte_len, byte_offset, char_width, chars_of, lemma_bytes_of_span, lemma_byte_offset_mono, lemma_byte_offset_step};
use vstd::string::StringSliceAdditionalSpecFns;
use vstd::utf8::encode_utf8;
use crate::token::{
    ends_statement, keyword_kind, CharErrorKind, SpannedToken, StringErrorKind, TokenErrorKind,
    TokenType,
};

verus! {

// ---------------------------------------------------------------------
// Character classes
// ---------------------------------------------------------------------

/// Whether `c` has the Unicode Alphabetic property.
pub uninterp spec fn alphabetic(c: char) -> bool;

/// Whether `c` is alphabetic or numeric in Unicode.
pub uninterp spec fn alphanumeric(c: char) -> bool;

/// Relies on `char::is_alphabetic`: the Unicode Alphabetic property of `c`.
#[verifier::external_body]
fn is_alphabetic(c: char) -> (r: bool)
    ensures
        r == alphabetic(c),
{
    c.is_alphabetic()
}

/// Relies on `char::is_alphanumeric`: Alphabetic or Numeric in Unicode.
#[verifier::external_body]
fn is_alphanumeric(c: char) -> (r: bool)
    ensures
        r == alphanumeric(c),
{
    c.is_alphanumeric()
}

pub open spec fn is_digit(c: char) -> bool {
    '0' <= c <= '9'
}

pub open spec fn is_hex_digit(c: char) -> bool {
    ('0' <= c <= '9') || ('a' <= c <= 'f') || ('A' <= c <= 'F')
}

pub open spec fn is_ident_start(c: char) -> bool {
    c == '_' || alphabetic(c)
}

pub open spec fn is_ident_continue(c: char) -> bool {
    c == '_' || alphanumeric(c)
}

/// Blank characters between tokens; a newline is handled apart.
pub open spec fn is_blank(c: char) -> bool {
    c == ' ' || c == '\t' || c == '\r'
}

// ---------------------------------------------------------------------
// Scanners, over character indices
// ---------------------------------------------------------------------

/// End of a comment's text: the next newline, or the end of input.
pub open spec fn comment_end(s: Seq<char>, i: int) -> int
    decreases s.len() - i,
{
    if i < 0 || i >= s.len() || s[i] == '\n' {
        if i < 0 { 0 } else if i >= s.len() { s.len() as int } else { i }
    } else {
        comment_end(s, i + 1)
    }
}

/// End of the run of decimal digits from `i`.
pub open spec fn digits_end(s: Seq<char>, i: int) -> int
    decreases s.len() - i,
{
    if 0 <= i < s.len() && is_digit(s[i]) {
        digits_end(s, i + 1)
    } else {
        i
    }
}

/// End of the run of identifier characters from `i`.
pub open spec fn ident_end(s: Seq<char>, i: int) -> int
    decreases s.len() - i,
{
    if 0 <= i < s.len() && is_ident_continue(s[i]) {
        ident_end(s, i + 1)
    } else {
        i
    }
}

/// What can go wrong inside an escape sequence.
#[derive(Clone, Copy, Debug, PartialEq, Eq, Structural)]
pub enum EscapeFault {
    Unterminated,
    Invalid,
    InvalidHex,
    InvalidUnicode,
}

/// Reads `need` more hex digits from `i`: a fault, and where reading stopped.
/// A character that is no hex digit is consumed with the fault.
pub open spec fn hex_run(s: Seq<char>, i: int, need: nat, fault: EscapeFault) -> (Option<EscapeFault>, int)
    decreases need,
{
    if need == 0 {
        (None, i)
    } else if i < 0 || i >= s.len() {
        (Some(EscapeFault::Unterminated), i)
    } else if is_hex_digit(s[i]) {
        hex_run(s, i + 1, (need - 1) as nat, fault)
    } else {
        (Some(fault), i + 1)
    }
}

/// Reads an escape whose backslash stands just before `i`.
pub open spec fn escape(s: Seq<char>, i: int, quote: char) -> (Option<EscapeFault>, int) {
    if i < 0 || i >= s.len() {
        (Some(EscapeFault::Unterminated), i)
    } else {
        let c = s[i];
        if c == '\\' || c == 'n' || c == 'r' || c == 't' || c == '0' || c == quote {
            (None, i + 1)
        } else if c == 'x' {
            hex_run(s, i + 1, 2, EscapeFault::InvalidHex)
        } else if c == 'u' {
            hex_run(s, i + 1, 6, EscapeFault::InvalidUnicode)
        } else {
            (Some(EscapeFault::Invalid), i + 1)
        }
    }
}

pub open spec fn string_error(f: EscapeFault) -> TokenType {
    TokenType::Error(
        TokenErrorKind::InvalidString(
            match f {
                EscapeFault::Unterminated => StringErrorKind::Unterminated,
                EscapeFault::Invalid => StringErrorKind::InvalidEscape,
                EscapeFault::InvalidHex => StringErrorKind::InvalidHexEscape,
                EscapeFault::InvalidUnicode => StringErrorKind::InvalidUnicodeEscape,
            },
        ),
    )
}

pub open spec fn char_error(f: EscapeFault) -> TokenType {
    TokenType::Error(
        TokenErrorKind::InvalidChar(
            match f {
                EscapeFault::Unterminated => CharErrorKind::Unterminated,
                EscapeFault::Invalid => CharErrorKind::InvalidEscape,
                EscapeFault::InvalidHex => CharErrorKind::InvalidHexEscape,
                EscapeFault::InvalidUnicode => CharErrorKind::InvalidUnicodeEscape,
            },
        ),
    )
}

/// The kind after an escape: its fault, else the literal marked as escaped
/// (an error already found stays).
pub open spec fn after_escape(kind: TokenType, fault: Option<EscapeFault>, is_char: bool) -> TokenType {
    match fault {
        Some(f) => if is_char { char_error(f) } else { string_error(f) },
        None => if kind == TokenType::StringLit(false) {
            TokenType::StringLit(true)
        } else if kind == TokenType::CharLit(false) {
            TokenType::CharLit(true)
        } else {
            kind
        },
    }
}

/// The rest of a string literal from `i` (after the opening quote): its kind
/// and the index after its last character.
pub open spec fn string_body(s: Seq<char>, i: int, kind: TokenType) -> (TokenType, int)
    decreases s.len() - i,
{
    if i < 0 || i >= s.len() {
        (string_error(EscapeFault::Unterminated), i)
    } else if s[i] == '\\' {
        let (fault, j) = escape(s, i + 1, '"');
        let k = after_escape(kind, fault, false);
        if i < j <= s.len() {
            string_body(s, j, k)
        } else {
            (k, j)
        }
    } else if s[i] == '"' {
        (kind, i + 1)
    } else if s[i] == '\n' || s[i] == '\r' {
        string_body(
            s,
            i + 1,
            TokenType::Error(TokenErrorKind::InvalidString(StringErrorKind::InvalidChar)),
        )
    } else {
        string_body(s, i + 1, kind)
    }
}

/// The rest of a character literal from `i` (after the opening quote);
/// `complete` tells whether one character has been read already. A literal
/// must hold exactly one character: more is `CharTooLong`, none (`''`) is
/// an `InvalidChar` error.
pub open spec fn char_body(s: Seq<char>, i: int, kind: TokenType, complete: bool) -> (TokenType, int)
    decreases s.len() - i,
{
    if i < 0 || i >= s.len() {
        (char_error(EscapeFault::Unterminated), i)
    } else if s[i] == '\'' {
        if complete {
            (kind, i + 1)
        } else {
            (TokenType::Error(TokenErrorKind::InvalidChar(CharErrorKind::InvalidChar)), i + 1)
        }
    } else {
        let (k, j) = if s[i] == '\\' {
            let (fault, e) = escape(s, i + 1, '\'');
            (after_escape(kind, fault, true), e)
        } else if s[i] == '\n' || s[i] == '\r' {
            (TokenType::Error(TokenErrorKind::InvalidChar(CharErrorKind::InvalidChar)), i + 1)
        } else {
            (kind, i + 1)
        };
        let k2 = if complete {
            TokenType::Error(TokenErrorKind::InvalidChar(CharErrorKind::CharTooLong))
        } else {
            k
        };
        if i < j <= s.len() {
            char_body(s, j, k2, true)
        } else {
            (k2, j)
        }
    }
}

/// The token that starts at `i`, where `s[i]` is neither blank, newline nor
/// `#`: its kind and end index.
pub open spec fn token_at(s: Seq<char>, i: int) -> (TokenType, int)
    recommends
        0 <= i < s.len(),
{
    let c = s[i];
    if c == ':' {
        (TokenType::Colon, i + 1)
    } else if c == '=' {
        (TokenType::Assign, i + 1)
    } else if c == '.' {
        (TokenType::Dot, i + 1)
    } else if c == ',' {
        (TokenType::Comma, i + 1)
    } else if c == ';' {
        (TokenType::Semi, i + 1)
    } else if c == '(' {
        (TokenType::LeftParen, i + 1)
    } else if c == ')' {
        (TokenType::RightParen, i + 1)
    } else if c == '*' {
        (TokenType::Multiply, i + 1)
    } else if c == '/' {
        (TokenType::Divide, i + 1)
    } else if c == '+' {
        (TokenType::Plus, i + 1)
    } else if c == '-' {
        if i + 1 < s.len() && s[i + 1] == '>' {
            (TokenType::RArrow, i + 2)
        } else {
            (TokenType::Minus, i + 1)
        }
    } else if c == '\u{2192}' {
        (TokenType::RArrow, i + 1)
    } else if c == '"' {
        string_body(s, i + 1, TokenType::StringLit(false))
    } else if c == '\'' {
        char_body(s, i + 1, TokenType::CharLit(false), false)
    } else if '1' <= c <= '9' {
        (TokenType::NumberLit, digits_end(s, i + 1))
    } else if is_ident_start(c) {
        let e = ident_end(s, i + 1);
        (
            match keyword_kind(s.subrange(i, e)) {
                Some(k) => k,
                None => TokenType::Ident,
            },
            e,
        )
    } else {
        (TokenType::Error(TokenErrorKind::UnknownType), i + 1)
    }
}

/// A token of the stream in character indices: kind, start, end.
pub type Lexeme = (TokenType, int, int);

/// The next token from index `i`, given the last non-comment token: blanks
/// are skipped, comments are skipped unless included, and a newline becomes
/// a `Semi` exactly after a token that ends a statement.
pub open spec fn next_lexeme(s: Seq<char>, i: int, last: Option<TokenType>, incl_comments: bool) -> Option<Lexeme>
    decreases s.len() - i,
{
    if i < 0 || i >= s.len() {
        None
    } else if s[i] == '#' {
        let e = comment_end(s, i + 1);
        if incl_comments {
            Some((TokenType::Comment, i, e))
        } else if i < e <= s.len() {
            next_lexeme(s, e, last, incl_comments)
        } else {
            None
        }
    } else if is_blank(s[i]) {
        next_lexeme(s, i + 1, last, incl_comments)
    } else if s[i] == '\n' {
        if ends_statement(last) {
            Some((TokenType::Semi, i, i + 1))
        } else {
            next_lexeme(s, i + 1, last, incl_comments)
        }
    } else {
        let (k, e) = token_at(s, i);
        Some((k, i, e))
    }
}

/// The last-token memory after emitting `t`: comments leave it alone.
pub open spec fn last_after(last: Option<TokenType>, t: TokenType) -> Option<TokenType> {
    if t == TokenType::Comment {
        last
    } else {
        Some(t)
    }
}

/// All the tokens from index `i` on.
pub open spec fn lex_from(s: Seq<char>, i: int, last: Option<TokenType>, incl_comments: bool) -> Seq<Lexeme>
    decreases s.len() - i,
{
    match next_lexeme(s, i, last, incl_comments) {
        None => Seq::empty(),
        Some(t) => if i < t.2 <= s.len() {
            seq![t] + lex_from(s, t.2, last_after(last, t.0), incl_comments)
        } else {
            seq![t]
        },
    }
}

/// A token with both its character span and its byte span.
#[derive(Clone, Copy, Debug, PartialEq, Eq, Structural)]
pub struct Tok {
    pub kind: TokenType,
    /// Character indices
    pub start: usize,
    pub end: usize,
    /// Byte offsets
    pub bstart: u32,
    pub bend: u32,
}

pub open spec fn tok_of(s: Seq<char>, t: Lexeme) -> Tok {
    Tok {
        kind: t.0,
        start: t.1 as usize,
        end: t.2 as usize,
        bstart: byte_offset(s, t.1) as u32,
        bend: byte_offset(s, t.2) as u32,
    }
}

pub open spec fn start_marker() -> Tok {
    Tok { kind: TokenType::StartOfInput, start: 0, end: 0, bstart: 0, bend: 0 }
}

/// The end marker sits after the last character, zero-length at the input's
/// byte length.
pub open spec fn end_marker(s: Seq<char>) -> Tok {
    Tok {
        kind: TokenType::EndOfInput,
        start: s.len() as usize,
        end: s.len() as usize,
        bstart: encode_utf8(s).len() as u32,
        bend: encode_utf8(s).len() as u32,
    }
}

pub open spec fn toks_all(s: Seq<char>, ts: Seq<Lexeme>) -> Seq<Tok> {
    ts.map_values(|t: Lexeme| tok_of(s, t))
}

/// The token stream of `s` with character spans.
pub open spec fn lex_toks(s: Seq<char>, incl_comments: bool, markers: bool) -> Seq<Tok> {
    if markers {
        seq![start_marker()] + toks_all(s, lex_from(s, 0, Some(TokenType::StartOfInput), incl_comments))
            + seq![end_marker(s)]
    } else {
        toks_all(s, lex_from(s, 0, None, incl_comments))
    }
}

pub open spec fn spanned(t: Tok) -> SpannedToken {
    (t.bstart, t.kind, t.bend)
}

/// The whole token stream of `s` in byte offsets. With markers it is
/// framed by the two zero-length markers, and the start marker is the
/// first "last token".
pub open spec fn lex_tokens(s: Seq<char>, incl_comments: bool, markers: bool) -> Seq<SpannedToken> {
    lex_toks(s, incl_comments, markers).map_values(|t: Tok| spanned(t))
}

/// Kinds that scanning the text can give: neither a marker nor a comment.
pub open spec fn is_scanned(t: TokenType) -> bool {
    t != TokenType::StartOfInput && t != TokenType::EndOfInput && t != TokenType::Comment
}

// ---------------------------------------------------------------------
// Bounds of the scanners
// ---------------------------------------------------------------------

pub proof fn lemma_comment_end(s: Seq<char>, i: int)
    requires
        0 <= i <= s.len(),
    ensures
        i <= comment_end(s, i) <= s.len(),
    decreases s.len() - i,
{
    if i < s.len() && s[i] != '\n' {
        lemma_comment_end(s, i + 1);
    }
}

pub proof fn lemma_digits_end(s: Seq<char>, i: int)
    requires
        0 <= i <= s.len(),
    ensures
        i <= digits_end(s, i) <= s.len(),
    decreases s.len() - i,
{
    if i < s.len() && is_digit(s[i]) {
        lemma_digits_end(s, i + 1);
    }
}

pub proof fn lemma_ident_end(s: Seq<char>, i: int)
    requires
        0 <= i <= s.len(),
    ensures
        i <= ident_end(s, i) <= s.len(),
    decreases s.len() - i,
{
    if i < s.len() && is_ident_continue(s[i]) {
        lemma_ident_end(s, i + 1);
    }
}

pub proof fn lemma_hex_run(s: Seq<char>, i: int, need: nat, fault: EscapeFault)
    requires
        0 <= i <= s.len(),
    ensures
        i <= hex_run(s, i, need, fault).1 <= s.len(),
    decreases need,
{
    if need > 0 && i < s.len() && is_hex_digit(s[i]) {
        lemma_hex_run(s, i + 1, (need - 1) as nat, fault);
    }
}

pub proof fn lemma_escape(s: Seq<char>, i: int, quote: char)
    requires
        0 <= i <= s.len(),
    ensures
        i <= escape(s, i, quote).1 <= s.len(),
{
    if i < s.len() {
        lemma_hex_run(s, i + 1, 2, EscapeFault::InvalidHex);
        lemma_hex_run(s, i + 1, 6, EscapeFault::InvalidUnicode);
    }
}

pub proof fn lemma_string_body(s: Seq<char>, i: int, kind: TokenType)
    requires
        0 <= i <= s.len(),
        is_scanned(kind),
    ensures
        i <= string_body(s, i, kind).1 <= s.len(),
        is_scanned(string_body(s, i, kind).0),
    decreases s.len() - i,
{
    if i < s.len() {
        if s[i] == '\\' {
            lemma_escape(s, i + 1, '"');
            let (fault, j) = escape(s, i + 1, '"');
            lemma_string_body(s, j, after_escape(kind, fault, false));
        } else if s[i] == '"' {
        } else if s[i] == '\n' || s[i] == '\r' {
            lemma_string_body(
                s,
                i + 1,
                TokenType::Error(TokenErrorKind::InvalidString(StringErrorKind::InvalidChar)),
            );
        } else {
            lemma_string_body(s, i + 1, kind);
        }
    }
}

pub proof fn lemma_char_body(s: Seq<char>, i: int, kind: TokenType, complete: bool)
    requires
        0 <= i <= s.len(),
        is_scanned(kind),
    ensures
        i <= char_body(s, i, kind, complete).1 <= s.len(),
        is_scanned(char_body(s, i, kind, complete).0),
    decreases s.len() - i,
{
    if i < s.len() && s[i] != '\'' {
        lemma_escape(s, i + 1, '\'');
        let (k, j) = if s[i] == '\\' {
            let (fault, e) = escape(s, i + 1, '\'');
            (after_escape(kind, fault, true), e)
        } else if s[i] == '\n' || s[i] == '\r' {
            (TokenType::Error(TokenErrorKind::InvalidChar(CharErrorKind::InvalidChar)), i + 1)
        } else {
            (kind, i + 1)
        };
        let k2 = if complete {
            TokenType::Error(TokenErrorKind::InvalidChar(CharErrorKind::CharTooLong))
        } else {
            k
        };
        lemma_char_body(s, j, k2, true);
    }
}

pub proof fn lemma_token_at(s: Seq<char>, i: int)
    requires
        0 <= i < s.len(),
    ensures
        i < token_at(s, i).1 <= s.len(),
        is_scanned(token_at(s, i).0),
{
    lemma_string_body(s, i + 1, TokenType::StringLit(false));
    lemma_char_body(s, i + 1, TokenType::CharLit(false), false);
    lemma_digits_end(s, i + 1);
    lemma_ident_end(s, i + 1);
}

/// A lexeme lies within the input, after the index it was looked for from;
/// a comment comes only when comments are included.
pub proof fn lemma_next_lexeme(s: Seq<char>, i: int, last: Option<TokenType>, incl: bool)
    requires
        0 <= i,
    ensures
        next_lexeme(s, i, last, incl) matches Some(t) ==> i <= t.1 < t.2 <= s.len() && t.0
            != TokenType::StartOfInput && t.0 != TokenType::EndOfInput && (t.0
            == TokenType::Comment ==> incl),
    decreases s.len() - i,
{
    if i < s.len() {
        if s[i] == '#' {
            lemma_comment_end(s, i + 1);
            let e = comment_end(s, i + 1);
            if !incl && i < e <= s.len() {
                lemma_next_lexeme(s, e, last, incl);
            }
        } else if is_blank(s[i]) {
            lemma_next_lexeme(s, i + 1, last, incl);
        } else if s[i] == '\n' {
            lemma_next_lexeme(s, i + 1, last, incl);
        } else {
            lemma_token_at(s, i);
        }
    }
}

/// Skipping characters that yield no token leaves the stream as it was.
pub proof fn lemma_lex_from_skip(s: Seq<char>, i: int, j: int, last: Option<TokenType>, incl: bool)
    requires
        0 <= i < j,
        next_lexeme(s, i, last, incl) == next_lexeme(s, j, last, incl),
    ensures
        lex_from(s, i, last, incl) == lex_from(s, j, last, incl),
{
    lemma_next_lexeme(s, j, last, incl);
}

/// The stream is its next lexeme followed by the stream after it.
pub proof fn lemma_lex_from_cons(s: Seq<char>, i: int, last: Option<TokenType>, incl: bool)
    requires
        0 <= i,
        next_lexeme(s, i, last, incl) is Some,
    ensures
        ({
            let t = next_lexeme(s, i, last, incl)->Some_0;
            lex_from(s, i, last, incl) == seq![t] + lex_from(s, t.2, last_after(last, t.0), incl)
        }),
{
    lemma_next_lexeme(s, i, last, incl);
}

pub proof fn lemma_toks_cons(s: Seq<char>, t: Lexeme, rest: Seq<Lexeme>)
    ensures
        toks_all(s, seq![t] + rest) == seq![tok_of(s, t)] + toks_all(s, rest),
{
    assert(toks_all(s, seq![t] + rest) =~= seq![tok_of(s, t)] + toks_all(s, rest));
}

/// Lexemes within `i..n`, none a marker, comments only when included.
pub open spec fn lexemes_within(r: Seq<Lexeme>, i: int, n: int, incl: bool) -> bool {
    forall|k: int|
        0 <= k < r.len() ==> {
            let t = #[trigger] r[k];
            &&& i <= t.1 < t.2 <= n
            &&& t.0 != TokenType::StartOfInput
            &&& t.0 != TokenType::EndOfInput
            &&& (t.0 == TokenType::Comment ==> incl)
        }
}

/// Each lexeme ends before the next starts.
pub open spec fn lexemes_ordered(r: Seq<Lexeme>) -> bool {
    forall|j: int, k: int| 0 <= j < k < r.len() ==> (#[trigger] r[j]).2 <= (#[trigger] r[k]).1
}

/// The lexemes from `i` lie within the text, in order and apart.
pub proof fn lemma_lex_from_bounds(s: Seq<char>, i: int, last: Option<TokenType>, incl: bool)
    requires
        0 <= i,
    ensures
        lexemes_within(lex_from(s, i, last, incl), i, s.len() as int, incl),
        lexemes_ordered(lex_from(s, i, last, incl)),
    decreases s.len() - i,
{
    lemma_next_lexeme(s, i, last, incl);
    let r = lex_from(s, i, last, incl);
    match next_lexeme(s, i, last, incl) {
        Some(t) => {
            let rest = lex_from(s, t.2, last_after(last, t.0), incl);
            lemma_lex_from_bounds(s, t.2, last_after(last, t.0), incl);
            assert(r == seq![t] + rest);
            assert(r[0] == t);
            assert forall|k: int| 0 < k < r.len() implies #[trigger] r[k] == rest[k - 1] by {}
            assert(lexemes_within(r, i, s.len() as int, incl));
            assert(lexemes_ordered(r));
        },
        None => {
            assert(r.len() == 0);
        },
    }
}

// ---------------------------------------------------------------------
// The lexer
// ---------------------------------------------------------------------

/// What the stream hands out: a spanned token, never an error.
pub type LexResult = Result<SpannedToken, &'static str>;

/// A pull-model lexer: each call of `next` hands out the next token of the
/// stream that `lex_tokens` describes for the input.
pub struct Lexer {
    incl_comments: bool,
    gen_input_markers: bool,
    chars: Vec<char>,
    /// `offsets[k]` is the byte offset of character `k`, one more for the end.
    offsets: Vec<u32>,
    /// Index of the next character to read.
    pos: usize,
    /// The last token emitted, comments aside.
    last_token: Option<TokenType>,
}

fn escape_fault_of_string(f: EscapeFault) -> (r: TokenType)
    ensures
        r == string_error(f),
{
    TokenType::Error(
        TokenErrorKind::InvalidString(
            match f {
                EscapeFault::Unterminated => StringErrorKind::Unterminated,
                EscapeFault::Invalid => StringErrorKind::InvalidEscape,
                EscapeFault::InvalidHex => StringErrorKind::InvalidHexEscape,
                EscapeFault::InvalidUnicode => StringErrorKind::InvalidUnicodeEscape,
            },
        ),
    )
}

fn escape_fault_of_char(f: EscapeFault) -> (r: TokenType)
    ensures
        r == char_error(f),
{
    TokenType::Error(
        TokenErrorKind::InvalidChar(
            match f {
                EscapeFault::Unterminated => CharErrorKind::Unterminated,
                EscapeFault::Invalid => CharErrorKind::InvalidEscape,
                EscapeFault::InvalidHex => CharErrorKind::InvalidHexEscape,
                EscapeFault::InvalidUnicode => CharErrorKind::InvalidUnicodeEscape,
            },
        ),
    )
}

fn kind_after_escape(kind: TokenType, fault: Option<EscapeFault>, is_char: bool) -> (r: TokenType)
    ensures
        r == after_escape(kind, fault, is_char),
{
    match fault {
        Some(f) => if is_char {
            escape_fault_of_char(f)
        } else {
            escape_fault_of_string(f)
        },
        None => if kind == TokenType::StringLit(false) {
            TokenType::StringLit(true)
        } else if kind == TokenType::CharLit(false) {
            TokenType::CharLit(true)
        } else {
            kind
        },
    }
}

fn ends_statement_exec(last: Option<TokenType>) -> (r: bool)
    ensures
        r == ends_statement(last),
{
    match last {
        Some(TokenType::Ident) | Some(TokenType::NumberLit) | Some(TokenType::RightParen) | Some(
            TokenType::End,
        ) => true,
        _ => false,
    }
}

impl Lexer {
    pub closed spec fn wf(&self) -> bool {
        &&& self.pos <= self.chars.len()
        &&& self.offsets.len() == self.chars.len() + 1
        &&& forall|k: int|
            0 <= k <= self.chars.len() ==> #[trigger] self.offsets@[k] == byte_offset(
                self.chars@,
                k,
            )
        &&& encode_utf8(self.chars@).len() <= u32::MAX
        &&& (self.gen_input_markers && self.last_token == Some(TokenType::EndOfInput)) ==> self.pos
            == self.chars.len()
    }

    /// The tokens of the text still to be scanned.
    pub closed spec fn body(&self) -> Seq<Lexeme> {
        lex_from(self.chars@, self.pos as int, self.last_token, self.incl_comments)
    }

    /// The tokens that the stream has yet to hand out, in order.
    pub closed spec fn pending_toks(&self) -> Seq<Tok> {
        let rest = toks_all(self.chars@, self.body());
        if !self.gen_input_markers {
            rest
        } else if self.last_token is None {
            seq![start_marker()] + toks_all(
                self.chars@,
                lex_from(
                    self.chars@,
                    self.pos as int,
                    Some(TokenType::StartOfInput),
                    self.incl_comments,
                ),
            ) + seq![end_marker(self.chars@)]
        } else if self.last_token == Some(TokenType::EndOfInput) {
            Seq::empty()
        } else {
            rest + seq![end_marker(self.chars@)]
        }
    }

    /// The spanned tokens that the stream has yet to hand out, in order.
    pub closed spec fn pending(&self) -> Seq<SpannedToken> {
        self.pending_toks().map_values(|t: Tok| spanned(t))
    }

    /// The characters of the input.
    pub closed spec fn chars_view(&self) -> Seq<char> {
        self.chars@
    }

    fn scan_comment(&self, start: usize) -> (end: usize)
        requires
            start <= self.chars.len(),
        ensures
            end == comment_end(self.chars@, start as int),
    {
        let mut i = start;
        while i < self.chars.len() && self.chars[i] != '\n'
            invariant
                start <= i <= self.chars.len(),
                comment_end(self.chars@, start as int) == comment_end(self.chars@, i as int),
            decreases self.chars.len() - i,
        {
            i = i + 1;
        }
        i
    }

    fn scan_number(&self, start: usize) -> (end: usize)
        requires
            start <= self.chars.len(),
        ensures
            end == digits_end(self.chars@, start as int),
    {
        let mut i = start;
        while i < self.chars.len() && '0' <= self.chars[i] && self.chars[i] <= '9'
            invariant
                start <= i <= self.chars.len(),
                digits_end(self.chars@, start as int) == digits_end(self.chars@, i as int),
            decreases self.chars.len() - i,
        {
            i = i + 1;
        }
        i
    }

    fn scan_hex_or_unicode_escape(&self, start: usize, need: usize, fault: EscapeFault) -> (r: (
        Option<EscapeFault>,
        usize,
    ))
        requires
            start <= self.chars.len(),
        ensures
            r.0 == hex_run(self.chars@, start as int, need as nat, fault).0,
            r.1 == hex_run(self.chars@, start as int, need as nat, fault).1,
    {
        let mut i = start;
        let mut left = need;
        loop
            invariant
                start <= i <= self.chars.len(),
                hex_run(self.chars@, start as int, need as nat, fault) == hex_run(
                    self.chars@,
                    i as int,
                    left as nat,
                    fault,
                ),
            decreases left,
        {
            if left == 0 {
                return (None, i);
            }
            if i >= self.chars.len() {
                return (Some(EscapeFault::Unterminated), i);
            }
            let c = self.chars[i];
            if ('0' <= c && c <= '9') || ('a' <= c && c <= 'f') || ('A' <= c && c <= 'F') {
                i = i + 1;
                left = left - 1;
            } else {
                return (Some(fault), i + 1);
            }
        }
    }

    fn scan_escape(&self, start: usize, quote: char) -> (r: (Option<EscapeFault>, usize))
        requires
            start <= self.chars.len(),
        ensures
            r.0 == escape(self.chars@, start as int, quote).0,
            r.1 == escape(self.chars@, start as int, quote).1,
    {
        if start >= self.chars.len() {
            return (Some(EscapeFault::Unterminated), start);
        }
        let c = self.chars[start];
        if c == '\\' || c == 'n' || c == 'r' || c == 't' || c == '0' || c == quote {
            (None, start + 1)
        } else if c == 'x' {
            self.scan_hex_or_unicode_escape(start + 1, 2, EscapeFault::InvalidHex)
        } else if c == 'u' {
            self.scan_hex_or_unicode_escape(start + 1, 6, EscapeFault::InvalidUnicode)
        } else {
            (Some(EscapeFault::Invalid), start + 1)
        }
    }

    fn scan_string(&self, start: usize) -> (r: (TokenType, usize))
        requires
            start <= self.chars.len(),
        ensures
            r.0 == string_body(self.chars@, start as int, TokenType::StringLit(false)).0,
            r.1 == string_body(self.chars@, start as int, TokenType::StringLit(false)).1,
    {
        let ghost s = self.chars@;
        let mut i = start;
        let mut kind = TokenType::StringLit(false);
        loop
            invariant
                s == self.chars@,
                start <= i <= self.chars.len(),
                string_body(s, start as int, TokenType::StringLit(false)) == string_body(
                    s,
                    i as int,
                    kind,
                ),
            decreases self.chars.len() - i,
        {
            if i >= self.chars.len() {
                return (escape_fault_of_string(EscapeFault::Unterminated), i);
            }
            let c = self.chars[i];
            if c == '\\' {
                proof {
                    lemma_escape(s, i + 1, '"');
                }
                let (fault, j) = self.scan_escape(i + 1, '"');
                kind = kind_after_escape(kind, fault, false);
                i = j;
            } else if c == '"' {
                return (kind, i + 1);
            } else if c == '\n' || c == '\r' {
                kind = TokenType::Error(TokenErrorKind::InvalidString(StringErrorKind::InvalidChar));
                i = i + 1;
            } else {
                i = i + 1;
            }
        }
    }

    fn scan_char(&self, start: usize) -> (r: (TokenType, usize))
        requires
            start <= self.chars.len(),
        ensures
            r.0 == char_body(self.chars@, start as int, TokenType::CharLit(false), false).0,
            r.1 == char_body(self.chars@, start as int, TokenType::CharLit(false), false).1,
    {
        let ghost s = self.chars@;
        let mut i = start;
        let mut kind = TokenType::CharLit(false);
        let mut complete = false;
        loop
            invariant
                s == self.chars@,
                start <= i <= self.chars.len(),
                char_body(s, start as int, TokenType::CharLit(false), false) == char_body(
                    s,
                    i as int,
                    kind,
                    complete,
                ),
            decreases self.chars.len() - i,
        {
            if i >= self.chars.len() {
                return (escape_fault_of_char(EscapeFault::Unterminated), i);
            }
            let c = self.chars[i];
            if c == '\'' {
                if !complete {
                    return (
                        TokenType::Error(TokenErrorKind::InvalidChar(CharErrorKind::InvalidChar)),
                        i + 1,
                    );
                }
                return (kind, i + 1);
            }
            if c == '\\' {
                proof {
                    lemma_escape(s, i + 1, '\'');
                }
                let (fault, j) = self.scan_escape(i + 1, '\'');
                kind = kind_after_escape(kind, fault, true);
                i = j;
            } else if c == '\n' || c == '\r' {
                kind = TokenType::Error(TokenErrorKind::InvalidChar(CharErrorKind::InvalidChar));
                i = i + 1;
            } else {
                i = i + 1;
            }
            if complete {
                kind = TokenType::Error(TokenErrorKind::InvalidChar(CharErrorKind::CharTooLong));
            } else {
                complete = true;
            }
        }
    }

    /// The keyword table, over the characters `start..end`.
    fn keyword(&self, start: usize, end: usize) -> (r: Option<TokenType>)
        requires
            start <= end <= self.chars.len(),
        ensures
            r == keyword_kind(self.chars@.subrange(start as int, end as int)),
    {
        let ghost w = self.chars@.subrange(start as int, end as int);
        let n = end - start;
        if n == 2 {
            let a = self.chars[start];
            let b = self.chars[start + 1];
            if a == 'o' && b == 'r' {
                assert(w =~= seq!['o', 'r']);
                return Some(TokenType::Or);
            }
            if a == 'i' && b == 'f' {
                assert(w =~= seq!['i', 'f']);
                return Some(TokenType::If);
            }
            assert(w[0] == a && w[1] == b);
        } else if n == 3 {
            let a = self.chars[start];
            let b = self.chars[start + 1];
            let c = self.chars[start + 2];
            if a == 'a' && b == 'n' && c == 'd' {
                assert(w =~= seq!['a', 'n', 'd']);
                return Some(TokenType::And);
            }
            if a == 'n' && b == 'o' && c == 't' {
                assert(w =~= seq!['n', 'o', 't']);
                return Some(TokenType::Not);
            }
            if a == 'e' && b == 'n' && c == 'd' {
                assert(w =~= seq!['e', 'n', 'd']);
                return Some(TokenType::End);
            }
            assert(w[0] == a && w[1] == b && w[2] == c);
        } else if n == 4 {
            let a = self.chars[start];
            let b = self.chars[start + 1];
            let c = self.chars[start + 2];
            let d = self.chars[start + 3];
            if a == 't' && b == 'r' && c == 'u' && d == 'e' {
                assert(w =~= seq!['t', 'r', 'u', 'e']);
                return Some(TokenType::True);
            }
            if a == 'f' && b == 'u' && c == 'n' && d == 'c' {
                assert(w =~= seq!['f', 'u', 'n', 'c']);
                return Some(TokenType::Func);
            }
            if a == 't' && b == 'h' && c == 'e' && d == 'n' {
                assert(w =~= seq!['t', 'h', 'e', 'n']);
                return Some(TokenType::Then);
            }
            if a == 'e' && b == 'l' && c == 's' && d == 'e' {
                assert(w =~= seq!['e', 'l', 's', 'e']);
                return Some(TokenType::Else);
            }
            assert(w[0] == a && w[1] == b && w[2] == c && w[3] == d);
        } else if n == 5 {
            let a = self.chars[start];
            let b = self.chars[start + 1];
            let c = self.chars[start + 2];
            let d = self.chars[start + 3];
            let e = self.chars[start + 4];
            if a == 'f' && b == 'a' && c == 'l' && d == 's' && e == 'e' {
                assert(w =~= seq!['f', 'a', 'l', 's', 'e']);
                return Some(TokenType::False);
            }
            assert(w[0] == a && w[1] == b && w[2] == c && w[3] == d && w[4] == e);
        }
        proof {
            assert(w.len() == n);
            assert(seq!['o', 'r'].len() == 2 && seq!['i', 'f'].len() == 2);
            assert(seq!['a', 'n', 'd'].len() == 3 && seq!['n', 'o', 't'].len() == 3);
            assert(seq!['e', 'n', 'd'].len() == 3);
            assert(seq!['t', 'r', 'u', 'e'].len() == 4 && seq!['f', 'u', 'n', 'c'].len() == 4);
            assert(seq!['t', 'h', 'e', 'n'].len() == 4 && seq!['e', 'l', 's', 'e'].len() == 4);
            assert(seq!['f', 'a', 'l', 's', 'e'].len() == 5);
        }
        None
    }

    fn scan_ident_or_keyword(&self, start: usize) -> (r: (TokenType, usize))
        requires
            start < self.chars.len(),
        ensures
            r.1 == ident_end(self.chars@, start + 1),
            r.0 == match keyword_kind(self.chars@.subrange(start as int, r.1 as int)) {
                Some(k) => k,
                None => TokenType::Ident,
            },
    {
        let mut i = start + 1;
        while i < self.chars.len() && (self.chars[i] == '_' || is_alphanumeric(self.chars[i]))
            invariant
                start < i <= self.chars.len(),
                ident_end(self.chars@, start + 1) == ident_end(self.chars@, i as int),
            decreases self.chars.len() - i,
        {
            i = i + 1;
        }
        match self.keyword(start, i) {
            Some(k) => (k, i),
            None => (TokenType::Ident, i),
        }
    }

    /// Scans the token that starts with a character that is neither blank,
    /// newline nor `#`.
    fn scan_token(&self, start: usize) -> (r: (TokenType, usize))
        requires
            start < self.chars.len(),
        ensures
            r.0 == token_at(self.chars@, start as int).0,
            r.1 == token_at(self.chars@, start as int).1,
    {
        let c = self.chars[start];
        let next = start + 1;
        if c == ':' {
            (TokenType::Colon, next)
        } else if c == '=' {
            (TokenType::Assign, next)
        } else if c == '.' {
            (TokenType::Dot, next)
        } else if c == ',' {
            (TokenType::Comma, next)
        } else if c == ';' {
            (TokenType::Semi, next)
        } else if c == '(' {
            (TokenType::LeftParen, next)
        } else if c == ')' {
            (TokenType::RightParen, next)
        } else if c == '*' {
            (TokenType::Multiply, next)
        } else if c == '/' {
            (TokenType::Divide, next)
        } else if c == '+' {
            (TokenType::Plus, next)
        } else if c == '-' {
            if next < self.chars.len() && self.chars[next] == '>' {
                (TokenType::RArrow, next + 1)
            } else {
                (TokenType::Minus, next)
            }
        } else if c == '\u{2192}' {
            (TokenType::RArrow, next)
        } else if c == '"' {
            self.scan_string(next)
        } else if c == '\'' {
            self.scan_char(next)
        } else if '1' <= c && c <= '9' {
            (TokenType::NumberLit, self.scan_number(next))
        } else if c == '_' || is_alphabetic(c) {
            self.scan_ident_or_keyword(start)
        } else {
            (TokenType::Error(TokenErrorKind::UnknownType), next)
        }
    }

    /// A lexer over `input`; with `incl_comments` comments come out as
    /// tokens, with `gen_input_markers` the stream is framed by markers.
    pub fn new(input: &str, incl_comments: bool, gen_input_markers: bool) -> (r: Self)
        requires
            input.len() <= u32::MAX,
        ensures
            r.wf(),
            r.chars_view() == input@,
            r.pending_toks() == lex_toks(input@, incl_comments, gen_input_markers),
            r.pending() == lex_tokens(input@, incl_comments, gen_input_markers),
    {
        // the byte length fits a usize, so the bound on `input.len()` bounds it exactly
        let _ = byte_len(input);
        let chars = chars_of(input);
        let ghost s = chars@;
        proof {
            lemma_byte_offset_mono(s, 0, s.len() as int);
            assert(s.take(s.len() as int) =~= s);
        }
        let mut offsets: Vec<u32> = Vec::new();
        let mut acc: u32 = 0;
        let mut k: usize = 0;
        while k < chars.len()
            invariant
                s == chars@,
                encode_utf8(s).len() <= u32::MAX,
                k <= chars.len(),
                offsets.len() == k,
                acc == byte_offset(s, k as int),
                forall|j: int| 0 <= j < k ==> #[trigger] offsets@[j] == byte_offset(s, j),
            decreases chars.len() - k,
        {
            offsets.push(acc);
            proof {
                lemma_byte_offset_step(s, k as int);
                lemma_byte_offset_mono(s, k + 1, s.len() as int);
                assert(s.take(s.len() as int) =~= s);
            }
            acc = acc + char_width(chars[k]) as u32;
            k = k + 1;
        }
        offsets.push(acc);
        Lexer { incl_comments, gen_input_markers, chars, offsets, pos: 0, last_token: None }
    }

    /// Hands out the token `start..end` (character indices) and moves past it.
    fn emit_token(&mut self, token_type: TokenType, start: usize, end: usize) -> (r: Option<Tok>)
        requires
            old(self).wf(),
            start <= end <= old(self).chars.len(),
        ensures
            r == Some(tok_of(old(self).chars@, (token_type, start as int, end as int))),
            final(self).chars == old(self).chars,
            final(self).offsets == old(self).offsets,
            final(self).incl_comments == old(self).incl_comments,
            final(self).gen_input_markers == old(self).gen_input_markers,
            final(self).pos == end,
            final(self).last_token == Some(token_type),
    {
        self.last_token = Some(token_type);
        self.pos = end;
        Some(
            Tok {
                kind: token_type,
                start,
                end,
                bstart: self.offsets[start],
                bend: self.offsets[end],
            },
        )
    }

    /// The next token of the stream, `None` once it is exhausted.
    pub fn next(&mut self) -> (r: Option<LexResult>)
        requires
            old(self).wf(),
        ensures
            final(self).wf(),
            final(self).chars_view() == old(self).chars_view(),
            old(self).pending().len() == 0 ==> r is None && final(self).pending().len() == 0,
            old(self).pending().len() > 0 ==> r == Some(
                Ok::<SpannedToken, &'static str>(old(self).pending()[0]),
            ) && final(self).pending() == old(self).pending().drop_first(),
    {
        let r = self.next_tok();
        proof {
            if old(self).pending_toks().len() > 0 {
                assert(self.pending() =~= old(self).pending().drop_first());
            }
        }
        match r {
            Some(t) => Some(Ok((t.bstart, t.kind, t.bend))),
            None => None,
        }
    }

    /// The next token with its character span, `None` once the stream is
    /// exhausted.
    pub fn next_tok(&mut self) -> (r: Option<Tok>)
        requires
            old(self).wf(),
        ensures
            final(self).wf(),
            final(self).chars_view() == old(self).chars_view(),
            old(self).pending_toks().len() == 0 ==> r is None && final(self).pending_toks().len() == 0,
            old(self).pending_toks().len() > 0 ==> r == Some(old(self).pending_toks()[0])
                && final(self).pending_toks() == old(self).pending_toks().drop_first(),
    {
        let ghost s = self.chars@;
        let ghost incl = self.incl_comments;
        if self.gen_input_markers && self.last_token.is_none() {
            self.last_token = Some(TokenType::StartOfInput);
            proof {
                assert(self.pending_toks() =~= old(self).pending_toks().drop_first());
            }
            return Some(Tok { kind: TokenType::StartOfInput, start: 0, end: 0, bstart: 0, bend: 0 });
        }
        let ghost last = self.last_token;
        while self.pos < self.chars.len()
            invariant
                self.wf(),
                s == self.chars@,
                incl == self.incl_comments,
                self.gen_input_markers == old(self).gen_input_markers,
                self.last_token == last,
                last == old(self).last_token,
                old(self).pos <= self.pos,
                old(self).chars == self.chars,
                old(self).offsets == self.offsets,
                self.body() == old(self).body(),
                self.gen_input_markers ==> last is Some,
            decreases self.chars.len() - self.pos,
        {
            let i = self.pos;
            let c = self.chars[i];
            proof {
                lemma_next_lexeme(s, i as int, last, incl);
            }
            if c == '#' {
                let e = self.scan_comment(i + 1);
                proof {
                    lemma_comment_end(s, i + 1);
                }
                if self.incl_comments {
                    self.pos = e;
                    proof {
                        lemma_lex_from_cons(s, i as int, last, incl);
                        lemma_toks_cons(s, (TokenType::Comment, i as int, e as int), self.body());
                        assert(self.pending_toks() =~= old(self).pending_toks().drop_first());
                    }
                    return Some(
                        Tok {
                            kind: TokenType::Comment,
                            start: i,
                            end: e,
                            bstart: self.offsets[i],
                            bend: self.offsets[e],
                        },
                    );
                }
                self.pos = e;
                proof {
                    lemma_lex_from_skip(s, i as int, e as int, last, incl);
                }
            } else if c == ' ' || c == '\t' || c == '\r' {
                self.pos = i + 1;
                proof {
                    lemma_lex_from_skip(s, i as int, i + 1, last, incl);
                }
            } else if c == '\n' {
                if ends_statement_exec(self.last_token) {
                    let r = self.emit_token(TokenType::Semi, i, i + 1);
                    proof {
                        lemma_lex_from_cons(s, i as int, last, incl);
                        lemma_toks_cons(s, (TokenType::Semi, i as int, i + 1), self.body());
                        assert(self.pending_toks() =~= old(self).pending_toks().drop_first());
                    }
                    return r;
                }
                self.pos = i + 1;
                proof {
                    lemma_lex_from_skip(s, i as int, i + 1, last, incl);
                }
            } else {
                let (kind, e) = self.scan_token(i);
                let r = self.emit_token(kind, i, e);
                proof {
                    lemma_token_at(s, i as int);
                    lemma_lex_from_cons(s, i as int, last, incl);
                    lemma_toks_cons(s, (kind, i as int, e as int), self.body());
                    assert(self.pending_toks() =~= old(self).pending_toks().drop_first());
                }
                return r;
            }
        }
        if self.gen_input_markers {
            match self.last_token {
                Some(TokenType::EndOfInput) => None,
                _ => {
                    self.last_token = Some(TokenType::EndOfInput);
                    proof {
                        assert(self.pending_toks() =~= old(self).pending_toks().drop_first());
                        assert(s.take(s.len() as int) =~= s);
                    }
                    let n = self.chars.len();
                    Some(
                        Tok {
                            kind: TokenType::EndOfInput,
                            start: n,
                            end: n,
                            bstart: self.offsets[n],
                            bend: self.offsets[n],
                        },
                    )
                },
            }
        } else {
            None
        }
    }
}

/// Runs a lexer over `input` to the end: the characters of `input` and
/// all its tokens.
pub fn tokenize(input: &str, incl_comments: bool, gen_input_markers: bool) -> (r: (
    Vec<char>,
    Vec<Tok>,
))
    requires
        input.len() <= u32::MAX,
    ensures
        r.0@ == input@,
        r.1@ == lex_toks(input@, incl_comments, gen_input_markers),
{
    let mut lexer = Lexer::new(input, incl_comments, gen_input_markers);
    let mut toks: Vec<Tok> = Vec::new();
    loop
        invariant
            lexer.wf(),
            lexer.chars_view() == input@,
            toks@ + lexer.pending_toks() == lex_toks(input@, incl_comments, gen_input_markers),
        ensures
            lexer.chars_view() == input@,
            toks@ == lex_toks(input@, incl_comments, gen_input_markers),
        decreases lexer.pending_toks().len(),
    {
        let ghost before = lexer.pending_toks();
        match lexer.next_tok() {
            Some(t) => {
                assert(toks@.push(t) + lexer.pending_toks() =~= toks@ + before);
                toks.push(t);
            },
            None => {
                assert(toks@ + before =~= toks@);
                break ;
            },
        }
    }
    (lexer.chars, toks)
}

// ---------------------------------------------------------------------
// Properties of the token stream
// ---------------------------------------------------------------------

/// The "last token" a stream starts with: the start marker, if any.
pub open spec fn initial_last(markers: bool) -> Option<TokenType> {
    if markers {
        Some(TokenType::StartOfInput)
    } else {
        None
    }
}

/// Every token lies within the input, `start <= end`, and tokens come in
/// order of their start.
pub proof fn lemma_tokens_in_order(s: Seq<char>, incl: bool, markers: bool)
    requires
        encode_utf8(s).len() <= u32::MAX,
    ensures
        forall|k: int|
            0 <= k < lex_tokens(s, incl, markers).len() ==> #[trigger] lex_tokens(
                s,
                incl,
                markers,
            )[k].0 <= lex_tokens(s, incl, markers)[k].2 <= encode_utf8(s).len(),
        forall|j: int, k: int|
            0 <= j <= k < lex_tokens(s, incl, markers).len() ==> #[trigger] lex_tokens(
                s,
                incl,
                markers,
            )[j].0 <= #[trigger] lex_tokens(s, incl, markers)[k].0,
{
    let last = initial_last(markers);
    let body = lex_from(s, 0, last, incl);
    lemma_lex_from_bounds(s, 0, last, incl);
    let ts = lex_tokens(s, incl, markers);
    let off = if markers {
        1int
    } else {
        0int
    };
    assert(s.take(s.len() as int) =~= s);
    assert forall|k: int| off <= k < off + body.len() implies ts[k] == spanned(
        tok_of(s, body[k - off]),
    ) && #[trigger] ts[k].1 != TokenType::EndOfInput by {
        if markers {
            assert(lex_toks(s, incl, markers)[k] == tok_of(s, body[k - 1]));
        } else {
            assert(lex_toks(s, incl, markers)[k] == tok_of(s, body[k]));
        }
    }
    assert forall|k: int| 0 <= k < ts.len() implies #[trigger] ts[k].0 <= ts[k].2
        <= encode_utf8(s).len() by {
        if off <= k < off + body.len() {
            let t = body[k - off];
            lemma_byte_offset_mono(s, t.1, t.2);
            lemma_byte_offset_mono(s, t.2, s.len() as int);
        }
    }
    assert forall|j: int, k: int| 0 <= j <= k < ts.len() implies #[trigger] ts[j].0
        <= #[trigger] ts[k].0 by {
        if markers && j == 0 {
        } else if markers && k == ts.len() - 1 {
            if j < k {
                let a = body[j - off];
                lemma_byte_offset_mono(s, a.1, s.len() as int);
            }
        } else if j < k {
            let a = body[j - off];
            let b = body[k - off];
            lemma_byte_offset_mono(s, a.1, b.1);
            lemma_byte_offset_mono(s, b.1, s.len() as int);
        }
    }
}

/// `s[i..j]` holds only blanks, newlines and, when comments are no tokens,
/// whole comments.
pub open spec fn layout_only(s: Seq<char>, i: int, j: int, incl: bool) -> bool
    decreases j - i,
{
    if i >= j {
        true
    } else if i < 0 || i >= s.len() {
        false
    } else if is_blank(s[i]) || s[i] == '\n' {
        layout_only(s, i + 1, j, incl)
    } else if s[i] == '#' && !incl {
        let e = comment_end(s, i + 1);
        i < e <= j && layout_only(s, e, j, incl)
    } else {
        false
    }
}

/// Layout before the first lexeme of `r` (from `i`), between each two, and
/// after the last.
pub open spec fn layout_around(s: Seq<char>, r: Seq<Lexeme>, i: int, incl: bool) -> bool {
    &&& r.len() == 0 ==> layout_only(s, i, s.len() as int, incl)
    &&& r.len() > 0 ==> layout_only(s, i, r[0].1, incl) && layout_only(
        s,
        r.last().2,
        s.len() as int,
        incl,
    )
    &&& forall|k: int| 0 <= k < r.len() - 1 ==> layout_only(s, (#[trigger] r[k]).2, r[k + 1].1, incl)
}

pub proof fn lemma_layout_before_next(s: Seq<char>, i: int, last: Option<TokenType>, incl: bool)
    requires
        0 <= i <= s.len(),
    ensures
        match next_lexeme(s, i, last, incl) {
            Some(t) => layout_only(s, i, t.1, incl),
            None => layout_only(s, i, s.len() as int, incl),
        },
    decreases s.len() - i,
{
    if i < s.len() {
        if s[i] == '#' {
            lemma_comment_end(s, i + 1);
            let e = comment_end(s, i + 1);
            if !incl {
                lemma_layout_before_next(s, e, last, incl);
                lemma_next_lexeme(s, e, last, incl);
            }
        } else if is_blank(s[i]) || (s[i] == '\n' && !ends_statement(last)) {
            lemma_layout_before_next(s, i + 1, last, incl);
            lemma_next_lexeme(s, i + 1, last, incl);
        }
    }
}

pub proof fn lemma_lex_from_layout(s: Seq<char>, i: int, last: Option<TokenType>, incl: bool)
    requires
        0 <= i <= s.len(),
    ensures
        layout_around(s, lex_from(s, i, last, incl), i, incl),
    decreases s.len() - i,
{
    lemma_layout_before_next(s, i, last, incl);
    lemma_next_lexeme(s, i, last, incl);
    let r = lex_from(s, i, last, incl);
    match next_lexeme(s, i, last, incl) {
        Some(t) => {
            let rest = lex_from(s, t.2, last_after(last, t.0), incl);
            lemma_lex_from_layout(s, t.2, last_after(last, t.0), incl);
            assert(r == seq![t] + rest);
            assert(r[0] == t);
            assert forall|k: int| 0 < k < r.len() implies #[trigger] r[k] == rest[k - 1] by {}
            if rest.len() > 0 {
                assert(r.last() == rest.last());
            }
            assert forall|k: int| 0 <= k < r.len() - 1 implies layout_only(
                s,
                (#[trigger] r[k]).2,
                r[k + 1].1,
                incl,
            ) by {
                if k > 0 {
                    assert(r[k] == rest[k - 1]);
                }
            }
        },
        None => {
            assert(r.len() == 0);
        },
    }
}

/// Lexing drops nothing but layout: before the first token, between any two
/// and after the last, the text holds only blanks, newlines and (when they
/// are left out of the stream) whole comments. The token texts in order
/// thus make up the input without its layout; a semicolon put in for a
/// newline spans that newline.
pub proof fn lemma_tokens_cover_text(s: Seq<char>, incl: bool, markers: bool)
    ensures
        layout_around(s, lex_from(s, 0, initial_last(markers), incl), 0, incl),
{
    lemma_lex_from_layout(s, 0, initial_last(markers), incl);
}

/// The last token among the first `k` of `r`, comments aside; `init` when
/// there is none.
pub open spec fn last_before(r: Seq<Lexeme>, k: int, init: Option<TokenType>) -> Option<TokenType>
    decreases k,
{
    if k <= 0 || k > r.len() {
        init
    } else if r[k - 1].0 == TokenType::Comment {
        last_before(r, k - 1, init)
    } else {
        Some(r[k - 1].0)
    }
}

/// Where the layout before lexeme `k` of `r` starts, `r` starting from `i`.
pub open spec fn gap_start(r: Seq<Lexeme>, k: int, i: int) -> int {
    if k <= 0 {
        i
    } else {
        r[k - 1].2
    }
}

pub open spec fn no_newline(s: Seq<char>, i: int, j: int) -> bool {
    forall|p: int| i <= p < j ==> #[trigger] s[p] != '\n'
}

/// Newlines ruled by the memory of the last token, from `i` with `init`.
pub open spec fn newlines_ruled(s: Seq<char>, r: Seq<Lexeme>, i: int, init: Option<TokenType>) -> bool {
    &&& forall|k: int|
        0 <= k < r.len() && s[(#[trigger] r[k]).1] == '\n' ==> r[k].0 == TokenType::Semi && r[k].2
            == r[k].1 + 1 && ends_statement(last_before(r, k, init))
    &&& forall|k: int|
        0 <= k < r.len() && ends_statement(#[trigger] last_before(r, k, init)) ==> no_newline(
            s,
            gap_start(r, k, i),
            r[k].1,
        )
    &&& ends_statement(last_before(r, r.len() as int, init)) ==> no_newline(
        s,
        gap_start(r, r.len() as int, i),
        s.len() as int,
    )
}

pub proof fn lemma_comment_no_newline(s: Seq<char>, i: int)
    requires
        0 <= i <= s.len(),
    ensures
        no_newline(s, i, comment_end(s, i)),
    decreases s.len() - i,
{
    if i < s.len() && s[i] != '\n' {
        lemma_comment_no_newline(s, i + 1);
    }
}

pub proof fn lemma_newline_step(s: Seq<char>, i: int, last: Option<TokenType>, incl: bool)
    requires
        0 <= i <= s.len(),
    ensures
        match next_lexeme(s, i, last, incl) {
            Some(t) => (s[t.1] == '\n' ==> t.0 == TokenType::Semi && t.2 == t.1 + 1
                && ends_statement(last)) && (ends_statement(last) ==> no_newline(s, i, t.1)),
            None => ends_statement(last) ==> no_newline(s, i, s.len() as int),
        },
    decreases s.len() - i,
{
    if i < s.len() {
        if s[i] == '#' {
            lemma_comment_end(s, i + 1);
            lemma_comment_no_newline(s, i + 1);
            let e = comment_end(s, i + 1);
            if !incl {
                lemma_newline_step(s, e, last, incl);
                lemma_next_lexeme(s, e, last, incl);
            }
        } else if is_blank(s[i]) || (s[i] == '\n' && !ends_statement(last)) {
            lemma_newline_step(s, i + 1, last, incl);
            lemma_next_lexeme(s, i + 1, last, incl);
        }
    }
}

pub proof fn lemma_last_before_cons(t: Lexeme, rest: Seq<Lexeme>, k: int, init: Option<TokenType>)
    requires
        0 <= k <= rest.len(),
    ensures
        last_before(seq![t] + rest, k + 1, init) == last_before(rest, k, last_after(init, t.0)),
    decreases k,
{
    let r = seq![t] + rest;
    let l2 = last_after(init, t.0);
    assert(r.len() == rest.len() + 1);
    if k > 0 {
        assert(r[k] == rest[k - 1]);
        lemma_last_before_cons(t, rest, k - 1, init);
        assert(last_before(r, k + 1, init) == if rest[k - 1].0 == TokenType::Comment {
            last_before(r, k, init)
        } else {
            Some(rest[k - 1].0)
        });
        assert(last_before(rest, k, l2) == if rest[k - 1].0 == TokenType::Comment {
            last_before(rest, k - 1, l2)
        } else {
            Some(rest[k - 1].0)
        });
    } else {
        assert(r[0] == t);
        assert(last_before(r, 0, init) == init);
        assert(last_before(rest, 0, l2) == l2);
    }
}

pub proof fn lemma_lex_from_newlines(s: Seq<char>, i: int, last: Option<TokenType>, incl: bool)
    requires
        0 <= i <= s.len(),
    ensures
        newlines_ruled(s, lex_from(s, i, last, incl), i, last),
    decreases s.len() - i,
{
    lemma_newline_step(s, i, last, incl);
    lemma_next_lexeme(s, i, last, incl);
    let r = lex_from(s, i, last, incl);
    match next_lexeme(s, i, last, incl) {
        Some(t) => {
            let l2 = last_after(last, t.0);
            let rest = lex_from(s, t.2, l2, incl);
            lemma_lex_from_newlines(s, t.2, l2, incl);
            assert(r == seq![t] + rest);
            assert(r[0] == t);
            assert forall|k: int| 0 < k < r.len() implies #[trigger] r[k] == rest[k - 1] by {}
            assert forall|k: int| 0 < k <= r.len() implies #[trigger] last_before(r, k, last)
                == last_before(rest, k - 1, l2) && gap_start(r, k, i) == gap_start(rest, k - 1, t.2) by {
                lemma_last_before_cons(t, rest, k - 1, last);
            }
            assert(last_before(r, 0, last) == last);
            assert forall|k: int|
                0 <= k < r.len() && s[(#[trigger] r[k]).1] == '\n' implies r[k].0 == TokenType::Semi
                && r[k].2 == r[k].1 + 1 && ends_statement(last_before(r, k, last)) by {
                if k > 0 {
                    assert(r[k] == rest[k - 1]);
                }
            }
            assert forall|k: int|
                0 <= k < r.len() && ends_statement(#[trigger] last_before(r, k, last)) implies no_newline(
                s,
                gap_start(r, k, i),
                r[k].1,
            ) by {
                if k > 0 {
                    assert(r[k] == rest[k - 1]);
                    assert(last_before(r, k, last) == last_before(rest, k - 1, l2));
                }
            }
            assert(last_before(r, r.len() as int, last) == last_before(rest, rest.len() as int, l2));
        },
        None => {
            assert(r.len() == 0);
        },
    }
}

/// A newline becomes a `Semi` exactly when the last token before it,
/// comments aside, is an identifier, a number, `)` or `end`: every token
/// that starts at a newline is a one-character `Semi` after such a token,
/// and after such a token the layout up to the next token (or to the end)
/// holds no newline.
pub proof fn lemma_newline_semicolons(s: Seq<char>, incl: bool, markers: bool)
    ensures
        newlines_ruled(s, lex_from(s, 0, initial_last(markers), incl), 0, initial_last(markers)),
{
    lemma_lex_from_newlines(s, 0, initial_last(markers), incl);
}

pub open spec fn has_backslash(s: Seq<char>, i: int, j: int) -> bool {
    exists|p: int| i <= p < j && #[trigger] s[p] == '\\'
}

/// Whether the literal body from `i`, read as the scanner reads it up to
/// the closing `quote`, holds an escape that is malformed or cut off.
pub open spec fn has_bad_escape(s: Seq<char>, i: int, quote: char) -> bool
    decreases s.len() - i,
{
    if i < 0 || i >= s.len() {
        false
    } else if s[i] == '\\' {
        let (fault, j) = escape(s, i + 1, quote);
        fault is Some || (i < j <= s.len() && has_bad_escape(s, j, quote))
    } else if s[i] == quote {
        false
    } else {
        has_bad_escape(s, i + 1, quote)
    }
}

pub proof fn lemma_string_error_sticks(s: Seq<char>, i: int, e: TokenErrorKind)
    ensures
        string_body(s, i, TokenType::Error(e)).0 is Error,
    decreases s.len() - i,
{
    if 0 <= i < s.len() {
        if s[i] == '\\' {
            let (fault, j) = escape(s, i + 1, '"');
            if i < j <= s.len() {
                let k = after_escape(TokenType::Error(e), fault, false);
                let x = choose|x: TokenErrorKind| k == TokenType::Error(x);
                lemma_string_error_sticks(s, j, x);
            }
        } else if s[i] == '\n' || s[i] == '\r' {
            lemma_string_error_sticks(s, i + 1, TokenErrorKind::InvalidString(StringErrorKind::InvalidChar));
        } else if s[i] != '"' {
            lemma_string_error_sticks(s, i + 1, e);
        }
    }
}

pub proof fn lemma_char_error_sticks(s: Seq<char>, i: int, e: TokenErrorKind, complete: bool)
    ensures
        char_body(s, i, TokenType::Error(e), complete).0 is Error,
    decreases s.len() - i,
{
    if 0 <= i < s.len() && s[i] != '\'' {
        let (k, j) = if s[i] == '\\' {
            let (fault, e2) = escape(s, i + 1, '\'');
            (after_escape(TokenType::Error(e), fault, true), e2)
        } else if s[i] == '\n' || s[i] == '\r' {
            (TokenType::Error(TokenErrorKind::InvalidChar(CharErrorKind::InvalidChar)), i + 1)
        } else {
            (TokenType::Error(e), i + 1)
        };
        let k2 = if complete {
            TokenType::Error(TokenErrorKind::InvalidChar(CharErrorKind::CharTooLong))
        } else {
            k
        };
        if i < j <= s.len() {
            let x = choose|x: TokenErrorKind| k2 == TokenType::Error(x);
            lemma_char_error_sticks(s, j, x, true);
        }
    }
}

pub proof fn lemma_string_flag(s: Seq<char>, i: int, h0: bool)
    requires
        0 <= i <= s.len(),
    ensures
        string_body(s, i, TokenType::StringLit(h0)).0 matches TokenType::StringLit(h) ==> h == (h0
            || has_backslash(s, i, string_body(s, i, TokenType::StringLit(h0)).1)),
        has_bad_escape(s, i, '"') ==> string_body(s, i, TokenType::StringLit(h0)).0 is Error,
    decreases s.len() - i,
{
    let r = string_body(s, i, TokenType::StringLit(h0));
    if i < s.len() {
        if s[i] == '\\' {
            lemma_escape(s, i + 1, '"');
            let (fault, j) = escape(s, i + 1, '"');
            match fault {
                Some(f) => {
                    let x = choose|x: TokenErrorKind| string_error(f) == TokenType::Error(x);
                    lemma_string_error_sticks(s, j, x);
                },
                None => {
                    lemma_string_flag(s, j, true);
                    lemma_string_body(s, j, TokenType::StringLit(true));
                    assert(s[i] == '\\');
                },
            }
        } else if s[i] == '"' {
            if has_backslash(s, i, i + 1) {
                let p = choose|p: int| i <= p < i + 1 && #[trigger] s[p] == '\\';
            }
        } else if s[i] == '\n' || s[i] == '\r' {
            lemma_string_error_sticks(s, i + 1, TokenErrorKind::InvalidString(StringErrorKind::InvalidChar));
        } else {
            lemma_string_flag(s, i + 1, h0);
            lemma_string_body(s, i + 1, TokenType::StringLit(h0));
            if r.0 matches TokenType::StringLit(h) {
                if has_backslash(s, i, r.1) {
                    let p = choose|p: int| i <= p < r.1 && #[trigger] s[p] == '\\';
                    assert(i + 1 <= p);
                }
            }
        }
    }
}

pub proof fn lemma_char_flag(s: Seq<char>, i: int, h0: bool, complete: bool)
    requires
        0 <= i <= s.len(),
    ensures
        char_body(s, i, TokenType::CharLit(h0), complete).0 matches TokenType::CharLit(h) ==> h == (h0
            || has_backslash(s, i, char_body(s, i, TokenType::CharLit(h0), complete).1)),
        has_bad_escape(s, i, '\'') ==> char_body(s, i, TokenType::CharLit(h0), complete).0 is Error,
    decreases s.len() - i,
{
    let r = char_body(s, i, TokenType::CharLit(h0), complete);
    if i < s.len() {
        if s[i] == '\'' {
            if has_backslash(s, i, i + 1) {
                let p = choose|p: int| i <= p < i + 1 && #[trigger] s[p] == '\\';
            }
        } else if s[i] == '\\' {
            lemma_escape(s, i + 1, '\'');
            let (fault, j) = escape(s, i + 1, '\'');
            if complete {
                lemma_char_error_sticks(s, j, TokenErrorKind::InvalidChar(CharErrorKind::CharTooLong), true);
            } else {
                match fault {
                    Some(f) => {
                        let x = choose|x: TokenErrorKind| char_error(f) == TokenType::Error(x);
                        lemma_char_error_sticks(s, j, x, true);
                    },
                    None => {
                        lemma_char_flag(s, j, true, true);
                        lemma_char_body(s, j, TokenType::CharLit(true), true);
                        assert(s[i] == '\\');
                    },
                }
            }
        } else if s[i] == '\n' || s[i] == '\r' {
            let e = if complete {
                TokenErrorKind::InvalidChar(CharErrorKind::CharTooLong)
            } else {
                TokenErrorKind::InvalidChar(CharErrorKind::InvalidChar)
            };
            lemma_char_error_sticks(s, i + 1, e, true);
        } else {
            if complete {
                lemma_char_error_sticks(s, i + 1, TokenErrorKind::InvalidChar(CharErrorKind::CharTooLong), true);
            } else {
                lemma_char_flag(s, i + 1, h0, true);
                lemma_char_body(s, i + 1, TokenType::CharLit(h0), true);
                if r.0 matches TokenType::CharLit(h) {
                    if has_backslash(s, i, r.1) {
                        let p = choose|p: int| i <= p < r.1 && #[trigger] s[p] == '\\';
                        assert(i + 1 <= p);
                    }
                }
            }
        }
    }
}

/// A string or character literal carries the escape flag exactly when its
/// text holds a backslash (an escape), and a literal with a malformed or
/// cut-off escape comes out as an error token instead.
pub proof fn lemma_literal_escapes(s: Seq<char>, i: int)
    requires
        0 <= i < s.len(),
        s[i] == '"' || s[i] == '\'',
    ensures
        s[i] == '"' ==> (token_at(s, i).0 matches TokenType::StringLit(h) ==> h == has_backslash(
            s,
            i,
            token_at(s, i).1,
        )),
        s[i] == '\'' ==> (token_at(s, i).0 matches TokenType::CharLit(h) ==> h == has_backslash(
            s,
            i,
            token_at(s, i).1,
        )),
        has_bad_escape(s, i + 1, s[i]) ==> token_at(s, i).0 is Error,
{
    let r = token_at(s, i);
    if s[i] == '"' {
        lemma_string_flag(s, i + 1, false);
        lemma_string_body(s, i + 1, TokenType::StringLit(false));
    } else {
        lemma_char_flag(s, i + 1, false, false);
        lemma_char_body(s, i + 1, TokenType::CharLit(false), false);
    }
    if has_backslash(s, i, r.1) {
        let p = choose|p: int| i <= p < r.1 && #[trigger] s[p] == '\\';
        assert(p != i);
        assert(i + 1 <= p < r.1 && s[p] == '\\');
        assert(has_backslash(s, i + 1, r.1));
    }
    if has_backslash(s, i + 1, r.1) {
        let p = choose|p: int| i + 1 <= p < r.1 && #[trigger] s[p] == '\\';
        assert(i <= p < r.1 && s[p] == '\\');
        assert(has_backslash(s, i, r.1));
    }
}

/// The byte range of the characters `a..b`, as a token carries it, holds
/// their UTF-8 encoding.
pub proof fn lemma_span_bytes(s: Seq<char>, a: int, b: int)
    requires
        encode_utf8(s).len() <= u32::MAX,
        0 <= a <= b <= s.len(),
    ensures
        encode_utf8(s).subrange(byte_offset(s, a) as u32 as int, byte_offset(s, b) as u32 as int)
            == encode_utf8(s.subrange(a, b)),
{
    assert(s.take(s.len() as int) =~= s);
    lemma_byte_offset_mono(s, a, b);
    lemma_byte_offset_mono(s, b, s.len() as int);
    lemma_bytes_of_span(s, a, b);
}

/// Byte spans and character spans of the tokens agree: the bytes of token
/// `k`, and of the layout between it and the next, are the UTF-8 encoding
/// of its characters. So what the laws above state over character indices
/// holds of the byte ranges that the stream hands out.
pub proof fn lemma_token_bytes(s: Seq<char>, incl: bool, markers: bool, k: int)
    requires
        encode_utf8(s).len() <= u32::MAX,
        0 <= k < lex_from(s, 0, initial_last(markers), incl).len(),
    ensures
        ({
            let r = lex_from(s, 0, initial_last(markers), incl);
            &&& encode_utf8(s).subrange(tok_of(s, r[k]).bstart as int, tok_of(s, r[k]).bend as int)
                == encode_utf8(s.subrange(r[k].1, r[k].2))
            &&& k + 1 < r.len() ==> encode_utf8(s).subrange(
                tok_of(s, r[k]).bend as int,
                tok_of(s, r[k + 1]).bstart as int,
            ) == encode_utf8(s.subrange(r[k].2, r[k + 1].1))
        }),
{
    let r = lex_from(s, 0, initial_last(markers), incl);
    lemma_lex_from_bounds(s, 0, initial_last(markers), incl);
    let t = r[k];
    assert(0 <= t.1 < t.2 <= s.len());
    lemma_span_bytes(s, t.1, t.2);
    if k + 1 < r.len() {
        let u = r[k + 1];
        assert(t.2 <= u.1 < u.2 <= s.len());
        lemma_span_bytes(s, t.2, u.1);
    }
}

} // verus!
