//! Byte offsets to 1-based lines and columns.
use vstd::prelude::*;
use vstd::string::StringSliceAdditionalSpecFns;
use vstd::utf8::encode_utf8;
use crate::text::{byte_len, byte_offset, char_width, chars_of, lemma_byte_offset_mono, lemma_byte_offset_step, lemma_encode_len_ge};
use crate::token::Pos;

verus! {

/// Line and column after reading the first `n` characters: a newline
/// starts the next line at column 1, any other character moves one column.
pub open spec fn line_col(s: Seq<char>, n: int) -> (int, int)
    decreases n,
{
    if n <= 0 || n > s.len() {
        (1, 1)
    } else {
        let (l, c) = line_col(s, n - 1);
        if s[n - 1] == '\n' {
            (l + 1, 1)
        } else {
            (l, c + 1)
        }
    }
}

/// The index of the character at byte offset `b`, looked for from `k`;
/// the length of `s` when no character starts there.
pub open spec fn char_at_byte(s: Seq<char>, b: int, k: int) -> int
    decreases s.len() - k,
{
    if k < 0 || k >= s.len() {
        s.len() as int
    } else if byte_offset(s, k) == b {
        k
    } else {
        char_at_byte(s, b, k + 1)
    }
}

/// The first character from `k` that starts at byte offset `b` or later;
/// the length of `s` when there is none.
pub open spec fn seek(s: Seq<char>, b: int, k: int) -> int
    decreases s.len() - k,
{
    if k < 0 || k >= s.len() {
        s.len() as int
    } else if byte_offset(s, k) >= b {
        k
    } else {
        seek(s, b, k + 1)
    }
}

pub proof fn lemma_line_col_bound(s: Seq<char>, n: int)
    requires
        0 <= n <= s.len(),
    ensures
        1 <= line_col(s, n).0 <= n + 1,
        1 <= line_col(s, n).1 <= n + 1,
    decreases n,
{
    if n > 0 {
        lemma_line_col_bound(s, n - 1);
    }
}

/// Line and column of the character at byte offset `b` of `s`, counting
/// every character when none starts there.
pub open spec fn row_col(s: Seq<char>, b: int) -> (int, int) {
    line_col(s, char_at_byte(s, b, 0))
}

/// Line and column of byte offsets given in non-decreasing order, in one
/// walk over the text.
pub struct PosResolver {
    chars: Vec<char>,
    /// Index of the next character to look at
    idx: usize,
    /// Its byte offset
    byte: usize,
    line: u32,
    col: u32,
}

impl PosResolver {
    pub closed spec fn wf(&self) -> bool {
        &&& self.idx <= self.chars.len()
        &&& self.byte == byte_offset(self.chars@, self.idx as int)
        &&& (self.line as int, self.col as int) == line_col(self.chars@, self.idx as int)
        &&& encode_utf8(self.chars@).len() < u32::MAX
    }

    /// The characters walked over.
    pub closed spec fn text(&self) -> Seq<char> {
        self.chars@
    }

    /// How far the walk has come, in characters.
    pub closed spec fn cursor(&self) -> int {
        self.idx as int
    }

    pub fn new(input: &str) -> (r: Self)
        requires
            input.len() < u32::MAX,
        ensures
            r.wf(),
            r.text() == input@,
            r.cursor() == 0,
    {
        // the byte length fits a usize, so the bound on `input.len()` bounds it exactly
        let _ = byte_len(input);
        let chars = chars_of(input);
        assert(chars@.take(0) =~= Seq::<char>::empty());
        PosResolver { chars, idx: 0, byte: 0, line: 1, col: 1 }
    }

    /// Line and column of `pos`, if a character starts there at or after the
    /// last position asked for; `None` for a position out of order, inside
    /// a character or past the text.
    pub fn pos_to_line_col(&mut self, pos: Pos) -> (r: Option<(u32, u32)>)
        requires
            old(self).wf(),
        ensures
            final(self).wf(),
            final(self).text() == old(self).text(),
            ({
                let s = old(self).text();
                let k = seek(s, pos.0 as int, old(self).cursor());
                &&& final(self).cursor() == k
                &&& r == if k < s.len() && byte_offset(s, k) == pos.0 {
                    Some((line_col(s, k).0 as u32, line_col(s, k).1 as u32))
                } else {
                    None
                }
            }),
    {
        let ghost s = self.chars@;
        let ghost k0 = self.idx as int;
        let target = pos.0 as usize;
        while self.idx < self.chars.len() && self.byte < target
            invariant
                self.wf(),
                s == self.chars@,
                k0 <= self.idx,
                target == pos.0,
                seek(s, pos.0 as int, k0) == seek(s, pos.0 as int, self.idx as int),
            decreases self.chars.len() - self.idx,
        {
            let c = self.chars[self.idx];
            proof {
                lemma_byte_offset_step(s, self.idx as int);
                lemma_byte_offset_mono(s, self.idx + 1, s.len() as int);
                lemma_encode_len_ge(s);
                lemma_line_col_bound(s, self.idx + 1);
                assert(s.take(s.len() as int) =~= s);
            }
            if c == '\n' {
                self.line = self.line + 1;
                self.col = 1;
            } else {
                self.col = self.col + 1;
            }
            self.byte = self.byte + char_width(c);
            self.idx = self.idx + 1;
        }
        if self.idx < self.chars.len() && self.byte == target {
            Some((self.line, self.col))
        } else {
            None
        }
    }
}

} // verus!
