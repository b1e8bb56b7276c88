//! UTF-8 widths and byte offsets of character sequences.
use vstd::prelude::*;
use vstd::string::StringSliceAdditionalSpecFns;
use vstd::utf8::*;

verus! {

/// The byte offset of the character at index `k` of `s`.
pub open spec fn byte_offset(s: Seq<char>, k: int) -> nat {
    encode_utf8(s.take(k)).len()
}

/// The number of bytes of `c` in UTF-8.
pub open spec fn utf8_width(c: char) -> nat {
    encode_scalar(c as u32).len()
}

/// The UTF-8 length of a character, as `char::len_utf8` gives it.
pub fn char_width(c: char) -> (r: usize)
    ensures
        r == utf8_width(c),
        1 <= r <= 4,
{
    proof {
        char_is_scalar(c);
    }
    let u = c as u32;
    if u < 0x80 {
        1
    } else if u < 0x800 {
        2
    } else if u < 0x10000 {
        3
    } else {
        4
    }
}

pub proof fn lemma_encode_concat(a: Seq<char>, b: Seq<char>)
    ensures
        encode_utf8(a + b) == encode_utf8(a) + encode_utf8(b),
    decreases a.len(),
{
    if a.len() == 0 {
        assert(a + b =~= b);
        assert(encode_utf8(a) =~= Seq::<u8>::empty());
        assert(encode_utf8(a) + encode_utf8(b) =~= encode_utf8(b));
    } else {
        assert((a + b).drop_first() =~= a.drop_first() + b);
        lemma_encode_concat(a.drop_first(), b);
        assert(encode_utf8(a + b) =~= encode_scalar(a[0] as u32) + encode_utf8(a.drop_first() + b));
    }
}

pub proof fn lemma_encode_single(c: char)
    ensures
        encode_utf8(seq![c]).len() == utf8_width(c),
{
    assert(seq![c].drop_first() =~= Seq::<char>::empty());
    assert(encode_utf8(seq![c]) =~= encode_scalar(c as u32) + encode_utf8(Seq::<char>::empty()));
}

/// Each character adds its width to the offset of the next.
pub proof fn lemma_byte_offset_step(s: Seq<char>, k: int)
    requires
        0 <= k < s.len(),
    ensures
        byte_offset(s, k + 1) == byte_offset(s, k) + utf8_width(s[k]),
{
    assert(s.take(k + 1) =~= s.take(k) + seq![s[k]]);
    lemma_encode_concat(s.take(k), seq![s[k]]);
    lemma_encode_single(s[k]);
}

/// Offsets grow with the index, and the last one is the byte length.
pub proof fn lemma_byte_offset_mono(s: Seq<char>, j: int, k: int)
    requires
        0 <= j <= k <= s.len(),
    ensures
        byte_offset(s, j) <= byte_offset(s, k) <= encode_utf8(s).len(),
        j < k ==> byte_offset(s, j) < byte_offset(s, k),
{
    assert(s.take(k) =~= s.take(j) + s.subrange(j, k));
    lemma_encode_concat(s.take(j), s.subrange(j, k));
    assert(s =~= s.take(k) + s.subrange(k, s.len() as int));
    lemma_encode_concat(s.take(k), s.subrange(k, s.len() as int));
    if j < k {
        let mid = s.subrange(j, k);
        assert(encode_utf8(mid) =~= encode_scalar(mid[0] as u32) + encode_utf8(mid.drop_first()));
    }
}

/// Every character takes at least one byte.
pub proof fn lemma_encode_len_ge(s: Seq<char>)
    ensures
        s.len() <= encode_utf8(s).len(),
    decreases s.len(),
{
    if s.len() > 0 {
        lemma_encode_len_ge(s.drop_first());
        char_is_scalar(s[0]);
        assert(encode_utf8(s) =~= encode_scalar(s[0] as u32) + encode_utf8(s.drop_first()));
    }
}

/// The characters of `input`, in order.
pub fn chars_of(input: &str) -> (r: Vec<char>)
    ensures
        r@ == input@,
{
    let mut chars: Vec<char> = Vec::new();
    for c in it: input.chars()
        invariant
            chars@ == it.seq().take(it.index() as int),
    {
        chars.push(c);
    }
    assert(chars@ =~= input@);
    chars
}

/// The byte length of a text; unlike `str::len` in contracts, this states
/// that the length itself fits a `usize`.
pub fn byte_len(s: &str) -> (r: usize)
    ensures
        r == s.spec_bytes().len(),
{
    s.as_bytes().len()
}

/// The bytes between the offsets of characters `a` and `b` are the UTF-8
/// encoding of the characters `a..b`.
pub proof fn lemma_bytes_of_span(s: Seq<char>, a: int, b: int)
    requires
        0 <= a <= b <= s.len(),
    ensures
        encode_utf8(s).subrange(byte_offset(s, a) as int, byte_offset(s, b) as int)
            == encode_utf8(s.subrange(a, b)),
{
    let mid = s.subrange(a, b);
    let rest = s.subrange(b, s.len() as int);
    assert(s.take(b) =~= s.take(a) + mid);
    assert(s =~= s.take(b) + rest);
    lemma_encode_concat(s.take(a), mid);
    lemma_encode_concat(s.take(b), rest);
    assert(encode_utf8(s).subrange(byte_offset(s, a) as int, byte_offset(s, b) as int)
        =~= encode_utf8(mid));
}

} // verus!
