//! UTF-8 encoding of a single code point, and its inverse on well-formed
//! byte strings.
use vstd::prelude::*;

verus! {

/// The continuation byte `10xxxxxx` that carries bits `sh..sh+6` of `c`.
pub open spec fn cont_byte(c: u32, sh: u32) -> u8 {
    (0x80u32 | ((c >> sh) & 0x3Fu32)) as u8
}

/// The lead byte `tag | (c >> sh)`.
pub open spec fn lead_byte(c: u32, tag: u32, sh: u32) -> u8 {
    (tag | (c >> sh)) as u8
}

/// Number of bytes in the UTF-8 encoding of code point `c`.
pub open spec fn encoded_len(c: u32) -> nat {
    if c <= 0x7F {
        1
    } else if c <= 0x7FF {
        2
    } else if c <= 0xFFFF {
        3
    } else {
        4
    }
}

/// The UTF-8 encoding of code point `c` (meaningful for `c <= 0x10FFFF`).
pub open spec fn encoding(c: u32) -> Seq<u8> {
    if c <= 0x7F {
        seq![c as u8]
    } else if c <= 0x7FF {
        seq![lead_byte(c, 0xC0, 6), cont_byte(c, 0)]
    } else if c <= 0xFFFF {
        seq![lead_byte(c, 0xE0, 12), cont_byte(c, 6), cont_byte(c, 0)]
    } else {
        seq![lead_byte(c, 0xF0, 18), cont_byte(c, 12), cont_byte(c, 6), cont_byte(c, 0)]
    }
}

/// The payload bits of byte `b` under `mask`, as a code point fragment.
pub open spec fn payload(b: u8, mask: u8) -> u32 {
    (b & mask) as u32
}

/// The code point that a byte string of length 1 to 4 spells, reading the
/// payload bits of its lead byte and continuation bytes.
pub open spec fn decode(b: Seq<u8>) -> u32 {
    if b.len() == 1 {
        b[0] as u32
    } else if b.len() == 2 {
        (payload(b[0], 0x1F) << 6u32) | payload(b[1], 0x3F)
    } else if b.len() == 3 {
        (payload(b[0], 0x0F) << 12u32) | (payload(b[1], 0x3F) << 6u32) | payload(b[2], 0x3F)
    } else if b.len() == 4 {
        (payload(b[0], 0x07) << 18u32) | (payload(b[1], 0x3F) << 12u32) | (payload(b[2], 0x3F)
            << 6u32) | payload(b[3], 0x3F)
    } else {
        0
    }
}

/// True when `c` is a Unicode scalar value: a code point that is not a
/// surrogate half.
pub open spec fn is_scalar(c: u32) -> bool {
    c <= 0x10FFFF && !(0xD800 <= c <= 0xDFFF)
}

proof fn lemma_decode_bits(c: u32)
    by (bit_vector)
    requires
        c <= 0x10FFFF,
    ensures
        c <= 0x7F ==> (c as u8) as u32 == c,
        0x80 <= c <= 0x7FF ==> ((((lead_byte(c, 0xC0, 6) & 0x1F) as u32) << 6u32) | ((cont_byte(c, 0) & 0x3F) as u32)) == c,
        0x800 <= c <= 0xFFFF ==> ((((lead_byte(c, 0xE0, 12) & 0x0F) as u32) << 12u32) | (((cont_byte(c, 6) & 0x3F) as u32) << 6u32) | ((cont_byte(c, 0) & 0x3F) as u32)) == c,
        0x10000 <= c ==> ((((lead_byte(c, 0xF0, 18) & 0x07) as u32) << 18u32) | (((cont_byte(c, 12) & 0x3F) as u32) << 12u32) | (((cont_byte(c, 6) & 0x3F) as u32) << 6u32) | ((cont_byte(c, 0) & 0x3F) as u32)) == c,
{
}

/// Decoding the encoding of a code point gives the code point back.
pub proof fn lemma_decode_encoding(c: u32)
    requires
        c <= 0x10FFFF,
    ensures
        decode(encoding(c)) == c,
        encoding(c).len() == encoded_len(c),
{
    lemma_decode_bits(c);
}

/// Distinct code points have distinct encodings.
pub proof fn lemma_encoding_injective(c: u32, d: u32)
    requires
        c <= 0x10FFFF,
        d <= 0x10FFFF,
        encoding(c) == encoding(d),
    ensures
        c == d,
{
    lemma_decode_encoding(c);
    lemma_decode_encoding(d);
}

proof fn lemma_scalar_bytes(c: u32)
    by (bit_vector)
    requires
        c <= 0x10FFFF,
    ensures
        c <= 0x7F ==> c as u8 == (c & 0x7F) as u8,
        0x80 <= c <= 0x7FF ==> lead_byte(c, 0xC0, 6) == 0xC0 | ((c >> 6) & 0x1F) as u8,
        0x800 <= c <= 0xFFFF ==> lead_byte(c, 0xE0, 12) == 0xE0 | ((c >> 12) & 0x0F) as u8,
        0x10000 <= c ==> lead_byte(c, 0xF0, 18) == 0xF0 | ((c >> 18) & 0x7) as u8,
        cont_byte(c, 0) == 0x80 | (c & 0x3F) as u8,
        cont_byte(c, 6) == 0x80 | ((c >> 6) & 0x3F) as u8,
        cont_byte(c, 12) == 0x80 | ((c >> 12) & 0x3F) as u8,
{
}

/// On scalar values, `encoding` is vstd's UTF-8 encoding of a scalar.
pub proof fn lemma_encoding_is_utf8(c: u32)
    requires
        is_scalar(c),
    ensures
        encoding(c) == vstd::utf8::encode_scalar(c),
{
    lemma_scalar_bytes(c);
    assert(encoding(c) =~= vstd::utf8::encode_scalar(c));
}

/// Encodes code point `cp` as UTF-8.
pub fn encode_utf8(cp: u32) -> (r: Vec<u8>)
    requires
        cp <= 0x10FFFF,
    ensures
        r@ == encoding(cp),
{
    if cp <= 0x7F {
        vec![cp as u8]
    } else if cp <= 0x7FF {
        vec![(0xC0u32 | (cp >> 6u32)) as u8, (0x80u32 | ((cp >> 0u32) & 0x3Fu32)) as u8]
    } else if cp <= 0xFFFF {
        vec![
            (0xE0u32 | (cp >> 12u32)) as u8,
            (0x80u32 | ((cp >> 6u32) & 0x3Fu32)) as u8,
            (0x80u32 | ((cp >> 0u32) & 0x3Fu32)) as u8,
        ]
    } else {
        vec![
            (0xF0u32 | (cp >> 18u32)) as u8,
            (0x80u32 | ((cp >> 12u32) & 0x3Fu32)) as u8,
            (0x80u32 | ((cp >> 6u32) & 0x3Fu32)) as u8,
            (0x80u32 | ((cp >> 0u32) & 0x3Fu32)) as u8,
        ]
    }
}

} // verus!
