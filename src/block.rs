//! Why a sequence of byte ranges built from the encodings of the two ends of
//! an aligned interval without surrogates accepts exactly the encodings of
//! that interval.
use vstd::prelude::*;
use crate::encode::{is_scalar, cont_byte, encoded_len, encoding, lead_byte, lemma_decode_encoding, payload};
use crate::sequence::{scalar_encodings, Utf8Sequence};

verus! {

/// `s` and `e` either agree on every bit above `m`, or `s` has all bits of
/// `m` clear and `e` has them all set.
pub open spec fn aligned(s: u32, e: u32, m: u32) -> bool {
    (s & !m) == (e & !m) || ((s & m) == 0 && (e & m) == m)
}

/// `s` and `e` are aligned at every continuation-byte boundary.
pub open spec fn aligned_all(s: u32, e: u32) -> bool {
    &&& aligned(s, e, 0x3F)
    &&& aligned(s, e, 0xFFF)
    &&& aligned(s, e, 0x3FFFF)
}

proof fn lemma_cont_range(c: u32, sh: u32)
    by (bit_vector)
    ensures
        0x80 <= cont_byte(c, sh) <= 0xBF,
{
}

proof fn lemma_box4(s: u32, e: u32, c: u32)
    by (bit_vector)
    requires
        s <= e,
        e <= 0x10FFFF,
        c < 0x200000,
        aligned(s, e, 0x3F),
        aligned(s, e, 0xFFF),
        aligned(s, e, 0x3FFFF),
    ensures
        (s <= c && c <= e) <==> (lead_byte(s, 0xF0, 18) <= lead_byte(c, 0xF0, 18) <= lead_byte(
            e,
            0xF0,
            18,
        ) && cont_byte(s, 12) <= cont_byte(c, 12) <= cont_byte(e, 12) && cont_byte(s, 6)
            <= cont_byte(c, 6) <= cont_byte(e, 6) && cont_byte(s, 0) <= cont_byte(c, 0)
            <= cont_byte(e, 0)),
{
}

proof fn lemma_box3(s: u32, e: u32, c: u32)
    by (bit_vector)
    requires
        s <= e,
        e <= 0xFFFF,
        c < 0x10000,
        aligned(s, e, 0x3F),
        aligned(s, e, 0xFFF),
    ensures
        (s <= c && c <= e) <==> (lead_byte(s, 0xE0, 12) <= lead_byte(c, 0xE0, 12) <= lead_byte(
            e,
            0xE0,
            12,
        ) && cont_byte(s, 6) <= cont_byte(c, 6) <= cont_byte(e, 6) && cont_byte(s, 0)
            <= cont_byte(c, 0) <= cont_byte(e, 0)),
{
}

proof fn lemma_box2(s: u32, e: u32, c: u32)
    by (bit_vector)
    requires
        s <= e,
        e <= 0x7FF,
        c < 0x800,
        aligned(s, e, 0x3F),
    ensures
        (s <= c && c <= e) <==> (lead_byte(s, 0xC0, 6) <= lead_byte(c, 0xC0, 6) <= lead_byte(
            e,
            0xC0,
            6,
        ) && cont_byte(s, 0) <= cont_byte(c, 0) <= cont_byte(e, 0)),
{
}

proof fn lemma_lead_range(c: u32)
    by (bit_vector)
    requires
        c <= 0x10FFFF,
    ensures
        0x80 <= c <= 0x7FF ==> 0xC2 <= lead_byte(c, 0xC0, 6) <= 0xDF,
        0x800 <= c <= 0xFFFF ==> 0xE0 <= lead_byte(c, 0xE0, 12) <= 0xEF,
        0x10000 <= c ==> 0xF0 <= lead_byte(c, 0xF0, 18) <= 0xF4,
{
}

/// A byte string with a lead byte and continuation bytes spells a code point
/// whose bytes are the string's own.
proof fn lemma_spelled(b0: u8, b1: u8, b2: u8, b3: u8)
    by (bit_vector)
    requires
        0x80 <= b1 <= 0xBF,
        0x80 <= b2 <= 0xBF,
        0x80 <= b3 <= 0xBF,
    ensures
        0xC0 <= b0 <= 0xDF ==> ({
            let c = (payload(b0, 0x1F) << 6u32) | payload(b1, 0x3F);
            c < 0x800 && lead_byte(c, 0xC0, 6) == b0 && cont_byte(c, 0) == b1
        }),
        0xE0 <= b0 <= 0xEF ==> ({
            let c = (payload(b0, 0x0F) << 12u32) | (payload(b1, 0x3F) << 6u32) | payload(
                b2,
                0x3F,
            );
            c < 0x10000 && lead_byte(c, 0xE0, 12) == b0 && cont_byte(c, 6) == b1 && cont_byte(c, 0)
                == b2
        }),
        0xF0 <= b0 <= 0xF7 ==> ({
            let c = (payload(b0, 0x07) << 18u32) | (payload(b1, 0x3F) << 12u32) | (payload(
                b2,
                0x3F,
            ) << 6u32) | payload(b3, 0x3F);
            c < 0x200000 && lead_byte(c, 0xF0, 18) == b0 && cont_byte(c, 12) == b1 && cont_byte(
                c,
                6,
            ) == b2 && cont_byte(c, 0) == b3
        }),
{
}

/// A sequence whose lowest bytes encode `s`, whose highest bytes encode `e`,
/// where `s` and `e` have encodings of one length and are aligned at every
/// continuation-byte boundary, and where `s..=e` holds no surrogate half,
/// accepts exactly the encodings of the scalar values `s..=e`.
pub proof fn lemma_block(x: Utf8Sequence, s: u32, e: u32)
    requires
        s <= e <= 0x10FFFF,
        encoded_len(s) == encoded_len(e),
        e < 0xD800 || s > 0xDFFF,
        encoded_len(s) > 1 ==> aligned_all(s, e),
        x.starts() == encoding(s),
        x.ends() == encoding(e),
    ensures
        x.first() == s,
        x.last() == e,
        x.exact(),
{
    lemma_decode_encoding(s);
    lemma_decode_encoding(e);
    lemma_lead_range(s);
    lemma_lead_range(e);
    lemma_cont_range(s, 0);
    lemma_cont_range(s, 6);
    lemma_cont_range(s, 12);
    lemma_cont_range(e, 0);
    lemma_cont_range(e, 6);
    lemma_cont_range(e, 12);
    let rs = x.ranges();
    assert(rs.len() == encoded_len(s)) by {
        assert(x.starts().len() == rs.len());
    }
    assert forall|k: int| 0 <= k < rs.len() implies rs[k].start == encoding(s)[k] && rs[k].end
        == encoding(e)[k] by {
        assert(x.starts()[k] == rs[k].start);
        assert(x.ends()[k] == rs[k].end);
    }
    assert forall|b: Seq<u8>| x.accepted().contains(b) implies scalar_encodings(s, e).contains(b) by {
        assert(x.accepts(b));
        assert(forall|k: int| 0 <= k < b.len() ==> rs[k].contains(b[k]));
        if b.len() == 1 {
            assert(rs[0].contains(b[0]));
            let c = b[0] as u32;
            assert(b =~= encoding(c));
        } else if b.len() == 2 {
            assert(rs[0].contains(b[0]) && rs[1].contains(b[1]));
            lemma_spelled(b[0], b[1], 0x80, 0x80);
            let c = (payload(b[0], 0x1F) << 6u32) | payload(b[1], 0x3F);
            lemma_box2(s, e, c);
            assert(b =~= encoding(c));
        } else if b.len() == 3 {
            assert(rs[0].contains(b[0]) && rs[1].contains(b[1]) && rs[2].contains(b[2]));
            lemma_spelled(b[0], b[1], b[2], 0x80);
            let c = (payload(b[0], 0x0F) << 12u32) | (payload(b[1], 0x3F) << 6u32) | payload(
                b[2],
                0x3F,
            );
            lemma_box3(s, e, c);
            assert(b =~= encoding(c));
        } else {
            assert(rs[0].contains(b[0]) && rs[1].contains(b[1]) && rs[2].contains(b[2])
                && rs[3].contains(b[3]));
            lemma_spelled(b[0], b[1], b[2], b[3]);
            let c = (payload(b[0], 0x07) << 18u32) | (payload(b[1], 0x3F) << 12u32) | (payload(
                b[2],
                0x3F,
            ) << 6u32) | payload(b[3], 0x3F);
            lemma_box4(s, e, c);
            assert(b =~= encoding(c));
        }
    }
    assert forall|b: Seq<u8>| scalar_encodings(s, e).contains(b) implies x.accepted().contains(b) by {
        let c = choose|c: u32| is_scalar(c) && s <= c <= e && b == encoding(c);
        if encoded_len(s) == 2 {
            lemma_box2(s, e, c);
        } else if encoded_len(s) == 3 {
            lemma_box3(s, e, c);
        } else if encoded_len(s) == 4 {
            lemma_box4(s, e, c);
        }
        assert forall|k: int| 0 <= k < b.len() implies (#[trigger] rs[k]).contains(b[k]) by {}
    }
    assert(x.accepted() =~= scalar_encodings(s, e));
}

} // verus!
