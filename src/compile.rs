//! The range compiler: leaves out the surrogate halves and splits a code
//! point interval until each piece is one sequence of byte ranges.
use vstd::prelude::*;
use crate::block::lemma_block;
use crate::encode::{encode_utf8, encoding, is_scalar};
use crate::laws::{lemma_tiles_concat, lemma_tiles_disjoint};
use crate::sequence::{accepted_by_any, scalar_encodings, tiles, Utf8Range, Utf8Sequence};

verus! {

/// The largest code point whose encoding takes `nbytes` bytes.
pub open spec fn max_scalar(nbytes: int) -> u32 {
    if nbytes == 1 {
        0x7F
    } else if nbytes == 2 {
        0x7FF
    } else if nbytes == 3 {
        0xFFFF
    } else {
        0x10FFFF
    }
}

/// The mask of the payload bits of the last `i` continuation bytes.
pub open spec fn cont_mask(i: int) -> u32 {
    if i == 1 {
        0x3F
    } else if i == 2 {
        0xFFF
    } else {
        0x3FFFF
    }
}

/// The end of the lower part when `s..=e` straddles the last code point of
/// an encoding length: the first of `0x7F`, `0x7FF`, `0xFFFF` in `s..e`.
pub open spec fn length_split(s: u32, e: u32) -> Option<u32> {
    if s <= max_scalar(1) < e {
        Some(max_scalar(1))
    } else if s <= max_scalar(2) < e {
        Some(max_scalar(2))
    } else if s <= max_scalar(3) < e {
        Some(max_scalar(3))
    } else {
        None
    }
}

/// The end of the lower part when `s` and `e` differ above mask `m` and are
/// not aligned to it: split after the block of `s`, or else before the block
/// of `e`.
pub open spec fn mask_split(s: u32, e: u32, m: u32) -> Option<u32> {
    if (s & !m) != (e & !m) && (s & m) != 0 {
        Some(s | m)
    } else if (s & !m) != (e & !m) && (e & m) != m {
        Some(((e & !m) - 1) as u32)
    } else {
        None
    }
}

/// The first split that a continuation-byte boundary asks for, from the
/// lowest boundary up.
pub open spec fn align_split(s: u32, e: u32) -> Option<u32> {
    if mask_split(s, e, cont_mask(1)) is Some {
        mask_split(s, e, cont_mask(1))
    } else if mask_split(s, e, cont_mask(2)) is Some {
        mask_split(s, e, cont_mask(2))
    } else {
        mask_split(s, e, cont_mask(3))
    }
}

/// The sequence whose ranges run from the bytes of `encoding(s)` to those of
/// `encoding(e)`, position by position.
pub open spec fn block(s: u32, e: u32) -> Utf8Sequence {
    let a = encoding(s);
    let b = encoding(e);
    if a.len() == 1 {
        Utf8Sequence::One(Utf8Range { start: a[0], end: b[0] })
    } else if a.len() == 2 {
        Utf8Sequence::Two(
            [Utf8Range { start: a[0], end: b[0] }, Utf8Range { start: a[1], end: b[1] }],
        )
    } else if a.len() == 3 {
        Utf8Sequence::Three(
            [
                Utf8Range { start: a[0], end: b[0] },
                Utf8Range { start: a[1], end: b[1] },
                Utf8Range { start: a[2], end: b[2] },
            ],
        )
    } else {
        Utf8Sequence::Four(
            [
                Utf8Range { start: a[0], end: b[0] },
                Utf8Range { start: a[1], end: b[1] },
                Utf8Range { start: a[2], end: b[2] },
                Utf8Range { start: a[3], end: b[3] },
            ],
        )
    }
}

/// True when `s..=e` holds a surrogate half.
pub open spec fn meets_surrogates(s: u32, e: u32) -> bool {
    s <= 0xDFFF && 0xD800 <= e
}

/// The sequences that the compiler emits for `s..=e`, in order: leave out
/// the surrogate halves, else split at an encoding-length boundary, else emit
/// a one-byte block, else split at a continuation-byte boundary, else emit
/// the block of `s..=e`.
pub open spec fn compiled(s: u32, e: u32) -> Seq<Utf8Sequence>
    decreases e - s,
{
    if s > e {
        seq![]
    } else if meets_surrogates(s, e) {
        (if s < 0xD800 {
            compiled(s, 0xD7FF)
        } else {
            seq![]
        }) + (if e > 0xDFFF {
            compiled(0xE000, e)
        } else {
            seq![]
        })
    } else if let Some(m) = length_split(s, e) {
        if s <= m < e {
            compiled(s, m) + compiled((m + 1) as u32, e)
        } else {
            seq![]
        }
    } else if e <= 0x7F {
        seq![block(s, e)]
    } else if let Some(m) = align_split(s, e) {
        if s <= m < e {
            compiled(s, m) + compiled((m + 1) as u32, e)
        } else {
            seq![]
        }
    } else {
        seq![block(s, e)]
    }
}

/// Returns the largest code point whose encoding takes `nbytes` bytes.
fn max_scalar_value(nbytes: usize) -> (r: u32)
    requires
        1 <= nbytes <= 4,
    ensures
        r == max_scalar(nbytes as int),
{
    match nbytes {
        1 => 0x7F,
        2 => 0x7FF,
        3 => 0xFFFF,
        _ => 0x10FFFF,
    }
}

proof fn lemma_mask_split(s: u32, e: u32, m: u32)
    by (bit_vector)
    requires
        s <= e <= 0x10FFFF,
        m == 0x3F || m == 0xFFF || m == 0x3FFFF,
        (s & !m) != (e & !m),
    ensures
        s <= (s | m) < e,
        (s & m) == 0 ==> s < (e & !m) <= e,
{
}

/// Appends to `seqs`, in ascending order, sequences that together accept
/// exactly the encodings of the scalar values in `start..=end`.
fn add_ranges(seqs: &mut Vec<Utf8Sequence>, start: u32, end: u32)
    requires
        end <= 0x10FFFF,
    ensures
        final(seqs)@ == old(seqs)@ + compiled(start, end),
    decreases end - start,
{
    let ghost v0 = seqs@;
    if start > end {
        assert(v0 + compiled(start, end) =~= v0);
        return;
    }
    if start <= 0xDFFF && 0xD800 <= end {
        if start < 0xD800 {
            add_ranges(seqs, start, 0xD7FF);
        }
        let ghost v1 = seqs@;
        assert(v1 =~= v0 + (if start < 0xD800 { compiled(start, 0xD7FF) } else { seq![] }));
        if end > 0xDFFF {
            add_ranges(seqs, 0xE000, end);
        }
        assert(seqs@ =~= v1 + (if end > 0xDFFF { compiled(0xE000, end) } else { seq![] }));
        assert(seqs@ =~= v0 + compiled(start, end));
        return;
    }
    let mut i: usize = 1;
    while i < 4
        invariant
            1 <= i <= 4,
            start <= end <= 0x10FFFF,
            !meets_surrogates(start, end),
            seqs@ == v0,
            v0 == old(seqs)@,
            forall|j: int| 1 <= j < i ==> !(start <= #[trigger] max_scalar(j) && max_scalar(j) < end),
        decreases 4 - i,
    {
        let max = max_scalar_value(i);
        if start <= max && max < end {
            assert(length_split(start, end) == Some(max));
            add_ranges(seqs, start, max);
            add_ranges(seqs, max + 1, end);
            assert(seqs@ =~= v0 + compiled(start, end));
            return;
        }
        i += 1;
    }
    assert(length_split(start, end) is None);
    if end <= 0x7F {
        let x = Utf8Sequence::One(Utf8Range { start: start as u8, end: end as u8 });
        seqs.push(x);
        assert(seqs@ =~= v0 + compiled(start, end));
        return;
    }
    let mut i: usize = 1;
    while i < 4
        invariant
            1 <= i <= 4,
            start <= end <= 0x10FFFF,
            0x7F < end,
            !meets_surrogates(start, end),
            length_split(start, end) is None,
            seqs@ == v0,
            v0 == old(seqs)@,
            forall|j: int| 1 <= j < i ==> mask_split(start, end, #[trigger] cont_mask(j)) is None,
        decreases 4 - i,
    {
        let shift: u32 = 6 * (i as u32);
        proof {
            assert(shift == 6 ==> 1u32 << shift == 0x40) by (bit_vector);
            assert(shift == 12 ==> 1u32 << shift == 0x1000) by (bit_vector);
            assert(shift == 18 ==> 1u32 << shift == 0x40000) by (bit_vector);
        }
        let m: u32 = (1u32 << shift) - 1;
        assert(m == cont_mask(i as int));
        if (start & !m) != (end & !m) {
            proof {
                lemma_mask_split(start, end, m);
            }
            if (start & m) != 0 {
                assert(align_split(start, end) == Some(start | m));
                add_ranges(seqs, start, start | m);
                add_ranges(seqs, (start | m) + 1, end);
                assert(seqs@ =~= v0 + compiled(start, end));
                return;
            }
            if (end & m) != m {
                assert(align_split(start, end) == Some(((end & !m) - 1) as u32));
                add_ranges(seqs, start, (end & !m) - 1);
                add_ranges(seqs, end & !m, end);
                assert(seqs@ =~= v0 + compiled(start, end));
                return;
            }
        }
        i += 1;
    }
    assert(align_split(start, end) is None);
    let start_bytes = encode_utf8(start);
    let end_bytes = encode_utf8(end);
    let n = start_bytes.len();
    let x = if n == 2 {
        Utf8Sequence::Two(
            [
                Utf8Range { start: start_bytes[0], end: end_bytes[0] },
                Utf8Range { start: start_bytes[1], end: end_bytes[1] },
            ],
        )
    } else if n == 3 {
        Utf8Sequence::Three(
            [
                Utf8Range { start: start_bytes[0], end: end_bytes[0] },
                Utf8Range { start: start_bytes[1], end: end_bytes[1] },
                Utf8Range { start: start_bytes[2], end: end_bytes[2] },
            ],
        )
    } else {
        Utf8Sequence::Four(
            [
                Utf8Range { start: start_bytes[0], end: end_bytes[0] },
                Utf8Range { start: start_bytes[1], end: end_bytes[1] },
                Utf8Range { start: start_bytes[2], end: end_bytes[2] },
                Utf8Range { start: start_bytes[3], end: end_bytes[3] },
            ],
        )
    };
    seqs.push(x);
    assert(seqs@ =~= v0 + compiled(start, end));
}

proof fn lemma_tiles_empty(s: u32, e: u32)
    requires
        forall|c: u32| s <= c <= e ==> !is_scalar(c),
    ensures
        tiles(seq![], s, e),
{
    assert(accepted_by_any(seq![]) =~= scalar_encodings(s, e));
}

proof fn lemma_tiles_single(x: Utf8Sequence, s: u32, e: u32)
    requires
        x.exact(),
        x.first() == s,
        x.last() == e,
    ensures
        tiles(seq![x], s, e),
{
    let r = seq![x];
    assert forall|b: Seq<u8>| accepted_by_any(r).contains(b) <==> x.accepted().contains(b) by {
        if x.accepts(b) {
            assert(r[0].accepts(b));
        }
    }
    assert(accepted_by_any(r) =~= x.accepted());
}

/// `compiled(s, e)` tiles `s..=e`: each sequence accepts exactly the
/// encodings of the scalar values of its own interval, the intervals ascend,
/// and together the sequences accept exactly the encodings of the scalar
/// values in `s..=e`.
pub proof fn lemma_compiled_tiles(s: u32, e: u32)
    requires
        e <= 0x10FFFF,
    ensures
        tiles(compiled(s, e), s, e),
    decreases e - s,
{
    if s > e {
        lemma_tiles_empty(s, e);
    } else if meets_surrogates(s, e) {
        let r1 = if s < 0xD800 {
            compiled(s, 0xD7FF)
        } else {
            seq![]
        };
        let r2 = if e > 0xDFFF {
            compiled(0xE000, e)
        } else {
            seq![]
        };
        if s < 0xD800 {
            lemma_compiled_tiles(s, 0xD7FF);
        } else {
            lemma_tiles_empty(s, 0xD7FF);
        }
        if e > 0xDFFF {
            lemma_compiled_tiles(0xE000, e);
        } else {
            lemma_tiles_empty(0xE000, e);
        }
        lemma_tiles_concat(r1, r2, s, 0xD7FF, 0xE000, e);
        assert(compiled(s, e) == r1 + r2);
    } else if let Some(m) = length_split(s, e) {
        lemma_compiled_tiles(s, m);
        lemma_compiled_tiles((m + 1) as u32, e);
        lemma_tiles_concat(compiled(s, m), compiled((m + 1) as u32, e), s, m, (m + 1) as u32, e);
    } else {
        if e > 0x7F {
            if (s & !cont_mask(1)) != (e & !cont_mask(1)) {
                lemma_mask_split(s, e, cont_mask(1));
            }
            if (s & !cont_mask(2)) != (e & !cont_mask(2)) {
                lemma_mask_split(s, e, cont_mask(2));
            }
            if (s & !cont_mask(3)) != (e & !cont_mask(3)) {
                lemma_mask_split(s, e, cont_mask(3));
            }
        }
        if e <= 0x7F || align_split(s, e) is None {
            let x = block(s, e);
            assert(x.starts() =~= encoding(s));
            assert(x.ends() =~= encoding(e));
            lemma_block(x, s, e);
            lemma_tiles_single(x, s, e);
            assert(compiled(s, e) =~= seq![x]);
        } else {
            let m = align_split(s, e)->Some_0;
            lemma_compiled_tiles(s, m);
            lemma_compiled_tiles((m + 1) as u32, e);
            lemma_tiles_concat(
                compiled(s, m),
                compiled((m + 1) as u32, e),
                s,
                m,
                (m + 1) as u32,
                e,
            );
        }
    }
}

/// Compiles the scalar values `start..=end` into byte-range sequences, in
/// ascending order of scalar value, that together accept exactly the UTF-8
/// encodings of those scalar values and nothing else, no two of them
/// accepting the same byte string. An empty interval gives no sequence.
pub fn utf8_ranges(start: char, end: char) -> (r: Vec<Utf8Sequence>)
    ensures
        r@ == compiled(start as u32, end as u32),
        r@.len() == 0 <==> start as u32 > end as u32,
        tiles(r@, start as u32, end as u32),
        accepted_by_any(r@) == scalar_encodings(start as u32, end as u32),
        forall|i: int, j: int, b: Seq<u8>|
            0 <= i < j < r@.len() && #[trigger] r@[i].accepts(b) ==> !#[trigger] r@[j].accepts(b),
{
    let mut seqs: Vec<Utf8Sequence> = Vec::new();
    proof {
        vstd::utf8::char_is_scalar(start);
        vstd::utf8::char_is_scalar(end);
    }
    add_ranges(&mut seqs, start as u32, end as u32);
    proof {
        let s = start as u32;
        let e = end as u32;
        assert(seqs@ =~= compiled(s, e));
        lemma_compiled_tiles(s, e);
        if s <= e {
            assert(scalar_encodings(s, e).contains(encoding(s)));
            assert(accepted_by_any(seqs@).contains(encoding(s)));
        }
        assert forall|i: int, j: int, b: Seq<u8>|
            0 <= i < j < seqs@.len() && #[trigger] seqs@[i].accepts(b) implies !#[trigger] seqs@[j].accepts(b) by {
            lemma_tiles_disjoint(seqs@, s, e, i, j, b);
        }
    }
    seqs
}

} // verus!
