//! What holds of the compiler's output: the sequences together accept
//! exactly the encodings of the scalar values of the interval, no two accept
//! the same string, and splitting an interval does not change what is
//! accepted.
use vstd::prelude::*;
use crate::compile::{compiled, lemma_compiled_tiles};
use crate::encode::{
    decode, encoding, is_scalar, lemma_decode_encoding, lemma_encoding_injective,
    lemma_encoding_is_utf8,
};
use crate::sequence::{accepted_by_any, scalar_encodings, tiles, Utf8Sequence};

verus! {

/// In a tiling, the interval of an earlier sequence lies wholly below that of
/// a later one.
pub proof fn lemma_tiles_ordered(r: Seq<Utf8Sequence>, lo: u32, hi: u32, i: int, j: int)
    requires
        tiles(r, lo, hi),
        0 <= i < j < r.len(),
    ensures
        r[i].last() < r[j].first(),
    decreases j - i,
{
    assert(r[j - 1].exact());
    if j > i + 1 {
        lemma_tiles_ordered(r, lo, hi, i, j - 1);
    }
}

/// No byte string is accepted by two sequences of a tiling.
pub proof fn lemma_tiles_disjoint(r: Seq<Utf8Sequence>, lo: u32, hi: u32, i: int, j: int, b: Seq<u8>)
    requires
        tiles(r, lo, hi),
        0 <= i < r.len(),
        0 <= j < r.len(),
        i != j,
    ensures
        !(r[i].accepts(b) && r[j].accepts(b)),
{
    if r[i].accepts(b) && r[j].accepts(b) {
        assert(r[i].exact());
        assert(r[j].exact());
        assert(r[i].accepted().contains(b));
        assert(r[j].accepted().contains(b));
        let ci = choose|c: u32| is_scalar(c) && r[i].first() <= c <= r[i].last() && b == encoding(c);
        let cj = choose|c: u32| is_scalar(c) && r[j].first() <= c <= r[j].last() && b == encoding(c);
        lemma_encoding_injective(ci, cj);
        if i < j {
            lemma_tiles_ordered(r, lo, hi, i, j);
        } else {
            lemma_tiles_ordered(r, lo, hi, j, i);
        }
    }
}

/// A tiling of `lo..=m1` followed by a tiling of `m2..=hi`, where no scalar
/// value of `lo..=hi` lies strictly between `m1` and `m2`, tiles `lo..=hi`.
pub proof fn lemma_tiles_concat(
    r1: Seq<Utf8Sequence>,
    r2: Seq<Utf8Sequence>,
    lo: u32,
    m1: u32,
    m2: u32,
    hi: u32,
)
    requires
        m1 < m2,
        lo <= m2,
        m1 <= hi,
        forall|c: u32| is_scalar(c) && lo <= c <= hi ==> c <= m1 || m2 <= c,
        tiles(r1, lo, m1),
        tiles(r2, m2, hi),
    ensures
        tiles(r1 + r2, lo, hi),
        accepted_by_any(r1 + r2) == accepted_by_any(r1).union(accepted_by_any(r2)),
{
    let r = r1 + r2;
    assert forall|k: int| 0 <= k < r.len() - 1 implies #[trigger] r[k].last() < r[k + 1].first() by {
        if k < r1.len() - 1 {
            assert(r[k] == r1[k] && r[k + 1] == r1[k + 1]);
        } else if k == r1.len() - 1 {
            assert(r[k] == r1[k] && r[k + 1] == r2[0]);
            assert(r2[0].first() >= m2);
        } else {
            assert(r[k] == r2[k - r1.len()] && r[k + 1] == r2[k - r1.len() + 1]);
        }
    }
    assert forall|k: int| 0 <= k < r.len() implies (#[trigger] r[k]).exact() && lo <= r[k].first()
        && r[k].last() <= hi by {
        if k < r1.len() {
            assert(r[k] == r1[k]);
        } else {
            assert(r[k] == r2[k - r1.len()]);
        }
    }
    assert forall|b: Seq<u8>| accepted_by_any(r).contains(b) <==> accepted_by_any(r1).union(
        accepted_by_any(r2),
    ).contains(b) by {
        if accepted_by_any(r).contains(b) {
            let k = choose|k: int| 0 <= k < r.len() && (#[trigger] r[k]).accepts(b);
            if k < r1.len() {
                assert(r1[k] == r[k]);
            } else {
                assert(r2[k - r1.len()] == r[k]);
            }
        }
        if accepted_by_any(r1).contains(b) {
            let k = choose|k: int| 0 <= k < r1.len() && (#[trigger] r1[k]).accepts(b);
            assert(r[k] == r1[k]);
        }
        if accepted_by_any(r2).contains(b) {
            let k = choose|k: int| 0 <= k < r2.len() && (#[trigger] r2[k]).accepts(b);
            assert(r[k + r1.len()] == r2[k]);
        }
    }
    assert(accepted_by_any(r) =~= accepted_by_any(r1).union(accepted_by_any(r2)));
    assert forall|b: Seq<u8>| scalar_encodings(lo, hi).contains(b) <==> scalar_encodings(
        lo,
        m1,
    ).union(scalar_encodings(m2, hi)).contains(b) by {
        if scalar_encodings(lo, hi).contains(b) {
            let c = choose|c: u32| is_scalar(c) && lo <= c <= hi && b == encoding(c);
            assert(c <= m1 || m2 <= c);
        }
    }
    assert(scalar_encodings(lo, hi) =~= scalar_encodings(lo, m1).union(scalar_encodings(m2, hi)));
}

/// The sequences compiled for `s..=e` together accept exactly the encodings
/// of the scalar values `s..=e`; for `s > e` there are none and they accept
/// nothing.
pub proof fn lemma_union_exact(s: u32, e: u32)
    requires
        e <= 0x10FFFF,
    ensures
        accepted_by_any(compiled(s, e)) == scalar_encodings(s, e),
{
    lemma_compiled_tiles(s, e);
}

/// No byte string is accepted by two different sequences compiled for
/// `s..=e`.
pub proof fn lemma_disjoint(s: u32, e: u32, i: int, j: int, b: Seq<u8>)
    requires
        e <= 0x10FFFF,
        0 <= i < compiled(s, e).len(),
        0 <= j < compiled(s, e).len(),
        i != j,
    ensures
        !(compiled(s, e)[i].accepts(b) && compiled(s, e)[j].accepts(b)),
{
    lemma_compiled_tiles(s, e);
    lemma_tiles_disjoint(compiled(s, e), s, e, i, j, b);
}

/// Every byte string that a sequence compiled for `s..=e` accepts is the
/// UTF-8 encoding of a scalar value in `s..=e`: no surrogate half, no
/// overlong form, nothing outside the interval.
pub proof fn lemma_scalars_only(s: u32, e: u32, k: int, b: Seq<u8>)
    requires
        e <= 0x10FFFF,
        0 <= k < compiled(s, e).len(),
        compiled(s, e)[k].accepts(b),
    ensures
        exists|c: u32|
            is_scalar(c) && s <= c <= e && b == encoding(c) && b == vstd::utf8::encode_scalar(c),
{
    lemma_union_exact(s, e);
    assert(accepted_by_any(compiled(s, e)).contains(b));
    let c = choose|c: u32| is_scalar(c) && s <= c <= e && b == encoding(c);
    lemma_encoding_is_utf8(c);
}

/// Each scalar value of `s..=e` has its encoding accepted by exactly one
/// sequence compiled for `s..=e`, and that encoding decodes back to the
/// scalar value.
pub proof fn lemma_round_trip(s: u32, e: u32, c: u32)
    requires
        e <= 0x10FFFF,
        is_scalar(c),
        s <= c <= e,
    ensures
        exists|k: int| 0 <= k < compiled(s, e).len() && (#[trigger] compiled(s, e)[k]).accepts(encoding(c)),
        forall|i: int, j: int|
            0 <= i < compiled(s, e).len() && 0 <= j < compiled(s, e).len()
                && (#[trigger] compiled(s, e)[i]).accepts(encoding(c))
                && (#[trigger] compiled(s, e)[j]).accepts(encoding(c)) ==> i == j,
        decode(encoding(c)) == c,
{
    let r = compiled(s, e);
    lemma_union_exact(s, e);
    assert(scalar_encodings(s, e).contains(encoding(c)));
    assert(accepted_by_any(r).contains(encoding(c)));
    assert forall|i: int, j: int|
        0 <= i < r.len() && 0 <= j < r.len() && (#[trigger] r[i]).accepts(encoding(c))
            && (#[trigger] r[j]).accepts(encoding(c)) implies i == j by {
        if i != j {
            lemma_disjoint(s, e, i, j, encoding(c));
        }
    }
    lemma_decode_encoding(c);
}

/// Compiling `s..=m` and `m+1..=e` and putting the results one after the
/// other accepts the same byte strings as compiling `s..=e` at once, the
/// encodings of the scalar values in `s..=e`, and the joined result again
/// tiles `s..=e`.
pub proof fn lemma_split_invariance(s: u32, m: u32, e: u32)
    requires
        s <= m < e <= 0x10FFFF,
    ensures
        tiles(compiled(s, m) + compiled((m + 1) as u32, e), s, e),
        accepted_by_any(compiled(s, m) + compiled((m + 1) as u32, e)) == accepted_by_any(
            compiled(s, e),
        ),
        accepted_by_any(compiled(s, e)) == scalar_encodings(s, e),
{
    lemma_compiled_tiles(s, m);
    lemma_compiled_tiles((m + 1) as u32, e);
    lemma_tiles_concat(compiled(s, m), compiled((m + 1) as u32, e), s, m, (m + 1) as u32, e);
    lemma_union_exact(s, e);
}

} // verus!
