//! Byte ranges and sequences of them, with the set of byte strings that a
//! sequence accepts.
use vstd::prelude::*;
use crate::encode::{decode, encoding, is_scalar};

verus! {

/// An inclusive range of byte values accepted at one position.
#[derive(Clone, Copy, Debug, PartialEq, Eq)]
pub struct Utf8Range {
    pub start: u8,
    pub end: u8,
}

/// One to four byte ranges, one per position of an encoded code point.
#[derive(Clone, Copy, Debug, PartialEq, Eq)]
pub enum Utf8Sequence {
    One(Utf8Range),
    Two([Utf8Range; 2]),
    Three([Utf8Range; 3]),
    Four([Utf8Range; 4]),
}

impl Utf8Range {
    /// True when byte `b` lies in the range.
    pub open spec fn contains(self, b: u8) -> bool {
        self.start <= b <= self.end
    }
}

impl Utf8Sequence {
    /// The ranges of the sequence, in position order.
    pub open spec fn ranges(self) -> Seq<Utf8Range> {
        match self {
            Utf8Sequence::One(r) => seq![r],
            Utf8Sequence::Two(a) => a@,
            Utf8Sequence::Three(a) => a@,
            Utf8Sequence::Four(a) => a@,
        }
    }

    /// True when byte string `b` has one byte per position, each in its range.
    pub open spec fn accepts(self, b: Seq<u8>) -> bool {
        &&& b.len() == self.ranges().len()
        &&& forall|k: int| 0 <= k < b.len() ==> (#[trigger] self.ranges()[k]).contains(b[k])
    }

    /// The set of byte strings that the sequence accepts.
    pub open spec fn accepted(self) -> Set<Seq<u8>> {
        Set::new(|b: Seq<u8>| self.accepts(b))
    }

    /// The lowest byte of each position.
    pub open spec fn starts(self) -> Seq<u8> {
        Seq::new(self.ranges().len(), |k: int| self.ranges()[k].start)
    }

    /// The highest byte of each position.
    pub open spec fn ends(self) -> Seq<u8> {
        Seq::new(self.ranges().len(), |k: int| self.ranges()[k].end)
    }

    /// The code point spelled by the lowest bytes.
    pub open spec fn first(self) -> u32 {
        decode(self.starts())
    }

    /// The code point spelled by the highest bytes.
    pub open spec fn last(self) -> u32 {
        decode(self.ends())
    }

    /// The sequence accepts exactly the encodings of the scalar values from
    /// `first()` to `last()`.
    pub open spec fn exact(self) -> bool {
        &&& self.first() <= self.last()
        &&& self.accepted() == scalar_encodings(self.first(), self.last())
    }
}

/// The encodings of the scalar values in `lo..=hi`: no surrogate half.
pub open spec fn scalar_encodings(lo: u32, hi: u32) -> Set<Seq<u8>> {
    Set::new(|b: Seq<u8>| exists|c: u32| is_scalar(c) && lo <= c <= hi && b == encoding(c))
}

/// The byte strings that some sequence of `r` accepts.
pub open spec fn accepted_by_any(r: Seq<Utf8Sequence>) -> Set<Seq<u8>> {
    Set::new(|b: Seq<u8>| exists|k: int| 0 <= k < r.len() && (#[trigger] r[k]).accepts(b))
}

/// `r` covers `lo..=hi`: each sequence accepts exactly the encodings of the
/// scalar values of its own interval, the intervals lie inside `lo..=hi` in
/// ascending order, and together the sequences accept exactly the encodings
/// of the scalar values in `lo..=hi`.
pub open spec fn tiles(r: Seq<Utf8Sequence>, lo: u32, hi: u32) -> bool {
    &&& forall|k: int| 0 <= k < r.len() ==> (#[trigger] r[k]).exact()
    &&& forall|k: int| 0 <= k < r.len() ==> lo <= (#[trigger] r[k]).first() && r[k].last() <= hi
    &&& forall|k: int| 0 <= k < r.len() - 1 ==> #[trigger] r[k].last() < r[k + 1].first()
    &&& accepted_by_any(r) == scalar_encodings(lo, hi)
}

} // verus!
