//! The sample-encoding contract: every pixel sample type maps into an 8-bit
//! byte domain, and all algorithm contracts are stated over that domain.

use vstd::prelude::*;

verus! {

/// A pixel sample encoding. Each value corresponds to a byte in `0..=255`;
/// `requantize` says which sample a byte maps back onto (for `u8` this is the
/// identity, for `bool` any non-zero byte becomes the maximum).
pub trait ImageData: Copy + Sized {
    /// The sample's value in the 8-bit domain.
    spec fn byte(self) -> u8;

    /// The declared minimum sample.
    spec fn min_val() -> Self;

    /// The declared maximum sample.
    spec fn max_val() -> Self;

    /// The sample that storing the byte `v` yields.
    spec fn requantize(v: u8) -> Self;

    /// Basic laws the encoding obeys: the bounds map to 0 and 255, requantizing
    /// a sample's own byte is the identity, and the byte map is injective.
    proof fn lemma_encoding()
        ensures
            Self::min_val().byte() == 0,
            Self::max_val().byte() == 255,
            forall|x: Self| #[trigger] Self::requantize(x.byte()) == x,
    ;

    fn to_u8(self) -> (r: u8)
        ensures
            r == self.byte(),
    ;

    fn from_u8(v: u8) -> (r: Self)
        ensures
            r == Self::requantize(v),
    ;

    fn to_bool(self) -> (r: bool)
        ensures
            r == (self.byte() != 0),
    ;

    fn from_bool(b: bool) -> (r: Self)
        ensures
            r == Self::requantize(if b { 255u8 } else { 0u8 }),
    ;

    fn min() -> (r: Self)
        ensures
            r == Self::min_val(),
    ;

    fn max() -> (r: Self)
        ensures
            r == Self::max_val(),
    ;

    /// Ordering in the byte domain.
    fn le(self, other: Self) -> (r: bool)
        ensures
            r == (self.byte() <= other.byte()),
    ;
}

impl ImageData for u8 {
    open spec fn byte(self) -> u8 {
        self
    }

    open spec fn min_val() -> Self {
        0u8
    }

    open spec fn max_val() -> Self {
        255u8
    }

    open spec fn requantize(v: u8) -> Self {
        v
    }

    proof fn lemma_encoding() {
    }

    fn to_u8(self) -> (r: u8) {
        self
    }

    fn from_u8(v: u8) -> (r: Self) {
        v
    }

    fn to_bool(self) -> (r: bool) {
        self != 0
    }

    fn from_bool(b: bool) -> (r: Self) {
        if b { 255 } else { 0 }
    }

    fn min() -> (r: Self) {
        0
    }

    fn max() -> (r: Self) {
        255
    }

    fn le(self, other: Self) -> (r: bool) {
        self <= other
    }
}

impl ImageData for bool {
    open spec fn byte(self) -> u8 {
        if self { 255u8 } else { 0u8 }
    }

    open spec fn min_val() -> Self {
        false
    }

    open spec fn max_val() -> Self {
        true
    }

    open spec fn requantize(v: u8) -> Self {
        v != 0
    }

    proof fn lemma_encoding() {
    }

    fn to_u8(self) -> (r: u8) {
        if self { 255 } else { 0 }
    }

    fn from_u8(v: u8) -> (r: Self) {
        v != 0
    }

    fn to_bool(self) -> (r: bool) {
        self
    }

    fn from_bool(b: bool) -> (r: Self) {
        b
    }

    fn min() -> (r: Self) {
        false
    }

    fn max() -> (r: Self) {
        true
    }

    fn le(self, other: Self) -> (r: bool) {
        !self || other
    }
}

} // verus!
