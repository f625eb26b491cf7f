//! Encoding and decoding of bilevel images in the CCITT Group 3 and Group 4
//! facsimile formats (ITU-T T.4 and T.6).
use vstd::prelude::*;

pub mod bits;
pub mod decoder;
pub mod encoder;
pub mod lut;
pub mod maps;
pub mod reader;
pub mod roundtrip;
pub mod tiff;
pub mod transitions;
pub mod writer;

pub use bits::Bits;
pub use reader::{slice_bits, slice_reader, BitReader, ByteReader};
pub use writer::{BitWriter, VecWriter};

verus! {

/// The colour of a picture element.
#[derive(Copy, Clone, Debug, PartialEq, Eq, Structural)]
pub enum Color {
    Black,
    White,
}

impl Color {
    /// The other colour.
    pub open spec fn flip(self) -> Color {
        match self {
            Color::Black => Color::White,
            Color::White => Color::Black,
        }
    }

    /// Returns the other colour.
    pub fn invert(self) -> (r: Color)
        ensures
            r == self.flip(),
    {
        match self {
            Color::Black => Color::White,
            Color::White => Color::Black,
        }
    }
}

impl core::ops::Not for Color {
    type Output = Color;

    /// The other colour.
    fn not(self) -> (r: Color) {
        self.invert()
    }
}

impl vstd::std_specs::ops::NotSpecImpl for Color {
    open spec fn obeys_not_spec() -> bool {
        true
    }

    open spec fn not_req(self) -> bool {
        true
    }

    open spec fn not_spec(self) -> Color {
        self.flip()
    }
}

} // verus!
