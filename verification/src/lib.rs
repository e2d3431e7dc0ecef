//! Huffman compression of RGB images, one code per color channel.
//!
//! The pipeline: a pixel grid is scanned into three per-channel byte
//! histograms; each histogram seeds a Huffman tree built with a
//! min-priority queue (deterministic tie-break: lower insertion index
//! wins among equal frequencies); a depth-first pass assigns each byte
//! value its root-to-leaf path as a bit code and accumulates the exact
//! encoded bit count; the pixel grid is re-scanned into three bit
//! streams; trees, bit lengths and MSB-first packed streams are laid
//! out in a little-endian binary container. A decoder walks the parsed
//! trees bit by bit and restores the original grid exactly.

use vstd::prelude::*;

pub mod hist;
pub mod pq;
pub mod builder;
pub mod tree;
pub mod codes;
pub mod bits;
pub mod encode;
pub mod container;
pub mod comp;
pub mod ratio;
pub mod cipher;
pub mod laws;

verus! {

/// One RGB pixel: a 3-byte cell of the grid.
#[derive(Clone, Copy, PartialEq, Eq, Structural, Debug, Hash)]
pub struct Pixel {
    pub r: u8,
    pub g: u8,
    pub b: u8,
}

/// The byte a pixel carries on channel `c` (0 = red, 1 = green, 2 = blue).
pub open spec fn chan(p: Pixel, c: int) -> u8 {
    if c == 0 {
        p.r
    } else if c == 1 {
        p.g
    } else {
        p.b
    }
}

/// A decoded image: `width * height` pixels in row-major order.
pub struct PixelGrid {
    pub width: u32,
    pub height: u32,
    pub pixels: Vec<Pixel>,
}

impl View for PixelGrid {
    type V = Seq<Pixel>;

    open spec fn view(&self) -> Seq<Pixel> {
        self.pixels@
    }
}

impl PixelGrid {
    /// The pixel vector holds exactly one cell per grid position.
    pub open spec fn wf(&self) -> bool {
        self.pixels@.len() == self.width as int * self.height as int
    }
}

/// The compression pipeline rejects inputs it cannot code.
#[derive(Clone, Copy, PartialEq, Eq, Structural, Debug)]
pub enum InputError {
    /// The grid holds no pixels, so a channel has no distinct byte values.
    EmptyInput,
}

/// A serialized artifact that cannot be decoded.
#[derive(Clone, Copy, PartialEq, Eq, Structural, Debug)]
pub enum FormatError {
    /// The byte stream ends before the field or packed section it announces.
    Truncated,
    /// A tree slot, a dimension or a declared length contradicts the rest
    /// of the container.
    Malformed,
}

} // verus!
