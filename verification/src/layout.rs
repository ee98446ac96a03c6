//! Slot layout of the staging buffer.
//!
//! Every member of a batch group owns one fixed-stride slot of the group's
//! flat staging buffer. All scalar cells are stored as the raw bit pattern
//! (`u32`) of an IEEE-754 single-precision value; the library never does
//! arithmetic on them, it only moves them into place, so the packing logic
//! is exact over the bit words. A slot holds a 3x4 transform as three rows
//! of four cells (row = basis column x, basis column y, basis column z,
//! translation, per axis); colored slots append one extra cell holding the
//! member's RGBA color packed in little-endian byte order.

use vstd::prelude::*;

verus! {

/// Slots a group's staging buffer gains on each growth event.
pub const ALLOC_STEP: usize = 256;

/// Cells per slot in an uncolored group: a 3x4 transform.
pub const STRIDE_PLAIN: usize = 12;

/// Cells per slot in a colored group: a 3x4 transform plus one color cell.
pub const STRIDE_COLORED: usize = 13;

/// Bit pattern of the IEEE-754 single-precision value one.
pub const ONE_BITS: u32 = 0x3F80_0000;

/// One three-component vector, each component the bit pattern of an
/// IEEE-754 single-precision value.
#[derive(Clone, Copy, PartialEq, Eq, Structural, Debug)]
pub struct Vec3Bits {
    pub x: u32,
    pub y: u32,
    pub z: u32,
}

/// A world transform as raw cell words: the three columns of the 3x3
/// basis and the translation.
#[derive(Clone, Copy, PartialEq, Eq, Structural, Debug)]
pub struct TransformBits {
    pub col_x: Vec3Bits,
    pub col_y: Vec3Bits,
    pub col_z: Vec3Bits,
    pub origin: Vec3Bits,
}

/// An RGBA color, one byte per channel.
#[derive(Clone, Copy, PartialEq, Eq, Structural, Debug)]
pub struct Rgba {
    pub r: u8,
    pub g: u8,
    pub b: u8,
    pub a: u8,
}

/// Cells per slot for a group of the given color mode.
pub open spec fn spec_stride(colored: bool) -> int {
    if colored {
        STRIDE_COLORED as int
    } else {
        STRIDE_PLAIN as int
    }
}

/// Cells per slot for a group of the given color mode.
pub fn stride(colored: bool) -> (r: usize)
    ensures
        r == spec_stride(colored),
{
    if colored {
        STRIDE_COLORED
    } else {
        STRIDE_PLAIN
    }
}

/// The four color bytes packed into one cell in little-endian byte order:
/// red is the least significant byte.
pub open spec fn spec_packed_color(c: Rgba) -> u32 {
    ((c.a as u32) << 24) | ((c.b as u32) << 16) | ((c.g as u32) << 8) | (c.r as u32)
}

/// Packs the four color bytes into one cell, red in the least significant
/// byte (little-endian).
pub fn packed_color(c: &Rgba) -> (r: u32)
    ensures
        r == spec_packed_color(*c),
{
    ((c.a as u32) << 24u32) | ((c.b as u32) << 16u32) | ((c.g as u32) << 8u32) | (c.r as u32)
}

/// The twelve transform cells of a slot, row-major: each row holds the
/// per-axis components of the three basis columns and the translation.
pub open spec fn transform_words(t: TransformBits) -> Seq<u32> {
    seq![
        t.col_x.x, t.col_y.x, t.col_z.x, t.origin.x,
        t.col_x.y, t.col_y.y, t.col_z.y, t.origin.y,
        t.col_x.z, t.col_y.z, t.col_z.z, t.origin.z,
    ]
}

/// The full cell contents of one slot for a member with the given
/// transform and color, in a group of the given color mode.
pub open spec fn slot_words(t: TransformBits, c: Rgba, colored: bool) -> Seq<u32> {
    if colored {
        transform_words(t).push(spec_packed_color(c))
    } else {
        transform_words(t)
    }
}

/// The cell contents of a freshly grown slot: an identity transform
/// (basis diagonal one, translation zero) and, if colored, a zero color.
pub open spec fn identity_words(colored: bool) -> Seq<u32> {
    let base = seq![
        ONE_BITS, 0u32, 0u32, 0u32,
        0u32, ONE_BITS, 0u32, 0u32,
        0u32, 0u32, ONE_BITS, 0u32,
    ];
    if colored {
        base.push(0u32)
    } else {
        base
    }
}

/// Serializes a transform into its twelve slot cells.
pub fn transform_to_words(t: &TransformBits) -> (r: Vec<u32>)
    ensures
        r@ == transform_words(*t),
{
    let mut r: Vec<u32> = Vec::new();
    r.push(t.col_x.x);
    r.push(t.col_y.x);
    r.push(t.col_z.x);
    r.push(t.origin.x);
    r.push(t.col_x.y);
    r.push(t.col_y.y);
    r.push(t.col_z.y);
    r.push(t.origin.y);
    r.push(t.col_x.z);
    r.push(t.col_y.z);
    r.push(t.col_z.z);
    r.push(t.origin.z);
    proof {
        assert(r@ =~= transform_words(*t));
    }
    r
}

} // verus!
