//! Patches: column-based pictures, each made of vertical runs ("posts").
//!
//! A patch lump starts with an 8-byte header (width, height, left offset,
//! top offset), followed by one 32-bit offset per column. Each column is a
//! list of posts: a top row, a length, a pad byte, the pixels, a pad byte;
//! the list ends with a top row of 255.

use crate::bytes::{le_i16, le_u16, le_u32, read_i16_le, read_u16_le};
use vstd::prelude::*;

verus! {

/// The header of a patch lump.
pub struct Patch {
    pub w: usize,
    pub h: usize,
    pub left: isize,
    pub top: isize,
}

/// Width of the patch in `img`.
pub open spec fn patch_width(img: Seq<u8>) -> int {
    le_u16(img, 0)
}

/// Height of the patch in `img`.
pub open spec fn patch_height(img: Seq<u8>) -> int {
    le_u16(img, 2)
}

/// Horizontal offset of the patch's origin in `img`.
pub open spec fn patch_left(img: Seq<u8>) -> int {
    le_i16(img, 4)
}

/// Vertical offset of the patch's origin in `img`.
pub open spec fn patch_top(img: Seq<u8>) -> int {
    le_i16(img, 6)
}

/// Where, in `img`, the posts of column `c` begin.
pub open spec fn column_offset(img: Seq<u8>, c: int) -> int {
    le_u32(img, 8 + 4 * c)
}

impl Patch {
    /// Reads the header of the patch lump `data`.
    pub fn from_lump(data: &[u8]) -> (p: Patch)
        requires
            data@.len() >= 8,
        ensures
            p.w == patch_width(data@),
            p.h == patch_height(data@),
            p.left == patch_left(data@),
            p.top == patch_top(data@),
    {
        let w = read_u16_le(data, 0) as usize;
        let h = read_u16_le(data, 2) as usize;
        let left = read_i16_le(data, 4) as isize;
        let top = read_i16_le(data, 6) as isize;
        Patch { w, h, left, top }
    }
}

} // verus!
