//! Packed color values: one `u32` per pixel, blue in the low byte,
//! green in the middle byte, red in the high byte.

use vstd::prelude::*;

verus! {

/// The packed encoding of an RGB triple: `blue | (green << 8) | (red << 16)`,
/// stated arithmetically.
pub open spec fn packed_rgb(red: int, green: int, blue: int) -> int {
    blue + green * 0x100 + red * 0x10000
}

/// Packs 8-bit red, green and blue channels into a single `u32`,
/// blue in the low byte, green in the middle byte, red in the high byte.
pub fn pack_color(red: u8, green: u8, blue: u8) -> (c: u32)
    ensures
        c == packed_rgb(red as int, green as int, blue as int),
{
    let r: u32 = red as u32;
    let g: u32 = green as u32;
    let b: u32 = blue as u32;
    proof {
        assert(b | (g << 8u32) | (r << 16u32) == b + g * 0x100 + r * 0x10000) by (bit_vector)
            requires r < 0x100 && g < 0x100 && b < 0x100;
    }
    b | (g << 8) | (r << 16)
}

} // verus!
