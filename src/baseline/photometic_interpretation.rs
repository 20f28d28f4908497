//! Photometric interpretation codes.

use vstd::prelude::*;

verus! {

pub const WHITEISZERO: u16 = 0x0000;
pub const BLACKISZERO: u16 = 0x0001;
pub const RGB: u16 = 0x0002;
pub const RGB_PALETTE: u16 = 0x0003;
pub const TRANSPARENCY_MASK: u16 = 0x0004;
pub const CMYK: u16 = 0x0005;
pub const YCBCR: u16 = 0x0006;
pub const CIELAB: u16 = 0x0008;

/// The name of a code, or `<Unrecognized>`.
pub open spec fn photometric_name(code: u16) -> &'static str {
    if code == WHITEISZERO {
        "White Is Zero"
    } else if code == BLACKISZERO {
        "Black Is Zero"
    } else if code == RGB {
        "RGB"
    } else if code == RGB_PALETTE {
        "RGB Palette"
    } else if code == TRANSPARENCY_MASK {
        "Transparency Mask"
    } else if code == CMYK {
        "CMYK"
    } else if code == YCBCR {
        "YCbCr"
    } else if code == CIELAB {
        "CIELAB"
    } else {
        "<Unrecognized>"
    }
}

/// Returns the name of a known photometric interpretation.
pub fn to_string(code: u16) -> (r: &'static str)
    ensures
        r == photometric_name(code),
{
    if code == WHITEISZERO {
        "White Is Zero"
    } else if code == BLACKISZERO {
        "Black Is Zero"
    } else if code == RGB {
        "RGB"
    } else if code == RGB_PALETTE {
        "RGB Palette"
    } else if code == TRANSPARENCY_MASK {
        "Transparency Mask"
    } else if code == CMYK {
        "CMYK"
    } else if code == YCBCR {
        "YCbCr"
    } else if code == CIELAB {
        "CIELAB"
    } else {
        "<Unrecognized>"
    }
}

} // verus!
