//! Compression codes.

use vstd::prelude::*;

verus! {

pub const UNCOMPRESSED: u16 = 0x0001;
pub const CCITT_1D: u16 = 0x0002;
pub const GROUP_3_FAX: u16 = 0x0003;
pub const GROUP_4_FAX: u16 = 0x0004;
pub const LZW: u16 = 0x0005;
pub const JPEG: u16 = 0x0006;
pub const NEW_JPEG: u16 = 0x0007;
pub const ADOBE_DEFLATE: u16 = 0x0008;
pub const JBIG_T85: u16 = 0x0009;
pub const JBIG_T43: u16 = 0x000A;
pub const NEXT: u16 = 0x7FFE;
pub const PACKBITS: u16 = 0x8005;
pub const THUNDERSCAN: u16 = 0x8029;
pub const RASTERPADDING: u16 = 0x807F;
pub const RLE_LINEWORK: u16 = 0x8080;
pub const RLE_HIGH_RES: u16 = 0x8081;
pub const RLE_BINARY_LINE: u16 = 0x8082;
pub const DEFLATE_PKZIP: u16 = 0x80B2;
pub const KODAK_DCS: u16 = 0x80B3;
pub const JBIG: u16 = 0x8765;
pub const JPEG2000: u16 = 0x8798;
pub const NIKON_NEF: u16 = 0x8799;
pub const JBIG2: u16 = 0x879B;

/// The name of a code, or `<Unrecognized>`.
pub open spec fn compression_name(code: u16) -> &'static str {
    if code == UNCOMPRESSED {
        "Uncompressed"
    } else if code == CCITT_1D {
        "CCITT_1D"
    } else if code == GROUP_3_FAX {
        "Group 3 Fax"
    } else if code == GROUP_4_FAX {
        "Group 4 Fax"
    } else if code == LZW {
        "LZW"
    } else if code == JPEG {
        "JPEG"
    } else if code == NEW_JPEG {
        "NewJPEG"
    } else if code == ADOBE_DEFLATE {
        "Adobe Deflate"
    } else if code == JBIG_T85 {
        "Jbig T85"
    } else if code == JBIG_T43 {
        "Jbig T43"
    } else if code == NEXT {
        "Next"
    } else if code == PACKBITS {
        "Packbits"
    } else if code == THUNDERSCAN {
        "ThunderScan"
    } else if code == RASTERPADDING {
        "RasterPadding"
    } else if code == RLE_LINEWORK {
        "RLE linework"
    } else if code == RLE_HIGH_RES {
        "RLE high res"
    } else if code == RLE_BINARY_LINE {
        "RLE binary line"
    } else if code == DEFLATE_PKZIP {
        "Deflate PKzip"
    } else if code == KODAK_DCS {
        "Kodak DCS"
    } else if code == JBIG {
        "JBIG"
    } else if code == JPEG2000 {
        "JPEG2000"
    } else if code == NIKON_NEF {
        "Nikon NEF"
    } else if code == JBIG2 {
        "JBIG2"
    } else {
        "<Unrecognized>"
    }
}

/// Returns the name of a known compression type.
pub fn to_string(code: u16) -> (r: &'static str)
    ensures
        r == compression_name(code),
{
    if code == UNCOMPRESSED {
        "Uncompressed"
    } else if code == CCITT_1D {
        "CCITT_1D"
    } else if code == GROUP_3_FAX {
        "Group 3 Fax"
    } else if code == GROUP_4_FAX {
        "Group 4 Fax"
    } else if code == LZW {
        "LZW"
    } else if code == JPEG {
        "JPEG"
    } else if code == NEW_JPEG {
        "NewJPEG"
    } else if code == ADOBE_DEFLATE {
        "Adobe Deflate"
    } else if code == JBIG_T85 {
        "Jbig T85"
    } else if code == JBIG_T43 {
        "Jbig T43"
    } else if code == NEXT {
        "Next"
    } else if code == PACKBITS {
        "Packbits"
    } else if code == THUNDERSCAN {
        "ThunderScan"
    } else if code == RASTERPADDING {
        "RasterPadding"
    } else if code == RLE_LINEWORK {
        "RLE linework"
    } else if code == RLE_HIGH_RES {
        "RLE high res"
    } else if code == RLE_BINARY_LINE {
        "RLE binary line"
    } else if code == DEFLATE_PKZIP {
        "Deflate PKzip"
    } else if code == KODAK_DCS {
        "Kodak DCS"
    } else if code == JBIG {
        "JBIG"
    } else if code == JPEG2000 {
        "JPEG2000"
    } else if code == NIKON_NEF {
        "Nikon NEF"
    } else if code == JBIG2 {
        "JBIG2"
    } else {
        "<Unrecognized>"
    }
}

} // verus!
