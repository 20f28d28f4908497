//! Compression types as an enum.

use crate::baseline::compression::{
    UNCOMPRESSED, CCITT_1D, GROUP_3_FAX, GROUP_4_FAX, LZW, JPEG, NEW_JPEG, ADOBE_DEFLATE, JBIG_T85, JBIG_T43, NEXT, PACKBITS, THUNDERSCAN, RASTERPADDING, RLE_LINEWORK, RLE_HIGH_RES, RLE_BINARY_LINE, DEFLATE_PKZIP, KODAK_DCS, JBIG, JPEG2000, NIKON_NEF, JBIG2,
};
use vstd::prelude::*;

verus! {

/// Defines a decoding type for use between decoders.
#[derive(Debug, Clone, Copy, PartialEq, Eq, Structural)]
pub enum CompressionType {
    Uncompressed,
    CCITT1D,
    Group3Fax,
    Group4Fax,
    LZW,
    JPEG,
    NewJPEG,
    AdobeDEFLATE,
    JBigT85,
    JBigT43,
    NeXT,
    PackBits,
    Thunderscan,
    Rasterpadding,
    LineworkRLE,
    HighResRLE,
    BinaryLineRLE,
    DEFLATEPKZIP,
    KodakDCS,
    JBIG,
    JPEG2000,
    NikonNEF,
    JBIG2,
}

/// The integer code of a compression type.
pub open spec fn compression_code(c: CompressionType) -> u16 {
    match c {
        CompressionType::Uncompressed => UNCOMPRESSED,
        CompressionType::CCITT1D => CCITT_1D,
        CompressionType::Group3Fax => GROUP_3_FAX,
        CompressionType::Group4Fax => GROUP_4_FAX,
        CompressionType::LZW => LZW,
        CompressionType::JPEG => JPEG,
        CompressionType::NewJPEG => NEW_JPEG,
        CompressionType::AdobeDEFLATE => ADOBE_DEFLATE,
        CompressionType::JBigT85 => JBIG_T85,
        CompressionType::JBigT43 => JBIG_T43,
        CompressionType::NeXT => NEXT,
        CompressionType::PackBits => PACKBITS,
        CompressionType::Thunderscan => THUNDERSCAN,
        CompressionType::Rasterpadding => RASTERPADDING,
        CompressionType::LineworkRLE => RLE_LINEWORK,
        CompressionType::HighResRLE => RLE_HIGH_RES,
        CompressionType::BinaryLineRLE => RLE_BINARY_LINE,
        CompressionType::DEFLATEPKZIP => DEFLATE_PKZIP,
        CompressionType::KodakDCS => KODAK_DCS,
        CompressionType::JBIG => JBIG,
        CompressionType::JPEG2000 => JPEG2000,
        CompressionType::NikonNEF => NIKON_NEF,
        CompressionType::JBIG2 => JBIG2,
    }
}

impl From<CompressionType> for u16 {
    fn from(c: CompressionType) -> (r: u16) {
        match c {
            CompressionType::Uncompressed => UNCOMPRESSED,
            CompressionType::CCITT1D => CCITT_1D,
            CompressionType::Group3Fax => GROUP_3_FAX,
            CompressionType::Group4Fax => GROUP_4_FAX,
            CompressionType::LZW => LZW,
            CompressionType::JPEG => JPEG,
            CompressionType::NewJPEG => NEW_JPEG,
            CompressionType::AdobeDEFLATE => ADOBE_DEFLATE,
            CompressionType::JBigT85 => JBIG_T85,
            CompressionType::JBigT43 => JBIG_T43,
            CompressionType::NeXT => NEXT,
            CompressionType::PackBits => PACKBITS,
            CompressionType::Thunderscan => THUNDERSCAN,
            CompressionType::Rasterpadding => RASTERPADDING,
            CompressionType::LineworkRLE => RLE_LINEWORK,
            CompressionType::HighResRLE => RLE_HIGH_RES,
            CompressionType::BinaryLineRLE => RLE_BINARY_LINE,
            CompressionType::DEFLATEPKZIP => DEFLATE_PKZIP,
            CompressionType::KodakDCS => KODAK_DCS,
            CompressionType::JBIG => JBIG,
            CompressionType::JPEG2000 => JPEG2000,
            CompressionType::NikonNEF => NIKON_NEF,
            CompressionType::JBIG2 => JBIG2,
        }
    }
}

impl vstd::std_specs::convert::FromSpecImpl<CompressionType> for u16 {
    open spec fn obeys_from_spec() -> bool {
        true
    }

    open spec fn from_spec(c: CompressionType) -> u16 {
        compression_code(c)
    }
}

impl CompressionType {
    /// Convert an integer into the specified CompressionType. Returns None if unrecognized.
    pub fn from_iteger(integer: u16) -> (r: Option<Self>)
        ensures
            r is Some ==> compression_code(r->0) == integer,
            r is None ==> forall|c: CompressionType| compression_code(c) != integer,
    {
        if integer == UNCOMPRESSED {
            Some(CompressionType::Uncompressed)
        } else if integer == CCITT_1D {
            Some(CompressionType::CCITT1D)
        } else if integer == GROUP_3_FAX {
            Some(CompressionType::Group3Fax)
        } else if integer == GROUP_4_FAX {
            Some(CompressionType::Group4Fax)
        } else if integer == LZW {
            Some(CompressionType::LZW)
        } else if integer == JPEG {
            Some(CompressionType::JPEG)
        } else if integer == NEW_JPEG {
            Some(CompressionType::NewJPEG)
        } else if integer == ADOBE_DEFLATE {
            Some(CompressionType::AdobeDEFLATE)
        } else if integer == JBIG_T85 {
            Some(CompressionType::JBigT85)
        } else if integer == JBIG_T43 {
            Some(CompressionType::JBigT43)
        } else if integer == NEXT {
            Some(CompressionType::NeXT)
        } else if integer == PACKBITS {
            Some(CompressionType::PackBits)
        } else if integer == THUNDERSCAN {
            Some(CompressionType::Thunderscan)
        } else if integer == RASTERPADDING {
            Some(CompressionType::Rasterpadding)
        } else if integer == RLE_LINEWORK {
            Some(CompressionType::LineworkRLE)
        } else if integer == RLE_HIGH_RES {
            Some(CompressionType::HighResRLE)
        } else if integer == RLE_BINARY_LINE {
            Some(CompressionType::BinaryLineRLE)
        } else if integer == DEFLATE_PKZIP {
            Some(CompressionType::DEFLATEPKZIP)
        } else if integer == KODAK_DCS {
            Some(CompressionType::KodakDCS)
        } else if integer == JBIG {
            Some(CompressionType::JBIG)
        } else if integer == JPEG2000 {
            Some(CompressionType::JPEG2000)
        } else if integer == NIKON_NEF {
            Some(CompressionType::NikonNEF)
        } else if integer == JBIG2 {
            Some(CompressionType::JBIG2)
        } else {
            None
        }
    }

    /// The integer code of this compression type.
    pub fn to_integer(self) -> (r: u16)
        ensures
            r == compression_code(self),
    {
        u16::from(self)
    }
}

} // verus!
