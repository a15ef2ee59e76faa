//! Output/input file formats, their detection, and the encoder parameters
//! that depend on the format.

use vstd::prelude::*;

verus! {

/// Color classification of an image, derived from its pixels when the image
/// is built: `Gray` when every pixel is gray and fully opaque, `GrayAlpha`
/// when gray with some transparency, `RGB` when colored and opaque, `RGBA`
/// when colored with some transparency.
#[derive(Clone, Copy, PartialEq, Eq, Structural, Debug)]
pub enum ColorSpace {
    Gray,
    GrayAlpha,
    RGB,
    RGBA,
}

/// Chroma subsampling mode of a lossy encoder: how much the color channels
/// are reduced relative to luminance.
#[derive(Clone, Copy, PartialEq, Eq, Structural, Debug)]
pub enum ChromaSubsampling {
    _420,
    _422,
    _444,
}

/// Choice of chroma subsampling for one conversion: sweep all three modes,
/// use one fixed mode, or none because the output format has no such
/// parameter.
#[derive(Clone, Copy, PartialEq, Eq, Structural, Debug)]
pub enum ChromaSubsamplingOption {
    Auto,
    Manual(ChromaSubsampling),
    Off,
}

#[derive(Clone, Copy, PartialEq, Eq, Structural, Debug)]
pub enum Format {
    JPEG,
    PNG,
    WEBP,
}

/// What `Format::from_ext` returns for a given extension string.
pub open spec fn spec_from_ext(s: Seq<char>) -> Option<Format> {
    if s == "jpeg"@ || s == "jpg"@ {
        Some(Format::JPEG)
    } else if s == "png"@ {
        Some(Format::PNG)
    } else if s == "webp"@ {
        Some(Format::WEBP)
    } else {
        None
    }
}

/// The first bytes of a JPEG file: ff d8 ff.
pub open spec fn is_jpeg_magic(s: Seq<u8>) -> bool {
    s.len() >= 3 && s[0] == 0xff && s[1] == 0xd8 && s[2] == 0xff
}

/// The first bytes of a PNG file: 89 'P' 'N' 'G' 0d 0a 1a 0a.
pub open spec fn is_png_magic(s: Seq<u8>) -> bool {
    s.len() >= 8 && s[0] == 0x89 && s[1] == 0x50 && s[2] == 0x4e && s[3] == 0x47 && s[4] == 0x0d
        && s[5] == 0x0a && s[6] == 0x1a && s[7] == 0x0a
}

/// The first bytes of a WebP file: 'R' 'I' 'F' 'F', four length bytes,
/// 'W' 'E' 'B' 'P'.
pub open spec fn is_webp_magic(s: Seq<u8>) -> bool {
    s.len() >= 12 && s[0] == 0x52 && s[1] == 0x49 && s[2] == 0x46 && s[3] == 0x46 && s[8] == 0x57
        && s[9] == 0x45 && s[10] == 0x42 && s[11] == 0x50
}

/// What `Format::from_magic` returns for a given byte prefix.
pub open spec fn spec_from_magic(s: Seq<u8>) -> Option<Format> {
    if is_jpeg_magic(s) {
        Some(Format::JPEG)
    } else if is_png_magic(s) {
        Some(Format::PNG)
    } else if is_webp_magic(s) {
        Some(Format::WEBP)
    } else {
        None
    }
}

pub(crate) fn str_eq(a: &str, b: &str) -> (r: bool)
    ensures
        r == (a@ == b@),
{
    let sa: String = a.to_owned();
    let sb: String = b.to_owned();
    sa == sb
}

impl Format {
    /// The format whose conventional file extension is `input`, already
    /// lower-cased by the caller.
    pub fn from_ext(input: &str) -> (r: Option<Self>)
        ensures
            r == spec_from_ext(input@),
    {
        if str_eq(input, "jpeg") || str_eq(input, "jpg") {
            Some(Format::JPEG)
        } else if str_eq(input, "png") {
            Some(Format::PNG)
        } else if str_eq(input, "webp") {
            Some(Format::WEBP)
        } else {
            None
        }
    }

    /// The format recognized from the first bytes of a file.
    pub fn from_magic(buffer: &[u8]) -> (r: Option<Self>)
        ensures
            r == spec_from_magic(buffer@),
    {
        if buffer.len() >= 3 && buffer[0] == 0xff && buffer[1] == 0xd8 && buffer[2] == 0xff {
            Some(Format::JPEG)
        } else if buffer.len() >= 8 && buffer[0] == 0x89 && buffer[1] == 0x50 && buffer[2] == 0x4e
            && buffer[3] == 0x47 && buffer[4] == 0x0d && buffer[5] == 0x0a && buffer[6] == 0x1a
            && buffer[7] == 0x0a {
            Some(Format::PNG)
        } else if buffer.len() >= 12 && buffer[0] == 0x52 && buffer[1] == 0x49 && buffer[2] == 0x46
            && buffer[3] == 0x46 && buffer[8] == 0x57 && buffer[9] == 0x45 && buffer[10] == 0x42
            && buffer[11] == 0x50 {
            Some(Format::WEBP)
        } else {
            None
        }
    }

    /// Whether files of this format can carry an alpha channel.
    pub fn supports_transparency(&self) -> (r: bool)
        ensures
            r == (*self == Format::PNG || *self == Format::WEBP),
    {
        match self {
            Format::JPEG => false,
            Format::PNG => true,
            Format::WEBP => true,
        }
    }

    /// Whether this format's encoder takes a chroma subsampling parameter.
    pub fn supports_chroma_subsampling(&self) -> (r: bool)
        ensures
            r == (*self == Format::JPEG),
    {
        match self {
            Format::JPEG => true,
            Format::PNG => false,
            Format::WEBP => false,
        }
    }
}

/// The horizontal and vertical sampling factors that a JPEG encoder is given
/// for its three components under each chroma subsampling mode.
pub fn sampling_factors(cs: ChromaSubsampling) -> (r: [[u8; 2]; 3])
    ensures
        cs == ChromaSubsampling::_444 ==> r@ =~= seq![[1u8, 1u8], [1u8, 1u8], [1u8, 1u8]],
        cs == ChromaSubsampling::_422 ==> r@ =~= seq![[2u8, 1u8], [1u8, 1u8], [1u8, 1u8]],
        cs == ChromaSubsampling::_420 ==> r@ =~= seq![[2u8, 2u8], [1u8, 1u8], [1u8, 1u8]],
{
    match cs {
        ChromaSubsampling::_444 => [[1, 1], [1, 1], [1, 1]],
        ChromaSubsampling::_422 => [[2, 1], [1, 1], [1, 1]],
        ChromaSubsampling::_420 => [[2, 2], [1, 1], [1, 1]],
    }
}

} // verus!
