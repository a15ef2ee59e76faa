//! In-memory image model: a pixel buffer with a color-space classification
//! that is computed from the pixels when the image is built.

use vstd::prelude::*;
use crate::format::ColorSpace;

verus! {

/// One pixel without transparency.
#[derive(Clone, Copy, PartialEq, Eq, Structural, Debug)]
pub struct Rgb {
    pub r: u8,
    pub g: u8,
    pub b: u8,
}

/// One pixel with an alpha channel; 255 is fully opaque.
#[derive(Clone, Copy, PartialEq, Eq, Structural, Debug)]
pub struct Rgba {
    pub r: u8,
    pub g: u8,
    pub b: u8,
    pub a: u8,
}

/// Absolute difference of two channel values.
pub open spec fn spec_distance(a: u8, b: u8) -> u8 {
    if a < b {
        (b - a) as u8
    } else {
        (a - b) as u8
    }
}

/// Absolute difference of two channel values.
pub fn distance(a: u8, b: u8) -> (r: u8)
    ensures
        r == spec_distance(a, b),
{
    if a < b {
        b - a
    } else {
        a - b
    }
}

/// A color counts as gray when its channels are mutually within a tolerance
/// of 1.
pub open spec fn spec_is_gray(color: Rgb) -> bool {
    &&& spec_distance(color.r, color.g) <= 1
    &&& spec_distance(color.g, color.b) <= 1
    &&& spec_distance(color.r, color.b) <= 1
}

/// A color counts as gray when its channels are mutually within a tolerance
/// of 1.
pub fn is_gray(color: Rgb) -> (r: bool)
    ensures
        r == spec_is_gray(color),
{
    distance(color.r, color.g) <= 1 && distance(color.g, color.b) <= 1 && distance(
        color.r,
        color.b,
    ) <= 1
}

/// The color part of a pixel, alpha dropped.
pub open spec fn rgb_of(p: Rgba) -> Rgb {
    Rgb { r: p.r, g: p.g, b: p.b }
}

/// Whether some pixel fails the gray test.
pub open spec fn has_color(data: Seq<Rgba>) -> bool {
    exists|i: int| 0 <= i < data.len() && !spec_is_gray(rgb_of(#[trigger] data[i]))
}

/// Whether some pixel is not fully opaque.
pub open spec fn has_alpha(data: Seq<Rgba>) -> bool {
    exists|i: int| 0 <= i < data.len() && (#[trigger] data[i]).a < 255
}

/// The classification an image of these pixels receives when it is built.
pub open spec fn classify(data: Seq<Rgba>) -> ColorSpace {
    if has_color(data) {
        if has_alpha(data) {
            ColorSpace::RGBA
        } else {
            ColorSpace::RGB
        }
    } else {
        if has_alpha(data) {
            ColorSpace::GrayAlpha
        } else {
            ColorSpace::Gray
        }
    }
}

/// A width x height pixel buffer together with the classification of its
/// pixels. The classification is descriptive metadata fixed at construction:
/// every constructor establishes `wf`.
pub struct Image {
    pub width: usize,
    pub height: usize,
    pub data: Vec<Rgba>,
    pub color_space: ColorSpace,
}

impl Image {
    /// The classification always describes the pixels.
    pub open spec fn wf(&self) -> bool {
        self.color_space == classify(self.data@)
    }

    /// Builds an image from pixels with alpha, scanning them once for the
    /// classification.
    pub fn from_rgba(data: Vec<Rgba>, width: usize, height: usize) -> (r: Self)
        ensures
            r.width == width,
            r.height == height,
            r.data@ == data@,
            r.wf(),
    {
        let mut found_color = false;
        let mut found_alpha = false;
        let mut i: usize = 0;
        while i < data.len()
            invariant
                i <= data.len(),
                found_color == exists|j: int|
                    0 <= j < i && !spec_is_gray(rgb_of(#[trigger] data@[j])),
                found_alpha == exists|j: int| 0 <= j < i && (#[trigger] data@[j]).a < 255,
            decreases data.len() - i,
        {
            let p = data[i];
            if !is_gray(Rgb { r: p.r, g: p.g, b: p.b }) {
                found_color = true;
            }
            if p.a < 255 {
                found_alpha = true;
            }
            i = i + 1;
        }
        let color_space = if found_color {
            if found_alpha {
                ColorSpace::RGBA
            } else {
                ColorSpace::RGB
            }
        } else {
            if found_alpha {
                ColorSpace::GrayAlpha
            } else {
                ColorSpace::Gray
            }
        };
        Image { width, height, data, color_space }
    }

    /// Builds an image from opaque pixels; alpha becomes 255 everywhere.
    pub fn from_rgb(data: Vec<Rgb>, width: usize, height: usize) -> (r: Self)
        ensures
            r.width == width,
            r.height == height,
            r.data@.len() == data@.len(),
            forall|i: int|
                0 <= i < data@.len() ==> #[trigger] r.data@[i] == (Rgba {
                    r: data@[i].r,
                    g: data@[i].g,
                    b: data@[i].b,
                    a: 255u8,
                }),
            r.wf(),
    {
        let mut pixels: Vec<Rgba> = Vec::new();
        let mut i: usize = 0;
        while i < data.len()
            invariant
                i <= data.len(),
                pixels@.len() == i,
                forall|j: int|
                    0 <= j < i ==> #[trigger] pixels@[j] == (Rgba {
                        r: data@[j].r,
                        g: data@[j].g,
                        b: data@[j].b,
                        a: 255u8,
                    }),
            decreases data.len() - i,
        {
            let c = data[i];
            pixels.push(Rgba { r: c.r, g: c.g, b: c.b, a: 255 });
            i = i + 1;
        }
        Self::from_rgba(pixels, width, height)
    }

    /// Builds a gray image from single-channel values; each value fills all
    /// three color channels of its pixel.
    pub fn from_gray(data: Vec<u8>, width: usize, height: usize) -> (r: Self)
        ensures
            r.width == width,
            r.height == height,
            r.data@.len() == data@.len(),
            forall|i: int|
                0 <= i < data@.len() ==> #[trigger] r.data@[i] == (Rgba {
                    r: data@[i],
                    g: data@[i],
                    b: data@[i],
                    a: 255u8,
                }),
            r.color_space == ColorSpace::Gray,
            r.wf(),
    {
        let mut pixels: Vec<Rgba> = Vec::new();
        let mut i: usize = 0;
        while i < data.len()
            invariant
                i <= data.len(),
                pixels@.len() == i,
                forall|j: int|
                    0 <= j < i ==> #[trigger] pixels@[j] == (Rgba {
                        r: data@[j],
                        g: data@[j],
                        b: data@[j],
                        a: 255u8,
                    }),
            decreases data.len() - i,
        {
            let g = data[i];
            pixels.push(Rgba { r: g, g: g, b: g, a: 255 });
            i = i + 1;
        }
        let r = Self::from_rgba(pixels, width, height);
        proof {
            assert(!has_color(r.data@));
            assert(!has_alpha(r.data@));
        }
        r
    }

    /// The single-channel projection an encoder gets for a gray image: the
    /// green channel of each pixel.
    pub fn to_gray(&self) -> (r: Vec<u8>)
        ensures
            r@.len() == self.data@.len(),
            forall|i: int| 0 <= i < r@.len() ==> r@[i] == (#[trigger] self.data@[i]).g,
    {
        let mut out: Vec<u8> = Vec::new();
        let mut i: usize = 0;
        while i < self.data.len()
            invariant
                i <= self.data@.len(),
                out@.len() == i,
                forall|j: int| 0 <= j < i ==> out@[j] == (#[trigger] self.data@[j]).g,
            decreases self.data@.len() - i,
        {
            out.push(self.data[i].g);
            i = i + 1;
        }
        out
    }

    /// The pixel buffer flattened to bytes, four per pixel in r, g, b, a
    /// order.
    pub fn as_bytes(&self) -> (r: Vec<u8>)
        ensures
            r@.len() == 4 * self.data@.len(),
            forall|i: int|
                0 <= i < self.data@.len() ==> r@[4 * i] == (#[trigger] self.data@[i]).r && r@[4 * i
                    + 1] == self.data@[i].g && r@[4 * i + 2] == self.data@[i].b && r@[4 * i + 3]
                    == self.data@[i].a,
    {
        let mut out: Vec<u8> = Vec::new();
        let mut i: usize = 0;
        while i < self.data.len()
            invariant
                i <= self.data@.len(),
                out@.len() == 4 * i,
                forall|j: int|
                    0 <= j < i ==> out@[4 * j] == (#[trigger] self.data@[j]).r && out@[4 * j + 1]
                        == self.data@[j].g && out@[4 * j + 2] == self.data@[j].b && out@[4 * j + 3]
                        == self.data@[j].a,
            decreases self.data@.len() - i,
        {
            let p = self.data[i];
            out.push(p.r);
            out.push(p.g);
            out.push(p.b);
            out.push(p.a);
            i = i + 1;
        }
        out
    }
}

/// The flip or rotation that undoes a stored Exif orientation, to be
/// performed on the pixel grid by the caller.
#[derive(Clone, Copy, PartialEq, Eq, Structural, Debug)]
pub enum ExifTransform {
    Identity,
    FlipHorizontal,
    Rotate180,
    FlipVertical,
    Rotate90FlipHorizontal,
    Rotate90,
    Rotate90FlipVertical,
    Rotate270,
}

/// The transform each Exif orientation value 1..=8 calls for; other
/// values name no orientation.
pub open spec fn spec_orientation_transform(orientation: u32) -> Option<ExifTransform> {
    if orientation == 1 {
        Some(ExifTransform::Identity)
    } else if orientation == 2 {
        Some(ExifTransform::FlipHorizontal)
    } else if orientation == 3 {
        Some(ExifTransform::Rotate180)
    } else if orientation == 4 {
        Some(ExifTransform::FlipVertical)
    } else if orientation == 5 {
        Some(ExifTransform::Rotate90FlipHorizontal)
    } else if orientation == 6 {
        Some(ExifTransform::Rotate90)
    } else if orientation == 7 {
        Some(ExifTransform::Rotate90FlipVertical)
    } else if orientation == 8 {
        Some(ExifTransform::Rotate270)
    } else {
        None
    }
}

/// Decides from an Exif orientation value which transform undoes it.
pub fn orientation_transform(orientation: u32) -> (r: Option<ExifTransform>)
    ensures
        r == spec_orientation_transform(orientation),
{
    match orientation {
        1 => Some(ExifTransform::Identity),
        2 => Some(ExifTransform::FlipHorizontal),
        3 => Some(ExifTransform::Rotate180),
        4 => Some(ExifTransform::FlipVertical),
        5 => Some(ExifTransform::Rotate90FlipHorizontal),
        6 => Some(ExifTransform::Rotate90),
        7 => Some(ExifTransform::Rotate90FlipVertical),
        8 => Some(ExifTransform::Rotate270),
        _ => None,
    }
}

impl ExifTransform {
    /// Whether the transform contains a quarter turn, so that the
    /// transformed image's width and height are the original's swapped.
    pub fn swaps_dimensions(&self) -> (r: bool)
        ensures
            r == (*self == ExifTransform::Rotate90FlipHorizontal || *self == ExifTransform::Rotate90
                || *self == ExifTransform::Rotate90FlipVertical || *self
                == ExifTransform::Rotate270),
    {
        match self {
            ExifTransform::Rotate90FlipHorizontal => true,
            ExifTransform::Rotate90 => true,
            ExifTransform::Rotate90FlipVertical => true,
            ExifTransform::Rotate270 => true,
            _ => false,
        }
    }
}

/// Expands quantized palette indices back into pixels: entry `i` of the
/// result is the palette color that index `i` names. Nothing is returned
/// when an index points past the palette.
pub fn apply_palette(palette: &Vec<Rgba>, pixels: &Vec<u8>) -> (r: Option<Vec<Rgba>>)
    ensures
        match r {
            Some(v) => {
                &&& v@.len() == pixels@.len()
                &&& forall|i: int|
                    0 <= i < pixels@.len() ==> ((#[trigger] pixels@[i]) as int) < palette@.len()
                &&& forall|i: int|
                    0 <= i < pixels@.len() ==> #[trigger] v@[i] == palette@[pixels@[i] as int]
            },
            None => exists|i: int|
                0 <= i < pixels@.len() && ((#[trigger] pixels@[i]) as int) >= palette@.len(),
        },
{
    let mut out: Vec<Rgba> = Vec::new();
    let mut i: usize = 0;
    while i < pixels.len()
        invariant
            i <= pixels@.len(),
            out@.len() == i,
            forall|j: int| 0 <= j < i ==> ((#[trigger] pixels@[j]) as int) < palette@.len(),
            forall|j: int| 0 <= j < i ==> #[trigger] out@[j] == palette@[pixels@[j] as int],
        decreases pixels@.len() - i,
    {
        let idx = pixels[i] as usize;
        if idx >= palette.len() {
            return None;
        }
        out.push(palette[idx]);
        i = i + 1;
    }
    Some(out)
}

} // verus!
