use pio::format::ColorSpace;
use pio::image::{
    apply_palette, distance, is_gray, orientation_transform, ExifTransform, Image, Rgb, Rgba,
};

fn px(r: u8, g: u8, b: u8, a: u8) -> Rgba {
    Rgba { r, g, b, a }
}

#[test]
fn distance_is_absolute_difference() {
    assert_eq!(distance(3, 10), 7);
    assert_eq!(distance(10, 3), 7);
    assert_eq!(distance(5, 5), 0);
    assert_eq!(distance(0, 255), 255);
}

#[test]
fn gray_tolerates_mutual_channel_distance_of_one() {
    assert!(is_gray(Rgb { r: 10, g: 10, b: 10 }));
    assert!(is_gray(Rgb { r: 10, g: 11, b: 11 }));
    assert!(is_gray(Rgb { r: 11, g: 10, b: 11 }));
    // Neighbors within 1 of each other do not suffice: every pair of
    // channels must be within 1, and here r and b differ by 2.
    assert!(!is_gray(Rgb { r: 10, g: 11, b: 12 }));
    assert!(!is_gray(Rgb { r: 10, g: 12, b: 12 }));
    assert!(!is_gray(Rgb { r: 200, g: 100, b: 50 }));
}

#[test]
fn classification_gray() {
    let img = Image::from_rgba(vec![px(7, 7, 7, 255), px(8, 9, 9, 255)], 2, 1);
    assert_eq!(img.color_space, ColorSpace::Gray);
}

#[test]
fn classification_is_colored_when_outer_channels_differ_by_two() {
    let img = Image::from_rgba(vec![px(0, 1, 2, 255)], 1, 1);
    assert_eq!(img.color_space, ColorSpace::RGB);
}

#[test]
fn classification_gray_alpha() {
    let img = Image::from_rgba(vec![px(7, 7, 7, 255), px(7, 7, 7, 128)], 2, 1);
    assert_eq!(img.color_space, ColorSpace::GrayAlpha);
}

#[test]
fn classification_rgb() {
    let img = Image::from_rgba(vec![px(7, 7, 7, 255), px(200, 10, 10, 255)], 2, 1);
    assert_eq!(img.color_space, ColorSpace::RGB);
}

#[test]
fn classification_rgba() {
    let img = Image::from_rgba(vec![px(200, 10, 10, 200)], 1, 1);
    assert_eq!(img.color_space, ColorSpace::RGBA);
}

#[test]
fn classification_empty_image_is_gray() {
    let img = Image::from_rgba(vec![], 0, 0);
    assert_eq!(img.color_space, ColorSpace::Gray);
}

#[test]
fn from_rgb_is_opaque() {
    let img = Image::from_rgb(vec![Rgb { r: 1, g: 2, b: 200 }], 1, 1);
    assert_eq!(img.color_space, ColorSpace::RGB);
    assert_eq!(img.data, vec![px(1, 2, 200, 255)]);
}

#[test]
fn from_gray_fills_all_channels() {
    let img = Image::from_gray(vec![0, 128, 255], 3, 1);
    assert_eq!(img.color_space, ColorSpace::Gray);
    assert_eq!(
        img.data,
        vec![px(0, 0, 0, 255), px(128, 128, 128, 255), px(255, 255, 255, 255)]
    );
}

#[test]
fn to_gray_takes_green_channel() {
    let img = Image::from_rgba(vec![px(1, 2, 3, 255), px(9, 8, 7, 255)], 2, 1);
    assert_eq!(img.to_gray(), vec![2, 8]);
}

#[test]
fn as_bytes_flattens_pixels() {
    let img = Image::from_rgba(vec![px(1, 2, 3, 4), px(5, 6, 7, 8)], 2, 1);
    assert_eq!(img.as_bytes(), vec![1, 2, 3, 4, 5, 6, 7, 8]);
}

#[test]
fn palette_expansion() {
    let palette = vec![px(0, 0, 0, 255), px(255, 0, 0, 255)];
    let pixels = vec![0, 1, 1, 0];
    let out = apply_palette(&palette, &pixels).unwrap();
    assert_eq!(
        out,
        vec![px(0, 0, 0, 255), px(255, 0, 0, 255), px(255, 0, 0, 255), px(0, 0, 0, 255)]
    );
}

#[test]
fn palette_rejects_out_of_range_index() {
    let palette = vec![px(0, 0, 0, 255)];
    let pixels = vec![0, 1];
    assert!(apply_palette(&palette, &pixels).is_none());
}

#[test]
fn orientation_values_map_to_transforms() {
    assert_eq!(orientation_transform(1), Some(ExifTransform::Identity));
    assert_eq!(orientation_transform(2), Some(ExifTransform::FlipHorizontal));
    assert_eq!(orientation_transform(3), Some(ExifTransform::Rotate180));
    assert_eq!(orientation_transform(4), Some(ExifTransform::FlipVertical));
    assert_eq!(orientation_transform(5), Some(ExifTransform::Rotate90FlipHorizontal));
    assert_eq!(orientation_transform(6), Some(ExifTransform::Rotate90));
    assert_eq!(orientation_transform(7), Some(ExifTransform::Rotate90FlipVertical));
    assert_eq!(orientation_transform(8), Some(ExifTransform::Rotate270));
    assert_eq!(orientation_transform(0), None);
    assert_eq!(orientation_transform(9), None);
}

#[test]
fn quarter_turns_swap_dimensions() {
    assert!(!ExifTransform::Identity.swaps_dimensions());
    assert!(!ExifTransform::FlipHorizontal.swaps_dimensions());
    assert!(!ExifTransform::Rotate180.swaps_dimensions());
    assert!(!ExifTransform::FlipVertical.swaps_dimensions());
    assert!(ExifTransform::Rotate90FlipHorizontal.swaps_dimensions());
    assert!(ExifTransform::Rotate90.swaps_dimensions());
    assert!(ExifTransform::Rotate90FlipVertical.swaps_dimensions());
    assert!(ExifTransform::Rotate270.swaps_dimensions());
}
