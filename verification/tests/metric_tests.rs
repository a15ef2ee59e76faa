use std::cell::RefCell;

use dssim_core::{Dssim, DssimImage};
use pio::format::ChromaSubsampling;
use pio::image::{Image, Rgba};
use pio::search::{find_image, Codec, Metric};

/// The scale on which the search's integer scores live: one unit of
/// dissimilarity is one billion score units.
const SCORE_SCALE: f64 = 1_000_000_000.0;

fn gradient_image(width: usize, height: usize) -> Image {
    let mut data = Vec::new();
    for y in 0..height {
        for x in 0..width {
            data.push(Rgba {
                r: (x * 7 % 256) as u8,
                g: (y * 5 % 256) as u8,
                b: ((x + y) * 3 % 256) as u8,
                a: 255,
            });
        }
    }
    Image::from_rgba(data, width, height)
}

fn dssim_image(attr: &Dssim, image: &Image) -> Option<DssimImage<f32>> {
    let pixels: Vec<rgb::RGBA<u8>> = image
        .data
        .iter()
        .map(|p| rgb::RGBA { r: p.r, g: p.g, b: p.b, a: p.a })
        .collect();
    attr.create_image_rgba(&pixels, image.width, image.height)
}

/// The perceptual metric the conversion uses, scoring against a fixed
/// original and logging every score it hands out.
struct PerceptualMetric {
    attr: Dssim,
    original: DssimImage<f32>,
    log: RefCell<Vec<u64>>,
}

impl PerceptualMetric {
    fn build(original: &Image) -> Self {
        let attr = Dssim::new();
        let original = dssim_image(&attr, original).unwrap();
        PerceptualMetric { attr, original, log: RefCell::new(Vec::new()) }
    }
}

impl Metric for PerceptualMetric {
    fn new(original: &Image) -> Option<Self> {
        Some(PerceptualMetric::build(original))
    }

    fn compare(&self, candidate: &Image) -> Option<u64> {
        let candidate = dssim_image(&self.attr, candidate)?;
        let (dssim, _maps) = self.attr.compare(&self.original, candidate);
        let d: f64 = dssim.into();
        let score = (d * SCORE_SCALE).round() as u64;
        self.log.borrow_mut().push(score);
        Some(score)
    }
}

#[test]
fn identical_images_have_dissimilarity_zero() {
    let image = gradient_image(32, 32);
    let metric = PerceptualMetric::build(&image);
    let score = Metric::compare(&metric, &image).unwrap();
    // An exact copy of the original scores 0 within floating-point
    // tolerance; on the integer scale that is under one millionth of a
    // dissimilarity unit.
    assert!(score < 1_000);
}

/// A deterministic stand-in encoder: the lower the quality, the further
/// every channel is pulled toward mid gray. The buffer records the
/// quality it was made with.
struct FadeCodec;

impl Codec for FadeCodec {
    fn compress(
        &self,
        image: &Image,
        quality: u8,
        _cs: ChromaSubsampling,
    ) -> Result<(Image, Vec<u8>), String> {
        let fade = (100 - quality) as i32;
        let data: Vec<Rgba> = image
            .data
            .iter()
            .map(|p| Rgba {
                r: (p.r as i32 + (128 - p.r as i32) * fade / 100) as u8,
                g: (p.g as i32 + (128 - p.g as i32) * fade / 100) as u8,
                b: (p.b as i32 + (128 - p.b as i32) * fade / 100) as u8,
                a: p.a,
            })
            .collect();
        Ok((
            Image::from_rgba(data, image.width, image.height),
            vec![quality],
        ))
    }

    fn has_lossless(&self) -> bool {
        false
    }

    fn compress_lossless(&self, _image: &Image) -> Result<(Image, Vec<u8>), String> {
        Err("no lossless encoding".to_string())
    }
}

#[test]
fn search_with_real_metric_returns_closest_tried_score() {
    let image = gradient_image(32, 32);
    let metric = PerceptualMetric::build(&image);
    let codec = FadeCodec;
    // Target a dissimilarity of 0.01 between quality 40 and 95.
    let target: u64 = 10_000_000;
    let outcome = find_image(&image, &metric, &codec, target, 40, 95, ChromaSubsampling::_444)
        .unwrap();
    let log = metric.log.borrow();
    assert!(!log.is_empty() && log.len() <= 7);
    // The returned score was actually seen, and no tried score lies
    // closer to the target.
    assert!(log.contains(&outcome.score));
    let d = |s: u64| if s > target { s - target } else { target - s };
    for s in log.iter() {
        assert!(d(*s) >= d(outcome.score));
    }
    // The winning quality never leaves the requested bounds.
    let quality = outcome.buffer[0];
    assert!((40..=95).contains(&quality));
}
