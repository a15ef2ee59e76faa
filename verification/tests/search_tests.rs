use std::cell::Cell;

use pio::format::{ChromaSubsampling, ChromaSubsamplingOption};
use pio::image::{Image, Rgba};
use pio::search::{compress_image, find_image, Codec, Metric};

fn cs_id(cs: ChromaSubsampling) -> u8 {
    match cs {
        ChromaSubsampling::_444 => 0,
        ChromaSubsampling::_422 => 1,
        ChromaSubsampling::_420 => 2,
    }
}

fn one_pixel(r: u8, g: u8) -> Image {
    Image::from_rgba(vec![Rgba { r, g, b: 0, a: 255 }], 1, 1)
}

/// A codec whose round-trip embeds the tried quality and mode in the
/// decoded image, so the metric can score it deterministically.
struct TableCodec {
    calls: Cell<u32>,
    lossless: Option<Vec<u8>>,
    fail: bool,
}

impl TableCodec {
    fn lossy() -> Self {
        TableCodec { calls: Cell::new(0), lossless: None, fail: false }
    }
}

impl Codec for TableCodec {
    fn compress(
        &self,
        _image: &Image,
        quality: u8,
        cs: ChromaSubsampling,
    ) -> Result<(Image, Vec<u8>), String> {
        self.calls.set(self.calls.get() + 1);
        if self.fail {
            return Err("encoder exploded".to_string());
        }
        Ok((one_pixel(quality, cs_id(cs)), vec![quality, cs_id(cs)]))
    }

    fn has_lossless(&self) -> bool {
        self.lossless.is_some()
    }

    fn compress_lossless(&self, _image: &Image) -> Result<(Image, Vec<u8>), String> {
        Ok((one_pixel(100, 0), self.lossless.clone().unwrap()))
    }
}

/// Scores a candidate from the quality its pixel carries: dissimilarity
/// falls by 1,000,000 per quality step, so quality 100 scores 0.
struct LinearMetric;

impl Metric for LinearMetric {
    fn new(_original: &Image) -> Option<Self> {
        Some(LinearMetric)
    }

    fn compare(&self, candidate: &Image) -> Option<u64> {
        let q = candidate.data[0].r as u64;
        Some((100 - q) * 1_000_000)
    }
}

/// A metric that refuses to analyze anything.
struct BrokenMetric;

impl Metric for BrokenMetric {
    fn new(_original: &Image) -> Option<Self> {
        None
    }

    fn compare(&self, _candidate: &Image) -> Option<u64> {
        None
    }
}

#[test]
fn search_returns_quality_closest_to_target() {
    // Target 0.01 on the metric's scale; quality 90 hits it exactly.
    let codec = TableCodec::lossy();
    let metric = LinearMetric;
    let image = one_pixel(0, 0);
    let outcome = find_image(
        &image,
        &metric,
        &codec,
        10_000_000,
        40,
        95,
        ChromaSubsampling::_444,
    )
    .unwrap();
    assert_eq!(outcome.score, 10_000_000);
    assert_eq!(outcome.buffer, vec![90, 0]);
}

#[test]
fn search_stays_within_bounds_and_seven_trials() {
    let codec = TableCodec::lossy();
    let metric = LinearMetric;
    let image = one_pixel(0, 0);
    let outcome = find_image(&image, &metric, &codec, 0, 0, 100, ChromaSubsampling::_420)
        .unwrap();
    // The target 0 wants the highest quality; every tried quality stays
    // in 0..=100 and at most seven compress calls happen.
    assert!(codec.calls.get() <= 7);
    assert_eq!(outcome.buffer[0], 100);
    assert_eq!(outcome.score, 0);
}

#[test]
fn search_single_quality_range() {
    let codec = TableCodec::lossy();
    let metric = LinearMetric;
    let image = one_pixel(0, 0);
    let outcome = find_image(
        &image,
        &metric,
        &codec,
        123,
        55,
        55,
        ChromaSubsampling::_422,
    )
    .unwrap();
    assert_eq!(codec.calls.get(), 1);
    assert_eq!(outcome.buffer, vec![55, 1]);
}

#[test]
fn search_propagates_codec_failure() {
    let codec = TableCodec { calls: Cell::new(0), lossless: None, fail: true };
    let metric = LinearMetric;
    let image = one_pixel(0, 0);
    let err = match find_image(&image, &metric, &codec, 0, 0, 100, ChromaSubsampling::_444) {
        Err(e) => e,
        Ok(_) => panic!("expected the codec failure to propagate"),
    };
    assert_eq!(err, "encoder exploded");
}

#[test]
fn compress_image_fails_when_metric_cannot_start() {
    let codec = TableCodec::lossy();
    let image = one_pixel(0, 0);
    let err = match compress_image::<TableCodec, BrokenMetric>(
        image,
        &codec,
        0,
        0,
        100,
        ChromaSubsamplingOption::Off,
    ) {
        Err(e) => e,
        Ok(_) => panic!("expected the metric failure to propagate"),
    };
    assert_eq!(err, "Failed to calculate SSIM image");
}

#[test]
fn compress_image_runs_one_search_per_mode() {
    let codec = TableCodec::lossy();
    let image = one_pixel(0, 0);
    let outcome = compress_image::<TableCodec, LinearMetric>(
        image,
        &codec,
        10_000_000,
        40,
        95,
        ChromaSubsamplingOption::Auto,
    )
    .unwrap();
    // Three independent binary searches, at most seven trials each.
    assert!(codec.calls.get() <= 21);
    assert!(codec.calls.get() >= 3);
    // All modes score alike here, so the earliest mode's best is kept.
    assert_eq!(outcome.buffer, vec![90, 0]);
}

#[test]
fn compress_image_manual_mode_searches_once() {
    let codec = TableCodec::lossy();
    let image = one_pixel(0, 0);
    let outcome = compress_image::<TableCodec, LinearMetric>(
        image,
        &codec,
        10_000_000,
        40,
        95,
        ChromaSubsamplingOption::Manual(ChromaSubsampling::_420),
    )
    .unwrap();
    assert!(codec.calls.get() <= 7);
    assert_eq!(outcome.buffer, vec![90, 2]);
}

#[test]
fn lossless_wins_when_smaller() {
    let codec = TableCodec {
        calls: Cell::new(0),
        lossless: Some(vec![7]),
        fail: false,
    };
    let image = one_pixel(0, 0);
    let outcome = compress_image::<TableCodec, LinearMetric>(
        image,
        &codec,
        10_000_000,
        40,
        95,
        ChromaSubsamplingOption::Off,
    )
    .unwrap();
    // One byte beats the two-byte lossy buffer regardless of its score.
    assert_eq!(outcome.buffer, vec![7]);
}

#[test]
fn lossless_loses_when_not_smaller() {
    let codec = TableCodec {
        calls: Cell::new(0),
        lossless: Some(vec![9, 9, 9]),
        fail: false,
    };
    let image = one_pixel(0, 0);
    let outcome = compress_image::<TableCodec, LinearMetric>(
        image,
        &codec,
        10_000_000,
        40,
        95,
        ChromaSubsamplingOption::Off,
    )
    .unwrap();
    assert_eq!(outcome.buffer, vec![90, 0]);
}
