//! Perceptual image optimizer core: re-encodes an image at the smallest
//! quality setting whose perceptual dissimilarity from the original stays
//! close to a requested target.
//!
//! The crate holds the reasoning parts of that pipeline: the image model and
//! its color-space classification, format detection, the binary search over
//! codec quality (with the chroma-subsampling sweep and the lossless
//! fallback), reassembly of an embedded color profile from its container
//! segments, and the plan of filesystem actions that commits output
//! atomically. Codec calls, the perceptual metric and the actual I/O are
//! supplied from outside through the `Codec` and `Metric` traits and by a
//! driver that performs the planned filesystem actions.

pub mod format;
pub mod image;
pub mod profile;
pub mod options;
pub mod output;
pub mod search;
