//! The quality search: repeated encode, decode and compare cycles that
//! converge on the encoding whose perceptual dissimilarity from the
//! original is closest to a requested target.
//!
//! The encoders and the perceptual metric are injected through the
//! `Codec` and `Metric` traits; the search itself — the binary search over
//! quality, the sweep over chroma subsampling modes, the best-so-far
//! tracking and the lossless fallback — is the library's own and is
//! verified: the result is always the earliest tried encoding whose score
//! lies closest to the target, its quality never leaves the given bounds,
//! and each binary search performs at most seven trials.

use vstd::prelude::*;
use vstd::arithmetic::power2::*;
use crate::format::{ChromaSubsampling, ChromaSubsamplingOption};
use crate::image::Image;

verus! {

/// An encoder for one output format, with its decoder: what the search
/// treats as a black box. Implemented outside the library, once per
/// format.
pub trait Codec {
    /// Encodes `image` at `quality` under chroma subsampling `cs` and
    /// decodes the result again, returning the decoded image and the
    /// encoded bytes.
    fn compress(&self, image: &Image, quality: u8, cs: ChromaSubsampling) -> Result<
        (Image, Vec<u8>),
        String,
    >;

    /// Whether this format also offers a lossless encoding.
    fn has_lossless(&self) -> bool;

    /// Encodes `image` losslessly, returning the decoded image and the
    /// encoded bytes.
    fn compress_lossless(&self, image: &Image) -> Result<(Image, Vec<u8>), String>;
}

/// A perceptual metric fixed to one original image. Implemented outside
/// the library; scores are dissimilarities on a fixed integer scale where
/// 0 means identical and larger means more different.
pub trait Metric where Self: core::marker::Sized {
    /// Builds the metric's internal multi-scale representation of the
    /// original, or nothing when the image cannot be analyzed.
    fn new(original: &Image) -> Option<Self>;

    /// Scores a candidate against the original, or nothing when the
    /// candidate cannot be analyzed.
    fn compare(&self, candidate: &Image) -> Option<u64>;
}

/// One attempted lossy encoding: the quality and chroma subsampling mode
/// that were tried, the score the metric gave, and the encoded bytes.
pub struct Trial {
    pub quality: u8,
    pub cs: ChromaSubsampling,
    pub score: u64,
    pub buffer: Seq<u8>,
}

/// Whether every trial was made under mode `m`.
pub open spec fn trials_use_mode(ts: Seq<Trial>, m: ChromaSubsampling) -> bool {
    forall|i: int| 0 <= i < ts.len() ==> (#[trigger] ts[i]).cs == m
}

/// How far a score lies from the target.
pub open spec fn dist(score: u64, target: u64) -> int {
    if score >= target {
        score - target
    } else {
        target - score
    }
}

/// The position of the earliest trial whose score is closest to the
/// target: later trials replace it only when strictly closer.
pub open spec fn best_index(ts: Seq<Trial>, target: u64) -> int
    decreases ts.len(),
{
    if ts.len() <= 1 {
        0
    } else {
        let b = best_index(ts.drop_last(), target);
        if dist(ts.last().score, target) < dist(ts[b].score, target) {
            ts.len() - 1
        } else {
            b
        }
    }
}

pub proof fn lemma_best_index(ts: Seq<Trial>, target: u64)
    requires
        ts.len() > 0,
    ensures
        0 <= best_index(ts, target) < ts.len(),
        forall|j: int|
            0 <= j < ts.len() ==> dist((#[trigger] ts[j]).score, target) >= dist(
                ts[best_index(ts, target)].score,
                target,
            ),
        forall|j: int|
            0 <= j < best_index(ts, target) ==> dist((#[trigger] ts[j]).score, target) > dist(
                ts[best_index(ts, target)].score,
                target,
            ),
    decreases ts.len(),
{
    if ts.len() > 1 {
        lemma_best_index(ts.drop_last(), target);
        assert(forall|j: int| 0 <= j < ts.len() - 1 ==> ts.drop_last()[j] == ts[j]);
    }
}

/// What one lossy search hands back: the score and bytes of the best
/// trial, and (for the proofs) the whole trial sequence.
pub struct SearchOutcome {
    pub score: u64,
    pub buffer: Vec<u8>,
    pub trials: Ghost<Seq<Trial>>,
}

/// Whether an outcome is exactly the record of one finished search:
/// every trial within the quality bounds and under the requested mode,
/// and the result the earliest closest trial.
pub open spec fn outcome_ok(
    o: SearchOutcome,
    target: u64,
    min_quality: u8,
    max_quality: u8,
    max_trials: int,
    cs: ChromaSubsampling,
) -> bool {
    let ts = o.trials@;
    &&& 1 <= ts.len() <= max_trials
    &&& forall|i: int|
        0 <= i < ts.len() ==> min_quality <= (#[trigger] ts[i]).quality <= max_quality
    &&& trials_use_mode(ts, cs)
    &&& o.score == ts[best_index(ts, target)].score
    &&& o.buffer@ == ts[best_index(ts, target)].buffer
}

fn score_distance(score: u64, target: u64) -> (r: u64)
    ensures
        r as int == dist(score, target),
{
    if score >= target {
        score - target
    } else {
        target - score
    }
}

/// Binary search over quality for one chroma subsampling mode.
///
/// Each iteration encodes at the midpoint quality, scores the round-trip
/// against the original, and keeps the candidate whose score is strictly
/// closest to `target` so far. A score above the target raises the lower
/// bound, otherwise the upper bound falls; the loop ends when the bounds
/// cross (or at quality 0). At most seven trials happen, and the result
/// is the earliest trial whose score is closest to the target.
pub fn find_image<C: Codec, M: Metric>(
    image: &Image,
    attr: &M,
    codec: &C,
    target: u64,
    min_quality: u8,
    max_quality: u8,
    cs: ChromaSubsampling,
) -> (r: Result<SearchOutcome, String>)
    requires
        min_quality <= max_quality,
        max_quality <= 100,
    ensures
        r matches Ok(o) ==> outcome_ok(o, target, min_quality, max_quality, 7, cs),
{
    let mut min = min_quality;
    let mut max = max_quality;
    let mut best_score: u64 = 0;
    let mut best_buffer: Vec<u8> = Vec::new();
    let mut have_best = false;
    let ghost mut ts: Seq<Trial> = Seq::empty();
    proof {
        lemma2_to64();
        assert(pow2(0) == 1);
        assert((max + 1 - min) * pow2(ts.len() as nat) == max + 1 - min) by (nonlinear_arith)
            requires
                pow2(ts.len() as nat) == 1,
        ;
    }
    loop
        invariant_except_break
            min_quality <= max_quality,
            max_quality <= 100,
            min_quality <= min,
            max <= max_quality,
            min <= max,
            (max + 1 - min) * pow2(ts.len() as nat) <= 101,
            have_best <==> ts.len() > 0,
            ts.len() > 0 ==> {
                &&& best_score == ts[best_index(ts, target)].score
                &&& best_buffer@ == ts[best_index(ts, target)].buffer
            },
            forall|i: int|
                0 <= i < ts.len() ==> min_quality <= (#[trigger] ts[i]).quality <= max_quality,
            trials_use_mode(ts, cs),
        ensures
            1 <= ts.len() <= 7,
            best_score == ts[best_index(ts, target)].score,
            best_buffer@ == ts[best_index(ts, target)].buffer,
            forall|i: int|
                0 <= i < ts.len() ==> min_quality <= (#[trigger] ts[i]).quality <= max_quality,
            trials_use_mode(ts, cs),
        decreases max - min,
    {
        proof {
            lemma2_to64();
            // With at least one quality left, the width bound caps the
            // number of rounds made so far at six.
            assert(ts.len() <= 6) by {
                if ts.len() >= 7 {
                    lemma2_to64();
                    lemma_pow2_pos(ts.len() as nat);
                    if ts.len() > 7 {
                        lemma_pow2_strictly_increases(7, ts.len() as nat);
                    }
                    assert(pow2(ts.len() as nat) >= 128);
                    assert((max + 1 - min) * pow2(ts.len() as nat) >= pow2(ts.len() as nat)) by (nonlinear_arith)
                        requires
                            max + 1 - min >= 1,
                            pow2(ts.len() as nat) >= 0,
                    ;
                }
            }
        }
        // Quality bounds never exceed 100, so the sum cannot overflow.
        let quality = (min + max) / 2;
        let (compressed, buffer) = match codec.compress(image, quality, cs) {
            Ok(x) => x,
            Err(e) => {
                return Err(e);
            },
        };
        let score = match attr.compare(&compressed) {
            Some(s) => s,
            None => {
                return Err(String::from_str("Failed to calculate SSIM image"));
            },
        };
        let ghost old_ts = ts;
        proof {
            ts = ts.push(Trial { quality, cs, score, buffer: buffer@ });
            assert(ts.drop_last() =~= old_ts);
            assert(ts.last() == Trial { quality, cs, score, buffer: buffer@ });
            if old_ts.len() > 0 {
                lemma_best_index(old_ts, target);
            }
        }
        // Keep the candidate strictly closest to the target; ties keep
        // the earlier one.
        if !have_best || score_distance(score, target) < score_distance(best_score, target) {
            best_score = score;
            best_buffer = buffer;
            have_best = true;
        }
        proof {
            lemma_best_index(ts, target);
            assert(best_score == ts[best_index(ts, target)].score);
            assert(best_buffer@ == ts[best_index(ts, target)].buffer);
        }
        let ghost old_min = min;
        let ghost old_max = max;
        // Binary search step.
        if score > target {
            min = quality + 1;
        } else {
            // Scores are unreliable at the lowest qualities; stop rather
            // than stepping below quality 0.
            if quality == 0 {
                break ;
            }
            max = quality - 1;
        }
        if min > max {
            break ;
        }
        proof {
            lemma_pow2_unfold(ts.len() as nat);
            assert(pow2(ts.len() as nat) == 2 * pow2(old_ts.len() as nat));
            assert(2 * (max + 1 - min) <= old_max + 1 - old_min);
            assert((max + 1 - min) * pow2(ts.len() as nat) <= 101) by (nonlinear_arith)
                requires
                    2 * (max + 1 - min) <= old_max + 1 - old_min,
                    pow2(ts.len() as nat) == 2 * pow2(old_ts.len() as nat),
                    (old_max + 1 - old_min) * pow2(old_ts.len() as nat) <= 101,
                    pow2(old_ts.len() as nat) >= 0,
                    max + 1 - min >= 0,
            ;
        }
    }
    Ok(SearchOutcome { score: best_score, buffer: best_buffer, trials: Ghost(ts) })
}

proof fn lemma_best_index_concat(a: Seq<Trial>, b: Seq<Trial>, target: u64)
    requires
        a.len() > 0,
        b.len() > 0,
    ensures
        best_index(a + b, target) == if dist(b[best_index(b, target)].score, target) < dist(
            a[best_index(a, target)].score,
            target,
        ) {
            a.len() + best_index(b, target)
        } else {
            best_index(a, target)
        },
    decreases b.len(),
{
    lemma_best_index(a, target);
    lemma_best_index(b, target);
    if b.len() == 1 {
        assert((a + b).drop_last() =~= a);
        assert((a + b).last() == b[0]);
        assert((a + b)[a.len() as int] == b[0]);
        assert(forall|i: int| 0 <= i < a.len() ==> (a + b)[i] == a[i]);
    } else {
        let b0 = b.drop_last();
        lemma_best_index(b0, target);
        lemma_best_index_concat(a, b0, target);
        assert((a + b).drop_last() =~= a + b0);
        assert((a + b).last() == b.last());
        assert(forall|i: int| 0 <= i < a.len() ==> (a + b)[i] == a[i]);
        assert(forall|i: int| 0 <= i < b.len() ==> (a + b)[a.len() + i] == b[i]);
        assert(forall|i: int| 0 <= i < b0.len() ==> (a + b0)[a.len() + i] == b0[i]);
        assert(forall|i: int| 0 <= i < b0.len() ==> b0[i] == b[i]);
        assert(forall|i: int| 0 <= i < a.len() ==> (a + b0)[i] == a[i]);
    }
}

/// Joins the outcomes of two searches run one after the other: the later
/// result wins only when its score is strictly closer to the target.
fn merge_outcomes(a: SearchOutcome, b: SearchOutcome, target: u64) -> (r: SearchOutcome)
    requires
        a.trials@.len() > 0,
        b.trials@.len() > 0,
        a.score == a.trials@[best_index(a.trials@, target)].score,
        a.buffer@ == a.trials@[best_index(a.trials@, target)].buffer,
        b.score == b.trials@[best_index(b.trials@, target)].score,
        b.buffer@ == b.trials@[best_index(b.trials@, target)].buffer,
    ensures
        r.trials@ == a.trials@ + b.trials@,
        r.score == r.trials@[best_index(r.trials@, target)].score,
        r.buffer@ == r.trials@[best_index(r.trials@, target)].buffer,
{
    let ghost ts = a.trials@ + b.trials@;
    proof {
        lemma_best_index(a.trials@, target);
        lemma_best_index(b.trials@, target);
        lemma_best_index_concat(a.trials@, b.trials@, target);
        assert(forall|i: int| 0 <= i < a.trials@.len() ==> ts[i] == a.trials@[i]);
        assert(forall|i: int|
            0 <= i < b.trials@.len() ==> ts[a.trials@.len() + i] == b.trials@[i]);
    }
    let ad = score_distance(a.score, target);
    let bd = score_distance(b.score, target);
    if bd < ad {
        SearchOutcome { score: b.score, buffer: b.buffer, trials: Ghost(ts) }
    } else {
        SearchOutcome { score: a.score, buffer: a.buffer, trials: Ghost(ts) }
    }
}

/// What one whole conversion hands back: the chosen bytes, the trials of
/// every lossy search that ran, and — when a lossless encoding was tried —
/// its bytes.
pub struct CompressOutcome {
    pub buffer: Vec<u8>,
    pub trials: Ghost<Seq<Trial>>,
    pub lossless: Ghost<Option<Seq<u8>>>,
}

/// The shape the sweep leaves in the trial record. Under `Auto`, three
/// full searches ran back to back, in mode order 4:4:4, 4:2:2, 4:2:0,
/// each contributing one to seven trials; under `Manual(m)` one search
/// ran with every trial under `m`; under `Off` one search ran with every
/// trial under 4:4:4.
pub open spec fn sweep_shape(ts: Seq<Trial>, cs: ChromaSubsamplingOption) -> bool {
    match cs {
        ChromaSubsamplingOption::Auto => exists|a: int, b: int|
            #![trigger ts.subrange(a, b)]
            {
                &&& 0 < a < b < ts.len()
                &&& a <= 7
                &&& b - a <= 7
                &&& ts.len() - b <= 7
                &&& trials_use_mode(ts.subrange(0, a), ChromaSubsampling::_444)
                &&& trials_use_mode(ts.subrange(a, b), ChromaSubsampling::_422)
                &&& trials_use_mode(ts.subrange(b, ts.len() as int), ChromaSubsampling::_420)
            },
        ChromaSubsamplingOption::Manual(m) => ts.len() <= 7 && trials_use_mode(ts, m),
        ChromaSubsamplingOption::Off => ts.len() <= 7 && trials_use_mode(
            ts,
            ChromaSubsampling::_444,
        ),
    }
}

/// Whether a conversion result is exactly what the search rules promise:
/// the trial record has the shape of the requested mode sweep, and the
/// result is the best lossy trial's bytes, displaced by the lossless
/// encoding only when that is strictly smaller.
pub open spec fn compress_outcome_ok(
    o: CompressOutcome,
    target: u64,
    min_quality: u8,
    max_quality: u8,
    cs: ChromaSubsamplingOption,
) -> bool {
    let ts = o.trials@;
    let b = best_index(ts, target);
    &&& 1 <= ts.len() <= 21
    &&& forall|i: int|
        0 <= i < ts.len() ==> min_quality <= (#[trigger] ts[i]).quality <= max_quality
    &&& sweep_shape(ts, cs)
    &&& match o.lossless@ {
        Some(lb) => if lb.len() < ts[b].buffer.len() {
            o.buffer@ == lb
        } else {
            o.buffer@ == ts[b].buffer
        },
        None => o.buffer@ == ts[b].buffer,
    }
}

/// Runs the quality search for each chroma subsampling mode that the
/// option asks for, keeps the result closest to the target across all
/// modes (earlier modes win ties), and finally prefers a lossless
/// encoding if the codec offers one and it is strictly smaller.
pub fn compress_image<C: Codec, M: Metric>(
    image: Image,
    codec: &C,
    target: u64,
    min_quality: u8,
    max_quality: u8,
    cs: ChromaSubsamplingOption,
) -> (r: Result<CompressOutcome, String>)
    requires
        min_quality <= max_quality,
        max_quality <= 100,
    ensures
        r matches Ok(o) ==> compress_outcome_ok(o, target, min_quality, max_quality, cs),
{
    let attr = match M::new(&image) {
        Some(a) => a,
        None => {
            return Err(String::from_str("Failed to calculate SSIM image"));
        },
    };
    let best = match cs {
        ChromaSubsamplingOption::Auto => {
            let o1 = match find_image(
                &image,
                &attr,
                codec,
                target,
                min_quality,
                max_quality,
                ChromaSubsampling::_444,
            ) {
                Ok(o) => o,
                Err(e) => {
                    return Err(e);
                },
            };
            let o2 = match find_image(
                &image,
                &attr,
                codec,
                target,
                min_quality,
                max_quality,
                ChromaSubsampling::_422,
            ) {
                Ok(o) => o,
                Err(e) => {
                    return Err(e);
                },
            };
            let ghost t1 = o1.trials@;
            let ghost t2 = o2.trials@;
            let o12 = merge_outcomes(o1, o2, target);
            let o3 = match find_image(
                &image,
                &attr,
                codec,
                target,
                min_quality,
                max_quality,
                ChromaSubsampling::_420,
            ) {
                Ok(o) => o,
                Err(e) => {
                    return Err(e);
                },
            };
            let ghost t3 = o3.trials@;
            let merged = merge_outcomes(o12, o3, target);
            proof {
                // The record is the three searches back to back: one run
                // per mode, in sweep order.
                let ts = merged.trials@;
                let a = t1.len() as int;
                let b = a + t2.len() as int;
                assert(ts == (t1 + t2) + t3);
                assert(forall|i: int| 0 <= i < t1.len() ==> (t1 + t2)[i] == t1[i]);
                assert(forall|i: int| 0 <= i < t2.len() ==> (t1 + t2)[t1.len() + i] == t2[i]);
                assert(forall|i: int| 0 <= i < (t1 + t2).len() ==> ts[i] == (t1 + t2)[i]);
                assert(forall|i: int| 0 <= i < t3.len() ==> ts[(t1 + t2).len() + i] == t3[i]);
                assert(ts.subrange(0, a) =~= t1);
                assert(ts.subrange(a, b) =~= t2);
                assert(ts.subrange(b, ts.len() as int) =~= t3);
                assert(trials_use_mode(ts.subrange(0, a), ChromaSubsampling::_444));
                assert(trials_use_mode(ts.subrange(a, b), ChromaSubsampling::_422));
                assert(trials_use_mode(ts.subrange(b, ts.len() as int), ChromaSubsampling::_420));
                assert(sweep_shape(ts, ChromaSubsamplingOption::Auto));
            }
            merged
        },
        ChromaSubsamplingOption::Manual(s) => {
            let o = match find_image(&image, &attr, codec, target, min_quality, max_quality, s) {
                Ok(o) => o,
                Err(e) => {
                    return Err(e);
                },
            };
            proof {
                assert(sweep_shape(o.trials@, cs));
            }
            o
        },
        ChromaSubsamplingOption::Off => {
            let o = match find_image(
                &image,
                &attr,
                codec,
                target,
                min_quality,
                max_quality,
                ChromaSubsampling::_444,
            ) {
                Ok(o) => o,
                Err(e) => {
                    return Err(e);
                },
            };
            proof {
                assert(sweep_shape(o.trials@, cs));
            }
            o
        },
    };
    proof {
        lemma_best_index(best.trials@, target);
    }
    // Lossless fallback: no quality parameter, so a single attempt; it
    // displaces the lossy result only when strictly smaller.
    if codec.has_lossless() {
        match codec.compress_lossless(&image) {
            Ok(pair) => {
                let lossless_buffer = pair.1;
                if lossless_buffer.len() < best.buffer.len() {
                    return Ok(
                        CompressOutcome {
                            trials: best.trials,
                            lossless: Ghost(Some(lossless_buffer@)),
                            buffer: lossless_buffer,
                        },
                    );
                } else {
                    return Ok(
                        CompressOutcome {
                            buffer: best.buffer,
                            trials: best.trials,
                            lossless: Ghost(Some(lossless_buffer@)),
                        },
                    );
                }
            },
            Err(e) => {
                return Err(e);
            },
        }
    }
    Ok(CompressOutcome { buffer: best.buffer, trials: best.trials, lossless: Ghost(None) })
}

} // verus!
