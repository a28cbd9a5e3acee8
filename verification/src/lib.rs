//! A color quantization engine: extracts the `k` most dominant colors of a
//! decoded image as a ranked histogram.
//!
//! The pipeline samples every pixel, maps it into a perceptually uniform
//! fixed-point color space, clusters the samples by repeated seeded k-means
//! trials, ranks the resulting palette by population share, and renders each
//! entry as an RGB triplet with its `#rrggbb` string and its exact share
//! `count / total`. The engine is pure and deterministic: the host decodes
//! the image and hands in the raw pixel buffer; every result is pinned to a
//! mathematical function of the inputs.

pub mod color;
pub mod kmeans;
pub mod rank;

use vstd::prelude::*;
use crate::color::{ColorSample, RgbTuple, to_uniform, to_uniform_spec};
use crate::kmeans::{MAX_K, MAX_SAMPLES, best_trial, cluster};
use crate::rank::{
    PaletteEntry, RankedColor, entries_match, format_entries, lemma_sum_counts_pointwise,
    rank_clusters, records_of, sort_ranked, sum_entry_counts,
};

verus! {

/// Why an invocation was rejected. Degenerate (empty) clusters are not an
/// error: they are reported with share zero.
#[derive(Clone, Copy, PartialEq, Eq, Structural, Debug)]
pub enum EngineError {
    /// The pixel buffer holds zero pixels.
    EmptyImage,
    /// `k`, `runs` or `max_iter` is zero.
    InvalidParameter,
}

/// Adds two machine integers; the caller rules out overflow.
pub fn add(a: i32, b: i32) -> (r: i32)
    requires
        i32::MIN <= a + b <= i32::MAX,
    ensures
        r == a + b,
{
    a + b
}

/// The pixels of a packed RGB buffer, in row-major scan order.
pub open spec fn pixels_spec(data: Seq<u8>) -> Seq<RgbTuple> {
    Seq::new(
        data.len() / 3,
        |i: int| RgbTuple { r: data[3 * i], g: data[3 * i + 1], b: data[3 * i + 2] },
    )
}

/// The uniform-space samples of a packed RGB buffer, one per pixel.
pub open spec fn samples_spec(data: Seq<u8>) -> Seq<ColorSample> {
    Seq::new(data.len() / 3, |i: int| to_uniform_spec(pixels_spec(data)[i]))
}

/// The ranked palette of a packed RGB buffer under the given parameters:
/// the records of the best of `runs` seeded k-means trials, ordered by
/// descending share with ties in ascending centroid order.
pub open spec fn palette_spec(
    data: Seq<u8>,
    k: nat,
    runs: nat,
    max_iter: nat,
    thr: int,
    seed: u64,
) -> Seq<RankedColor> {
    let samples = samples_spec(data);
    let b = best_trial(samples, k, runs, max_iter, thr, seed);
    sort_ranked(records_of(b.centroids, b.assignments, samples.len() as int))
}

/// The rendered entries are ordered by non-increasing share; entries with
/// equal shares stand in ascending centroid-index order.
pub open spec fn entries_sorted(s: Seq<PaletteEntry>) -> bool {
    forall|i: int, j: int|
        #![trigger s[i], s[j]]
        0 <= i < j < s.len() ==> (s[i].count > s[j].count || (s[i].count == s[j].count
            && s[i].centroid_index <= s[j].centroid_index))
}

/// Reads every pixel of a packed RGB buffer, in row-major order; no pixel is
/// dropped or merged. Fails exactly on a zero-pixel buffer.
pub fn sample_pixels(data: &Vec<u8>, width: usize, height: usize) -> (res: Result<
    Vec<RgbTuple>,
    EngineError,
>)
    requires
        data@.len() == width * height * 3,
    ensures
        res is Err ==> res == Err::<Vec<RgbTuple>, EngineError>(EngineError::EmptyImage),
        (res == Err::<Vec<RgbTuple>, EngineError>(EngineError::EmptyImage)) <==> (width * height
            == 0),
        res matches Ok(v) ==> v@ == pixels_spec(data@) && v@.len() == width * height,
{
    let len: usize = data.len();
    proof {
        assert(data@.len() == 3 * ((width * height) as int));
        vstd::arithmetic::div_mod::lemma_div_multiples_vanish((width * height) as int, 3);
    }
    let n: usize = len / 3;
    assert(n == width * height);
    if n == 0 {
        return Err(EngineError::EmptyImage);
    }
    let mut v: Vec<RgbTuple> = Vec::new();
    let mut i: usize = 0;
    while i < n
        invariant
            i <= n,
            data@.len() == 3 * n,
            data@.len() <= usize::MAX,
            v@.len() == i,
            forall|t: int| 0 <= t < i ==> (#[trigger] v@[t]) == pixels_spec(data@)[t],
        decreases n - i,
    {
        let base: usize = 3 * i;
        let px = RgbTuple { r: data[base], g: data[base + 1], b: data[base + 2] };
        v.push(px);
        i = i + 1;
    }
    proof {
        assert(data@.len() == 3 * (n as int));
        vstd::arithmetic::div_mod::lemma_div_multiples_vanish(n as int, 3);
        assert(v@ =~= pixels_spec(data@));
    }
    Ok(v)
}

/// Extracts the `k` dominant colors of a packed RGB pixel buffer.
///
/// Validates the parameters first (`InvalidParameter` exactly when `k`,
/// `runs` or `max_iter` is zero), then the buffer (`EmptyImage` exactly when
/// it holds zero pixels). On success the result has exactly `k` entries,
/// pinned to `palette_spec`: ordered by descending share with ties in
/// ascending centroid order, the shares summing exactly to the pixel count,
/// empty clusters included with share zero.
pub fn extract_palette(
    data: &Vec<u8>,
    width: usize,
    height: usize,
    k: usize,
    runs: u32,
    max_iter: u32,
    threshold: i64,
    seed: u64,
) -> (res: Result<Vec<PaletteEntry>, EngineError>)
    requires
        data@.len() == width * height * 3,
        width * height <= MAX_SAMPLES,
        k <= MAX_K,
        threshold >= 0,
    ensures
        (res == Err::<Vec<PaletteEntry>, EngineError>(EngineError::InvalidParameter)) <==> (k == 0
            || runs == 0 || max_iter == 0),
        (res == Err::<Vec<PaletteEntry>, EngineError>(EngineError::EmptyImage)) <==> (k >= 1
            && runs >= 1 && max_iter >= 1 && width * height == 0),
        res matches Ok(v) ==> {
            let ranked = palette_spec(
                data@,
                k as nat,
                runs as nat,
                max_iter as nat,
                threshold as int,
                seed,
            );
            &&& v@.len() == k
            &&& entries_match(v@, ranked)
            &&& sum_entry_counts(v@) == width * height
            &&& entries_sorted(v@)
            &&& forall|i: int| 0 <= i < v@.len() ==> (#[trigger] v@[i]).total == width * height
        },
{
    if k == 0 || runs == 0 || max_iter == 0 {
        return Err(EngineError::InvalidParameter);
    }
    let pixels = match sample_pixels(data, width, height) {
        Ok(p) => p,
        Err(e) => {
            return Err(e);
        },
    };
    let n = pixels.len();
    let mut samples: Vec<ColorSample> = Vec::new();
    let mut i: usize = 0;
    while i < n
        invariant
            i <= n,
            n == pixels@.len(),
            pixels@ == pixels_spec(data@),
            samples@.len() == i,
            forall|t: int| 0 <= t < i ==> (#[trigger] samples@[t]) == samples_spec(data@)[t],
            forall|t: int| 0 <= t < i ==> crate::color::sample_wf(#[trigger] samples@[t]),
        decreases n - i,
    {
        let s = to_uniform(pixels[i]);
        proof {
            assert(samples_spec(data@)[i as int] == to_uniform_spec(pixels_spec(data@)[i as int]));
        }
        samples.push(s);
        i = i + 1;
    }
    proof {
        assert(samples@ =~= samples_spec(data@));
    }
    let rr = match cluster(&samples, k, runs, max_iter, threshold, seed) {
        Ok(r) => r,
        Err(e) => {
            proof {
                assert(false);
            }
            return Err(e);
        },
    };
    let ranked = rank_clusters(&rr, n);
    let out = format_entries(&ranked);
    proof {
        let rspec = palette_spec(
            data@,
            k as nat,
            runs as nat,
            max_iter as nat,
            threshold as int,
            seed,
        );
        assert(ranked@ == rspec);
        lemma_sum_counts_pointwise(out@, ranked@);
        assert forall|i2: int, j2: int|
            #![trigger out@[i2], out@[j2]]
            0 <= i2 < j2 < out@.len() implies (out@[i2].count > out@[j2].count || (out@[i2].count
            == out@[j2].count && out@[i2].centroid_index <= out@[j2].centroid_index)) by {
            assert(crate::rank::rank_le(ranked@[i2], ranked@[j2]));
        }
    }
    Ok(out)
}

/// Determinism: two results that both meet the contract of
/// `extract_palette` for the same buffer and the same parameters carry the
/// same data, entry by entry, down to the characters of the hex strings.
pub proof fn lemma_deterministic(
    v1: Seq<PaletteEntry>,
    v2: Seq<PaletteEntry>,
    data: Seq<u8>,
    k: nat,
    runs: nat,
    max_iter: nat,
    thr: int,
    seed: u64,
)
    requires
        entries_match(v1, palette_spec(data, k, runs, max_iter, thr, seed)),
        entries_match(v2, palette_spec(data, k, runs, max_iter, thr, seed)),
    ensures
        v1.len() == v2.len(),
        forall|i: int| 0 <= i < v1.len() ==> {
            &&& (#[trigger] v1[i]).rgb == v2[i].rgb
            &&& v1[i].hex@ == v2[i].hex@
            &&& v1[i].count == v2[i].count
            &&& v1[i].total == v2[i].total
            &&& v1[i].centroid_index == v2[i].centroid_index
        },
{
}

} // verus!
