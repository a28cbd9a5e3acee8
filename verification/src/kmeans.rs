//! The k-means clusterer.
//!
//! `cluster` partitions color samples into `k` clusters by Lloyd's
//! algorithm, repeated over `runs` independent trials that differ only in
//! their seeded pseudo-random initialization; the trial with the strictly
//! lowest quantization error is kept, ties keeping the earlier trial. Every
//! step is deterministic: the whole computation is mirrored by spec
//! functions, and the executable code is proved to return exactly their
//! value.

use vstd::prelude::*;
use crate::color::{ColorSample, sample_wf, COORD_MAX};
use crate::EngineError;

verus! {

/// Largest admissible number of samples; keeps every coordinate sum inside
/// `i64` and every squared distance inside `DIST2_MAX`.
pub const MAX_SAMPLES: usize = 1_048_576;

/// Largest admissible number of clusters.
pub const MAX_K: usize = 1_048_576;

/// Upper bound on the squared distance of two well-formed points.
pub const DIST2_MAX: i64 = 900_000_000_000_000;

/// Modulus of the Lehmer pseudo-random generator (a Mersenne prime).
pub const PRNG_MOD: u64 = 2_147_483_647;

/// Multiplier of the Lehmer pseudo-random generator.
pub const PRNG_MULT: u64 = 48_271;

/// Every point of the sequence is well-formed.
pub open spec fn all_wf(s: Seq<ColorSample>) -> bool {
    forall|i: int| 0 <= i < s.len() ==> sample_wf(#[trigger] s[i])
}

/// Squared Euclidean distance of two points of the uniform space.
pub open spec fn dist2(p: ColorSample, q: ColorSample) -> int {
    (p.l - q.l) * (p.l - q.l) + (p.a - q.a) * (p.a - q.a) + (p.b - q.b) * (p.b - q.b)
}

pub proof fn lemma_dist2_bounds(p: ColorSample, q: ColorSample)
    requires
        sample_wf(p),
        sample_wf(q),
    ensures
        0 <= dist2(p, q) <= DIST2_MAX,
{
    let dl = p.l - q.l;
    let da = p.a - q.a;
    let db = p.b - q.b;
    assert(0 <= dl * dl <= 300_000_000_000_000) by (nonlinear_arith)
        requires -17_000_000 <= dl <= 17_000_000;
    assert(0 <= da * da <= 300_000_000_000_000) by (nonlinear_arith)
        requires -17_000_000 <= da <= 17_000_000;
    assert(0 <= db * db <= 300_000_000_000_000) by (nonlinear_arith)
        requires -17_000_000 <= db <= 17_000_000;
}

/// Computes `dist2`.
fn dist2_exec(p: ColorSample, q: ColorSample) -> (d: i64)
    requires
        sample_wf(p),
        sample_wf(q),
    ensures
        d as int == dist2(p, q),
        0 <= d <= DIST2_MAX,
{
    proof {
        lemma_dist2_bounds(p, q);
    }
    let dl: i64 = p.l - q.l;
    let da: i64 = p.a - q.a;
    let db: i64 = p.b - q.b;
    assert(0 <= dl * dl <= 300_000_000_000_000) by (nonlinear_arith)
        requires -17_000_000 <= dl <= 17_000_000;
    assert(0 <= da * da <= 300_000_000_000_000) by (nonlinear_arith)
        requires -17_000_000 <= da <= 17_000_000;
    assert(0 <= db * db <= 300_000_000_000_000) by (nonlinear_arith)
        requires -17_000_000 <= db <= 17_000_000;
    dl * dl + da * da + db * db
}

// ---------------------------------------------------------------------------
// Assignment step.
// ---------------------------------------------------------------------------

/// Index of the centroid among the first `n` nearest to `s`; ties go to the
/// lowest index.
pub open spec fn nearest_upto(s: ColorSample, cents: Seq<ColorSample>, n: int) -> int
    decreases n,
{
    if n <= 1 {
        0
    } else {
        let prev = nearest_upto(s, cents, n - 1);
        if dist2(s, cents[n - 1]) < dist2(s, cents[prev]) {
            n - 1
        } else {
            prev
        }
    }
}

/// Index of the nearest centroid, lowest index on ties.
pub open spec fn nearest(s: ColorSample, cents: Seq<ColorSample>) -> int {
    nearest_upto(s, cents, cents.len() as int)
}

pub proof fn lemma_nearest_upto_range(s: ColorSample, cents: Seq<ColorSample>, n: int)
    requires
        1 <= n,
    ensures
        0 <= nearest_upto(s, cents, n) < n,
    decreases n,
{
    if n > 1 {
        lemma_nearest_upto_range(s, cents, n - 1);
    }
}

/// Finds the nearest centroid by a linear scan.
fn nearest_exec(s: ColorSample, cents: &Vec<ColorSample>) -> (r: usize)
    requires
        1 <= cents@.len(),
        all_wf(cents@),
        sample_wf(s),
    ensures
        r as int == nearest(s, cents@),
        r < cents@.len(),
{
    let mut best: usize = 0;
    let mut best_d: i64 = dist2_exec(s, cents[0]);
    let mut j: usize = 1;
    while j < cents.len()
        invariant
            1 <= j <= cents@.len(),
            all_wf(cents@),
            sample_wf(s),
            best < j,
            best as int == nearest_upto(s, cents@, j as int),
            best_d as int == dist2(s, cents@[best as int]),
        decreases cents@.len() - j,
    {
        let d = dist2_exec(s, cents[j]);
        if d < best_d {
            best = j;
            best_d = d;
        }
        j = j + 1;
    }
    best
}

/// The assignment of every sample to its nearest centroid.
pub open spec fn assign_of(samples: Seq<ColorSample>, cents: Seq<ColorSample>) -> Seq<usize> {
    Seq::new(samples.len(), |i: int| nearest(samples[i], cents) as usize)
}

/// Computes the assignment step.
fn assign_exec(samples: &Vec<ColorSample>, cents: &Vec<ColorSample>) -> (res: Vec<usize>)
    requires
        1 <= cents@.len(),
        all_wf(cents@),
        all_wf(samples@),
    ensures
        res@ == assign_of(samples@, cents@),
        res@.len() == samples@.len(),
        forall|i: int| 0 <= i < res@.len() ==> (#[trigger] res@[i]) < cents@.len(),
{
    let mut res: Vec<usize> = Vec::new();
    let mut i: usize = 0;
    while i < samples.len()
        invariant
            i <= samples@.len(),
            1 <= cents@.len(),
            all_wf(cents@),
            all_wf(samples@),
            res@.len() == i,
            forall|t: int| 0 <= t < i ==> (#[trigger] res@[t]) == assign_of(samples@, cents@)[t],
            forall|t: int| 0 <= t < i ==> (#[trigger] res@[t]) < cents@.len(),
        decreases samples@.len() - i,
    {
        let a = nearest_exec(samples[i], cents);
        proof {
            lemma_nearest_upto_range(samples@[i as int], cents@, cents@.len() as int);
        }
        res.push(a);
        i = i + 1;
    }
    proof {
        assert(res@ =~= assign_of(samples@, cents@));
    }
    res
}

// ---------------------------------------------------------------------------
// Update step.
// ---------------------------------------------------------------------------

/// How many of the first `n` samples are assigned to cluster `j`.
pub open spec fn ccount(assign: Seq<usize>, j: int, n: int) -> int
    decreases n,
{
    if n <= 0 {
        0
    } else {
        ccount(assign, j, n - 1) + if assign[n - 1] as int == j { 1int } else { 0int }
    }
}

/// Sum of the `l` coordinates of the first `n` samples assigned to `j`.
pub open spec fn csum_l(samples: Seq<ColorSample>, assign: Seq<usize>, j: int, n: int) -> int
    decreases n,
{
    if n <= 0 {
        0
    } else {
        csum_l(samples, assign, j, n - 1) + if assign[n - 1] as int == j {
            samples[n - 1].l as int
        } else {
            0int
        }
    }
}

/// Sum of the `a` coordinates of the first `n` samples assigned to `j`.
pub open spec fn csum_a(samples: Seq<ColorSample>, assign: Seq<usize>, j: int, n: int) -> int
    decreases n,
{
    if n <= 0 {
        0
    } else {
        csum_a(samples, assign, j, n - 1) + if assign[n - 1] as int == j {
            samples[n - 1].a as int
        } else {
            0int
        }
    }
}

/// Sum of the `b` coordinates of the first `n` samples assigned to `j`.
pub open spec fn csum_b(samples: Seq<ColorSample>, assign: Seq<usize>, j: int, n: int) -> int
    decreases n,
{
    if n <= 0 {
        0
    } else {
        csum_b(samples, assign, j, n - 1) + if assign[n - 1] as int == j {
            samples[n - 1].b as int
        } else {
            0int
        }
    }
}

pub proof fn lemma_cluster_bounds(samples: Seq<ColorSample>, assign: Seq<usize>, j: int, n: int)
    requires
        all_wf(samples),
        0 <= n <= samples.len(),
        assign.len() == samples.len(),
    ensures
        0 <= ccount(assign, j, n) <= n,
        0 <= csum_l(samples, assign, j, n) <= ccount(assign, j, n) * (COORD_MAX as int),
        0 <= csum_a(samples, assign, j, n) <= ccount(assign, j, n) * (COORD_MAX as int),
        0 <= csum_b(samples, assign, j, n) <= ccount(assign, j, n) * (COORD_MAX as int),
    decreases n,
{
    if n > 0 {
        lemma_cluster_bounds(samples, assign, j, n - 1);
        let c0 = ccount(assign, j, n - 1);
        let c1 = ccount(assign, j, n);
        assert(c0 * (COORD_MAX as int) + (COORD_MAX as int) == (c0 + 1) * (COORD_MAX as int))
            by (nonlinear_arith);
        assert(c1 == c0 || c1 == c0 + 1);
    }
}

/// The new position of centroid `j`: the mean of its assigned samples, or
/// its old position when no sample is assigned to it.
pub open spec fn mean_or_keep(
    samples: Seq<ColorSample>,
    assign: Seq<usize>,
    j: int,
    oldc: ColorSample,
) -> ColorSample {
    let n = samples.len() as int;
    let cnt = ccount(assign, j, n);
    if cnt > 0 {
        (ColorSample {
            l: (csum_l(samples, assign, j, n) / cnt) as i64,
            a: (csum_a(samples, assign, j, n) / cnt) as i64,
            b: (csum_b(samples, assign, j, n) / cnt) as i64,
        })
    } else {
        oldc
    }
}

/// The update step: every centroid moves to the mean of its cluster.
pub open spec fn update_centroids(
    samples: Seq<ColorSample>,
    assign: Seq<usize>,
    cents: Seq<ColorSample>,
) -> Seq<ColorSample> {
    Seq::new(cents.len(), |j: int| mean_or_keep(samples, assign, j, cents[j]))
}

/// Computes the update step in one pass over the samples.
fn update_exec(
    samples: &Vec<ColorSample>,
    assign: &Vec<usize>,
    cents: &Vec<ColorSample>,
) -> (res: Vec<ColorSample>)
    requires
        all_wf(samples@),
        all_wf(cents@),
        assign@.len() == samples@.len(),
        samples@.len() <= MAX_SAMPLES,
        forall|i: int| 0 <= i < assign@.len() ==> (#[trigger] assign@[i]) < cents@.len(),
    ensures
        res@ == update_centroids(samples@, assign@, cents@),
        res@.len() == cents@.len(),
        all_wf(res@),
{
    let k = cents.len();
    let n = samples.len();
    let mut sl: Vec<i64> = Vec::new();
    let mut sa: Vec<i64> = Vec::new();
    let mut sb: Vec<i64> = Vec::new();
    let mut counts: Vec<usize> = Vec::new();
    let mut j: usize = 0;
    while j < k
        invariant
            j <= k,
            sl@.len() == j,
            sa@.len() == j,
            sb@.len() == j,
            counts@.len() == j,
            forall|t: int| 0 <= t < j ==> (#[trigger] sl@[t]) == 0,
            forall|t: int| 0 <= t < j ==> (#[trigger] sa@[t]) == 0,
            forall|t: int| 0 <= t < j ==> (#[trigger] sb@[t]) == 0,
            forall|t: int| 0 <= t < j ==> (#[trigger] counts@[t]) == 0,
        decreases k - j,
    {
        sl.push(0);
        sa.push(0);
        sb.push(0);
        counts.push(0);
        j = j + 1;
    }
    let mut i: usize = 0;
    while i < n
        invariant
            i <= n,
            n == samples@.len(),
            n <= MAX_SAMPLES,
            k == cents@.len(),
            all_wf(samples@),
            assign@.len() == n,
            forall|t: int| 0 <= t < n ==> (#[trigger] assign@[t]) < k,
            sl@.len() == k,
            sa@.len() == k,
            sb@.len() == k,
            counts@.len() == k,
            forall|t: int| 0 <= t < k ==>
                (#[trigger] sl@[t]) as int == csum_l(samples@, assign@, t, i as int),
            forall|t: int| 0 <= t < k ==>
                (#[trigger] sa@[t]) as int == csum_a(samples@, assign@, t, i as int),
            forall|t: int| 0 <= t < k ==>
                (#[trigger] sb@[t]) as int == csum_b(samples@, assign@, t, i as int),
            forall|t: int| 0 <= t < k ==>
                (#[trigger] counts@[t]) as int == ccount(assign@, t, i as int),
            forall|t: int| 0 <= t < k ==> 0 <= (#[trigger] sl@[t]) <= i * (COORD_MAX as int),
            forall|t: int| 0 <= t < k ==> 0 <= (#[trigger] sa@[t]) <= i * (COORD_MAX as int),
            forall|t: int| 0 <= t < k ==> 0 <= (#[trigger] sb@[t]) <= i * (COORD_MAX as int),
            forall|t: int| 0 <= t < k ==> (#[trigger] counts@[t]) <= i,
        decreases n - i,
    {
        let c: usize = assign[i];
        let s = samples[i];
        assert(sample_wf(s));
        let cur_l = sl[c];
        sl.set(c, cur_l + s.l);
        let cur_a = sa[c];
        sa.set(c, cur_a + s.a);
        let cur_b = sb[c];
        sb.set(c, cur_b + s.b);
        let cur_n = counts[c];
        counts.set(c, cur_n + 1);
        proof {
            assert forall|t: int| 0 <= t < k implies
                (#[trigger] sl@[t]) as int == csum_l(samples@, assign@, t, i as int + 1) by {
                assert(csum_l(samples@, assign@, t, i as int + 1) == csum_l(
                    samples@,
                    assign@,
                    t,
                    i as int,
                ) + if assign@[i as int] as int == t {
                    samples@[i as int].l as int
                } else {
                    0int
                });
            }
            assert forall|t: int| 0 <= t < k implies
                (#[trigger] sa@[t]) as int == csum_a(samples@, assign@, t, i as int + 1) by {
                assert(csum_a(samples@, assign@, t, i as int + 1) == csum_a(
                    samples@,
                    assign@,
                    t,
                    i as int,
                ) + if assign@[i as int] as int == t {
                    samples@[i as int].a as int
                } else {
                    0int
                });
            }
            assert forall|t: int| 0 <= t < k implies
                (#[trigger] sb@[t]) as int == csum_b(samples@, assign@, t, i as int + 1) by {
                assert(csum_b(samples@, assign@, t, i as int + 1) == csum_b(
                    samples@,
                    assign@,
                    t,
                    i as int,
                ) + if assign@[i as int] as int == t {
                    samples@[i as int].b as int
                } else {
                    0int
                });
            }
            assert forall|t: int| 0 <= t < k implies
                (#[trigger] counts@[t]) as int == ccount(assign@, t, i as int + 1) by {
                assert(ccount(assign@, t, i as int + 1) == ccount(assign@, t, i as int)
                    + if assign@[i as int] as int == t { 1int } else { 0int });
            }
        }
        i = i + 1;
    }
    let mut res: Vec<ColorSample> = Vec::new();
    let mut j2: usize = 0;
    while j2 < k
        invariant
            j2 <= k,
            k == cents@.len(),
            n == samples@.len(),
            n <= MAX_SAMPLES,
            all_wf(samples@),
            all_wf(cents@),
            assign@.len() == n,
            sl@.len() == k,
            sa@.len() == k,
            sb@.len() == k,
            counts@.len() == k,
            forall|t: int| 0 <= t < k ==>
                (#[trigger] sl@[t]) as int == csum_l(samples@, assign@, t, n as int),
            forall|t: int| 0 <= t < k ==>
                (#[trigger] sa@[t]) as int == csum_a(samples@, assign@, t, n as int),
            forall|t: int| 0 <= t < k ==>
                (#[trigger] sb@[t]) as int == csum_b(samples@, assign@, t, n as int),
            forall|t: int| 0 <= t < k ==>
                (#[trigger] counts@[t]) as int == ccount(assign@, t, n as int),
            res@.len() == j2,
            forall|t: int| 0 <= t < j2 ==>
                (#[trigger] res@[t]) == update_centroids(samples@, assign@, cents@)[t],
            forall|t: int| 0 <= t < j2 ==> sample_wf(#[trigger] res@[t]),
        decreases k - j2,
    {
        let cnt = counts[j2];
        proof {
            lemma_cluster_bounds(samples@, assign@, j2 as int, n as int);
        }
        if cnt > 0 {
            proof {
                let cn = ccount(assign@, j2 as int, n as int);
                vstd::arithmetic::div_mod::lemma_div_multiples_vanish(COORD_MAX as int, cn);
                vstd::arithmetic::div_mod::lemma_div_is_ordered(
                    csum_l(samples@, assign@, j2 as int, n as int),
                    cn * (COORD_MAX as int),
                    cn,
                );
                vstd::arithmetic::div_mod::lemma_div_is_ordered(
                    csum_a(samples@, assign@, j2 as int, n as int),
                    cn * (COORD_MAX as int),
                    cn,
                );
                vstd::arithmetic::div_mod::lemma_div_is_ordered(
                    csum_b(samples@, assign@, j2 as int, n as int),
                    cn * (COORD_MAX as int),
                    cn,
                );
                vstd::arithmetic::div_mod::lemma_div_pos_is_pos(
                    csum_l(samples@, assign@, j2 as int, n as int),
                    cn,
                );
                vstd::arithmetic::div_mod::lemma_div_pos_is_pos(
                    csum_a(samples@, assign@, j2 as int, n as int),
                    cn,
                );
                vstd::arithmetic::div_mod::lemma_div_pos_is_pos(
                    csum_b(samples@, assign@, j2 as int, n as int),
                    cn,
                );
            }
            assert(0 < cnt <= MAX_SAMPLES);
            let l: i64 = sl[j2] / (cnt as i64);
            let a: i64 = sa[j2] / (cnt as i64);
            let b: i64 = sb[j2] / (cnt as i64);
            proof {
                assert(update_centroids(samples@, assign@, cents@)[j2 as int] == mean_or_keep(
                    samples@,
                    assign@,
                    j2 as int,
                    cents@[j2 as int],
                ));
            }
            res.push(ColorSample { l, a, b });
        } else {
            res.push(cents[j2]);
        }
        j2 = j2 + 1;
    }
    proof {
        assert(res@ =~= update_centroids(samples@, assign@, cents@));
    }
    res
}

// ---------------------------------------------------------------------------
// Convergence and scoring.
// ---------------------------------------------------------------------------

/// Sum of squared displacements over the first `n` centroid pairs.
pub open spec fn disp_upto(a: Seq<ColorSample>, b: Seq<ColorSample>, n: int) -> int
    decreases n,
{
    if n <= 0 {
        0
    } else {
        disp_upto(a, b, n - 1) + dist2(a[n - 1], b[n - 1])
    }
}

/// Total squared displacement between two centroid sets of equal length.
pub open spec fn total_disp(a: Seq<ColorSample>, b: Seq<ColorSample>) -> int {
    disp_upto(a, b, a.len() as int)
}

/// Computes the total squared centroid displacement.
fn disp_exec(a: &Vec<ColorSample>, b: &Vec<ColorSample>) -> (d: u128)
    requires
        a@.len() == b@.len(),
        a@.len() <= MAX_K,
        all_wf(a@),
        all_wf(b@),
    ensures
        d as int == total_disp(a@, b@),
{
    let mut acc: u128 = 0;
    let mut i: usize = 0;
    while i < a.len()
        invariant
            i <= a@.len(),
            a@.len() == b@.len(),
            a@.len() <= MAX_K,
            all_wf(a@),
            all_wf(b@),
            acc as int == disp_upto(a@, b@, i as int),
            acc <= i * (DIST2_MAX as int),
        decreases a@.len() - i,
    {
        let d = dist2_exec(a[i], b[i]);
        acc = acc + (d as u128);
        i = i + 1;
    }
    acc
}

/// Quantization error of the first `n` samples against their centroids.
pub open spec fn score_upto(
    samples: Seq<ColorSample>,
    assign: Seq<usize>,
    cents: Seq<ColorSample>,
    n: int,
) -> int
    decreases n,
{
    if n <= 0 {
        0
    } else {
        score_upto(samples, assign, cents, n - 1) + dist2(
            samples[n - 1],
            cents[assign[n - 1] as int],
        )
    }
}

/// Total quantization error (inertia) of an assignment.
pub open spec fn score_of(
    samples: Seq<ColorSample>,
    assign: Seq<usize>,
    cents: Seq<ColorSample>,
) -> int {
    score_upto(samples, assign, cents, samples.len() as int)
}

/// Computes the total quantization error.
fn score_exec(
    samples: &Vec<ColorSample>,
    assign: &Vec<usize>,
    cents: &Vec<ColorSample>,
) -> (sc: u128)
    requires
        all_wf(samples@),
        all_wf(cents@),
        assign@.len() == samples@.len(),
        samples@.len() <= MAX_SAMPLES,
        forall|i: int| 0 <= i < assign@.len() ==> (#[trigger] assign@[i]) < cents@.len(),
    ensures
        sc as int == score_of(samples@, assign@, cents@),
{
    let mut acc: u128 = 0;
    let mut i: usize = 0;
    while i < samples.len()
        invariant
            i <= samples@.len(),
            samples@.len() <= MAX_SAMPLES,
            all_wf(samples@),
            all_wf(cents@),
            assign@.len() == samples@.len(),
            forall|t: int| 0 <= t < assign@.len() ==> (#[trigger] assign@[t]) < cents@.len(),
            acc as int == score_upto(samples@, assign@, cents@, i as int),
            acc <= i * (DIST2_MAX as int),
        decreases samples@.len() - i,
    {
        let c: usize = assign[i];
        let d = dist2_exec(samples[i], cents[c]);
        acc = acc + (d as u128);
        i = i + 1;
    }
    acc
}

// ---------------------------------------------------------------------------
// One trial.
// ---------------------------------------------------------------------------

/// One step of the Lehmer generator.
pub open spec fn prng_next(s: int) -> int {
    s * (PRNG_MULT as int) % (PRNG_MOD as int)
}

/// The generator state after `i` steps from `s0`.
pub open spec fn prng_state(s0: int, i: nat) -> int
    decreases i,
{
    if i == 0 {
        s0
    } else {
        prng_next(prng_state(s0, (i - 1) as nat))
    }
}

/// The initial generator state of trial `t`: the trial index is folded into
/// the seed, and the state is forced into `[1, PRNG_MOD)`.
pub open spec fn trial_state0(seed: u64, t: int) -> int {
    ((seed as int) % ((PRNG_MOD - 1) as int) + t % ((PRNG_MOD - 1) as int)) % (
    (PRNG_MOD - 1) as int) + 1
}

/// Computes the initial generator state of trial `t`.
fn trial_state0_exec(seed: u64, t: u32) -> (s0: u64)
    ensures
        s0 as int == trial_state0(seed, t as int),
        1 <= s0 < PRNG_MOD,
{
    let m: u64 = PRNG_MOD - 1;
    ((seed % m) + ((t as u64) % m)) % m + 1
}

/// The `k` seeded initial centroids: each is a sample drawn by the
/// generator, with replacement.
pub open spec fn init_cents(samples: Seq<ColorSample>, k: nat, s0: int) -> Seq<ColorSample> {
    Seq::new(k, |j: int| samples[prng_state(s0, (j + 1) as nat) % samples.len() as int])
}

/// Draws the seeded initial centroids.
fn init_centroids(samples: &Vec<ColorSample>, k: usize, s0: u64) -> (res: Vec<ColorSample>)
    requires
        1 <= samples@.len(),
        1 <= k,
        all_wf(samples@),
        1 <= s0 < PRNG_MOD,
    ensures
        res@ == init_cents(samples@, k as nat, s0 as int),
        res@.len() == k,
        all_wf(res@),
{
    let mut out: Vec<ColorSample> = Vec::new();
    let mut state: u64 = s0;
    let mut j: usize = 0;
    while j < k
        invariant
            j <= k,
            1 <= samples@.len(),
            all_wf(samples@),
            out@.len() == j,
            0 <= state < PRNG_MOD,
            state as int == prng_state(s0 as int, j as nat),
            forall|t: int| 0 <= t < j ==>
                (#[trigger] out@[t]) == init_cents(samples@, k as nat, s0 as int)[t],
            forall|t: int| 0 <= t < j ==> sample_wf(#[trigger] out@[t]),
        decreases k - j,
    {
        state = state * PRNG_MULT % PRNG_MOD;
        proof {
            assert(state as int == prng_state(s0 as int, (j + 1) as nat));
        }
        let idx: usize = (state % (samples.len() as u64)) as usize;
        out.push(samples[idx]);
        j = j + 1;
    }
    proof {
        assert(out@ =~= init_cents(samples@, k as nat, s0 as int));
    }
    out
}

/// The centroids after up to `fuel` more iterations: each iteration assigns
/// every sample to its nearest centroid and moves every centroid to its
/// cluster's mean; the trial stops early once the total squared displacement
/// falls below `thr`.
pub open spec fn iterate(
    samples: Seq<ColorSample>,
    cents: Seq<ColorSample>,
    fuel: nat,
    thr: int,
) -> Seq<ColorSample>
    decreases fuel,
{
    if fuel == 0 {
        cents
    } else {
        let next = update_centroids(samples, assign_of(samples, cents), cents);
        if total_disp(cents, next) < thr {
            next
        } else {
            iterate(samples, next, (fuel - 1) as nat, thr)
        }
    }
}

/// The outcome of one trial, in mathematical form: final centroids, final
/// assignment, and the total quantization error.
pub struct TrialOutcome {
    pub centroids: Seq<ColorSample>,
    pub assignments: Seq<usize>,
    pub score: int,
}

/// The outcome of the trial that starts from generator state `s0`.
pub open spec fn trial_spec(
    samples: Seq<ColorSample>,
    k: nat,
    max_iter: nat,
    thr: int,
    s0: int,
) -> TrialOutcome {
    let cf = iterate(samples, init_cents(samples, k, s0), max_iter, thr);
    let asg = assign_of(samples, cf);
    (TrialOutcome { centroids: cf, assignments: asg, score: score_of(samples, asg, cf) })
}

/// The result of one clustering run: the final centroids, the index of the
/// nearest centroid for every sample, and the total quantization error.
pub struct RunResult {
    pub centroids: Vec<ColorSample>,
    pub assignments: Vec<usize>,
    pub score: u128,
}

/// Runs one seeded trial of Lloyd's algorithm.
fn run_trial(samples: &Vec<ColorSample>, k: usize, max_iter: u32, thr: i64, s0: u64) -> (rr:
    RunResult)
    requires
        1 <= samples@.len() <= MAX_SAMPLES,
        1 <= k <= MAX_K,
        all_wf(samples@),
        0 <= thr,
        1 <= s0 < PRNG_MOD,
    ensures
        rr.centroids@ == trial_spec(samples@, k as nat, max_iter as nat, thr as int, s0 as int).centroids,
        rr.assignments@ == trial_spec(samples@, k as nat, max_iter as nat, thr as int, s0 as int).assignments,
        rr.score as int == trial_spec(samples@, k as nat, max_iter as nat, thr as int, s0 as int).score,
        rr.centroids@.len() == k,
        all_wf(rr.centroids@),
        rr.assignments@.len() == samples@.len(),
        forall|i: int| 0 <= i < rr.assignments@.len() ==> (#[trigger] rr.assignments@[i]) < k,
{
    let mut cents: Vec<ColorSample> = init_centroids(samples, k, s0);
    let ghost c0: Seq<ColorSample> = cents@;
    let mut it: u32 = 0;
    while it < max_iter
        invariant_except_break
            it <= max_iter,
            iterate(samples@, c0, max_iter as nat, thr as int) == iterate(
                samples@,
                cents@,
                (max_iter - it) as nat,
                thr as int,
            ),
        invariant
            1 <= samples@.len() <= MAX_SAMPLES,
            1 <= k <= MAX_K,
            all_wf(samples@),
            0 <= thr,
            cents@.len() == k,
            all_wf(cents@),
        ensures
            cents@ == iterate(samples@, c0, max_iter as nat, thr as int),
        decreases max_iter - it,
    {
        let asg = assign_exec(samples, &cents);
        let next = update_exec(samples, &asg, &cents);
        let d = disp_exec(&cents, &next);
        proof {
            assert(next@ == update_centroids(samples@, assign_of(samples@, cents@), cents@));
            let fuel = (max_iter - it) as nat;
            assert(iterate(samples@, cents@, fuel, thr as int) == if total_disp(cents@, next@)
                < thr as int {
                next@
            } else {
                iterate(samples@, next@, (fuel - 1) as nat, thr as int)
            });
        }
        if d < thr as u128 {
            cents = next;
            break;
        }
        cents = next;
        it = it + 1;
    }
    let asg = assign_exec(samples, &cents);
    let sc = score_exec(samples, &asg, &cents);
    (RunResult { centroids: cents, assignments: asg, score: sc })
}

// ---------------------------------------------------------------------------
// Repeated trials.
// ---------------------------------------------------------------------------

/// The best outcome over the first `runs` trials: the strictly lowest score
/// wins; on a tie the earlier trial is kept.
pub open spec fn best_trial(
    samples: Seq<ColorSample>,
    k: nat,
    runs: nat,
    max_iter: nat,
    thr: int,
    seed: u64,
) -> TrialOutcome
    decreases runs,
{
    if runs <= 1 {
        trial_spec(samples, k, max_iter, thr, trial_state0(seed, 0))
    } else {
        let prev = best_trial(samples, k, (runs - 1) as nat, max_iter, thr, seed);
        let cur = trial_spec(samples, k, max_iter, thr, trial_state0(seed, runs - 1));
        if cur.score < prev.score {
            cur
        } else {
            prev
        }
    }
}

/// Trying more trials never worsens the retained score: the best score over
/// `r2 >= r1` trials is at most the best score over `r1` trials.
pub proof fn lemma_more_trials_no_worse(
    samples: Seq<ColorSample>,
    k: nat,
    r1: nat,
    r2: nat,
    max_iter: nat,
    thr: int,
    seed: u64,
)
    requires
        1 <= r1 <= r2,
    ensures
        best_trial(samples, k, r2, max_iter, thr, seed).score <= best_trial(
            samples,
            k,
            r1,
            max_iter,
            thr,
            seed,
        ).score,
    decreases r2,
{
    if r1 < r2 {
        lemma_more_trials_no_worse(samples, k, r1, (r2 - 1) as nat, max_iter, thr, seed);
    }
}

/// Partitions the samples into `k` clusters, minimizing the quantization
/// error over `runs` independent seeded trials.
///
/// Fails with `InvalidParameter` exactly when `k`, `runs` or `max_iter` is
/// zero, and with `EmptyImage` exactly when the parameters are accepted but
/// no sample was supplied; otherwise the result is exactly the best trial.
pub fn cluster(
    samples: &Vec<ColorSample>,
    k: usize,
    runs: u32,
    max_iter: u32,
    threshold: i64,
    seed: u64,
) -> (res: Result<RunResult, EngineError>)
    requires
        samples@.len() <= MAX_SAMPLES,
        k <= MAX_K,
        all_wf(samples@),
        0 <= threshold,
    ensures
        res is Err ==> (res == Err::<RunResult, EngineError>(EngineError::InvalidParameter) || res
            == Err::<RunResult, EngineError>(EngineError::EmptyImage)),
        res == Err::<RunResult, EngineError>(EngineError::InvalidParameter) <==> (k == 0 || runs
            == 0 || max_iter == 0),
        res == Err::<RunResult, EngineError>(EngineError::EmptyImage) <==> (k >= 1 && runs >= 1
            && max_iter >= 1 && samples@.len() == 0),
        res matches Ok(rr) ==> {
            let b = best_trial(samples@, k as nat, runs as nat, max_iter as nat, threshold as int, seed);
            &&& rr.centroids@ == b.centroids
            &&& rr.assignments@ == b.assignments
            &&& rr.score as int == b.score
            &&& rr.centroids@.len() == k
            &&& all_wf(rr.centroids@)
            &&& rr.assignments@.len() == samples@.len()
            &&& (forall|i: int| 0 <= i < rr.assignments@.len() ==> (#[trigger] rr.assignments@[i])
                < k)
        },
{
    if k == 0 || runs == 0 || max_iter == 0 {
        return Err(EngineError::InvalidParameter);
    }
    if samples.len() == 0 {
        return Err(EngineError::EmptyImage);
    }
    let s0 = trial_state0_exec(seed, 0);
    let mut best = run_trial(samples, k, max_iter, threshold, s0);
    let mut t: u32 = 1;
    while t < runs
        invariant
            1 <= t <= runs,
            1 <= samples@.len() <= MAX_SAMPLES,
            1 <= k <= MAX_K,
            all_wf(samples@),
            0 <= threshold,
            best.centroids@ == best_trial(samples@, k as nat, t as nat, max_iter as nat, threshold as int, seed).centroids,
            best.assignments@ == best_trial(samples@, k as nat, t as nat, max_iter as nat, threshold as int, seed).assignments,
            best.score as int == best_trial(samples@, k as nat, t as nat, max_iter as nat, threshold as int, seed).score,
            best.centroids@.len() == k,
            all_wf(best.centroids@),
            best.assignments@.len() == samples@.len(),
            forall|i: int| 0 <= i < best.assignments@.len() ==> (#[trigger] best.assignments@[i])
                < k,
        decreases runs - t,
    {
        let st = trial_state0_exec(seed, t);
        let cur = run_trial(samples, k, max_iter, threshold, st);
        if cur.score < best.score {
            best = cur;
        }
        t = t + 1;
    }
    Ok(best)
}

} // verus!
