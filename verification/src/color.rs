//! Color values and the uniform color space.
//!
//! Pixels arrive as 8-bit RGB triplets. For clustering they are mapped into a
//! perceptually uniform space: each channel is linearized (gamma 2), the
//! linear values are mixed into tristimulus coordinates relative to the D65
//! white point, and each coordinate is compressed by a cube root, as in CIE
//! Lab. All arithmetic is fixed point over `i64`: the cube-root outputs are
//! scaled by 65536, the three axes are integer multiples of them, and the
//! chroma axes carry an offset so that every coordinate is non-negative.
//! Euclidean distance in these coordinates does not see the offsets.

use vstd::prelude::*;
use vstd::string::*;

verus! {

/// One 8-bit RGB color value.
#[derive(Clone, Copy, PartialEq, Eq, Structural, Debug)]
pub struct RgbTuple {
    pub r: u8,
    pub g: u8,
    pub b: u8,
}

/// A point of the uniform color space: lightness `l` and the two chroma
/// axes `a` and `b`, in fixed-point units.
#[derive(Clone, Copy, PartialEq, Eq, Structural, Debug)]
pub struct ColorSample {
    pub l: i64,
    pub a: i64,
    pub b: i64,
}

/// Upper bound on every coordinate of a well-formed sample or centroid.
pub const COORD_MAX: i64 = 17_000_000;

/// Offset added to the chroma axes so that well-formed coordinates are
/// non-negative.
pub const CHROMA_OFFSET: i64 = 8_500_000;

/// Every coordinate of a well-formed point lies in `[0, COORD_MAX]`.
pub open spec fn sample_wf(s: ColorSample) -> bool {
    &&& 0 <= s.l <= COORD_MAX
    &&& 0 <= s.a <= COORD_MAX
    &&& 0 <= s.b <= COORD_MAX
}

// ---------------------------------------------------------------------------
// Integer square and cube roots.
// ---------------------------------------------------------------------------

/// `r` is the floor of the square root of `n`.
pub open spec fn is_sqrt_floor(n: int, r: int) -> bool {
    0 <= r && r * r <= n && n < (r + 1) * (r + 1)
}

/// The floor of the square root of `n`, for `n >= 0`.
pub open spec fn sqrt_floor(n: int) -> int {
    choose|r: int| is_sqrt_floor(n, r)
}

pub proof fn lemma_sqrt_floor_exists(n: int)
    requires
        0 <= n,
    ensures
        is_sqrt_floor(n, sqrt_floor(n)),
    decreases n,
{
    if n == 0 {
        assert(is_sqrt_floor(0, 0));
    } else {
        lemma_sqrt_floor_exists(n - 1);
        let r = sqrt_floor(n - 1);
        if n < (r + 1) * (r + 1) {
            assert(is_sqrt_floor(n, r));
        } else {
            assert(n == (r + 1) * (r + 1));
            assert((r + 1) * (r + 1) < (r + 2) * (r + 2)) by (nonlinear_arith)
                requires 0 <= r;
            assert(is_sqrt_floor(n, r + 1));
        }
    }
}

pub proof fn lemma_sqrt_floor_unique(n: int, r: int)
    requires
        is_sqrt_floor(n, r),
    ensures
        r == sqrt_floor(n),
{
    assert(0 <= n) by (nonlinear_arith)
        requires 0 <= r && r * r <= n;
    lemma_sqrt_floor_exists(n);
    let w = sqrt_floor(n);
    if r < w {
        assert((r + 1) * (r + 1) <= w * w) by (nonlinear_arith)
            requires 0 <= r && r < w;
    }
    if w < r {
        assert((w + 1) * (w + 1) <= r * r) by (nonlinear_arith)
            requires 0 <= w && w < r;
    }
}

/// `r` is the floor of the cube root of `n`.
pub open spec fn is_cbrt_floor(n: int, r: int) -> bool {
    0 <= r && r * r * r <= n && n < (r + 1) * (r + 1) * (r + 1)
}

/// The floor of the cube root of `n`, for `n >= 0`.
pub open spec fn cbrt_floor(n: int) -> int {
    choose|r: int| is_cbrt_floor(n, r)
}

pub proof fn lemma_cbrt_floor_exists(n: int)
    requires
        0 <= n,
    ensures
        is_cbrt_floor(n, cbrt_floor(n)),
    decreases n,
{
    if n == 0 {
        assert(is_cbrt_floor(0, 0));
    } else {
        lemma_cbrt_floor_exists(n - 1);
        let r = cbrt_floor(n - 1);
        if n < (r + 1) * (r + 1) * (r + 1) {
            assert(is_cbrt_floor(n, r));
        } else {
            assert(n == (r + 1) * (r + 1) * (r + 1));
            assert((r + 1) * (r + 1) * (r + 1) < (r + 2) * (r + 2) * (r + 2)) by (nonlinear_arith)
                requires 0 <= r;
            assert(is_cbrt_floor(n, r + 1));
        }
    }
}

pub proof fn lemma_cbrt_floor_unique(n: int, r: int)
    requires
        is_cbrt_floor(n, r),
    ensures
        r == cbrt_floor(n),
{
    assert(0 <= n) by (nonlinear_arith)
        requires 0 <= r && r * r * r <= n;
    lemma_cbrt_floor_exists(n);
    let w = cbrt_floor(n);
    if r < w {
        assert((r + 1) * (r + 1) * (r + 1) <= w * w * w) by (nonlinear_arith)
            requires 0 <= r && r < w;
    }
    if w < r {
        assert((w + 1) * (w + 1) * (w + 1) <= r * r * r) by (nonlinear_arith)
            requires 0 <= w && w < r;
    }
}

/// Floor of the square root, by bisection.
pub fn isqrt(n: i64) -> (r: i64)
    requires
        0 <= n < 4_000_000_000_000_000,
    ensures
        r == sqrt_floor(n as int),
        is_sqrt_floor(n as int, r as int),
{
    let mut lo: i64 = 0;
    let mut hi: i64 = 70_000_000;
    assert(70_000_000 * 70_000_000 == 4_900_000_000_000_000int) by (nonlinear_arith);
    while lo + 1 < hi
        invariant
            0 <= lo < hi <= 70_000_000,
            lo * lo <= n,
            n < hi * hi,
        decreases hi - lo,
    {
        let mid: i64 = lo + (hi - lo) / 2;
        assert(lo < mid < hi);
        assert(mid * mid <= 4_900_000_000_000_000) by (nonlinear_arith)
            requires 0 <= mid <= 70_000_000;
        if mid * mid <= n {
            lo = mid;
        } else {
            hi = mid;
        }
    }
    proof {
        assert(is_sqrt_floor(n as int, lo as int));
        lemma_sqrt_floor_unique(n as int, lo as int);
    }
    lo
}

/// Floor of the cube root, by bisection.
pub fn icbrt(n: i64) -> (r: i64)
    requires
        0 <= n < 200_000_000_000_000_000,
    ensures
        r == cbrt_floor(n as int),
        is_cbrt_floor(n as int, r as int),
{
    let mut lo: i64 = 0;
    let mut hi: i64 = 600_000;
    assert(600_000 * 600_000 * 600_000 == 216_000_000_000_000_000int) by (nonlinear_arith);
    while lo + 1 < hi
        invariant
            0 <= lo < hi <= 600_000,
            lo * lo * lo <= n,
            n < hi * hi * hi,
        decreases hi - lo,
    {
        let mid: i64 = lo + (hi - lo) / 2;
        assert(lo < mid < hi);
        assert(0 <= mid * mid <= 360_000_000_000) by (nonlinear_arith)
            requires 0 <= mid <= 600_000;
        assert(mid * mid * mid <= 216_000_000_000_000_000) by (nonlinear_arith)
            requires 0 <= mid <= 600_000;
        let sq: i64 = mid * mid;
        if sq * mid <= n {
            lo = mid;
        } else {
            hi = mid;
        }
    }
    proof {
        assert(is_cbrt_floor(n as int, lo as int));
        lemma_cbrt_floor_unique(n as int, lo as int);
    }
    lo
}

// ---------------------------------------------------------------------------
// RGB -> uniform space.
// ---------------------------------------------------------------------------

/// Linearized channel value: gamma-2 decoding, scaled by 65025.
pub open spec fn lin_of(c: u8) -> int {
    c * c
}

/// First tristimulus coordinate of a pixel, relative to the D65 white point,
/// scaled by 65025 * 256.
pub open spec fn tri_x(c: RgbTuple) -> int {
    (4124 * lin_of(c.r) + 3576 * lin_of(c.g) + 1805 * lin_of(c.b)) * 256 / 9505
}

/// Second (luminance-like) tristimulus coordinate, scaled by 65025 * 256.
pub open spec fn tri_y(c: RgbTuple) -> int {
    (2126 * lin_of(c.r) + 7152 * lin_of(c.g) + 722 * lin_of(c.b)) * 256 / 10000
}

/// Third tristimulus coordinate, scaled by 65025 * 256.
pub open spec fn tri_z(c: RgbTuple) -> int {
    (193 * lin_of(c.r) + 1192 * lin_of(c.g) + 9505 * lin_of(c.b)) * 256 / 10890
}

pub open spec fn clamp_low(x: int) -> int {
    if x < 0 { 0 } else { x }
}

/// The cube root of `n` rounded to the nearest integer.
pub open spec fn cbrt_round(n: int) -> int {
    let r = cbrt_floor(n);
    if n - r * r * r > (r + 1) * (r + 1) * (r + 1) - n {
        r + 1
    } else {
        r
    }
}

/// Cube-root compression of a tristimulus value `t` in `[0, 65025 * 256]`,
/// scaled so that the white point maps to 65536.
pub open spec fn froot(t: int) -> int {
    cbrt_round(t * 1_073_741_824 / 65_025 * 1024)
}

/// The uniform-space point of one RGB value. The lightness axis is kept
/// shifted so that black sits at zero, and the chroma axes are offset to be
/// non-negative: Euclidean distance does not see either shift, and the
/// conversion stays exactly invertible on the compressed coordinates.
pub open spec fn to_uniform_spec(c: RgbTuple) -> ColorSample {
    let fx = froot(tri_x(c));
    let fy = froot(tri_y(c));
    let fz = froot(tri_z(c));
    (ColorSample {
        l: (29 * fy) as i64,
        a: (125 * (fx - fy) + CHROMA_OFFSET) as i64,
        b: (50 * (fy - fz) + CHROMA_OFFSET) as i64,
    })
}

/// Computes `froot` of one tristimulus value.
fn froot_exec(t: i64) -> (f: i64)
    requires
        0 <= t <= 16_646_400,
    ensures
        f as int == froot(t as int),
        0 <= f <= 65_536,
{
    let v: i64 = t * 1_073_741_824 / 65_025 * 1024;
    proof {
        assert(t * 1_073_741_824 <= 16_646_400 * 1_073_741_824) by (nonlinear_arith)
            requires 0 <= t <= 16_646_400;
        assert(0 <= t * 1_073_741_824) by (nonlinear_arith)
            requires 0 <= t;
    }
    assert(0 <= v <= 281_474_976_710_656);
    let fl: i64 = icbrt(v);
    proof {
        if fl > 65_536 {
            assert(65_537 * 65_537 * 65_537 <= fl * fl * fl) by (nonlinear_arith)
                requires 65_537 <= fl;
            assert(65_537 * 65_537 * 65_537 > 281_474_976_710_656) by (nonlinear_arith);
        }
        assert(0 <= fl * fl <= 4_294_967_296) by (nonlinear_arith)
            requires 0 <= fl <= 65_536;
        assert(0 <= fl * fl * fl <= 281_474_976_710_656);
        assert(0 <= (fl + 1) * (fl + 1) <= 4_295_098_369) by (nonlinear_arith)
            requires 0 <= fl <= 65_536;
        assert((fl + 1) * (fl + 1) * (fl + 1) <= 281_600_000_000_000_000) by (nonlinear_arith)
            requires 0 <= fl <= 65_536;
        assert(65_536 * 65_536 * 65_536 == 281_474_976_710_656int) by (nonlinear_arith);
    }
    let cube: i64 = fl * fl * fl;
    let c1: i64 = (fl + 1) * (fl + 1);
    let next: i64 = c1 * (fl + 1);
    let f: i64 = if v - cube > next - v {
        fl + 1
    } else {
        fl
    };
    proof {
        if v - cube > next - v {
            assert(v > cube);
            assert(fl < 65_536);
        }
    }
    f
}

proof fn lemma_tri_bounds(c: RgbTuple)
    ensures
        0 <= tri_x(c) <= 16_646_400,
        0 <= tri_y(c) <= 16_646_400,
        0 <= tri_z(c) <= 16_646_400,
{
    assert(0 <= lin_of(c.r) <= 65_025) by (nonlinear_arith);
    assert(0 <= lin_of(c.g) <= 65_025) by (nonlinear_arith);
    assert(0 <= lin_of(c.b) <= 65_025) by (nonlinear_arith);
}

/// Maps one RGB value into the uniform color space.
#[verifier::rlimit(50)]
pub fn to_uniform(c: RgbTuple) -> (s: ColorSample)
    ensures
        s == to_uniform_spec(c),
        sample_wf(s),
{
    let ri: i64 = c.r as i64;
    let gi: i64 = c.g as i64;
    let bi: i64 = c.b as i64;
    assert(0 <= ri * ri <= 65_025) by (nonlinear_arith)
        requires 0 <= ri <= 255;
    assert(0 <= gi * gi <= 65_025) by (nonlinear_arith)
        requires 0 <= gi <= 255;
    assert(0 <= bi * bi <= 65_025) by (nonlinear_arith)
        requires 0 <= bi <= 255;
    let lr: i64 = ri * ri;
    let lg: i64 = gi * gi;
    let lb: i64 = bi * bi;
    let tx: i64 = (4124 * lr + 3576 * lg + 1805 * lb) * 256 / 9505;
    let ty: i64 = (2126 * lr + 7152 * lg + 722 * lb) * 256 / 10000;
    let tz: i64 = (193 * lr + 1192 * lg + 9505 * lb) * 256 / 10890;
    proof {
        lemma_tri_bounds(c);
    }
    let fx: i64 = froot_exec(tx);
    let fy: i64 = froot_exec(ty);
    let fz: i64 = froot_exec(tz);
    let l: i64 = 29 * fy;
    let a: i64 = 125 * (fx - fy) + CHROMA_OFFSET;
    let b: i64 = 50 * (fy - fz) + CHROMA_OFFSET;
    (ColorSample { l, a, b })
}

// ---------------------------------------------------------------------------
// Uniform space -> RGB.
// ---------------------------------------------------------------------------

/// Inverse of the cube-root compression: a tristimulus value scaled by
/// 65025 * 256.
pub open spec fn finv(f: int) -> int {
    (f * f * f / 32_768) * 16_646_400 / 8_589_934_592
}

/// Caps an out-of-gamut compressed coordinate.
pub open spec fn cap_froot(x: int) -> int {
    if x > 98_304 { 98_304 } else { x }
}

/// An 8-bit channel from a linearized value scaled by 256: square root,
/// rounded to the nearest channel step, clamped to `[0, 255]`.
pub open spec fn chan_of(lin: int) -> u8 {
    let u = (sqrt_floor(lin) + 8) / 16;
    if u > 255 { 255u8 } else { u as u8 }
}

/// The RGB value nearest to a uniform-space point: the conversion is undone
/// step by step and each channel is clamped to `[0, 255]`.
pub open spec fn to_rgb_spec(s: ColorSample) -> RgbTuple {
    let fy = cap_froot(s.l / 29);
    let fx = cap_froot(clamp_low(125 * (s.l / 29) + (s.a - CHROMA_OFFSET)) / 125);
    let fz = cap_froot(clamp_low(50 * (s.l / 29) - (s.b - CHROMA_OFFSET)) / 50);
    let x = finv(fx);
    let y = finv(fy);
    let z = finv(fz);
    let lr = clamp_low(30802 * x - 15372 * y - 5430 * z) / 10000;
    let lg = clamp_low(-9209 * x + 18758 * y + 452 * z) / 10000;
    let lb = clamp_low(529 * x - 2040 * y + 11511 * z) / 10000;
    (RgbTuple { r: chan_of(lr), g: chan_of(lg), b: chan_of(lb) })
}

/// Computes `finv` on a capped coordinate.
fn finv_exec(f: i64) -> (r: i64)
    requires
        0 <= f <= 98_304,
    ensures
        r == finv(f as int),
        0 <= r <= 60_000_000,
{
    assert(0 <= f * f <= 9_663_676_416) by (nonlinear_arith)
        requires 0 <= f <= 98_304;
    assert(0 <= f * f * f <= 950_000_000_000_000) by (nonlinear_arith)
        requires 0 <= f <= 98_304;
    let cube: i64 = f * f * f;
    let q: i64 = cube / 32_768;
    assert(0 <= q <= 29_000_000_000);
    let r: i64 = q * 16_646_400 / 8_589_934_592;
    assert(q * 16_646_400 <= 29_000_000_000 * 16_646_400) by (nonlinear_arith)
        requires 0 <= q <= 29_000_000_000;
    assert(0 <= q * 16_646_400) by (nonlinear_arith)
        requires 0 <= q;
    r
}

/// Rounded, clamped channel value from a linearized value scaled by 256.
fn chan_exec(lin: i64) -> (r: u8)
    requires
        0 <= lin <= 4_000_000_000_000,
    ensures
        r == chan_of(lin as int),
{
    let u: i64 = isqrt(lin);
    assert(u <= 2_000_000) by (nonlinear_arith)
        requires 0 <= u && u * u <= 4_000_000_000_000;
    let rounded: i64 = (u + 8) / 16;
    if rounded > 255 {
        255
    } else {
        rounded as u8
    }
}

/// Maps a uniform-space point back to the nearest 8-bit RGB value.
#[verifier::rlimit(100)]
pub fn to_rgb(s: ColorSample) -> (c: RgbTuple)
    requires
        sample_wf(s),
    ensures
        c == to_rgb_spec(s),
{
    let fy0: i64 = s.l / 29;
    assert(0 <= fy0 <= 586_207);
    let fy: i64 = if fy0 > 98_304 { 98_304 } else { fy0 };
    let xr: i64 = 125 * fy0 + (s.a - CHROMA_OFFSET);
    let fx0: i64 = (if xr < 0 { 0 } else { xr }) / 125;
    assert(0 <= fx0 <= 654_208);
    let fx: i64 = if fx0 > 98_304 { 98_304 } else { fx0 };
    let zr: i64 = 50 * fy0 - (s.b - CHROMA_OFFSET);
    let fz0: i64 = (if zr < 0 { 0 } else { zr }) / 50;
    assert(0 <= fz0 <= 756_208);
    let fz: i64 = if fz0 > 98_304 { 98_304 } else { fz0 };
    let x: i64 = finv_exec(fx);
    let y: i64 = finv_exec(fy);
    let z: i64 = finv_exec(fz);
    assert(0 <= x <= 60_000_000 && 0 <= y <= 60_000_000 && 0 <= z <= 60_000_000);
    let lrr: i64 = 30802 * x - 15372 * y - 5430 * z;
    let lr: i64 = (if lrr < 0 { 0 } else { lrr }) / 10000;
    let lgr: i64 = 18758 * y + 452 * z - 9209 * x;
    let lg: i64 = (if lgr < 0 { 0 } else { lgr }) / 10000;
    let lbr: i64 = 529 * x - 2040 * y + 11511 * z;
    let lb: i64 = (if lbr < 0 { 0 } else { lbr }) / 10000;
    let r = chan_exec(lr);
    let g = chan_exec(lg);
    let b = chan_exec(lb);
    (RgbTuple { r, g, b })
}

/// The conversion round trip is exact at black.
pub proof fn lemma_round_trip_black()
    ensures
        to_rgb_spec(to_uniform_spec(RgbTuple { r: 0, g: 0, b: 0 })) == (RgbTuple {
            r: 0,
            g: 0,
            b: 0,
        }),
{
    let c = RgbTuple { r: 0, g: 0, b: 0 };
    assert(tri_x(c) == 0 && tri_y(c) == 0 && tri_z(c) == 0);
    assert(is_cbrt_floor(0, 0));
    lemma_cbrt_floor_unique(0, 0);
    assert(froot(0) == 0);
    let s = to_uniform_spec(c);
    assert(s.l == 0 && s.a == CHROMA_OFFSET && s.b == CHROMA_OFFSET);
    assert(finv(0) == 0);
    assert(is_sqrt_floor(0, 0));
    lemma_sqrt_floor_unique(0, 0);
    assert(chan_of(0) == 0u8);
}

/// The conversion round trip is exact at white.
pub proof fn lemma_round_trip_white()
    ensures
        to_rgb_spec(to_uniform_spec(RgbTuple { r: 255, g: 255, b: 255 })) == (RgbTuple {
            r: 255,
            g: 255,
            b: 255,
        }),
{
    let c = RgbTuple { r: 255, g: 255, b: 255 };
    assert(lin_of(255) == 65_025) by (nonlinear_arith);
    assert(tri_x(c) == 16_646_400);
    assert(tri_y(c) == 16_646_400);
    assert(tri_z(c) == 16_646_400);
    let v = 16_646_400 * 1_073_741_824 / 65_025 * 1024;
    assert(v == 281_474_976_710_656int);
    assert(is_cbrt_floor(281_474_976_710_656, 65_536)) by (nonlinear_arith);
    lemma_cbrt_floor_unique(281_474_976_710_656, 65_536);
    assert(froot(16_646_400) == 65_536);
    let s = to_uniform_spec(c);
    assert(s.l == 1_900_544 && s.a == CHROMA_OFFSET && s.b == CHROMA_OFFSET);
    assert(s.l / 29 == 65_536);
    assert(finv(65_536) == 16_646_400) by (nonlinear_arith);
    let lr = clamp_low(30802 * 16_646_400 - 15372 * 16_646_400 - 5430 * 16_646_400) / 10000;
    assert(lr == 16_646_400);
    let lg = clamp_low(-9209 * 16_646_400 + 18758 * 16_646_400 + 452 * 16_646_400) / 10000;
    assert(lg == 16_648_064);
    let lb = clamp_low(529 * 16_646_400 - 2040 * 16_646_400 + 11511 * 16_646_400) / 10000;
    assert(lb == 16_646_400);
    assert(is_sqrt_floor(16_646_400, 4080)) by (nonlinear_arith);
    lemma_sqrt_floor_unique(16_646_400, 4080);
    assert(is_sqrt_floor(16_648_064, 4080)) by (nonlinear_arith);
    lemma_sqrt_floor_unique(16_648_064, 4080);
    assert(chan_of(16_646_400) == 255u8);
    assert(chan_of(16_648_064) == 255u8);
}

// ---------------------------------------------------------------------------
// Hex rendering.
// ---------------------------------------------------------------------------

/// The lowercase hexadecimal digit for `d` in `[0, 15]`.
pub open spec fn hex_char(d: int) -> char {
    if d == 0 { '0' }
    else if d == 1 { '1' }
    else if d == 2 { '2' }
    else if d == 3 { '3' }
    else if d == 4 { '4' }
    else if d == 5 { '5' }
    else if d == 6 { '6' }
    else if d == 7 { '7' }
    else if d == 8 { '8' }
    else if d == 9 { '9' }
    else if d == 10 { 'a' }
    else if d == 11 { 'b' }
    else if d == 12 { 'c' }
    else if d == 13 { 'd' }
    else if d == 14 { 'e' }
    else { 'f' }
}

/// Two zero-padded lowercase hex digits of one byte.
pub open spec fn hex_pair(v: int) -> Seq<char> {
    seq![hex_char(v / 16), hex_char(v % 16)]
}

/// The `#rrggbb` rendering of an RGB value.
pub open spec fn hex_of(c: RgbTuple) -> Seq<char> {
    seq!['#'] + hex_pair(c.r as int) + hex_pair(c.g as int) + hex_pair(c.b as int)
}

/// One lowercase hexadecimal digit.
fn hex_digit(d: u8) -> (r: &'static str)
    requires
        d < 16,
    ensures
        r@ == seq![hex_char(d as int)],
{
    proof {
        reveal_strlit("0");
        reveal_strlit("1");
        reveal_strlit("2");
        reveal_strlit("3");
        reveal_strlit("4");
        reveal_strlit("5");
        reveal_strlit("6");
        reveal_strlit("7");
        reveal_strlit("8");
        reveal_strlit("9");
        reveal_strlit("a");
        reveal_strlit("b");
        reveal_strlit("c");
        reveal_strlit("d");
        reveal_strlit("e");
        reveal_strlit("f");
    }
    let r = match d {
        0 => "0",
        1 => "1",
        2 => "2",
        3 => "3",
        4 => "4",
        5 => "5",
        6 => "6",
        7 => "7",
        8 => "8",
        9 => "9",
        10 => "a",
        11 => "b",
        12 => "c",
        13 => "d",
        14 => "e",
        _ => "f",
    };
    proof {
        assert(r@ =~= seq![hex_char(d as int)]);
    }
    r
}

/// Renders an RGB value as a lowercase `#rrggbb` string.
pub fn hex_string(c: RgbTuple) -> (s: String)
    ensures
        s@ == hex_of(c),
{
    let mut s = String::new();
    proof {
        reveal_strlit("#");
    }
    s.append("#");
    s.append(hex_digit(c.r / 16));
    s.append(hex_digit(c.r % 16));
    s.append(hex_digit(c.g / 16));
    s.append(hex_digit(c.g % 16));
    s.append(hex_digit(c.b / 16));
    s.append(hex_digit(c.b % 16));
    proof {
        assert(s@ =~= hex_of(c));
    }
    s
}

} // verus!
