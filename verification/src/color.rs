//! HSV conversion in the 8-bit convention of OpenCV: H in 0..=180 (degrees halved),
//! S and V in 0..=255.

use vstd::prelude::*;

use vstd::arithmetic::div_mod::{lemma_fundamental_div_mod, lemma_fundamental_div_mod_converse};

verus! {

pub open spec fn max3(r: int, g: int, b: int) -> int {
    if r >= g && r >= b { r } else if g >= b { g } else { b }
}

pub open spec fn min3(r: int, g: int, b: int) -> int {
    if r <= g && r <= b { r } else if g <= b { g } else { b }
}

/// `n / d` rounded to the nearest integer, halves rounded up (`n >= 0`, `d > 0`).
pub open spec fn round_div(n: int, d: int) -> int {
    (2 * n + d) / (2 * d)
}

/// The hue angle in degrees multiplied by the chroma `max - min`: in `0 .. 360 * chroma`.
/// The sector is chosen by which channel holds the maximum, red first, then green.
pub open spec fn hue_scaled(r: int, g: int, b: int) -> int {
    let v = max3(r, g, b);
    let c = v - min3(r, g, b);
    let n = if v == r {
        60 * (g - b)
    } else if v == g {
        120 * c + 60 * (b - r)
    } else {
        240 * c + 60 * (r - g)
    };
    if n < 0 { n + 360 * c } else { n }
}

/// Hue: degrees halved and rounded (0 for grey).
pub open spec fn hsv_h(r: int, g: int, b: int) -> int {
    let c = max3(r, g, b) - min3(r, g, b);
    if c == 0 { 0 } else { round_div(hue_scaled(r, g, b), 2 * c) }
}

/// Saturation: `255 * chroma / value`, rounded (0 for black).
pub open spec fn hsv_s(r: int, g: int, b: int) -> int {
    let v = max3(r, g, b);
    if v > 0 { round_div(255 * (v - min3(r, g, b)), v) } else { 0 }
}

/// Value: the largest channel.
pub open spec fn hsv_v(r: int, g: int, b: int) -> int {
    max3(r, g, b)
}

pub proof fn lemma_hue_bounds(r: int, g: int, b: int)
    requires
        0 <= r <= 255,
        0 <= g <= 255,
        0 <= b <= 255,
        max3(r, g, b) > min3(r, g, b),
    ensures
        0 <= hue_scaled(r, g, b) < 360 * (max3(r, g, b) - min3(r, g, b)),
        0 <= hsv_h(r, g, b) <= 180,
{
    let c = max3(r, g, b) - min3(r, g, b);
    let n = hue_scaled(r, g, b);
    let x = 2 * n + 2 * c;
    let d = 4 * c;
    lemma_fundamental_div_mod(x, d);
    let q = x / d;
    assert(0 <= q <= 180) by (nonlinear_arith)
        requires 0 <= n < 360 * c, c > 0, x == 2 * n + 2 * c, d == 4 * c, x == d * q + x % d, 0 <= x % d < d;
}

pub proof fn lemma_sat_bounds(r: int, g: int, b: int)
    requires
        0 <= r <= 255,
        0 <= g <= 255,
        0 <= b <= 255,
    ensures
        0 <= hsv_s(r, g, b) <= 255,
{
    let v = max3(r, g, b);
    let c = v - min3(r, g, b);
    if v > 0 {
        assert(0 <= (2 * (255 * c) + v) / (2 * v) <= 255) by (nonlinear_arith)
            requires 0 <= c <= v, v > 0;
    }
}

/// Greys (equal channels) have hue and saturation 0 and value equal to the grey level.
pub proof fn lemma_hsv_grey(v: int)
    requires
        0 <= v,
    ensures
        hsv_h(v, v, v) == 0,
        hsv_s(v, v, v) == 0,
        hsv_v(v, v, v) == v,
{
    lemma_round_zero(v);
}

proof fn lemma_round_zero(v: int)
    ensures
        v > 0 ==> round_div(0, v) == 0,
{
    if v > 0 {
        assert((2 * 0 + v) / (2 * v) == 0) by (nonlinear_arith)
            requires v > 0;
    }
}

/// Saturation is zero exactly for greys.
pub proof fn lemma_sat_zero_iff_grey(r: int, g: int, b: int)
    requires
        0 <= r <= 255,
        0 <= g <= 255,
        0 <= b <= 255,
    ensures
        hsv_s(r, g, b) == 0 <==> max3(r, g, b) == min3(r, g, b),
{
    let v = max3(r, g, b);
    let c = v - min3(r, g, b);
    lemma_round_zero(v);
    if v > 0 && c > 0 {
        assert((2 * (255 * c) + v) / (2 * v) >= 1) by (nonlinear_arith)
            requires 1 <= c <= v, v <= 255;
    }
}

/// Saturation is full exactly when the smallest channel is zero and the colour is not black.
pub proof fn lemma_sat_full_iff_min_zero(r: int, g: int, b: int)
    requires
        0 <= r <= 255,
        0 <= g <= 255,
        0 <= b <= 255,
    ensures
        hsv_s(r, g, b) == 255 <==> (min3(r, g, b) == 0 && max3(r, g, b) > 0),
{
    let v = max3(r, g, b);
    let c = v - min3(r, g, b);
    if v > 0 {
        if c == v {
            assert((2 * (255 * c) + v) / (2 * v) == 255) by (nonlinear_arith)
                requires c == v, v > 0;
        } else {
            assert((2 * (255 * c) + v) / (2 * v) < 255) by (nonlinear_arith)
                requires 0 <= c < v, v <= 255;
        }
    }
}

proof fn lemma_round_in(n: int, c: int, lo: int, hi: int)
    requires
        c > 0,
        2 * lo * c <= n <= 2 * hi * c,
    ensures
        lo <= round_div(n, 2 * c) <= hi,
{
    let q = round_div(n, 2 * c);
    lemma_fundamental_div_mod(2 * n + 2 * c, 4 * c);
    assert(lo <= q <= hi) by (nonlinear_arith)
        requires
            c > 0,
            2 * lo * c <= n <= 2 * hi * c,
            2 * n + 2 * c == (4 * c) * q + (2 * n + 2 * c) % (4 * c),
            0 <= (2 * n + 2 * c) % (4 * c) < 4 * c;
}

/// Hue sectors (8-bit hue = degrees / 2): the hue of a colour lies between the hues of
/// the two primaries or secondaries that bracket it.
/// - red largest: towards yellow (g >= b) 0..=30, towards magenta (b > g) 150..=180;
/// - green largest: towards yellow (r > b) 30..=60, towards cyan (b >= r) 60..=90;
/// - blue largest: towards cyan (g > r) 90..=120, towards magenta (r >= g) 120..=150.
pub proof fn lemma_hue_sectors(r: int, g: int, b: int)
    requires
        0 <= r <= 255,
        0 <= g <= 255,
        0 <= b <= 255,
        max3(r, g, b) > min3(r, g, b),
    ensures
        r >= g && r >= b && g >= b ==> 0 <= hsv_h(r, g, b) <= 30,
        r >= g && r >= b && b > g ==> 150 <= hsv_h(r, g, b) <= 180,
        g > r && g >= b && r > b ==> 30 <= hsv_h(r, g, b) <= 60,
        g > r && g >= b && b >= r ==> 60 <= hsv_h(r, g, b) <= 90,
        b > r && b > g && g > r ==> 90 <= hsv_h(r, g, b) <= 120,
        b > r && b > g && r >= g ==> 120 <= hsv_h(r, g, b) <= 150,
{
    let c = max3(r, g, b) - min3(r, g, b);
    let n = hue_scaled(r, g, b);
    if r >= g && r >= b {
        if g >= b {
            lemma_round_in(n, c, 0, 30);
        } else {
            lemma_round_in(n, c, 150, 180);
        }
    } else if g >= b {
        if r > b {
            lemma_round_in(n, c, 30, 60);
        } else {
            lemma_round_in(n, c, 60, 90);
        }
    } else {
        if g > r {
            lemma_round_in(n, c, 90, 120);
        } else {
            lemma_round_in(n, c, 120, 150);
        }
    }
}

/// Primaries and secondaries of any brightness sit at the sector ends: red 0, yellow 30,
/// green 60, cyan 90, blue 120, magenta 150.
pub proof fn lemma_hue_primaries(v: int)
    requires
        0 < v <= 255,
    ensures
        hsv_h(v, 0, 0) == 0,
        hsv_h(v, v, 0) == 30,
        hsv_h(0, v, 0) == 60,
        hsv_h(0, v, v) == 90,
        hsv_h(0, 0, v) == 120,
        hsv_h(v, 0, v) == 150,
{
    lemma_round_in(0, v, 0, 0);
    lemma_round_in(60 * v, v, 30, 30);
    lemma_round_in(120 * v, v, 60, 60);
    lemma_round_in(180 * v, v, 90, 90);
    lemma_round_in(240 * v, v, 120, 120);
    lemma_round_in(300 * v, v, 150, 150);
}

proof fn lemma_round_shift(n: int, c: int, k: int)
    requires
        c > 0,
    ensures
        round_div(n + 2 * k * c, 2 * c) == round_div(n, 2 * c) + k,
{
    let x = 2 * n + 2 * c;
    let d = 4 * c;
    lemma_fundamental_div_mod(x, d);
    let q = x / d;
    let m = x % d;
    assert(2 * (n + 2 * k * c) + 2 * c == (q + k) * d + m) by (nonlinear_arith)
        requires x == 2 * n + 2 * c, d == 4 * c, x == d * q + m;
    lemma_fundamental_div_mod_converse(2 * (n + 2 * k * c) + 2 * c, d, q + k, m);
}

/// Rotating the channels (r, g, b) -> (b, r, g) turns the hue by 120 degrees: the
/// degree-times-chroma hue moves by `120 * chroma` around the circle, and the 8-bit hue
/// by 60 (modulo 180, where 180 and 0 are the same red).
pub proof fn lemma_hue_rotation(r: int, g: int, b: int)
    requires
        0 <= r <= 255,
        0 <= g <= 255,
        0 <= b <= 255,
        max3(r, g, b) > min3(r, g, b),
    ensures
        hue_scaled(b, r, g) == (hue_scaled(r, g, b) + 120 * (max3(r, g, b) - min3(r, g, b))) % (360 * (
        max3(r, g, b) - min3(r, g, b))),
        hsv_h(b, r, g) % 180 == (hsv_h(r, g, b) + 60) % 180,
{
    let c = max3(r, g, b) - min3(r, g, b);
    let n = hue_scaled(r, g, b);
    lemma_hue_bounds(r, g, b);
    assert(max3(b, r, g) - min3(b, r, g) == c);
    if n + 120 * c < 360 * c {
        assert(hue_scaled(b, r, g) == n + 120 * c);
        lemma_fundamental_div_mod_converse(n + 120 * c, 360 * c, 0, n + 120 * c);
        lemma_round_shift(n, c, 60);
    } else {
        assert(hue_scaled(b, r, g) == n + 120 * c - 360 * c);
        lemma_fundamental_div_mod_converse(n + 120 * c, 360 * c, 1, n + 120 * c - 360 * c);
        lemma_round_shift(n, c, -120);
        assert(n + 2 * (-120) * c == n + 120 * c - 360 * c);
    }
}

/// Swapping red and green mirrors the hue about yellow (60 degrees): the
/// degree-times-chroma hue `n` becomes `120 * chroma - n` around the circle.
pub proof fn lemma_hue_mirror(r: int, g: int, b: int)
    requires
        0 <= r <= 255,
        0 <= g <= 255,
        0 <= b <= 255,
        max3(r, g, b) > min3(r, g, b),
    ensures
        hue_scaled(g, r, b) == (480 * (max3(r, g, b) - min3(r, g, b)) - hue_scaled(r, g, b)) % (360 * (
        max3(r, g, b) - min3(r, g, b))),
{
    let c = max3(r, g, b) - min3(r, g, b);
    let n = hue_scaled(r, g, b);
    lemma_hue_bounds(r, g, b);
    assert(max3(g, r, b) - min3(g, r, b) == c);
    if n <= 120 * c {
        assert(hue_scaled(g, r, b) == 120 * c - n);
        lemma_fundamental_div_mod_converse(480 * c - n, 360 * c, 1, 120 * c - n);
    } else {
        assert(hue_scaled(g, r, b) == 480 * c - n);
        lemma_fundamental_div_mod_converse(480 * c - n, 360 * c, 0, 480 * c - n);
    }
}

/// RGB (8 bit) to HSV (8 bit, H halved to 0..=180), OpenCV convention.
pub fn rgb_to_hsv(rgb: [u8; 3]) -> (hsv: [u8; 3])
    ensures
        hsv[0] == hsv_h(rgb[0] as int, rgb[1] as int, rgb[2] as int),
        hsv[1] == hsv_s(rgb[0] as int, rgb[1] as int, rgb[2] as int),
        hsv[2] == hsv_v(rgb[0] as int, rgb[1] as int, rgb[2] as int),
{
    let r = rgb[0] as i32;
    let g = rgb[1] as i32;
    let b = rgb[2] as i32;
    let v = if r >= g && r >= b { r } else if g >= b { g } else { b };
    let mn = if r <= g && r <= b { r } else if g <= b { g } else { b };
    let diff = v - mn;
    proof {
        lemma_sat_bounds(r as int, g as int, b as int);
    }
    let s: i32 = if v > 0 { (2 * (255 * diff) + v) / (2 * v) } else { 0 };
    let h: i32 = if diff > 0 {
        let n0: i32 = if v == r {
            60 * (g - b)
        } else if v == g {
            120 * diff + 60 * (b - r)
        } else {
            240 * diff + 60 * (r - g)
        };
        let n: i32 = if n0 < 0 { n0 + 360 * diff } else { n0 };
        proof {
            lemma_hue_bounds(r as int, g as int, b as int);
        }
        let h2: i32 = (2 * n + 2 * diff) / (4 * diff);
        if h2 > 180 { 180 } else { h2 }
    } else {
        0
    };
    [h as u8, s as u8, v as u8]
}

} // verus!
