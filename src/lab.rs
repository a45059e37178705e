//! CIELAB (D65) in fixed point, with lightness doubled.
//!
//! Intermediate values are scaled so that `1.0` is `65536`; the gamma power
//! `2.4` is taken as a square times a fifth root of the square, and each root
//! is rounded down. The linear branch of the companding function and the
//! three results, in hundredths, are rounded to nearest.
use crate::features::FEATURE_LIMIT;
use vstd::arithmetic::div_mod::{lemma_fundamental_div_mod, lemma_fundamental_div_mod_converse};
use vstd::prelude::*;

verus! {

/// `b` to the power `e`.
pub open spec fn power(b: nat, e: nat) -> nat
    decreases e,
{
    if e == 0 {
        1
    } else {
        b * power(b, (e - 1) as nat)
    }
}

/// The `e`-th root of `n`, rounded down.
pub open spec fn floor_root(n: nat, e: nat) -> nat {
    root_from(n, e, n)
}

/// The largest `r <= k` with `r^e <= n` (zero if there is none).
pub open spec fn root_from(n: nat, e: nat, k: nat) -> nat
    decreases k,
{
    if k == 0 {
        0
    } else if power(k, e) <= n {
        k
    } else {
        root_from(n, e, (k - 1) as nat)
    }
}

proof fn lemma_power_mono(a: nat, b: nat, e: nat)
    requires
        a <= b,
    ensures
        power(a, e) <= power(b, e),
    decreases e,
{
    if e > 0 {
        lemma_power_mono(a, b, (e - 1) as nat);
        let pa = power(a, (e - 1) as nat);
        let pb = power(b, (e - 1) as nat);
        assert(a * pa <= b * pb) by (nonlinear_arith)
            requires
                a <= b,
                pa <= pb,
        ;
    }
}

proof fn lemma_power_at_least_base(b: nat, e: nat)
    requires
        e >= 1,
    ensures
        b == 0 || power(b, e) >= b,
    decreases e,
{
    assert(power(b, 0) == 1);
    assert(power(b, 1) == b * power(b, 0));
    if e > 1 && b > 0 {
        lemma_power_at_least_base(b, (e - 1) as nat);
        let p = power(b, (e - 1) as nat);
        assert(b * p >= b) by (nonlinear_arith)
            requires
                b > 0,
                p >= b,
        ;
    }
}

/// The floor root is the one `r` with `r^e <= n < (r + 1)^e`.
pub proof fn lemma_floor_root_unique(n: nat, e: nat, r: nat)
    requires
        e >= 1,
        power(r, e) <= n < power(r + 1, e),
    ensures
        floor_root(n, e) == r,
{
    lemma_power_at_least_base(r, e);
    lemma_root_from(n, e, r, n);
}

proof fn lemma_root_from(n: nat, e: nat, r: nat, k: nat)
    requires
        e >= 1,
        power(r, e) <= n < power(r + 1, e),
        r <= k,
    ensures
        root_from(n, e, k) == r,
    decreases k,
{
    if k > r {
        lemma_power_mono(r + 1, k, e);
        lemma_root_from(n, e, r, (k - 1) as nat);
    }
}

proof fn lemma_power_3(b: nat)
    ensures
        power(b, 3) == b * b * b,
{
    assert(power(b, 1) == b * power(b, 0));
    assert(power(b, 2) == b * power(b, 1));
    assert(power(b, 3) == b * power(b, 2));
    assert(b * (b * (b * 1)) == b * b * b) by (nonlinear_arith);
}

proof fn lemma_power_5(b: nat)
    ensures
        power(b, 5) == b * b * b * b * b,
{
    lemma_power_3(b);
    assert(power(b, 4) == b * power(b, 3));
    assert(power(b, 5) == b * power(b, 4));
    assert(b * (b * (b * b * b)) == b * b * b * b * b) by (nonlinear_arith);
}

/// Cube root, rounded down, of `n < 2^69`.
fn cube_root(n: u128) -> (r: u128)
    requires
        n < 0x20_0000_0000_0000_0000,
    ensures
        r == floor_root(n as nat, 3),
        r < 0x100_0000,
{
    let mut lo: u128 = 0;
    let mut hi: u128 = 0x100_0000;
    proof {
        lemma_power_3(lo as nat);
        lemma_power_3(hi as nat);
    }
    while hi - lo > 1
        invariant
            lo < hi <= 0x100_0000,
            lo * lo * lo <= n,
            n < hi * hi * hi,
        decreases hi - lo,
    {
        let mid: u128 = lo + (hi - lo) / 2;
        assert(mid * mid <= 0x100_0000 * 0x100_0000 && mid * mid * mid <= 0x100_0000 * 0x100_0000
            * 0x100_0000) by (nonlinear_arith)
            requires
                mid <= 0x100_0000,
        ;
        if mid * mid * mid <= n {
            lo = mid;
        } else {
            hi = mid;
        }
    }
    proof {
        lemma_power_3(lo as nat);
        lemma_power_3((lo + 1) as nat);
        lemma_floor_root_unique(n as nat, 3, lo as nat);
    }
    lo
}

/// Fifth root, rounded down, of `n < 2^85`.
fn fifth_root(n: u128) -> (r: u128)
    requires
        n < 0x20_0000_0000_0000_0000_0000,
    ensures
        r == floor_root(n as nat, 5),
        r < 0x2_0000,
{
    let mut lo: u128 = 0;
    let mut hi: u128 = 0x2_0000;
    proof {
        lemma_power_5(lo as nat);
        lemma_power_5(hi as nat);
    }
    while hi - lo > 1
        invariant
            lo < hi <= 0x2_0000,
            lo * lo * lo * lo * lo <= n,
            n < hi * hi * hi * hi * hi,
        decreases hi - lo,
    {
        let mid: u128 = lo + (hi - lo) / 2;
        assert(mid * mid <= 0x4_0000_0000) by (nonlinear_arith)
            requires
                mid <= 0x2_0000,
        ;
        assert(mid * mid * mid <= 0x8_0000_0000_0000) by (nonlinear_arith)
            requires
                mid <= 0x2_0000,
                mid * mid <= 0x4_0000_0000,
        ;
        assert(mid * mid * mid * mid <= 0x10_0000_0000_0000_0000) by (nonlinear_arith)
            requires
                mid <= 0x2_0000,
                mid * mid * mid <= 0x8_0000_0000_0000,
        ;
        assert(mid * mid * mid * mid * mid <= 0x20_0000_0000_0000_0000_0000) by (nonlinear_arith)
            requires
                mid <= 0x2_0000,
                mid * mid * mid * mid <= 0x10_0000_0000_0000_0000,
        ;
        if mid * mid * mid * mid * mid <= n {
            lo = mid;
        } else {
            hi = mid;
        }
    }
    proof {
        lemma_power_5(lo as nat);
        lemma_power_5((lo + 1) as nat);
        lemma_floor_root_unique(n as nat, 5, lo as nat);
    }
    lo
}

/// A channel value `v / 255` made linear (the inverse sRGB gamma), scaled by
/// `65536`: `v / 255 / 12.92` up to `0.04045`, `((v / 255 + 0.055) / 1.055)^2.4`
/// above.
pub open spec fn linear_channel(v: u8) -> int {
    if v <= 10 {
        (v * 6553600) / 329460
    } else {
        let t = ((1000 * v + 14025) * 65536) / 269025;
        let u = (t * t) / 65536;
        (u * floor_root((u * 0x1_0000_0000_0000_0000) as nat, 5)) / 65536
    }
}

/// The CIELAB companding function of `t / 65536`, scaled by `65536`: the
/// cube root above `0.008856`, `7.787 t + 16 / 116` (rounded to nearest) below.
pub open spec fn lab_f(t: int) -> int {
    if t * 1000000 > 8856 * 65536 {
        floor_root((t * 0x1_0000_0000) as nat, 3) as int
    } else {
        (903292 * t + 1048634000) / 116000
    }
}

/// The CIELAB features of the pixel `(r, g, b)` in hundredths: `2 L`, `a`, `b`.
pub open spec fn lab_features(r: u8, g: u8, b: u8) -> Seq<i64> {
    let lr = linear_channel(r);
    let lg = linear_channel(g);
    let lb = linear_channel(b);
    let x = ((4124 * lr + 3576 * lg + 1805 * lb) * 10) / 95047;
    let y = (2126 * lr + 7152 * lg + 722 * lb) / 10000;
    let z = ((193 * lr + 1192 * lg + 9505 * lb) * 10) / 108883;
    let l = 116 * lab_f(y) - 16 * 65536;
    let da = lab_f(x) - lab_f(y);
    let db = lab_f(y) - lab_f(z);
    seq![
        round_scale(200 * l) as i64,
        round_scale(50000 * da) as i64,
        round_scale(20000 * db) as i64,
    ]
}

fn linear_channel_exec(v: u8) -> (r: u128)
    ensures
        r == linear_channel(v),
        r < 0x8_0000,
{
    if v <= 10 {
        (v as u128 * 6553600) / 329460
    } else {
        let t: u128 = ((1000 * v as u128 + 14025) * 65536) / 269025;
        assert(t <= 65536) by (nonlinear_arith)
            requires
                t == ((1000 * v + 14025) * 65536) / 269025,
                v <= 255,
        ;
        assert(t * t <= 65536 * 65536) by (nonlinear_arith)
            requires
                t <= 65536,
        ;
        let u: u128 = (t * t) / 65536;
        assert(u <= 65536) by (nonlinear_arith)
            requires
                u == (t * t) / 65536,
                t <= 65536,
        ;
        let root = fifth_root(u * 0x1_0000_0000_0000_0000);
        assert((u * root) / 65536 < 0x8_0000) by (nonlinear_arith)
            requires
                u <= 65536,
                root < 0x2_0000,
        ;
        (u * root) / 65536
    }
}

fn lab_f_exec(t: u128) -> (r: u128)
    requires
        t < 0x20_0000_0000,
    ensures
        r == lab_f(t as int),
        r < 0x100_0000,
{
    if t * 1000000 > 8856 * 65536 {
        cube_root(t * 0x1_0000_0000)
    } else {
        assert((903292 * t + 1048634000) / 116000 < 0x100_0000) by (nonlinear_arith)
            requires
                t * 1000000 <= 8856 * 65536,
        ;
        (903292 * t + 1048634000) / 116000
    }
}

/// `n / 65536` rounded to nearest, halves up.
pub open spec fn round_scale(n: int) -> int {
    (n + 32768) / 65536
}

/// `n / 65536`, rounded to nearest.
fn scale_down(n: i128) -> (r: i64)
    requires
        -0x400_0000_0000 < n < 0x400_0000_0000,
    ensures
        r == round_scale(n as int),
        -FEATURE_LIMIT <= r <= FEATURE_LIMIT,
{
    let m: i128 = n + 32768;
    let shifted: u128 = (m + 0x800_0000_0000) as u128;
    let q: u128 = shifted / 65536;
    proof {
        lemma_fundamental_div_mod(m as int, 65536);
        lemma_fundamental_div_mod_converse(
            shifted as int,
            65536,
            (m as int) / 65536 + 0x800_0000,
            (m as int) % 65536,
        );
        assert(-0x800_0000 <= m / 65536 < 0x800_0000) by (nonlinear_arith)
            requires
                m == 65536 * (m / 65536) + m % 65536,
                0 <= m % 65536 < 65536,
                -0x800_0000_0000 < m < 0x800_0000_0000,
        ;
    }
    (q as i128 - 0x800_0000) as i64
}

/// The CIELAB features of one pixel.
pub fn to_lab(r: u8, g: u8, b: u8) -> (v: Vec<i64>)
    ensures
        v@ == lab_features(r, g, b),
        v@.len() == 3,
        forall|i: int| 0 <= i < v@.len() ==> -FEATURE_LIMIT <= #[trigger] v@[i] <= FEATURE_LIMIT,
{
    let lr = linear_channel_exec(r);
    let lg = linear_channel_exec(g);
    let lb = linear_channel_exec(b);
    let x = ((4124 * lr + 3576 * lg + 1805 * lb) * 10) / 95047;
    let y = (2126 * lr + 7152 * lg + 722 * lb) / 10000;
    let z = ((193 * lr + 1192 * lg + 9505 * lb) * 10) / 108883;
    assert(x < 0x20_0000_0000 && y < 0x20_0000_0000 && z < 0x20_0000_0000) by (nonlinear_arith)
        requires
            lr < 0x8_0000,
            lg < 0x8_0000,
            lb < 0x8_0000,
            x == ((4124 * lr + 3576 * lg + 1805 * lb) * 10) / 95047,
            y == (2126 * lr + 7152 * lg + 722 * lb) / 10000,
            z == ((193 * lr + 1192 * lg + 9505 * lb) * 10) / 108883,
    ;
    let fx = lab_f_exec(x) as i128;
    let fy = lab_f_exec(y) as i128;
    let fz = lab_f_exec(z) as i128;
    let l: i128 = 116 * fy - 16 * 65536;
    let da: i128 = fx - fy;
    let db: i128 = fy - fz;
    let v = vec![scale_down(200 * l), scale_down(50000 * da), scale_down(20000 * db)];
    proof {
        assert(v@ =~= lab_features(r, g, b));
    }
    v
}

/// Lightness at the two ends of the grey axis: pure white has doubled
/// lightness 200.00, pure black 0.00.
pub proof fn lemma_lab_lightness_extremes()
    ensures
        lab_features(255, 255, 255)[0] == 20000,
        lab_features(0, 0, 0)[0] == 0,
        linear_channel(255) == 65536,
        linear_channel(0) == 0,
        lab_f(65536) == 65536,
{
    let one: nat = 65536;
    lemma_power_5(one);
    lemma_power_5(one + 1);
    assert(one * one * one * one * one == 0x1_0000_0000_0000_0000_0000);
    assert(65537 * 65537 * 65537 * 65537 * 65537 > 0x1_0000_0000_0000_0000_0000);
    lemma_floor_root_unique(0x1_0000_0000_0000_0000_0000, 5, one);
    assert(((1000 * 255 + 14025) * 65536) / 269025 == 65536);
    assert((65536 * 65536) / 65536 == 65536);
    assert(linear_channel(255) == 65536);
    lemma_power_3(one);
    lemma_power_3(one + 1);
    assert(one * one * one == 0x1_0000_0000_0000);
    assert(65537 * 65537 * 65537 > 0x1_0000_0000_0000);
    lemma_floor_root_unique(0x1_0000_0000_0000, 3, one);
    assert(lab_f(65536) == 65536);
    assert(linear_channel(0) == 0);
    assert(lab_f(0) == 9039);
}

proof fn lemma_cube_root_at(n: nat, r: nat)
    requires
        r * r * r <= n < (r + 1) * (r + 1) * (r + 1),
    ensures
        floor_root(n, 3) == r,
{
    lemma_power_3(r);
    lemma_power_3(r + 1);
    lemma_floor_root_unique(n, 3, r);
}

/// The doubled lightness of red, green, blue and white, in hundredths.
pub proof fn lemma_primary_lightness()
    ensures
        lab_features(255, 0, 0)[0] == 10646,
        lab_features(0, 255, 0)[0] == 17547,
        lab_features(0, 0, 255)[0] == 6460,
        lab_features(255, 255, 255)[0] == 20000,
{
    lemma_lab_lightness_extremes();
    assert(linear_channel(255) == 65536);
    assert(linear_channel(0) == 0);
    assert(39113 * 39113 * 39113 <= 13932 * 0x1_0000_0000 < 39114 * 39114 * 39114);
    lemma_cube_root_at(13932 * 0x1_0000_0000, 39113);
    assert(58607 * 58607 * 58607 <= 46871 * 0x1_0000_0000 < 58608 * 58608 * 58608);
    lemma_cube_root_at(46871 * 0x1_0000_0000, 58607);
    assert(27287 * 27287 * 27287 <= 4731 * 0x1_0000_0000 < 27288 * 27288 * 27288);
    lemma_cube_root_at(4731 * 0x1_0000_0000, 27287);
    assert(lab_f(13932) == 39113);
    assert(lab_f(46871) == 58607);
    assert(lab_f(4731) == 27287);
}

} // verus!
