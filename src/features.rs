//! Feature maps: each pixel turned into a short integer vector under a colour
//! space, and the distance between two maps of one shape.
use crate::raster::{pixel_index, Image};
use vstd::arithmetic::div_mod::lemma_fundamental_div_mod_converse;
use vstd::prelude::*;

verus! {

/// Largest magnitude of a feature value.
pub const FEATURE_LIMIT: i64 = 0x1000_0000;

/// The colour space in which pixels are compared. Feature values are in
/// hundredths of a unit of the space.
#[derive(Clone, Copy, Debug, PartialEq, Eq, Structural)]
pub enum ColorSpace {
    /// The three channels as they are.
    Rgb,
    /// CIELAB under D65, with lightness doubled.
    Lab,
    /// One luma value, `0.3 R + 0.59 G + 0.11 B`.
    Gray,
}

/// Number of values per pixel under `cs`.
pub open spec fn arity_of(cs: ColorSpace) -> nat {
    match cs {
        ColorSpace::Gray => 1,
        _ => 3,
    }
}

/// The feature vector of the pixel `(r, g, b)` under `cs`.
pub open spec fn pixel_features(cs: ColorSpace, r: u8, g: u8, b: u8) -> Seq<i64> {
    match cs {
        ColorSpace::Rgb => seq![(100 * r) as i64, (100 * g) as i64, (100 * b) as i64],
        ColorSpace::Gray => seq![(30 * r + 59 * g + 11 * b) as i64],
        ColorSpace::Lab => crate::lab::lab_features(r, g, b),
    }
}

/// A `width` by `height` grid of feature vectors of `arity` values each, row-major.
#[derive(Clone, Debug)]
pub struct FeatureMap {
    pub width: u32,
    pub height: u32,
    pub arity: usize,
    pub values: Vec<i64>,
}

impl FeatureMap {
    pub open spec fn wf(&self) -> bool {
        &&& 1 <= self.arity <= 3
        &&& self.values@.len() == self.width * self.height * self.arity
        &&& forall|i: int|
            0 <= i < self.values@.len() ==> -FEATURE_LIMIT <= #[trigger] self.values@[i]
                <= FEATURE_LIMIT
    }

    pub open spec fn same_shape(&self, other: &FeatureMap) -> bool {
        &&& self.width == other.width
        &&& self.height == other.height
        &&& self.arity == other.arity
    }

    /// Value `k` of the vector at pixel `(x, y)`.
    pub open spec fn at(&self, x: int, y: int, k: int) -> i64 {
        self.values@[(y * self.width + x) * self.arity + k]
    }
}

/// The features of the `p`-th pixel of a row-major RGB buffer.
pub open spec fn features_at(cs: ColorSpace, pixels: Seq<u8>, p: int) -> Seq<i64> {
    pixel_features(cs, pixels[p * 3], pixels[p * 3 + 1], pixels[p * 3 + 2])
}

/// `fm` is the feature map of `img` under `cs`: same size, and the vector of
/// each pixel is the features of that pixel.
pub open spec fn is_feature_map_of(fm: FeatureMap, img: Image, cs: ColorSpace) -> bool {
    &&& fm.width == img.width
    &&& fm.height == img.height
    &&& fm.arity == arity_of(cs)
    &&& forall|p: int, k: int|
        0 <= p < img.width * img.height && 0 <= k < fm.arity ==> fm.values@[p * fm.arity + k]
            == #[trigger] features_at(cs, img.pixels@, p)[k]
}

/// Floor of the square root of `n`.
pub open spec fn floor_sqrt(n: nat) -> nat {
    sqrt_from(n, n)
}

/// The largest `r <= k` with `r * r <= n` (zero if there is none).
pub open spec fn sqrt_from(n: nat, k: nat) -> nat
    decreases k,
{
    if k == 0 {
        0
    } else if k * k <= n {
        k
    } else {
        sqrt_from(n, (k - 1) as nat)
    }
}

/// The floor square root is the one `r` with `r * r <= n < (r + 1) * (r + 1)`.
pub proof fn lemma_floor_sqrt_unique(n: nat, r: nat)
    requires
        r * r <= n < (r + 1) * (r + 1),
    ensures
        floor_sqrt(n) == r,
{
    assert(r <= n) by (nonlinear_arith)
        requires
            r * r <= n;
    lemma_sqrt_from(n, r, n);
}

proof fn lemma_sqrt_from(n: nat, r: nat, k: nat)
    requires
        r * r <= n < (r + 1) * (r + 1),
        r <= k,
    ensures
        sqrt_from(n, k) == r,
    decreases k,
{
    if k > r {
        assert(k * k > n) by (nonlinear_arith)
            requires
                k >= r + 1,
                n < (r + 1) * (r + 1),
        ;
        lemma_sqrt_from(n, r, (k - 1) as nat);
    }
}

/// Sum of the squared differences of `a` and `b` over `base .. base + k`.
pub open spec fn sq_diff_sum(a: Seq<i64>, b: Seq<i64>, base: int, k: nat) -> nat
    decreases k,
{
    if k == 0 {
        0
    } else {
        let d = a[base + k - 1] - b[base + k - 1];
        sq_diff_sum(a, b, base, (k - 1) as nat) + (d * d) as nat
    }
}

/// The square root of `n` rounded to nearest: `floor(sqrt(n) + 1/2)`, which
/// is `(floor(sqrt(4 n)) + 1) / 2` rounded down.
pub open spec fn round_sqrt(n: nat) -> nat {
    (floor_sqrt(4 * n) + 1) / 2
}

/// Sum over the first `n` pixels of the Euclidean norm (rounded to nearest)
/// of the difference of the two vectors of `arity` values at that pixel.
pub open spec fn distance_prefix(a: Seq<i64>, b: Seq<i64>, arity: nat, n: nat) -> nat
    decreases n,
{
    if n == 0 {
        0
    } else {
        distance_prefix(a, b, arity, (n - 1) as nat) + round_sqrt(
            sq_diff_sum(a, b, (n - 1) * arity, arity),
        )
    }
}

/// The distance of two feature maps of one shape: the sum over all pixels of
/// the Euclidean norm of the difference of their vectors, each rounded to nearest.
pub open spec fn distance(a: FeatureMap, b: FeatureMap) -> nat {
    distance_prefix(a.values@, b.values@, a.arity as nat, (a.width * a.height) as nat)
}

/// Floor of the square root of `n`.
pub fn floor_sqrt_exec(n: u64) -> (r: u64)
    requires
        n < 0x4000_0000_0000_0000,
    ensures
        r == floor_sqrt(n as nat),
        r < 0x8000_0000,
{
    let mut lo: u64 = 0;
    let mut hi: u64 = 0x8000_0000;
    while hi - lo > 1
        invariant
            lo < hi <= 0x8000_0000,
            lo * lo <= n,
            n < hi * hi,
        decreases hi - lo,
    {
        let mid: u64 = lo + (hi - lo) / 2;
        assert(mid * mid <= 0x4000_0000_0000_0000) by (nonlinear_arith)
            requires
                mid <= 0x8000_0000,
        ;
        if mid * mid <= n {
            lo = mid;
        } else {
            hi = mid;
        }
    }
    proof {
        lemma_floor_sqrt_unique(n as nat, lo as nat);
    }
    lo
}

/// Squared Euclidean norm of the difference of the vectors at `base`.
fn pixel_sq_diff(a: &Vec<i64>, b: &Vec<i64>, base: usize, arity: usize) -> (r: u64)
    requires
        1 <= arity <= 3,
        base + arity <= a@.len(),
        base + arity <= b@.len(),
        forall|i: int| 0 <= i < a@.len() ==> -FEATURE_LIMIT <= #[trigger] a@[i] <= FEATURE_LIMIT,
        forall|i: int| 0 <= i < b@.len() ==> -FEATURE_LIMIT <= #[trigger] b@[i] <= FEATURE_LIMIT,
    ensures
        r == sq_diff_sum(a@, b@, base as int, arity as nat),
        r < 0x1000_0000_0000_0000,
{
    let la = a.len();
    let lb = b.len();
    let mut s: u64 = 0;
    let mut k: usize = 0;
    while k < arity
        invariant
            la == a@.len(),
            lb == b@.len(),
            1 <= arity <= 3,
            base + arity <= a@.len(),
            base + arity <= b@.len(),
            forall|i: int| 0 <= i < a@.len() ==> -FEATURE_LIMIT <= #[trigger] a@[i] <= FEATURE_LIMIT,
            forall|i: int| 0 <= i < b@.len() ==> -FEATURE_LIMIT <= #[trigger] b@[i] <= FEATURE_LIMIT,
            k <= arity,
            s == sq_diff_sum(a@, b@, base as int, k as nat),
            s <= k * 0x0400_0000_0000_0000,
        decreases arity - k,
    {
        let x: i64 = a[base + k];
        let y: i64 = b[base + k];
        assert(-FEATURE_LIMIT <= a@[base + k] <= FEATURE_LIMIT);
        assert(-FEATURE_LIMIT <= b@[base + k] <= FEATURE_LIMIT);
        let d: i64 = x - y;
        assert(0 <= d * d <= 0x0400_0000_0000_0000) by (nonlinear_arith)
            requires
                -0x2000_0000 <= d <= 0x2000_0000,
        ;
        s = s + (d * d) as u64;
        k = k + 1;
    }
    s
}

/// The distance of two feature maps of one shape.
pub fn distance_exec(a: &FeatureMap, b: &FeatureMap) -> (r: u128)
    requires
        a.wf(),
        b.wf(),
        a.same_shape(b),
    ensures
        r == distance(*a, *b),
{
    let total = a.values.len();
    assert(a.width * a.height <= a.width * a.height * a.arity) by (nonlinear_arith)
        requires
            a.arity >= 1,
    ;
    let n: usize = a.width as usize * a.height as usize;
    let arity = a.arity;
    let mut s: u128 = 0;
    let mut p: usize = 0;
    while p < n
        invariant
            a.wf(),
            b.wf(),
            a.same_shape(b),
            n == a.width * a.height,
            total == a.values@.len(),
            arity == a.arity,
            p <= n,
            s == distance_prefix(a.values@, b.values@, arity as nat, p as nat),
            s <= p * 0x4000_0000,
        decreases n - p,
    {
        assert((p + 1) * arity <= n * arity) by (nonlinear_arith)
            requires
                p < n,
                arity >= 1,
        ;
        assert(p * arity <= (p + 1) * arity) by (nonlinear_arith);
        assert(p * arity + arity == (p + 1) * arity) by (nonlinear_arith);
        let q = pixel_sq_diff(&a.values, &b.values, p * arity, arity);
        let root = floor_sqrt_exec(4 * q);
        let norm = (root + 1) / 2;
        s = s + norm as u128;
        p = p + 1;
    }
    s
}

/// The features of one pixel.
pub fn features_of_pixel(cs: ColorSpace, r: u8, g: u8, b: u8) -> (v: Vec<i64>)
    ensures
        v@ == pixel_features(cs, r, g, b),
        v@.len() == arity_of(cs),
        forall|i: int| 0 <= i < v@.len() ==> -FEATURE_LIMIT <= #[trigger] v@[i] <= FEATURE_LIMIT,
{
    match cs {
        ColorSpace::Rgb => {
            let v = vec![100 * r as i64, 100 * g as i64, 100 * b as i64];
            proof {
                assert(v@ =~= pixel_features(cs, r, g, b));
            }
            v
        },
        ColorSpace::Gray => {
            let v = vec![30 * r as i64 + 59 * g as i64 + 11 * b as i64];
            proof {
                assert(v@ =~= pixel_features(cs, r, g, b));
            }
            v
        },
        ColorSpace::Lab => crate::lab::to_lab(r, g, b),
    }
}

/// The feature map of `img` under `cs`.
pub fn feature_map(img: &Image, cs: ColorSpace) -> (fm: FeatureMap)
    requires
        img.wf(),
    ensures
        fm.wf(),
        is_feature_map_of(fm, *img, cs),
{
    let total = img.pixels.len();
    let n: usize = total / 3;
    let ghost arity = arity_of(cs);
    let mut values: Vec<i64> = Vec::new();
    let mut p: usize = 0;
    while p < n
        invariant
            img.wf(),
            total == img.pixels@.len(),
            n == img.width * img.height,
            p <= n,
            arity == arity_of(cs),
            values@.len() == p * arity,
            forall|i: int| 0 <= i < values@.len() ==> -FEATURE_LIMIT <= #[trigger] values@[i] <= FEATURE_LIMIT,
            forall|q: int, k: int|
                0 <= q < p && 0 <= k < arity ==> values@[q * arity + k]
                    == #[trigger] features_at(cs, img.pixels@, q)[k],
        decreases n - p,
    {
        let v = features_of_pixel(cs, img.pixels[3 * p], img.pixels[3 * p + 1], img.pixels[3 * p + 2]);
        let ghost before = values@;
        let mut k: usize = 0;
        while k < v.len()
            invariant
                v@ == features_at(cs, img.pixels@, p as int),
                v@.len() == arity,
                1 <= arity <= 3,
                k <= arity,
                forall|i: int| 0 <= i < v@.len() ==> -FEATURE_LIMIT <= #[trigger] v@[i] <= FEATURE_LIMIT,
                values@.len() == p * arity + k,
                values@.subrange(0, p * arity) == before,
                forall|j: int| 0 <= j < k ==> values@[p * arity + j] == v@[j],
            decreases arity - k,
        {
            values.push(v[k]);
            k = k + 1;
        }
        proof {
            assert forall|q: int, k: int|
                0 <= q < p + 1 && 0 <= k < arity implies values@[q * arity + k]
                    == #[trigger] features_at(cs, img.pixels@, q)[k] by {
                if q < p {
                    assert(q * arity + k < p * arity) by (nonlinear_arith)
                        requires
                            q < p,
                            k < arity,
                    ;
                    assert(values@[q * arity + k] == before[q * arity + k]);
                }
            }
            assert((p + 1) * arity == p * arity + arity) by (nonlinear_arith);
            assert forall|i: int| 0 <= i < values@.len() implies -FEATURE_LIMIT <= #[trigger] values@[i] <= FEATURE_LIMIT by {
                if i < p * arity {
                    assert(values@[i] == before[i]);
                } else {
                    assert(values@[i] == v@[i - p * arity]);
                }
            }
        }
        p = p + 1;
    }
    FeatureMap { width: img.width, height: img.height, arity: if cs == ColorSpace::Gray { 1 } else { 3 }, values }
}

proof fn lemma_index_decode(w: int, arity: int, x: int, y: int, k: int)
    requires
        0 <= x < w,
        0 <= k < arity,
        0 <= y,
    ensures
        ((y * w + x) * arity + k) / arity == y * w + x,
        ((y * w + x) * arity + k) % arity == k,
        (y * w + x) / w == y,
        (y * w + x) % w == x,
{
    lemma_fundamental_div_mod_converse((y * w + x) * arity + k, arity, y * w + x, k);
    lemma_fundamental_div_mod_converse(y * w + x, w, y, x);
}

/// The values of the `w` by `h` block of `fm` whose top-left corner is
/// `(x0, y0)`, row-major.
pub open spec fn cell_values(fm: FeatureMap, x0: int, y0: int, w: int, h: int) -> Seq<i64> {
    let arity = fm.arity as int;
    Seq::new(
        (w * h * arity) as nat,
        |i: int| fm.at(x0 + (i / arity) % w, y0 + (i / arity) / w, i % arity),
    )
}

/// The `w` by `h` block of `fm` whose top-left corner is `(x0, y0)`.
pub fn crop(fm: &FeatureMap, x0: u32, y0: u32, w: u32, h: u32) -> (r: FeatureMap)
    requires
        fm.wf(),
        x0 + w <= fm.width,
        y0 + h <= fm.height,
    ensures
        r.wf(),
        r.width == w,
        r.height == h,
        r.arity == fm.arity,
        r.values@ == cell_values(*fm, x0 as int, y0 as int, w as int, h as int),
        forall|x: int, y: int, k: int|
            0 <= x < w && 0 <= y < h && 0 <= k < fm.arity ==> #[trigger] r.at(x, y, k) == fm.at(
                x0 + x,
                y0 + y,
                k,
            ),
{
    let arity = fm.arity;
    let total = fm.values.len();
    let mut values: Vec<i64> = Vec::new();
    let mut y: u32 = 0;
    while y < h
        invariant
            fm.wf(),
            total == fm.values@.len(),
            arity == fm.arity,
            x0 + w <= fm.width,
            y0 + h <= fm.height,
            y <= h,
            values@.len() == (y * w) * arity,
            forall|i: int| 0 <= i < values@.len() ==> -FEATURE_LIMIT <= #[trigger] values@[i] <= FEATURE_LIMIT,
            forall|i: int|
                0 <= i < values@.len() ==> #[trigger] values@[i] == fm.at(
                    x0 + (i / arity as int) % w as int,
                    y0 + (i / arity as int) / w as int,
                    i % arity as int,
                ),
        decreases h - y,
    {
        let mut x: u32 = 0;
        while x < w
            invariant
                fm.wf(),
                total == fm.values@.len(),
                arity == fm.arity,
                x0 + w <= fm.width,
                y0 + h <= fm.height,
                y < h,
                x <= w,
                values@.len() == (y * w + x) * arity,
                forall|i: int| 0 <= i < values@.len() ==> -FEATURE_LIMIT <= #[trigger] values@[i] <= FEATURE_LIMIT,
                forall|i: int|
                    0 <= i < values@.len() ==> #[trigger] values@[i] == fm.at(
                        x0 + (i / arity as int) % w as int,
                        y0 + (i / arity as int) / w as int,
                        i % arity as int,
                    ),
            decreases w - x,
        {
            let mut k: usize = 0;
            while k < arity
                invariant
                    fm.wf(),
                    total == fm.values@.len(),
                    arity == fm.arity,
                    x0 + w <= fm.width,
                    y0 + h <= fm.height,
                    y < h,
                    x < w,
                    k <= arity,
                    values@.len() == (y * w + x) * arity + k,
                    forall|i: int| 0 <= i < values@.len() ==> -FEATURE_LIMIT <= #[trigger] values@[i] <= FEATURE_LIMIT,
                    forall|i: int|
                        0 <= i < values@.len() ==> #[trigger] values@[i] == fm.at(
                            x0 + (i / arity as int) % w as int,
                            y0 + (i / arity as int) / w as int,
                            i % arity as int,
                        ),
                decreases arity - k,
            {
                proof {
                    lemma_index_decode(w as int, arity as int, x as int, y as int, k as int);
                    lemma_index_decode(fm.width as int, arity as int, (x0 + x) as int, (y0 + y) as int, k as int);
                    assert(((y0 + y) * fm.width + (x0 + x)) * arity + k < fm.width * fm.height * arity) by (nonlinear_arith)
                        requires
                            x0 + x < fm.width,
                            y0 + y < fm.height,
                            k < arity,
                    ;
                }
                let idx: usize = ((y0 + y) as usize * fm.width as usize + (x0 + x) as usize) * arity + k;
                values.push(fm.values[idx]);
                k = k + 1;
            }
            proof {
                assert((y * w + x) * arity + arity == (y * w + (x + 1)) * arity) by (nonlinear_arith);
            }
            x = x + 1;
        }
        proof {
            assert(y * w + w == (y + 1) * w) by (nonlinear_arith);
        }
        y = y + 1;
    }
    let r = FeatureMap { width: w, height: h, arity, values };
    proof {
        assert((h * w) * arity == (w * h) * arity) by (nonlinear_arith);
        assert(r.values@ =~= cell_values(*fm, x0 as int, y0 as int, w as int, h as int));
        assert forall|x: int, y: int, k: int|
            0 <= x < w && 0 <= y < h && 0 <= k < fm.arity implies #[trigger] r.at(x, y, k) == fm.at(
                x0 + x,
                y0 + y,
                k,
            ) by {
            lemma_index_decode(w as int, arity as int, x, y, k);
            assert((y * w + x) * arity + k < (h * w) * arity) by (nonlinear_arith)
                requires
                    0 <= x < w,
                    0 <= y < h,
                    0 <= k < arity,
            ;
        }
    }
    r
}

/// A feature map is at distance zero from itself.
pub proof fn lemma_distance_to_self(fm: FeatureMap)
    ensures
        distance(fm, fm) == 0,
{
    lemma_distance_prefix_self(fm.values@, fm.arity as nat, (fm.width * fm.height) as nat);
}

proof fn lemma_distance_prefix_self(a: Seq<i64>, arity: nat, n: nat)
    ensures
        distance_prefix(a, a, arity, n) == 0,
    decreases n,
{
    if n > 0 {
        lemma_distance_prefix_self(a, arity, (n - 1) as nat);
        lemma_sq_diff_sum_self(a, (n - 1) * arity, arity);
        assert(floor_sqrt(0) == 0);
        assert(round_sqrt(0) == 0);
    }
}

proof fn lemma_sq_diff_sum_self(a: Seq<i64>, base: int, k: nat)
    ensures
        sq_diff_sum(a, a, base, k) == 0,
    decreases k,
{
    if k > 0 {
        lemma_sq_diff_sum_self(a, base, (k - 1) as nat);
    }
}

/// Every pixel of `fm` holds the vector `v`.
pub open spec fn is_uniform(fm: FeatureMap, v: Seq<i64>) -> bool {
    &&& v.len() == fm.arity
    &&& forall|p: int, k: int|
        0 <= p < fm.width * fm.height && 0 <= k < fm.arity ==> #[trigger] fm.values@[p * fm.arity + k]
            == v[k]
}

/// Two uniform feature maps of one shape are at distance zero when their
/// vectors are equal, and otherwise at distance at least one per pixel. So
/// a uniform block matches a uniform tile of its own vector with score zero,
/// and every tile of another vector scores more.
pub proof fn lemma_uniform_distance(a: FeatureMap, b: FeatureMap, va: Seq<i64>, vb: Seq<i64>)
    requires
        a.wf(),
        b.wf(),
        a.same_shape(&b),
        is_uniform(a, va),
        is_uniform(b, vb),
    ensures
        va == vb ==> distance(a, b) == 0,
        va != vb ==> distance(a, b) >= a.width * a.height,
        distance(a, b) <= a.width * a.height * 0x4000_0000,
{
    let arity = a.arity as nat;
    let n = (a.width * a.height) as nat;
    let sq = sq_diff_sum(va, vb, 0, arity);
    lemma_uniform_prefix(a.values@, b.values@, va, vb, arity, n, n);
    if n > 0 {
        assert forall|k: int| 0 <= k < arity implies -FEATURE_LIMIT <= #[trigger] va[k] <= FEATURE_LIMIT && -FEATURE_LIMIT
            <= vb[k] <= FEATURE_LIMIT by {
            assert(0 * a.arity + k < a.values@.len()) by (nonlinear_arith)
                requires
                    n >= 1,
                    0 <= k < arity,
                    arity == a.arity,
                    a.values@.len() == n * a.arity,
            ;
            assert(a.values@[0 * a.arity + k] == va[k]);
            assert(b.values@[0 * b.arity + k] == vb[k]);
        }
        lemma_sq_diff_sum_bound(va, vb, arity);
        let r = floor_sqrt(4 * sq);
        lemma_sqrt_from_sq(4 * sq, 4 * sq);
        assert(r < 0x8000_0000) by (nonlinear_arith)
            requires
                r * r <= 4 * sq,
                sq <= 3 * 0x0400_0000_0000_0000,
        ;
        assert(n * round_sqrt(sq) <= n * 0x4000_0000) by (nonlinear_arith)
            requires
                round_sqrt(sq) <= 0x4000_0000,
        ;
    } else {
        assert(n * round_sqrt(sq) == 0) by (nonlinear_arith)
            requires
                n == 0,
        ;
    }
    lemma_round_sqrt_zero(sq);
    lemma_sq_diff_sum_zero(va, vb, arity);
    if va == vb {
        assert(forall|j: int| 0 <= j < arity ==> va[j] == vb[j]);
        assert(sq == 0);
        assert(n * round_sqrt(sq) == 0) by (nonlinear_arith)
            requires
                round_sqrt(sq) == 0,
        ;
    }
    if va != vb {
        if sq == 0 {
            assert(va =~= vb);
        }
        assert(n * round_sqrt(sq) >= n) by (nonlinear_arith)
            requires
                round_sqrt(sq) >= 1,
        ;
    }
}

proof fn lemma_uniform_prefix(
    a: Seq<i64>,
    b: Seq<i64>,
    va: Seq<i64>,
    vb: Seq<i64>,
    arity: nat,
    total: nat,
    n: nat,
)
    requires
        n <= total,
        forall|p: int, k: int|
            0 <= p < total && 0 <= k < arity ==> #[trigger] a[p * arity + k] == va[k],
        forall|p: int, k: int|
            0 <= p < total && 0 <= k < arity ==> #[trigger] b[p * arity + k] == vb[k],
    ensures
        distance_prefix(a, b, arity, n) == n * round_sqrt(sq_diff_sum(va, vb, 0, arity)),
    decreases n,
{
    if n > 0 {
        lemma_uniform_prefix(a, b, va, vb, arity, total, (n - 1) as nat);
        let base = (n - 1) * arity;
        assert forall|j: int| 0 <= j < arity implies a[base + j] == va[j] && b[base + j] == vb[j] by {
            assert(a[(n - 1) * arity + j] == va[j]);
            assert(b[(n - 1) * arity + j] == vb[j]);
        }
        lemma_sq_diff_sum_shift(a, b, base, va, vb, arity);
        let r = round_sqrt(sq_diff_sum(va, vb, 0, arity));
        assert(distance_prefix(a, b, arity, n) == distance_prefix(a, b, arity, (n - 1) as nat)
            + round_sqrt(sq_diff_sum(a, b, base, arity)));
        assert(distance_prefix(a, b, arity, (n - 1) as nat) == ((n - 1) as nat) * r);
        assert(((n - 1) as nat) * r + r == n * r) by (nonlinear_arith)
            requires
                n > 0,
        ;
    } else {
        let r = round_sqrt(sq_diff_sum(va, vb, 0, arity));
        assert(n * r == 0) by (nonlinear_arith)
            requires
                n == 0,
        ;
    }
}

proof fn lemma_sq_diff_sum_shift(a: Seq<i64>, b: Seq<i64>, base: int, va: Seq<i64>, vb: Seq<i64>, k: nat)
    requires
        forall|j: int| 0 <= j < k ==> a[base + j] == va[j] && b[base + j] == vb[j],
    ensures
        sq_diff_sum(a, b, base, k) == sq_diff_sum(va, vb, 0, k),
    decreases k,
{
    if k > 0 {
        lemma_sq_diff_sum_shift(a, b, base, va, vb, (k - 1) as nat);
        assert(a[base + k - 1] == va[k - 1] && b[base + k - 1] == vb[k - 1]);
    }
}

/// A sum of squared differences is zero exactly when the terms agree.
proof fn lemma_sq_diff_sum_zero(va: Seq<i64>, vb: Seq<i64>, k: nat)
    ensures
        sq_diff_sum(va, vb, 0, k) == 0 <==> forall|j: int| 0 <= j < k ==> va[j] == vb[j],
    decreases k,
{
    if k > 0 {
        lemma_sq_diff_sum_zero(va, vb, (k - 1) as nat);
        let d = va[k - 1] - vb[k - 1];
        assert(d * d >= 0) by (nonlinear_arith);
        if d != 0 {
            assert(d * d > 0) by (nonlinear_arith)
                requires
                    d != 0,
            ;
        }
    }
}

/// The rounded-down square root squared does not exceed its argument.
proof fn lemma_sqrt_from_sq(n: nat, k: nat)
    ensures
        sqrt_from(n, k) * sqrt_from(n, k) <= n,
    decreases k,
{
    if k > 0 && k * k > n {
        lemma_sqrt_from_sq(n, (k - 1) as nat);
    }
}

proof fn lemma_sq_diff_sum_bound(va: Seq<i64>, vb: Seq<i64>, k: nat)
    requires
        k <= 3,
        forall|j: int|
            0 <= j < k ==> -FEATURE_LIMIT <= #[trigger] va[j] <= FEATURE_LIMIT && -FEATURE_LIMIT
                <= vb[j] <= FEATURE_LIMIT,
    ensures
        sq_diff_sum(va, vb, 0, k) <= k * 0x0400_0000_0000_0000,
    decreases k,
{
    if k > 0 {
        lemma_sq_diff_sum_bound(va, vb, (k - 1) as nat);
        let d = va[k - 1] - vb[k - 1];
        assert(-FEATURE_LIMIT <= va[k - 1] <= FEATURE_LIMIT);
        assert(0 <= d * d <= 0x0400_0000_0000_0000) by (nonlinear_arith)
            requires
                -0x2000_0000 <= d <= 0x2000_0000,
        ;
        assert(((k - 1) as nat) * 0x0400_0000_0000_0000 + 0x0400_0000_0000_0000 == k
            * 0x0400_0000_0000_0000);
        assert(va[0 + k - 1] == va[k - 1] && vb[0 + k - 1] == vb[k - 1]);
        assert(sq_diff_sum(va, vb, 0, k) == sq_diff_sum(va, vb, 0, (k - 1) as nat) + (d * d) as nat);
    }
}

proof fn lemma_sqrt_from_at_least(n: nat, k: nat, m: nat)
    requires
        m <= k,
        m * m <= n,
    ensures
        sqrt_from(n, k) >= m,
    decreases k,
{
    if k > 0 && k * k > n {
        assert(k > m) by (nonlinear_arith)
            requires
                m <= k,
                m * m <= n,
                k * k > n,
        ;
        lemma_sqrt_from_at_least(n, (k - 1) as nat, m);
    }
}

/// The rounded square root is zero only at zero.
proof fn lemma_round_sqrt_zero(n: nat)
    ensures
        n == 0 ==> round_sqrt(n) == 0,
        n > 0 ==> round_sqrt(n) >= 1,
{
    if n == 0 {
        assert(floor_sqrt(0) == 0);
    } else {
        lemma_sqrt_from_at_least(4 * n, 4 * n, 2);
    }
}

/// Red, green, blue and white have four different feature vectors in every
/// colour space.
pub proof fn lemma_primaries_distinct(cs: ColorSpace)
    ensures
        ({
            let red = pixel_features(cs, 255, 0, 0);
            let green = pixel_features(cs, 0, 255, 0);
            let blue = pixel_features(cs, 0, 0, 255);
            let white = pixel_features(cs, 255, 255, 255);
            &&& red != green
            &&& red != blue
            &&& red != white
            &&& green != blue
            &&& green != white
            &&& blue != white
        }),
{
    match cs {
        ColorSpace::Lab => {
            crate::lab::lemma_primary_lightness();
        },
        ColorSpace::Rgb => {
            let red = pixel_features(cs, 255, 0, 0);
            let green = pixel_features(cs, 0, 255, 0);
            let blue = pixel_features(cs, 0, 0, 255);
            let white = pixel_features(cs, 255, 255, 255);
            assert(red[0] != green[0] && red[0] != blue[0] && red[1] != white[1]);
            assert(green[1] != blue[1] && green[0] != white[0] && blue[0] != white[0]);
        },
        ColorSpace::Gray => {
            let red = pixel_features(cs, 255, 0, 0);
            let green = pixel_features(cs, 0, 255, 0);
            let blue = pixel_features(cs, 0, 0, 255);
            let white = pixel_features(cs, 255, 255, 255);
            assert(red[0] != green[0] && red[0] != blue[0] && red[0] != white[0]);
            assert(green[0] != blue[0] && green[0] != white[0] && blue[0] != white[0]);
        },
    }
}

} // verus!
