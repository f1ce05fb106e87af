//! Three-component vectors of fixed-point scalars.
//!
//! A vector is a plain `[i64; 3]`; its mathematical model is a [`Point`] of
//! unbounded integers. Sums, differences and products are formed by the
//! `vecmath` crate on 128-bit components, where they cannot overflow, and
//! brought back to 64 bits once they are known to fit.
//!
//! Products and quotients are rounded down, with one exception: the
//! components of a normalized vector are rounded to the nearest billionth,
//! which is what keeps its length within one billionth of one.

use crate::fixed::{
    floor_div, int_sqrt, isqrt, lemma_int_sqrt_bounds, lemma_int_sqrt_monotonic,
    lemma_int_sqrt_unique, lemma_quotient_no_larger, scaled_product, ONE,
};
use vstd::prelude::*;

verus! {

/// The mathematical model of a vector: three unbounded integers, each
/// counting billionths.
pub struct Point {
    pub x: int,
    pub y: int,
    pub z: int,
}

impl Point {
    /// The componentwise sum.
    pub open spec fn plus(self, o: Point) -> Point {
        Point { x: self.x + o.x, y: self.y + o.y, z: self.z + o.z }
    }

    /// The componentwise difference.
    pub open spec fn minus(self, o: Point) -> Point {
        Point { x: self.x - o.x, y: self.y - o.y, z: self.z - o.z }
    }

    /// The componentwise product of two vectors of scalars.
    pub open spec fn times(self, o: Point) -> Point {
        Point {
            x: scaled_product(self.x, o.x),
            y: scaled_product(self.y, o.y),
            z: scaled_product(self.z, o.z),
        }
    }

    /// The cross product of two vectors of scalars.
    pub open spec fn cross(self, o: Point) -> Point {
        Point {
            x: (self.y * o.z - self.z * o.y) / (ONE as int),
            y: (self.z * o.x - self.x * o.z) / (ONE as int),
            z: (self.x * o.y - self.y * o.x) / (ONE as int),
        }
    }

    /// The sum of the squares of the components.
    pub open spec fn square_len(self) -> nat {
        (self.x * self.x + self.y * self.y + self.z * self.z) as nat
    }

    /// The Euclidean length, rounded down to a whole number of billionths.
    pub open spec fn len(self) -> int {
        int_sqrt(self.square_len()) as int
    }

    /// The length that a vector is divided by when it is normalized: its
    /// Euclidean length in units of `1 / root_scale`, rounded down.
    pub open spec fn fine_len(self) -> int {
        let k = root_scale(self.square_len());
        int_sqrt((k * k * self.square_len()) as nat) as int
    }

    /// The vector that points the same way and is one long, as nearly as
    /// whole billionths allow: each component is the quotient of the
    /// component by the length, rounded to the nearest billionth. By
    /// [`lemma_normalized_length`] its length, before any rounding, is one
    /// to within one billionth. Meaningful only for a vector that is not
    /// zero.
    pub open spec fn normalized(self) -> Point {
        let k = root_scale(self.square_len());
        let l = self.fine_len();
        Point {
            x: round_div(self.x * ONE * k, l),
            y: round_div(self.y * ONE * k, l),
            z: round_div(self.z * ONE * k, l),
        }
    }

    /// Whether every component is at most `m` in magnitude.
    pub open spec fn within(self, m: int) -> bool {
        &&& -m <= self.x <= m
        &&& -m <= self.y <= m
        &&& -m <= self.z <= m
    }

    /// Whether every component can be held in 64 bits.
    pub open spec fn fits(self) -> bool {
        &&& i64::MIN <= self.x <= i64::MAX
        &&& i64::MIN <= self.y <= i64::MAX
        &&& i64::MIN <= self.z <= i64::MAX
    }
}

/// A vector whose squared length is below this, one shorter than one unit,
/// has its length taken ten billion times finer before it is normalized.
pub const FINE_BELOW: u128 = 1_000_000_000_000_000_000;

/// A vector whose squared length is below this, one shorter than a billion
/// units, has its length taken ten times finer before it is normalized.
pub const COARSE_FROM: u128 = 1_000_000_000_000_000_000_000_000_000_000_000_000;

/// By how much the length of a vector with squared length `s` is refined
/// before the vector is divided by it: by so much that the refined length
/// is at least ten units, and its rounding costs the result less than a
/// tenth of a billionth.
pub open spec fn root_scale(s: nat) -> int {
    if s < FINE_BELOW {
        10_000_000_000
    } else if s < COARSE_FROM {
        10
    } else {
        1
    }
}

/// The quotient of `a` by a positive `l`, rounded to the nearest whole
/// number; a half is rounded up.
pub open spec fn round_div(a: int, l: int) -> int {
    (2 * a + l) / (2 * l)
}

/// The point reached from `p` by a step of length `d` along `dir`.
pub open spec fn advance(p: Point, dir: Point, d: int) -> Point {
    p.plus(dir.times(Point { x: d, y: d, z: d }))
}

/// The model of a vector.
pub open spec fn point(v: [i64; 3]) -> Point {
    Point { x: v[0] as int, y: v[1] as int, z: v[2] as int }
}

/// The model of a vector with 128-bit components.
pub open spec fn wide_point(v: [i128; 3]) -> Point {
    Point { x: v[0] as int, y: v[1] as int, z: v[2] as int }
}

/// Calls `vecmath::vec3_add` on 128-bit components. Not proved here but
/// taken from that function, which adds component by component with the
/// plain operator: the result holds the three sums `a[i] + b[i]`, as long as
/// they fit.
#[verifier::external_body]
pub(crate) fn wide_add(a: [i128; 3], b: [i128; 3]) -> (r: [i128; 3])
    requires
        i128::MIN <= a[0] + b[0] <= i128::MAX,
        i128::MIN <= a[1] + b[1] <= i128::MAX,
        i128::MIN <= a[2] + b[2] <= i128::MAX,
    ensures
        r[0] == a[0] + b[0],
        r[1] == a[1] + b[1],
        r[2] == a[2] + b[2],
{
    vecmath::vec3_add(a, b)
}

/// Calls `vecmath::vec3_sub` on 128-bit components. Not proved here but
/// taken from that function, which subtracts component by component with
/// the plain operator: the result holds the three differences `a[i] - b[i]`,
/// as long as they fit.
#[verifier::external_body]
pub(crate) fn wide_sub(a: [i128; 3], b: [i128; 3]) -> (r: [i128; 3])
    requires
        i128::MIN <= a[0] - b[0] <= i128::MAX,
        i128::MIN <= a[1] - b[1] <= i128::MAX,
        i128::MIN <= a[2] - b[2] <= i128::MAX,
    ensures
        r[0] == a[0] - b[0],
        r[1] == a[1] - b[1],
        r[2] == a[2] - b[2],
{
    vecmath::vec3_sub(a, b)
}

/// Calls `vecmath::vec3_mul` on 128-bit components. Not proved here but
/// taken from that function, which multiplies component by component with
/// the plain operator: the result holds the three products `a[i] * b[i]`, as
/// long as they fit.
#[verifier::external_body]
pub(crate) fn wide_mul(a: [i128; 3], b: [i128; 3]) -> (r: [i128; 3])
    requires
        i128::MIN <= a[0] * b[0] <= i128::MAX,
        i128::MIN <= a[1] * b[1] <= i128::MAX,
        i128::MIN <= a[2] * b[2] <= i128::MAX,
    ensures
        r[0] == a[0] * b[0],
        r[1] == a[1] * b[1],
        r[2] == a[2] * b[2],
{
    vecmath::vec3_mul(a, b)
}

/// Calls `vecmath::vec3_cross` on 128-bit components. Not proved here but
/// taken from that function, which forms each component as a difference of
/// two products with the plain operators: the result is the cross product,
/// as long as every product and every difference fits.
#[verifier::external_body]
pub(crate) fn wide_cross(a: [i128; 3], b: [i128; 3]) -> (r: [i128; 3])
    requires
        crossable(a[1] as int, b[2] as int, a[2] as int, b[1] as int),
        crossable(a[2] as int, b[0] as int, a[0] as int, b[2] as int),
        crossable(a[0] as int, b[1] as int, a[1] as int, b[0] as int),
    ensures
        r[0] == a[1] * b[2] - a[2] * b[1],
        r[1] == a[2] * b[0] - a[0] * b[2],
        r[2] == a[0] * b[1] - a[1] * b[0],
{
    vecmath::vec3_cross(a, b)
}

/// Whether `p * q - r * s` can be formed in 128 bits, step by step.
pub open spec fn crossable(p: int, q: int, r: int, s: int) -> bool {
    &&& i128::MIN <= p * q <= i128::MAX
    &&& i128::MIN <= r * s <= i128::MAX
    &&& i128::MIN <= p * q - r * s <= i128::MAX
}

/// The product of two 64-bit numbers is below `2^126` in magnitude.
pub proof fn lemma_product_fits(a: int, b: int)
    by (nonlinear_arith)
    requires
        i64::MIN <= a <= i64::MAX,
        i64::MIN <= b <= i64::MAX,
    ensures
        -0x4000_0000_0000_0000_0000_0000_0000_0000 <= a * b
            <= 0x4000_0000_0000_0000_0000_0000_0000_0000,
{
}

/// The same vector on 128-bit components.
pub fn widen(v: [i64; 3]) -> (r: [i128; 3])
    ensures
        wide_point(r) == point(v),
{
    [v[0] as i128, v[1] as i128, v[2] as i128]
}

/// The same vector on 64-bit components, where they fit.
pub fn narrow(v: [i128; 3]) -> (r: [i64; 3])
    requires
        wide_point(v).fits(),
    ensures
        point(r) == wide_point(v),
{
    [v[0] as i64, v[1] as i64, v[2] as i64]
}

/// Three products of scalars brought back to scalars: each divided by
/// `ONE` and rounded down, which makes none of them larger.
fn unscaled(raw: [i128; 3]) -> (r: [i128; 3])
    ensures
        r[0] == (raw[0] as int) / (ONE as int),
        r[1] == (raw[1] as int) / (ONE as int),
        r[2] == (raw[2] as int) / (ONE as int),
        forall|i: int|
            0 <= i < 3 ==> (raw[i] >= 0 ==> 0 <= #[trigger] r[i] <= raw[i]) && (raw[i] <= 0
                ==> raw[i] <= r[i] <= 0),
{
    proof {
        lemma_quotient_no_larger(raw[0] as int);
        lemma_quotient_no_larger(raw[1] as int);
        lemma_quotient_no_larger(raw[2] as int);
    }
    let one: i128 = ONE as i128;
    [floor_div(raw[0], one), floor_div(raw[1], one), floor_div(raw[2], one)]
}

/// The sum of two vectors.
pub fn vec3_add(a: [i64; 3], b: [i64; 3]) -> (r: [i64; 3])
    requires
        point(a).plus(point(b)).fits(),
    ensures
        point(r) == point(a).plus(point(b)),
{
    narrow(wide_add(widen(a), widen(b)))
}

/// The difference of two vectors.
pub fn vec3_sub(a: [i64; 3], b: [i64; 3]) -> (r: [i64; 3])
    requires
        point(a).minus(point(b)).fits(),
    ensures
        point(r) == point(a).minus(point(b)),
{
    narrow(wide_sub(widen(a), widen(b)))
}

/// The componentwise product of two vectors of scalars, each component
/// rounded down.
pub fn vec3_mul(a: [i64; 3], b: [i64; 3]) -> (r: [i64; 3])
    requires
        point(a).times(point(b)).fits(),
    ensures
        point(r) == point(a).times(point(b)),
{
    proof {
        lemma_product_fits(a[0] as int, b[0] as int);
        lemma_product_fits(a[1] as int, b[1] as int);
        lemma_product_fits(a[2] as int, b[2] as int);
    }
    narrow(unscaled(wide_mul(widen(a), widen(b))))
}

/// The cross product of two vectors of scalars, each component rounded down.
pub fn vec3_cross(a: [i64; 3], b: [i64; 3]) -> (r: [i64; 3])
    requires
        point(a).cross(point(b)).fits(),
    ensures
        point(r) == point(a).cross(point(b)),
{
    proof {
        lemma_product_fits(a[1] as int, b[2] as int);
        lemma_product_fits(a[2] as int, b[1] as int);
        lemma_product_fits(a[2] as int, b[0] as int);
        lemma_product_fits(a[0] as int, b[2] as int);
        lemma_product_fits(a[0] as int, b[1] as int);
        lemma_product_fits(a[1] as int, b[0] as int);
    }
    narrow(unscaled(wide_cross(widen(a), widen(b))))
}

/// The sum of the squares of the components of a vector.
pub fn vec3_square_len(v: [i64; 3]) -> (r: u128)
    ensures
        r == point(v).square_len(),
{
    proof {
        lemma_product_fits(v[0] as int, v[0] as int);
        lemma_product_fits(v[1] as int, v[1] as int);
        lemma_product_fits(v[2] as int, v[2] as int);
        lemma_square_nonnegative(v[0] as int);
        lemma_square_nonnegative(v[1] as int);
        lemma_square_nonnegative(v[2] as int);
    }
    let w: [i128; 3] = widen(v);
    let sq: [i128; 3] = wide_mul(w, w);
    sq[0] as u128 + sq[1] as u128 + sq[2] as u128
}

/// The point reached from `p` by a step of length `d` along `dir`, on
/// 128-bit components, which hold it whatever the three are.
pub fn vec3_advance(p: [i64; 3], dir: [i64; 3], d: i64) -> (r: [i128; 3])
    ensures
        wide_point(r) == advance(point(p), point(dir), d as int),
        wide_point(r).within(0x4000_0000_0000_0000_8000_0000_0000_0000),
{
    proof {
        lemma_product_fits(dir[0] as int, d as int);
        lemma_product_fits(dir[1] as int, d as int);
        lemma_product_fits(dir[2] as int, d as int);
    }
    let shift: [i128; 3] = unscaled(wide_mul(widen(dir), widen([d, d, d])));
    wide_add(widen(p), shift)
}

/// The Euclidean length of a vector, rounded down.
pub fn vec3_len(v: [i64; 3]) -> (r: u64)
    ensures
        r == point(v).len(),
{
    isqrt(vec3_square_len(v))
}

/// The vector that points the same way as `v` and is one long to within one
/// billionth, each component rounded to the nearest billionth; or `None`
/// for the zero vector, which points nowhere.
pub fn vec3_normalized(v: [i64; 3]) -> (r: Option<[i64; 3]>)
    ensures
        r is None <==> point(v) == (Point { x: 0, y: 0, z: 0 }),
        r matches Some(n) ==> point(n) == point(v).normalized() && point(n).within(ONE as int),
        r matches Some(n) ==> (ONE - 1) * (ONE - 1) <= point(n).square_len() <= (ONE + 1) * (ONE
            + 1),
        r matches Some(n) ==> ONE - 1 <= point(n).len() <= ONE + 1,
{
    let s: u128 = vec3_square_len(v);
    proof {
        lemma_square_len_zero(point(v));
    }
    if s == 0 {
        return None;
    }
    let k: i128 = if s < FINE_BELOW {
        10_000_000_000
    } else if s < COARSE_FROM {
        10
    } else {
        1
    };
    proof {
        lemma_fine_len(point(v));
        lemma_normalized_length(point(v));
        lemma_square_nonnegative(v[0] as int);
        lemma_square_nonnegative(v[1] as int);
        lemma_square_nonnegative(v[2] as int);
        lemma_scaled_fits(v[0] as int, s as int);
        lemma_scaled_fits(v[1] as int, s as int);
        lemma_scaled_fits(v[2] as int, s as int);
        assert((k * k) * s <= u128::MAX && 0 < k * k <= 100_000_000_000_000_000_000)
            by (nonlinear_arith)
            requires
                (k == 10_000_000_000 && s < 1_000_000_000_000_000_000) || (k == 10 && s
                    < 1_000_000_000_000_000_000_000_000_000_000_000_000) || k == 1,
                s <= u128::MAX,
        ;
    }
    let kk: u128 = (k * k) as u128;
    let l: i128 = isqrt(kk * s) as i128;
    let scale: i128 = (ONE as i128) * k;
    let raw: [i128; 3] = wide_mul(widen(v), [scale, scale, scale]);
    assert(raw[0] == v[0] * ONE * k && raw[1] == v[1] * ONE * k && raw[2] == v[2] * ONE * k)
        by (nonlinear_arith)
        requires
            raw[0] == v[0] * scale,
            raw[1] == v[1] * scale,
            raw[2] == v[2] * scale,
            scale == ONE * k,
    ;
    Some(
        narrow(
            [
                floor_div(2 * raw[0] + l, 2 * l),
                floor_div(2 * raw[1] + l, 2 * l),
                floor_div(2 * raw[2] + l, 2 * l),
            ],
        ),
    )
}

/// No square is negative.
pub proof fn lemma_square_nonnegative(a: int)
    by (nonlinear_arith)
    ensures
        a * a >= 0,
{
}

/// Only the zero vector has length zero.
pub proof fn lemma_len_zero(p: Point)
    ensures
        p.len() == 0 <==> p == (Point { x: 0, y: 0, z: 0 }),
{
    lemma_int_sqrt_bounds(p.square_len());
    lemma_square_nonnegative(p.x);
    lemma_square_nonnegative(p.y);
    lemma_square_nonnegative(p.z);
    if p.len() == 0 {
        assert(p.square_len() < 1) by (nonlinear_arith)
            requires
                p.square_len() < (int_sqrt(p.square_len()) + 1) * (int_sqrt(p.square_len()) + 1),
                int_sqrt(p.square_len()) == 0,
        ;
        assert(p.x == 0) by (nonlinear_arith)
            requires
                p.x * p.x <= 0,
        ;
        assert(p.y == 0) by (nonlinear_arith)
            requires
                p.y * p.y <= 0,
        ;
        assert(p.z == 0) by (nonlinear_arith)
            requires
                p.z * p.z <= 0,
        ;
    }
    if p == (Point { x: 0, y: 0, z: 0 }) {
        assert(p.square_len() == 0) by (nonlinear_arith)
            requires
                p.square_len() == p.x * p.x + p.y * p.y + p.z * p.z,
                p.x == 0,
                p.y == 0,
                p.z == 0,
        ;
        assert(p.len() == 0) by (nonlinear_arith)
            requires
                p.len() * p.len() <= 0,
        ;
    }
}

proof fn lemma_root_dominates(a: int, n: nat)
    requires
        a * a <= n,
    ensures
        -int_sqrt(n) <= a <= int_sqrt(n),
{
    lemma_int_sqrt_bounds(n);
    let r = int_sqrt(n) as int;
    assert(-r <= a <= r) by (nonlinear_arith)
        requires
            a * a <= n,
            n < (r + 1) * (r + 1),
            r >= 0,
    ;
}

/// No component of a vector is longer than the vector.
pub proof fn lemma_len_dominates(p: Point)
    ensures
        p.within(p.len()),
{
    lemma_square_nonnegative(p.x);
    lemma_square_nonnegative(p.y);
    lemma_square_nonnegative(p.z);
    lemma_root_dominates(p.x, p.square_len());
    lemma_root_dominates(p.y, p.square_len());
    lemma_root_dominates(p.z, p.square_len());
}

/// A vector whose components are at most `m` in magnitude is at most `2 * m`
/// long.
pub proof fn lemma_len_bound(p: Point, m: int)
    requires
        p.within(m),
    ensures
        0 <= p.len() <= 2 * m,
{
    lemma_int_sqrt_bounds(p.square_len());
    let r = p.len();
    let n = p.square_len() as int;
    assert(p.x * p.x <= m * m) by (nonlinear_arith)
        requires
            -m <= p.x <= m,
    ;
    assert(p.y * p.y <= m * m) by (nonlinear_arith)
        requires
            -m <= p.y <= m,
    ;
    assert(p.z * p.z <= m * m) by (nonlinear_arith)
        requires
            -m <= p.z <= m,
    ;
    lemma_square_nonnegative(p.x);
    lemma_square_nonnegative(p.y);
    lemma_square_nonnegative(p.z);
    assert(r <= 2 * m) by (nonlinear_arith)
        requires
            r * r <= n,
            n <= 3 * (m * m),
            r >= 0,
            m >= 0,
    ;
}

proof fn lemma_square_of_product(x: int, y: int)
    by (nonlinear_arith)
    ensures
        (x * y) * (x * y) == (y * y) * (x * x),
{
}

proof fn lemma_distribute(k: int, a: int, b: int, c: int)
    by (nonlinear_arith)
    ensures
        k * (a + b + c) == k * a + k * b + k * c,
{
}

/// Only the zero vector has squared length zero.
pub proof fn lemma_square_len_zero(p: Point)
    ensures
        p.square_len() == 0 <==> p == (Point { x: 0, y: 0, z: 0 }),
{
    lemma_len_zero(p);
    lemma_int_sqrt_bounds(p.square_len());
    if p.square_len() == 0 {
        assert(p.len() == 0) by (nonlinear_arith)
            requires
                p.len() * p.len() <= 0,
        ;
    }
    if p.len() == 0 {
        assert(p.square_len() == 0) by (nonlinear_arith)
            requires
                p.square_len() < (p.len() + 1) * (p.len() + 1),
                p.len() == 0,
        ;
    }
}

/// In the products that normalizing forms nothing overflows: the shorter
/// the vector, and with it the component `a`, the more it is refined.
proof fn lemma_scaled_fits(a: int, s: int)
    requires
        i64::MIN <= a <= i64::MAX,
        a * a <= s,
        s >= 0,
    ensures
        -10_000_000_000_000_000_000_000_000_000 < a * ((ONE as int) * root_scale(s as nat))
            < 10_000_000_000_000_000_000_000_000_000,
{
    let k = root_scale(s as nat);
    let scale = (ONE as int) * k;
    if s < FINE_BELOW {
        assert(-1_000_000_000 < a < 1_000_000_000) by (nonlinear_arith)
            requires
                a * a <= s,
                s < 1_000_000_000_000_000_000,
        ;
        assert(-10_000_000_000_000_000_000_000_000_000 < a * scale
            < 10_000_000_000_000_000_000_000_000_000) by (nonlinear_arith)
            requires
                -1_000_000_000 < a < 1_000_000_000,
                scale == 10_000_000_000_000_000_000,
        ;
    } else if s < COARSE_FROM {
        assert(-1_000_000_000_000_000_000 < a < 1_000_000_000_000_000_000) by (nonlinear_arith)
            requires
                a * a <= s,
                s < 1_000_000_000_000_000_000_000_000_000_000_000_000,
        ;
        assert(-10_000_000_000_000_000_000_000_000_000 < a * scale
            < 10_000_000_000_000_000_000_000_000_000) by (nonlinear_arith)
            requires
                -1_000_000_000_000_000_000 < a < 1_000_000_000_000_000_000,
                scale == 10_000_000_000,
        ;
    } else {
        assert(-10_000_000_000_000_000_000_000_000_000 < a * scale
            < 10_000_000_000_000_000_000_000_000_000) by (nonlinear_arith)
            requires
                -0x8000_0000_0000_0000 <= a <= 0x7fff_ffff_ffff_ffff,
                scale == 1_000_000_000,
        ;
    }
}

/// The length that a vector other than zero is divided by is at least ten
/// units, and no refined component exceeds it.
pub proof fn lemma_fine_len(p: Point)
    requires
        p.square_len() > 0,
    ensures
        p.fine_len() >= 10 * ONE,
        ({
            let k = root_scale(p.square_len());
            let l = p.fine_len();
            &&& -l <= p.x * k <= l
            &&& -l <= p.y * k <= l
            &&& -l <= p.z * k <= l
            &&& l * l <= (k * k) * p.square_len() < (l + 1) * (l + 1)
            &&& (k * k) * p.square_len() == (p.x * k) * (p.x * k) + (p.y * k) * (p.y * k) + (p.z
                * k) * (p.z * k)
        }),
{
    let s = p.square_len();
    let k = root_scale(s);
    let q = ((k * k) * s) as nat;
    assert((k * k) * s >= 100_000_000_000_000_000_000) by (nonlinear_arith)
        requires
            (k == 10_000_000_000 && s >= 1) || (k == 10 && s >= 1_000_000_000_000_000_000) || (k
                == 1 && s >= 1_000_000_000_000_000_000_000_000_000_000_000_000),
    ;
    assert(k * k * s == (k * k) * s);
    lemma_int_sqrt_bounds(q);
    let low: nat = 10_000_000_000;
    assert(low * low == 100_000_000_000_000_000_000 && low * low < (low + 1) * (low + 1))
        by (nonlinear_arith)
        requires
            low == 10_000_000_000,
    ;
    lemma_int_sqrt_unique(low * low, low);
    lemma_int_sqrt_monotonic(low * low, q);
    lemma_square_nonnegative(p.x);
    lemma_square_nonnegative(p.y);
    lemma_square_nonnegative(p.z);
    lemma_square_of_product(p.x, k);
    lemma_square_of_product(p.y, k);
    lemma_square_of_product(p.z, k);
    lemma_distribute(k * k, p.x * p.x, p.y * p.y, p.z * p.z);
    lemma_square_nonnegative(p.x * k);
    lemma_square_nonnegative(p.y * k);
    lemma_square_nonnegative(p.z * k);
    lemma_root_dominates(p.x * k, q);
    lemma_root_dominates(p.y * k, q);
    lemma_root_dominates(p.z * k, q);
}

/// What rounding a quotient to the nearest whole number leaves: at most
/// half of the divisor.
pub proof fn lemma_round_div(a: int, l: int)
    requires
        l > 0,
    ensures
        -l <= 2 * (a - round_div(a, l) * l) < l,
{
    let n = (2 * a + l) / (2 * l);
    let r = (2 * a + l) % (2 * l);
    vstd::arithmetic::div_mod::lemma_fundamental_div_mod(2 * a + l, 2 * l);
    assert(2 * (a - n * l) == r - l) by (nonlinear_arith)
        requires
            2 * a + l == (2 * l) * n + r,
    ;
}

/// One component `c` of a vector, brought to length one by the divisor `l`:
/// the square of what comes out, times the square of `l`, is near the
/// square of `ONE * c`.
proof fn lemma_rounded_component(c: int, l: int, absc: int, cc: int, nn: int, ln: int, la: int)
    requires
        l > 0,
        absc >= 0,
        absc == c || absc == -c,
        cc == c * c,
        nn == round_div(ONE * c, l) * round_div(ONE * c, l),
        ln == (l * l) * nn,
        la == l * absc,
    ensures
        4 * ln >= 4_000_000_000_000_000_000 * cc - 4_000_000_000 * la,
        4 * ln <= 4_000_000_000_000_000_000 * cc + 4_000_000_000 * la + l * l,
{
    let one = ONE as int;
    let a = one * c;
    let n = round_div(a, l);
    let b = n * l;
    let e = a - b;
    lemma_round_div(a, l);
    assert(b * b == ln) by (nonlinear_arith)
        requires
            b == n * l,
            ln == (l * l) * nn,
            nn == n * n,
    ;
    let aa = a * a;
    assert(aa == 1_000_000_000_000_000_000 * cc) by (nonlinear_arith)
        requires
            aa == a * a,
            a == one * c,
            cc == c * c,
            one == 1_000_000_000,
    ;
    let ae = a * e;
    let ee = e * e;
    assert(b * b == aa - 2 * ae + ee) by (nonlinear_arith)
        requires
            e == a - b,
            aa == a * a,
            ae == a * e,
            ee == e * e,
    ;
    assert(-(1_000_000_000 * la) <= 2 * ae <= 1_000_000_000 * la) by (nonlinear_arith)
        requires
            ae == a * e,
            a == one * c,
            one == 1_000_000_000,
            -l <= 2 * e < l,
            la == l * absc,
            absc >= 0,
            absc == c || absc == -c,
            l > 0,
    ;
    assert(0 <= 4 * ee <= l * l) by (nonlinear_arith)
        requires
            ee == e * e,
            -l <= 2 * e < l,
    ;
}

/// Three numbers whose squares add up to `q` add up to less than seven
/// quarters of the root of `q`, and a bit.
pub proof fn lemma_sum_below_root(x: int, y: int, z: int, l: int)
    requires
        x >= 0,
        y >= 0,
        z >= 0,
        l >= 0,
        x * x + y * y + z * z < (l + 1) * (l + 1),
    ensures
        4 * (x + y + z) <= 7 * (l + 1),
{
    let c = x + y + z;
    let q = x * x + y * y + z * z;
    assert(c * c <= 3 * q) by (nonlinear_arith)
        requires
            c == x + y + z,
            q == x * x + y * y + z * z,
    {
        assert((x - y) * (x - y) >= 0);
        assert((x - z) * (x - z) >= 0);
        assert((y - z) * (y - z) >= 0);
    }
    assert(4 * c <= 7 * (l + 1)) by (nonlinear_arith)
        requires
            c * c <= 3 * q,
            q < (l + 1) * (l + 1),
            c >= 0,
            l >= 0,
    ;
}

/// A normalized vector is one long to within one billionth, whatever vector
/// it came from: the sum of the squares of its components lies between the
/// squares of one less a billionth and of one and a billionth. So does its
/// rounded length, and none of its components is more than one in
/// magnitude.
pub proof fn lemma_normalized_length(v: Point)
    requires
        v.square_len() > 0,
    ensures
        (ONE - 1) * (ONE - 1) <= v.normalized().square_len() <= (ONE + 1) * (ONE + 1),
        ONE - 1 <= v.normalized().len() <= ONE + 1,
        v.normalized().within(ONE as int),
{
    let one = ONE as int;
    let s = v.square_len();
    let k = root_scale(s);
    let l = v.fine_len();
    let n = v.normalized();
    lemma_fine_len(v);
    let (cx, cy, cz) = (v.x * k, v.y * k, v.z * k);
    assert(one * cx == v.x * ONE * k && one * cy == v.y * ONE * k && one * cz == v.z * ONE * k)
        by (nonlinear_arith)
        requires
            cx == v.x * k,
            cy == v.y * k,
            cz == v.z * k,
            one == ONE,
    ;
    let ax = if cx < 0 { -cx } else { cx };
    let ay = if cy < 0 { -cy } else { cy };
    let az = if cz < 0 { -cz } else { cz };
    let q = cx * cx + cy * cy + cz * cz;
    let ll = l * l;
    let (nnx, nny, nnz) = (n.x * n.x, n.y * n.y, n.z * n.z);
    let nn = nnx + nny + nnz;
    lemma_square_nonnegative(n.x);
    lemma_square_nonnegative(n.y);
    lemma_square_nonnegative(n.z);
    assert(nn == n.square_len());
    lemma_rounded_component(cx, l, ax, cx * cx, nnx, ll * nnx, l * ax);
    lemma_rounded_component(cy, l, ay, cy * cy, nny, ll * nny, l * ay);
    lemma_rounded_component(cz, l, az, cz * cz, nnz, ll * nnz, l * az);
    lemma_distribute(ll, nnx, nny, nnz);
    lemma_distribute(l, ax, ay, az);
    assert(ax * ax == cx * cx && ay * ay == cy * cy && az * az == cz * cz) by (nonlinear_arith)
        requires
            ax == cx || ax == -cx,
            ay == cy || ay == -cy,
            az == cz || az == -cz,
    ;
    lemma_sum_below_root(ax, ay, az, l);
    let c = ax + ay + az;
    let lc = l * c;
    let lnn = ll * nn;
    assert(4 * lnn >= 4_000_000_000_000_000_000 * q - 4_000_000_000 * lc);
    assert(4 * lnn <= 4_000_000_000_000_000_000 * q + 4_000_000_000 * lc + 3 * ll);
    assert(4 * lc <= 7 * (ll + l)) by (nonlinear_arith)
        requires
            lc == l * c,
            ll == l * l,
            4 * c <= 7 * (l + 1),
            l > 0,
    ;
    assert(q <= ll + 2 * l) by (nonlinear_arith)
        requires
            q < (l + 1) * (l + 1),
            ll == l * l,
    ;
    // Not shorter than one less a billionth.
    assert(nn >= 999_999_998_000_000_001) by (nonlinear_arith)
        requires
            4 * lnn >= 4_000_000_000_000_000_000 * q - 4_000_000_000 * lc,
            4 * lc <= 7 * (ll + l),
            q >= ll,
            lnn == ll * nn,
            ll == l * l,
            l >= 10_000_000_000,
    ;
    // Not longer than one and a billionth.
    assert(nn <= 1_000_000_002_000_000_001) by (nonlinear_arith)
        requires
            4 * lnn <= 4_000_000_000_000_000_000 * q + 4_000_000_000 * lc + 3 * ll,
            4 * lc <= 7 * (ll + l),
            q <= ll + 2 * l,
            lnn == ll * nn,
            ll == l * l,
            l >= 10_000_000_000,
            nn >= 0,
    ;
    assert((ONE - 1) * (ONE - 1) == 999_999_998_000_000_001 && (ONE + 1) * (ONE + 1)
        == 1_000_000_002_000_000_001) by (nonlinear_arith)
        requires
            ONE == 1_000_000_000,
    ;
    let low: nat = 999_999_999;
    assert(low * low == 999_999_998_000_000_001 && low * low < (low + 1) * (low + 1))
        by (nonlinear_arith)
        requires
            low == 999_999_999,
    ;
    lemma_int_sqrt_unique(low * low, low);
    lemma_int_sqrt_monotonic(low * low, nn as nat);
    lemma_int_sqrt_bounds(nn as nat);
    let high: nat = 1_000_000_002;
    assert(high * high > 1_000_000_002_000_000_001) by (nonlinear_arith)
        requires
            high == 1_000_000_002,
    ;
    if int_sqrt(nn as nat) >= high {
        crate::fixed::lemma_square_le(high, int_sqrt(nn as nat));
    }
    lemma_unit_component(cx, l);
    lemma_unit_component(cy, l);
    lemma_unit_component(cz, l);
}

/// A component that is no longer than the divisor comes out no longer than
/// one.
proof fn lemma_unit_component(c: int, l: int)
    requires
        l > 0,
        -l <= c <= l,
    ensures
        -ONE <= round_div(ONE * c, l) <= ONE,
{
    let one = ONE as int;
    let a = one * c;
    let n = round_div(a, l);
    lemma_round_div(a, l);
    assert(-(one as int) <= n <= one) by (nonlinear_arith)
        requires
            -l <= 2 * (a - n * l) < l,
            a == one * c,
            -l <= c <= l,
            l > 0,
            one == 1_000_000_000,
    ;
}

} // verus!
