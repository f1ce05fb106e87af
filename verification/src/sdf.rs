//! The scene: signed distances to a sphere and a box, the operators that
//! combine them, the repetition of space into cells, and the surface normal.
//!
//! A signed distance is negative inside a shape, zero on its surface and
//! positive outside.

use crate::fixed::{
    floor_rem, int_sqrt, lemma_int_sqrt_bounds, lemma_int_sqrt_monotonic, sine_wave, wave_value,
    ONE,
};
use crate::vector::{
    lemma_fine_len, lemma_len_bound, lemma_len_dominates, lemma_len_zero,
    lemma_normalized_length, lemma_round_div, lemma_square_len_zero, lemma_square_nonnegative,
    lemma_sum_below_root, narrow, point, round_div, vec3_len, vec3_normalized, vec3_sub,
    wide_point, wide_sub, widen, Point,
};
use vstd::prelude::*;

verus! {

/// The edge of one cell of the repeated space: 5.
pub const CELL: i64 = 5_000_000_000;

/// The half-extent of the scene's box on every axis: 5.
pub const BOX_HALF: i64 = 5_000_000_000;

/// The smallest radius of the scene's sphere: 2.75.
pub const MIN_RADIUS: i64 = 2_750_000_000;

/// The largest radius of the scene's sphere: 3.
pub const MAX_RADIUS: i64 = 3_000_000_000;

/// The step of the finite differences that estimate the normal: 0.0001.
pub const NORMAL_EPS: i64 = 100_000;

/// Why a combination of distances could not be formed.
#[derive(Clone, Copy, Debug, PartialEq, Eq, Structural)]
pub enum SdfError {
    /// A union of no shapes has no distance.
    EmptyUnion,
}

/// The magnitude of a number.
pub open spec fn abs(a: int) -> int {
    if a < 0 {
        -a
    } else {
        a
    }
}

/// The larger of two numbers.
pub open spec fn max(a: int, b: int) -> int {
    if a >= b {
        a
    } else {
        b
    }
}

/// The smaller of two numbers.
pub open spec fn min(a: int, b: int) -> int {
    if a <= b {
        a
    } else {
        b
    }
}

/// A coordinate folded into the cell of edge `c` around the origin: the
/// result lies in `[-c / 2, c - c / 2)` and differs from `x` by a multiple of
/// `c`.
pub open spec fn fold_axis(x: int, c: int) -> int {
    (x + c / 2) % c - c / 2
}

/// A point folded into the cell of edge `c` around the origin, axis by axis.
pub open spec fn fold_point(p: Point, c: int) -> Point {
    Point { x: fold_axis(p.x, c), y: fold_axis(p.y, c), z: fold_axis(p.z, c) }
}

/// The distance from `p` to the sphere of radius `r` around the origin.
pub open spec fn sphere_distance(p: Point, r: int) -> int {
    p.len() - r
}

/// `p` mirrored into the first octant and measured from the corner `b`.
pub open spec fn box_offset(p: Point, b: Point) -> Point {
    Point { x: abs(p.x) - b.x, y: abs(p.y) - b.y, z: abs(p.z) - b.z }
}

/// The part of an offset that lies outside the box.
pub open spec fn outside_part(q: Point) -> Point {
    Point { x: max(q.x, 0), y: max(q.y, 0), z: max(q.z, 0) }
}

/// The distance from `p` to the box around the origin with half-extents `b`:
/// outside, the length of the offset's outside part; inside, the (negative)
/// offset of the nearest face.
pub open spec fn box_distance(p: Point, b: Point) -> int {
    let q = box_offset(p, b);
    outside_part(q).len() + min(max(q.x, max(q.y, q.z)), 0)
}

/// The distance to what is left of shape `b` once shape `a` is cut out.
pub open spec fn subtract(a: int, b: int) -> int {
    max(-a, b)
}

/// The radius of the scene's sphere for a given sine of its wave.
pub open spec fn scene_radius(wave: int) -> int {
    wave_value(wave, MIN_RADIUS as int, MAX_RADIUS as int)
}

/// The scene's distance function: in every cell of the repeated space, the
/// box with the pulsating sphere cut out of it.
#[verifier::opaque]
pub open spec fn scene_distance(p: Point, wave: int) -> int {
    let q = fold_point(p, CELL as int);
    subtract(
        sphere_distance(q, scene_radius(wave)),
        box_distance(q, Point { x: BOX_HALF as int, y: BOX_HALF as int, z: BOX_HALF as int }),
    )
}

/// The scene's distance at `p` minus its distance one step back along each
/// axis: a multiple of the gradient.
pub open spec fn scene_slope(p: Point, wave: int) -> Point {
    let d = scene_distance(p, wave);
    let e = NORMAL_EPS as int;
    Point {
        x: d - scene_distance(Point { x: p.x - e, y: p.y, z: p.z }, wave),
        y: d - scene_distance(Point { x: p.x, y: p.y - e, z: p.z }, wave),
        z: d - scene_distance(Point { x: p.x, y: p.y, z: p.z - e }, wave),
    }
}

/// The direction in which the scene's distance grows fastest at `p`, as a
/// vector that is one long to within one billionth. Where the distance is
/// flat there is none.
pub open spec fn scene_normal(p: Point, wave: int) -> Option<Point> {
    let slope = scene_slope(p, wave);
    if slope == (Point { x: 0, y: 0, z: 0 }) {
        None
    } else {
        Some(slope.normalized())
    }
}

/// The model of a vector that may be missing.
pub open spec fn point_of(v: Option<[i64; 3]>) -> Option<Point> {
    match v {
        Some(a) => Some(point(a)),
        None => None,
    }
}

/// Folds one coordinate into the cell of edge `c` around the origin.
pub fn repeat_axis(x: i64, c: i64) -> (r: i64)
    requires
        c > 0,
    ensures
        r == fold_axis(x as int, c as int),
        -(c / 2) <= r < c - c / 2,
{
    repeat_wide(x as i128, c)
}

/// Folds one coordinate that is held in 128 bits, with room for half a
/// cell above it, into the cell of edge `c` around the origin.
pub fn repeat_wide(x: i128, c: i64) -> (r: i64)
    requires
        c > 0,
        x + c / 2 <= i128::MAX,
    ensures
        r == fold_axis(x as int, c as int),
        -(c / 2) <= r < c - c / 2,
{
    let half: i64 = c / 2;
    let m: i128 = floor_rem(x + half as i128, c as i128);
    (m - half as i128) as i64
}

/// Folds a point into the cell of edge `c` around the origin, so that
/// whatever is measured from the result repeats with period `c` on every
/// axis.
pub fn repeat_point(p: [i64; 3], c: i64) -> (r: [i64; 3])
    requires
        c > 0,
    ensures
        point(r) == fold_point(point(p), c as int),
        point(r).within(c - c / 2),
{
    [repeat_axis(p[0], c), repeat_axis(p[1], c), repeat_axis(p[2], c)]
}

/// The signed distance from `p` to the sphere of radius `r` around the
/// origin: the length of `p` less the radius, and so negative exactly
/// inside the sphere, zero exactly on it and positive exactly outside.
pub fn sphere_sdf(p: [i64; 3], r: i64) -> (d: i64)
    requires
        sphere_distance(point(p), r as int) <= i64::MAX,
    ensures
        d == sphere_distance(point(p), r as int),
        d == point(p).len() - r,
        d < 0 <==> point(p).len() < r,
        d == 0 <==> point(p).len() == r,
        d > 0 <==> point(p).len() > r,
{
    let len: u64 = vec3_len(p);
    (len as i128 - r as i128) as i64
}

/// The signed distance from `p` to the box around the origin with
/// half-extents `b`.
pub fn box_sdf(p: [i64; 3], b: [i64; 3]) -> (d: i64)
    requires
        box_distance(point(p), point(b)) <= i64::MAX,
    ensures
        d == box_distance(point(p), point(b)),
{
    let w: [i128; 3] = widen(p);
    let mirrored: [i128; 3] = [magnitude(w[0]), magnitude(w[1]), magnitude(w[2])];
    let q: [i128; 3] = wide_sub(mirrored, widen(b));
    let out: [i128; 3] = [larger(q[0], 0), larger(q[1], 0), larger(q[2], 0)];
    proof {
        let qq = box_offset(point(p), point(b));
        assert(wide_point(q) == qq);
        assert(wide_point(out) == outside_part(qq));
        lemma_len_dominates(outside_part(qq));
    }
    let len: u64 = vec3_len(narrow(out));
    let nearest: i128 = larger(q[0], larger(q[1], q[2]));
    let inner: i128 = if nearest < 0 { nearest } else { 0 };
    (len as i128 + inner) as i64
}

/// The distance to the union of shapes: the least of their distances. A
/// union of no shapes is an error.
pub fn union_sdf_op(x: Vec<i64>) -> (r: Result<i64, SdfError>)
    ensures
        x.len() == 0 <==> r == Err::<i64, SdfError>(SdfError::EmptyUnion),
        x.len() > 0 <==> r is Ok,
        r matches Ok(m) ==> x@.contains(m) && forall|i: int| 0 <= i < x.len() ==> m <= x[i],
{
    if x.len() == 0 {
        return Err(SdfError::EmptyUnion);
    }
    let mut least: i64 = x[0];
    let mut i: usize = 1;
    while i < x.len()
        invariant
            1 <= i <= x.len(),
            x@.contains(least),
            forall|j: int| 0 <= j < i ==> least <= x[j],
        decreases x.len() - i,
    {
        if x[i] < least {
            least = x[i];
        }
        i += 1;
    }
    Ok(least)
}

/// The distance to shape `b` with shape `a` cut out of it: the larger of
/// `-a` and `b`. The one distance left out is the least that 64 bits hold,
/// whose negation they do not hold.
pub fn subtract_sdf_op(a: i64, b: i64) -> (r: i64)
    requires
        a > i64::MIN,
    ensures
        r == subtract(a as int, b as int),
        r == -a || r == b,
        r >= -a,
        r >= b,
{
    let inverted: i64 = -a;
    if inverted >= b {
        inverted
    } else {
        b
    }
}

/// The scene's signed distance at `p`, for a given sine of the sphere's
/// wave.
pub fn de(p: [i64; 3], wave: i64) -> (d: i64)
    requires
        -ONE <= wave <= ONE,
    ensures
        d == scene_distance(point(p), wave as int),
        MIN_RADIUS - CELL <= d <= MAX_RADIUS,
{
    let q: [i64; 3] = repeat_point(p, CELL);
    let radius: i64 = sine_wave(wave, MIN_RADIUS, MAX_RADIUS);
    proof {
        reveal(scene_distance);
        lemma_scene_parts(point(p), wave as int);
    }
    let sphere: i64 = sphere_sdf(q, radius);
    let around: i64 = box_sdf(q, [BOX_HALF, BOX_HALF, BOX_HALF]);
    subtract_sdf_op(sphere, around)
}

/// The direction in which the scene's distance grows fastest at `p`, as a
/// vector that is one long to within one billionth; `None` where the
/// distance is flat and so has no such direction.
///
/// The differences are taken at `p` folded into the cell around the origin,
/// where by [`lemma_normal_periodic`] they are the same, and where a step
/// back cannot overflow.
pub fn calc_normal(p: [i64; 3], wave: i64) -> (n: Option<[i64; 3]>)
    requires
        -ONE <= wave <= ONE,
    ensures
        point_of(n) == scene_normal(point(p), wave as int),
        n matches Some(v) ==> point(v).within(ONE as int),
        n matches Some(v) ==> (ONE - 1) * (ONE - 1) <= point(v).square_len() <= (ONE + 1) * (ONE
            + 1),
        n matches Some(v) ==> ONE - 1 <= point(v).len() <= ONE + 1,
{
    let q: [i64; 3] = repeat_point(p, CELL);
    proof {
        let c = CELL as int;
        lemma_fold_moves_by_cells(p[0] as int, c);
        lemma_fold_moves_by_cells(p[1] as int, c);
        lemma_fold_moves_by_cells(p[2] as int, c);
        lemma_normal_periodic(
            point(p),
            wave as int,
            -((p[0] + c / 2) / c),
            -((p[1] + c / 2) / c),
            -((p[2] + c / 2) / c),
        );
    }
    let d0: i64 = de(q, wave);
    let d1: [i64; 3] = [
        de(vec3_sub(q, [NORMAL_EPS, 0, 0]), wave),
        de(vec3_sub(q, [0, NORMAL_EPS, 0]), wave),
        de(vec3_sub(q, [0, 0, NORMAL_EPS]), wave),
    ];
    vec3_normalized(vec3_sub([d0, d0, d0], d1))
}

fn magnitude(a: i128) -> (r: i128)
    requires
        a > i128::MIN,
    ensures
        r == abs(a as int),
{
    if a < 0 {
        -a
    } else {
        a
    }
}

fn larger(a: i128, b: i128) -> (r: i128)
    ensures
        r == max(a as int, b as int),
{
    if a >= b {
        a
    } else {
        b
    }
}

/// Inside a cell the scene's sphere and box are small: the distance to the
/// sphere fits with room to spare, and the box, which is larger than the
/// cell, is never left.
pub proof fn lemma_scene_parts(p: Point, wave: int)
    requires
        -ONE <= wave <= ONE,
    ensures
        ({
            let q = fold_point(p, CELL as int);
            let b = Point { x: BOX_HALF as int, y: BOX_HALF as int, z: BOX_HALF as int };
            &&& MIN_RADIUS <= scene_radius(wave) <= MAX_RADIUS
            &&& 0 <= q.len() <= CELL
            &&& box_distance(q, b) <= -(CELL / 2)
            &&& box_distance(q, b) >= -BOX_HALF
            &&& MIN_RADIUS - CELL <= scene_distance(p, wave) <= MAX_RADIUS
        }),
{
    reveal(scene_distance);
    let q = fold_point(p, CELL as int);
    let b = Point { x: BOX_HALF as int, y: BOX_HALF as int, z: BOX_HALF as int };
    lemma_wave_range(wave);
    assert(q.within(CELL as int / 2));
    lemma_len_bound(q, CELL as int / 2);
    let off = box_offset(q, b);
    assert(outside_part(off) == (Point { x: 0, y: 0, z: 0 }));
    lemma_len_zero(outside_part(off));
}

/// A point whose squared distance from the origin is exactly `r * r` lies
/// on the sphere of radius `r`: its distance to that sphere is zero.
pub proof fn lemma_sphere_surface(p: Point, r: int)
    requires
        r >= 0,
        p.square_len() == r * r,
    ensures
        sphere_distance(p, r) == 0,
{
    assert(r * r < (r + 1) * (r + 1)) by (nonlinear_arith)
        requires
            r >= 0,
    ;
    crate::fixed::lemma_int_sqrt_unique(p.square_len(), r as nat);
}

/// The distance to a sphere is the length less the radius, for every point
/// and every radius: negative exactly where the point is nearer to the
/// centre than the radius, zero exactly where it is as far, positive
/// exactly where it is farther.
pub proof fn lemma_sphere_sign(p: Point, r: int)
    ensures
        sphere_distance(p, r) == p.len() - r,
        sphere_distance(p, r) < 0 <==> p.len() < r,
        sphere_distance(p, r) == 0 <==> p.len() == r,
        sphere_distance(p, r) > 0 <==> p.len() > r,
{
}

/// Cutting `a` out of `b`, for every pair of distances: the result is the
/// larger of `-a` and `b`, so one of the two, and no smaller than either.
pub proof fn lemma_subtract_bounds(a: int, b: int)
    ensures
        subtract(a, b) == max(-a, b),
        subtract(a, b) == (if -a >= b { -a } else { b }),
        subtract(a, b) == -a || subtract(a, b) == b,
        subtract(a, b) >= -a,
        subtract(a, b) >= b,
{
}

/// Folding moves a coordinate by whole cells: by as many as the quotient
/// tells, backwards.
pub proof fn lemma_fold_moves_by_cells(x: int, c: int)
    requires
        c > 0,
    ensures
        fold_axis(x, c) == x + (-((x + c / 2) / c)) * c,
{
    let h = c / 2;
    let q = (x + h) / c;
    vstd::arithmetic::div_mod::lemma_fundamental_div_mod(x + h, c);
    assert((-q) * c == -(c * q)) by (nonlinear_arith);
}

/// Folding forgets whole cells: a coordinate and the same coordinate moved
/// by `k` cell edges fold to the same place.
pub proof fn lemma_fold_periodic(x: int, c: int, k: int)
    requires
        c > 0,
    ensures
        fold_axis(x + k * c, c) == fold_axis(x, c),
{
    vstd::arithmetic::div_mod::lemma_mod_multiples_vanish(k, x + c / 2, c);
    assert(c * k + (x + c / 2) == x + k * c + c / 2) by (nonlinear_arith);
}

/// The scene repeats with the period of one cell on every axis: moving a
/// point by whole cells, by `i`, `j` and `k` of them along the three axes,
/// does not change its distance, whatever the wave.
pub proof fn lemma_scene_periodic(p: Point, wave: int, i: int, j: int, k: int)
    ensures
        scene_distance(Point { x: p.x + i * CELL, y: p.y + j * CELL, z: p.z + k * CELL }, wave)
            == scene_distance(p, wave),
{
    reveal(scene_distance);
    lemma_fold_periodic(p.x, CELL as int, i);
    lemma_fold_periodic(p.y, CELL as int, j);
    lemma_fold_periodic(p.z, CELL as int, k);
}

/// The scene's normal repeats with the cell as its distance does.
pub proof fn lemma_normal_periodic(p: Point, wave: int, i: int, j: int, k: int)
    ensures
        scene_normal(Point { x: p.x + i * CELL, y: p.y + j * CELL, z: p.z + k * CELL }, wave)
            == scene_normal(p, wave),
{
    let e = NORMAL_EPS as int;
    lemma_scene_periodic(p, wave, i, j, k);
    lemma_scene_periodic(Point { x: p.x - e, y: p.y, z: p.z }, wave, i, j, k);
    lemma_scene_periodic(Point { x: p.x, y: p.y - e, z: p.z }, wave, i, j, k);
    lemma_scene_periodic(Point { x: p.x, y: p.y, z: p.z - e }, wave, i, j, k);
}

/// One cell along the first axis is a period of the scene.
pub proof fn lemma_scene_periodic_x(p: Point, wave: int)
    ensures
        scene_distance(Point { x: p.x + CELL, y: p.y, z: p.z }, wave) == scene_distance(p, wave),
{
    lemma_scene_periodic(p, wave, 1, 0, 0);
    assert(p.x + 1 * CELL == p.x + CELL);
    assert(p.y + 0 * CELL == p.y);
    assert(p.z + 0 * CELL == p.z);
}

/// Whatever is measured from a folded point repeats with the cell: this is
/// the law of the folding itself, for any cell edge `c`.
pub proof fn lemma_fold_point_periodic(p: Point, c: int, i: int, j: int, k: int)
    requires
        c > 0,
    ensures
        fold_point(Point { x: p.x + i * c, y: p.y + j * c, z: p.z + k * c }, c) == fold_point(p, c),
{
    lemma_fold_periodic(p.x, c, i);
    lemma_fold_periodic(p.y, c, j);
    lemma_fold_periodic(p.z, c, k);
}

/// The cell lies wholly inside the scene's box, so the box never decides:
/// everywhere the scene's distance is the radius of the sphere minus the
/// distance from the centre of the cell. What is solid is what lies outside
/// the sphere.
pub proof fn lemma_scene_is_hollow(p: Point, wave: int)
    requires
        -ONE <= wave <= ONE,
    ensures
        scene_distance(p, wave) == scene_radius(wave) - fold_point(p, CELL as int).len(),
{
    reveal(scene_distance);
    lemma_scene_parts(p, wave);
}

/// Where the scene has a normal, it is one long to within one billionth,
/// and none of its components is more than one in magnitude.
pub proof fn lemma_normal_length(p: Point, wave: int)
    requires
        scene_normal(p, wave) is Some,
    ensures
        (ONE - 1) * (ONE - 1) <= scene_normal(p, wave)->0.square_len() <= (ONE + 1) * (ONE + 1),
        ONE - 1 <= scene_normal(p, wave)->0.len() <= ONE + 1,
        scene_normal(p, wave)->0.within(ONE as int),
{
    let slope = scene_slope(p, wave);
    lemma_square_len_zero(slope);
    lemma_normalized_length(slope);
}

/// A step back inside the cell commutes with folding: folding a coordinate
/// moved back by `e` gives the folded coordinate moved back by `e`, as long
/// as that is still in the cell.
pub proof fn lemma_fold_step(x: int, c: int, e: int)
    requires
        c > 0,
        e >= 0,
        fold_axis(x, c) - e >= -(c / 2),
    ensures
        fold_axis(x - e, c) == fold_axis(x, c) - e,
{
    let h = c / 2;
    let m = (x + h) % c;
    let k = (x + h) / c;
    vstd::arithmetic::div_mod::lemma_fundamental_div_mod(x + h, c);
    assert(x - e + h == k * c + (m - e)) by (nonlinear_arith)
        requires
            x + h == c * k + m,
    ;
    vstd::arithmetic::div_mod::lemma_fundamental_div_mod_converse(x - e + h, c, k, m - e);
}

/// How the length of a vector changes when its dominant component `qi`
/// moves back by `e`: by at least half of `e`, and against the sign of the
/// component. Here `s` is the squared length before and `t` after the move.
proof fn lemma_length_changes(s: nat, t: nat, qi: int, e: int)
    requires
        e == NORMAL_EPS,
        t == s - 2 * e * qi + e * e,
        3 * (qi * qi) >= s,
        int_sqrt(s) >= ONE,
    ensures
        qi != 0,
        qi > 0 ==> int_sqrt(t) <= int_sqrt(s) - e / 2,
        qi < 0 ==> int_sqrt(t) >= int_sqrt(s) + e / 2,
{
    let a = int_sqrt(s) as int;
    let b = int_sqrt(t) as int;
    let h = e / 2;
    crate::fixed::lemma_int_sqrt_bounds(s);
    crate::fixed::lemma_int_sqrt_bounds(t);
    assert(a * a >= 1_000_000_000_000_000_000) by (nonlinear_arith)
        requires
            a >= 1_000_000_000,
    ;
    let qq = qi * qi;
    if qi == 0 {
        assert(qq == 0) by (nonlinear_arith)
            requires
                qq == qi * qi,
                qi == 0,
        ;
    } else if qi > 0 {
        assert(4 * qi >= 2 * a + 150_002) by (nonlinear_arith)
            requires
                3 * (qi * qi) >= a * a,
                qi > 0,
                a >= 1_000_000_000,
        ;
        assert(s <= a * a + 2 * a) by (nonlinear_arith)
            requires
                s < (a + 1) * (a + 1),
        ;
        let hq = h * qi;
        assert(4 * hq >= 2 * (a * h) + 3 * (h * h) + 2 * h) by (nonlinear_arith)
            requires
                4 * qi >= 2 * a + 150_002,
                h == 50_000,
                hq == h * qi,
        ;
        assert(t == s - 4 * hq + 4 * (h * h)) by (nonlinear_arith)
            requires
                t == s - 2 * e * qi + e * e,
                e == 2 * h,
                hq == h * qi,
        ;
        let top = a - h + 1;
        assert(top * top == a * a - 2 * (a * h) + 2 * a + h * h - 2 * h + 1) by (nonlinear_arith)
            requires
                top == a - h + 1,
        ;
        assert(t < top * top);
        assert(b < top) by (nonlinear_arith)
            requires
                b * b <= t,
                t < top * top,
                b >= 0,
                top >= 0,
        ;
    } else {
        assert(2 * (-qi) >= a) by (nonlinear_arith)
            requires
                3 * (qi * qi) >= a * a,
                qi < 0,
                a >= 0,
        ;
        let hq = h * (-qi);
        assert(4 * hq >= 2 * (a * h)) by (nonlinear_arith)
            requires
                2 * (-qi) >= a,
                h == 50_000,
                hq == h * (-qi),
        ;
        assert(t == s + 4 * hq + 4 * (h * h)) by (nonlinear_arith)
            requires
                t == s - 2 * e * qi + e * e,
                e == 2 * h,
                hq == h * (-qi),
        ;
        let low = a + h;
        assert(low * low == a * a + 2 * (a * h) + h * h) by (nonlinear_arith)
            requires
                low == a + h,
        ;
        assert(h * h >= 0) by (nonlinear_arith);
        assert(low * low <= t);
        assert(b >= low) by (nonlinear_arith)
            requires
                t < (b + 1) * (b + 1),
                low * low <= t,
                b >= 0,
                low >= 0,
        ;
    }
}

/// Whether the component `qi` of `q` carries at least a third of the squared
/// length of `q`. Every vector has such a component.
pub open spec fn dominant(qi: int, q: Point) -> bool {
    3 * (qi * qi) >= q.square_len()
}

/// The dot product of two vectors of scalars, not scaled back.
pub open spec fn dot(a: Point, b: Point) -> int {
    a.x * b.x + a.y * b.y + a.z * b.z
}

/// The scene's distance one step back from `p` along one axis, where the
/// step stays inside the cell: `q` is `p` folded and `back` is `q` after
/// the step.
proof fn lemma_distance_back(p: Point, moved: Point, q: Point, back: Point, wave: int)
    requires
        -ONE <= wave <= ONE,
        q == fold_point(p, CELL as int),
        back == fold_point(moved, CELL as int),
    ensures
        scene_distance(p, wave) - scene_distance(moved, wave) == back.len() - q.len(),
{
    lemma_scene_is_hollow(p, wave);
    lemma_scene_is_hollow(moved, wave);
}

/// How far the length of a vector can change when one component `qi` moves
/// back by `e`: by no more than `e`; and it does not grow if the component
/// was at least `e`, nor shrink if the component was not positive.
proof fn lemma_length_moves(s: nat, t: nat, qi: int, e: int)
    requires
        e == NORMAL_EPS,
        t == s - 2 * e * qi + e * e,
        qi * qi <= s,
        int_sqrt(s) >= ONE,
    ensures
        -e <= int_sqrt(t) - int_sqrt(s) <= e,
        qi >= e ==> int_sqrt(t) <= int_sqrt(s),
        qi <= 0 ==> int_sqrt(t) >= int_sqrt(s),
{
    let a = int_sqrt(s) as int;
    let b = int_sqrt(t) as int;
    lemma_int_sqrt_bounds(s);
    lemma_int_sqrt_bounds(t);
    assert(-a <= qi <= a) by (nonlinear_arith)
        requires
            qi * qi <= s,
            s < (a + 1) * (a + 1),
            a >= 0,
    ;
    let eq = e * qi;
    assert(-(e * a) <= eq <= e * a) by (nonlinear_arith)
        requires
            eq == e * qi,
            -a <= qi <= a,
            e == 100_000,
    ;
    assert(t == s - 2 * eq + e * e) by (nonlinear_arith)
        requires
            t == s - 2 * e * qi + e * e,
            eq == e * qi,
    ;
    let top = a + 1 + e;
    assert(top * top == (a + 1) * (a + 1) + 2 * (e * a) + 2 * e + e * e) by (nonlinear_arith)
        requires
            top == a + 1 + e,
    ;
    assert(b < top) by (nonlinear_arith)
        requires
            b * b <= t,
            t < top * top,
            b >= 0,
            top >= 0,
    ;
    let low = a - e;
    assert(low * low == a * a - 2 * (e * a) + e * e) by (nonlinear_arith)
        requires
            low == a - e,
    ;
    assert(b >= low) by (nonlinear_arith)
        requires
            t < (b + 1) * (b + 1),
            low * low <= t,
            b >= 0,
            low >= 0,
    ;
    if qi >= e {
        assert(eq >= e * e) by (nonlinear_arith)
            requires
                eq == e * qi,
                qi >= e,
                e == 100_000,
        ;
        lemma_int_sqrt_monotonic(t, s);
    }
    if qi <= 0 {
        assert(eq <= 0 && e * e >= 0) by (nonlinear_arith)
            requires
                eq == e * qi,
                qi <= 0,
                e == 100_000,
        ;
        lemma_int_sqrt_monotonic(s, t);
    }
}

/// What one axis adds to the dot product of a normal with the point it was
/// taken at. `si` is the slope along the axis, `ni` the normal's component
/// that comes of it with the divisor `l`, `qi` the point's coordinate.
/// Whatever the axis, it adds little; a dominant axis takes much away.
proof fn lemma_axis_term(si: int, ni: int, qi: int, l: int, steep: bool)
    requires
        0 < l < 2_000_000_000_000_000,
        ni == round_div(si * ONE * 10_000_000_000, l),
        -ONE <= ni <= ONE,
        -NORMAL_EPS <= si <= NORMAL_EPS,
        qi >= NORMAL_EPS ==> si <= 0,
        qi <= 0 ==> si >= 0,
        steep ==> (qi >= ONE / 2 && si <= -(NORMAL_EPS / 2)) || (qi <= -(ONE / 2) && si
            >= NORMAL_EPS / 2),
    ensures
        ni * qi <= 100_000_000_000_000,
        steep ==> ni * qi <= -125_000_000_000_000_000,
{
    let a = si * ONE * 10_000_000_000;
    let r = (2 * a + l) % (2 * l);
    vstd::arithmetic::div_mod::lemma_fundamental_div_mod(2 * a + l, 2 * l);
    assert(a == si * 10_000_000_000_000_000_000) by (nonlinear_arith)
        requires
            a == si * ONE * 10_000_000_000,
            ONE == 1_000_000_000,
    ;
    let ln = l * ni;
    assert(2 * a + l == 2 * ln + r) by (nonlinear_arith)
        requires
            2 * a + l == (2 * l) * ni + r,
            ln == l * ni,
    ;
    // The component has the sign of the slope.
    assert((si >= 0 ==> ni >= 0) && (si <= 0 ==> ni <= 0)) by (nonlinear_arith)
        requires
            2 * a + l == 2 * ln + r,
            ln == l * ni,
            0 <= r < 2 * l,
            a == si * 10_000_000_000_000_000_000,
            0 < l,
    ;
    let term = ni * qi;
    if qi >= NORMAL_EPS || qi <= 0 {
        assert(term <= 0) by (nonlinear_arith)
            requires
                term == ni * qi,
                (qi > 0 && ni <= 0) || (qi <= 0 && ni >= 0),
        ;
    } else {
        assert(term <= 100_000_000_000_000) by (nonlinear_arith)
            requires
                term == ni * qi,
                0 < qi < 100_000,
                -1_000_000_000 <= ni <= 1_000_000_000,
        ;
    }
    if steep {
        assert(ni >= 250_000_000 || ni <= -250_000_000) by (nonlinear_arith)
            requires
                2 * a + l == 2 * ln + r,
                ln == l * ni,
                0 <= r < 2 * l,
                a == si * 10_000_000_000_000_000_000,
                si <= -50_000 || si >= 50_000,
                (si <= 0 ==> ni <= 0) && (si >= 0 ==> ni >= 0),
                0 < l < 2_000_000_000_000_000,
        ;
        assert(term <= -125_000_000_000_000_000) by (nonlinear_arith)
            requires
                term == ni * qi,
                (qi >= 500_000_000 && ni <= -250_000_000) || (qi <= -500_000_000 && ni
                    >= 250_000_000),
        ;
    }
}

/// The squared length of a vector with squared length `s` after its
/// component `qi` has moved back by the step of the normal's differences.
pub open spec fn stepped_square(s: nat, qi: int) -> nat {
    (s - 2 * NORMAL_EPS * qi + NORMAL_EPS * NORMAL_EPS) as nat
}

/// Whether the component `ni` of a normal is within a quarter of a
/// thousandth of the analytic one at a point whose coordinate is `qi` and
/// whose distance from the centre is `a`: the analytic normal of the sphere
/// seen from inside is the point's direction from the centre, reversed.
pub open spec fn near_analytic(ni: int, qi: int, a: int) -> bool {
    -250_000 * a <= ni * a + ONE * qi <= 250_000 * a
}

/// Away from the lower faces of its cell, the slope at a point is the
/// change of its distance from the centre of the cell under a step back.
proof fn lemma_slope_is_length_change(p: Point, wave: int)
    requires
        -ONE <= wave <= ONE,
        fold_point(p, CELL as int).x - NORMAL_EPS >= -(CELL / 2),
        fold_point(p, CELL as int).y - NORMAL_EPS >= -(CELL / 2),
        fold_point(p, CELL as int).z - NORMAL_EPS >= -(CELL / 2),
    ensures
        ({
            let e = NORMAL_EPS as int;
            let q = fold_point(p, CELL as int);
            let s = q.square_len();
            let slope = scene_slope(p, wave);
            &&& s == q.x * q.x + q.y * q.y + q.z * q.z
            &&& q.x * q.x <= s && q.y * q.y <= s && q.z * q.z <= s
            &&& stepped_square(s, q.x) == s - 2 * e * q.x + e * e
            &&& stepped_square(s, q.y) == s - 2 * e * q.y + e * e
            &&& stepped_square(s, q.z) == s - 2 * e * q.z + e * e
            &&& slope.x == int_sqrt(stepped_square(s, q.x)) - int_sqrt(s)
            &&& slope.y == int_sqrt(stepped_square(s, q.y)) - int_sqrt(s)
            &&& slope.z == int_sqrt(stepped_square(s, q.z)) - int_sqrt(s)
        }),
{
    let c = CELL as int;
    let e = NORMAL_EPS as int;
    let q = fold_point(p, c);
    let s = q.square_len();
    let slope = scene_slope(p, wave);
    let px = Point { x: p.x - e, y: p.y, z: p.z };
    let py = Point { x: p.x, y: p.y - e, z: p.z };
    let pz = Point { x: p.x, y: p.y, z: p.z - e };
    let qx = Point { x: q.x - e, y: q.y, z: q.z };
    let qy = Point { x: q.x, y: q.y - e, z: q.z };
    let qz = Point { x: q.x, y: q.y, z: q.z - e };
    lemma_fold_step(p.x, c, e);
    lemma_fold_step(p.y, c, e);
    lemma_fold_step(p.z, c, e);
    lemma_distance_back(p, px, q, qx, wave);
    lemma_distance_back(p, py, q, qy, wave);
    lemma_distance_back(p, pz, q, qz, wave);
    assert(slope.x == qx.len() - q.len());
    assert(slope.y == qy.len() - q.len());
    assert(slope.z == qz.len() - q.len());
    lemma_square_nonnegative(q.x);
    lemma_square_nonnegative(q.y);
    lemma_square_nonnegative(q.z);
    lemma_square_nonnegative(q.x - e);
    lemma_square_nonnegative(q.y - e);
    lemma_square_nonnegative(q.z - e);
    assert(qx.square_len() == s - 2 * e * q.x + e * e) by (nonlinear_arith)
        requires
            qx.square_len() == (q.x - e) * (q.x - e) + q.y * q.y + q.z * q.z,
            s == q.x * q.x + q.y * q.y + q.z * q.z,
    ;
    assert(qy.square_len() == s - 2 * e * q.y + e * e) by (nonlinear_arith)
        requires
            qy.square_len() == q.x * q.x + (q.y - e) * (q.y - e) + q.z * q.z,
            s == q.x * q.x + q.y * q.y + q.z * q.z,
    ;
    assert(qz.square_len() == s - 2 * e * q.z + e * e) by (nonlinear_arith)
        requires
            qz.square_len() == q.x * q.x + q.y * q.y + (q.z - e) * (q.z - e),
            s == q.x * q.x + q.y * q.y + q.z * q.z,
    ;
}

/// At a point at least one unit from the centre of its cell, and far enough
/// from the cell's lower faces for the steps back to stay in the cell, the
/// scene has a normal; it is one long to within one billionth; and it
/// points at the centre of the sphere, out of the solid: its dot product
/// with the vector from the centre of the cell to the point is negative.
/// Every point that a march can hit is at least one unit from the centre.
pub proof fn lemma_normal_near_sphere(p: Point, wave: int)
    requires
        -ONE <= wave <= ONE,
        fold_point(p, CELL as int).len() >= ONE,
        fold_point(p, CELL as int).x - NORMAL_EPS >= -(CELL / 2),
        fold_point(p, CELL as int).y - NORMAL_EPS >= -(CELL / 2),
        fold_point(p, CELL as int).z - NORMAL_EPS >= -(CELL / 2),
    ensures
        scene_slope(p, wave).len() >= NORMAL_EPS / 2,
        scene_normal(p, wave) is Some,
        (ONE - 1) * (ONE - 1) <= scene_normal(p, wave)->0.square_len() <= (ONE + 1) * (ONE + 1),
        ONE - 1 <= scene_normal(p, wave)->0.len() <= ONE + 1,
        dot(scene_normal(p, wave)->0, fold_point(p, CELL as int)) < 0,
{
    let e = NORMAL_EPS as int;
    let q = fold_point(p, CELL as int);
    let s = q.square_len();
    let slope = scene_slope(p, wave);
    let (tx, ty, tz) = (stepped_square(s, q.x), stepped_square(s, q.y), stepped_square(s, q.z));
    lemma_slope_is_length_change(p, wave);
    // No slope is steeper than the step is long, and each has the sign of
    // a distance that falls towards the centre.
    lemma_length_moves(s, tx, q.x, e);
    lemma_length_moves(s, ty, q.y, e);
    lemma_length_moves(s, tz, q.z, e);
    // Along a dominant axis the slope is steep.
    let (dx, dy, dz) = (dominant(q.x, q), dominant(q.y, q), dominant(q.z, q));
    assert(dx || dy || dz);
    lemma_int_sqrt_bounds(s);
    if dx {
        lemma_length_changes(s, tx, q.x, e);
        lemma_dominant_is_far(s, q.x);
    }
    if dy {
        lemma_length_changes(s, ty, q.y, e);
        lemma_dominant_is_far(s, q.y);
    }
    if dz {
        lemma_length_changes(s, tz, q.z, e);
        lemma_dominant_is_far(s, q.z);
    }
    lemma_len_dominates(slope);
    assert(slope.len() >= e / 2);
    lemma_len_zero(slope);
    lemma_normal_length(p, wave);
    // The divisor of the normal is the slope's length, finely taken.
    let n = slope.normalized();
    let l = slope.fine_len();
    lemma_square_len_zero(slope);
    lemma_fine_len(slope);
    lemma_slope_divisor(slope, l);
    lemma_axis_term(slope.x, n.x, q.x, l, dx);
    lemma_axis_term(slope.y, n.y, q.y, l, dy);
    lemma_axis_term(slope.z, n.z, q.z, l, dz);
}

/// How near the change of a length under a step back is to what the
/// derivative of the length foretells: with `a` the length and `b` the
/// length after the component `qi` has moved back by `e`, `a * (b - a)` is
/// `-e * qi` to within a few lengths.
proof fn lemma_slope_near_analytic(s: nat, t: nat, qi: int, e: int)
    requires
        e == NORMAL_EPS,
        t == s - 2 * e * qi + e * e,
        qi * qi <= s,
        int_sqrt(s) >= ONE,
    ensures
        -2 * int_sqrt(s) <= int_sqrt(s) * (int_sqrt(t) - int_sqrt(s)) + e * qi <= 6 * int_sqrt(s),
{
    let a = int_sqrt(s) as int;
    let b = int_sqrt(t) as int;
    let d = b - a;
    lemma_int_sqrt_bounds(s);
    lemma_int_sqrt_bounds(t);
    lemma_length_moves(s, t, qi, e);
    let ad = a * d;
    let eq = e * qi;
    let (aa, bb, dd) = (a * a, b * b, d * d);
    assert(2 * ad == bb - aa - dd) by (nonlinear_arith)
        requires
            d == b - a,
            ad == a * d,
            aa == a * a,
            bb == b * b,
            dd == d * d,
    ;
    assert(0 <= dd <= 10_000_000_000) by (nonlinear_arith)
        requires
            dd == d * d,
            -100_000 <= d <= 100_000,
    ;
    assert(t == s - 2 * eq + 10_000_000_000) by (nonlinear_arith)
        requires
            t == s - 2 * e * qi + e * e,
            eq == e * qi,
            e == 100_000,
    ;
    assert(bb >= t - 2 * b && aa >= s - 2 * a) by (nonlinear_arith)
        requires
            t < (b + 1) * (b + 1),
            s < (a + 1) * (a + 1),
            bb == b * b,
            aa == a * a,
    ;
    assert(ad == int_sqrt(s) * (int_sqrt(t) - int_sqrt(s)));
}

/// The square of a slope, times the square of the length `a`, is near the
/// square of what the derivative foretells.
proof fn lemma_slope_square(a: int, si: int, qi: int, absq: int, xx: int, uu: int, aq: int)
    requires
        a >= ONE,
        -2 * a <= a * si + NORMAL_EPS * qi <= 6 * a,
        absq >= 0,
        absq == qi || absq == -qi,
        xx == (a * a) * (si * si),
        uu == qi * qi,
        aq == a * absq,
    ensures
        xx >= 10_000_000_000 * uu - 1_200_000 * aq,
        xx <= 10_000_000_000 * uu + 1_200_000 * aq + 36 * (a * a),
{
    let x = a * si;
    let u = NORMAL_EPS * qi;
    let d = x + u;
    let (du, dd) = (d * u, d * d);
    assert(xx == x * x) by (nonlinear_arith)
        requires
            xx == (a * a) * (si * si),
            x == a * si,
    ;
    assert(x * x == u * u - 2 * du + dd) by (nonlinear_arith)
        requires
            d == x + u,
            du == d * u,
            dd == d * d,
    ;
    assert(u * u == 10_000_000_000 * uu) by (nonlinear_arith)
        requires
            u == 100_000 * qi,
            uu == qi * qi,
    ;
    assert(-(600_000 * aq) <= du <= 600_000 * aq) by (nonlinear_arith)
        requires
            du == d * u,
            u == 100_000 * qi,
            -2 * a <= d <= 6 * a,
            aq == a * absq,
            absq >= 0,
            absq == qi || absq == -qi,
            a >= 0,
    ;
    assert(0 <= dd <= 36 * (a * a)) by (nonlinear_arith)
        requires
            dd == d * d,
            -2 * a <= d <= 6 * a,
            a >= 0,
    ;
}

/// The divisor of the normal at a point near the sphere: the slope there is
/// as long as the step, to within eleven billionths, and the divisor is
/// that length at its finest.
proof fn lemma_slope_length(a: int, q: Point, slope: Point, l: int)
    requires
        a >= ONE,
        a * a <= q.square_len() < (a + 1) * (a + 1),
        -2 * a <= a * slope.x + NORMAL_EPS * q.x <= 6 * a,
        -2 * a <= a * slope.y + NORMAL_EPS * q.y <= 6 * a,
        -2 * a <= a * slope.z + NORMAL_EPS * q.z <= 6 * a,
        slope.within(NORMAL_EPS as int),
        slope.square_len() > 0,
        l == slope.fine_len(),
    ensures
        999_890_000_000_000 <= l <= 1_000_110_000_000_000,
        crate::vector::root_scale(slope.square_len()) == 10_000_000_000,
{
    let s = q.square_len() as int;
    let ss = slope.square_len() as int;
    lemma_square_nonnegative(q.x);
    lemma_square_nonnegative(q.y);
    lemma_square_nonnegative(q.z);
    lemma_square_nonnegative(slope.x);
    lemma_square_nonnegative(slope.y);
    lemma_square_nonnegative(slope.z);
    let ax = if q.x < 0 { -q.x } else { q.x };
    let ay = if q.y < 0 { -q.y } else { q.y };
    let az = if q.z < 0 { -q.z } else { q.z };
    let aa = a * a;
    let (sx, sy, sz) = (slope.x * slope.x, slope.y * slope.y, slope.z * slope.z);
    lemma_slope_square(a, slope.x, q.x, ax, aa * sx, q.x * q.x, a * ax);
    lemma_slope_square(a, slope.y, q.y, ay, aa * sy, q.y * q.y, a * ay);
    lemma_slope_square(a, slope.z, q.z, az, aa * sz, q.z * q.z, a * az);
    assert(ax * ax == q.x * q.x && ay * ay == q.y * q.y && az * az == q.z * q.z)
        by (nonlinear_arith)
        requires
            ax == q.x || ax == -q.x,
            ay == q.y || ay == -q.y,
            az == q.z || az == -q.z,
    ;
    lemma_sum_below_root(ax, ay, az, a);
    let w = ax + ay + az;
    let aw = a * w;
    let total = aa * ss;
    assert(total == aa * sx + aa * sy + aa * sz && aw == a * ax + a * ay + a * az)
        by (nonlinear_arith)
        requires
            total == aa * ss,
            ss == sx + sy + sz,
            aw == a * w,
            w == ax + ay + az,
    ;
    assert(total >= 10_000_000_000 * s - 1_200_000 * aw);
    assert(total <= 10_000_000_000 * s + 1_200_000 * aw + 108 * aa);
    assert(4 * aw <= 7 * (aa + a)) by (nonlinear_arith)
        requires
            aw == a * w,
            aa == a * a,
            4 * w <= 7 * (a + 1),
            a > 0,
    ;
    assert(s <= aa + 2 * a) by (nonlinear_arith)
        requires
            s < (a + 1) * (a + 1),
            aa == a * a,
    ;
    assert(ss >= 9_997_800_121) by (nonlinear_arith)
        requires
            total >= 10_000_000_000 * s - 1_200_000 * aw,
            4 * aw <= 7 * (aa + a),
            s >= aa,
            total == aa * ss,
            aa == a * a,
            a >= 1_000_000_000,
    ;
    assert(ss < 10_002_200_121) by (nonlinear_arith)
        requires
            total <= 10_000_000_000 * s + 1_200_000 * aw + 108 * aa,
            4 * aw <= 7 * (aa + a),
            s <= aa + 2 * a,
            total == aa * ss,
            aa == a * a,
            a >= 1_000_000_000,
            ss >= 0,
    ;
    lemma_fine_len(slope);
    let k = crate::vector::root_scale(slope.square_len());
    assert(k == 10_000_000_000);
    let kss = (k * k) * ss;
    assert(999_890_000_000_000 <= l <= 1_000_110_000_000_000) by (nonlinear_arith)
        requires
            l * l <= kss,
            kss < (l + 1) * (l + 1),
            kss == (k * k) * ss,
            k == 10_000_000_000,
            9_997_800_121 <= ss < 10_002_200_121,
            l >= 0,
    ;
}

/// One component of the normal at a point near the sphere is near the
/// analytic one.
proof fn lemma_component_analytic(a: int, si: int, qi: int, ni: int, l: int)
    requires
        a >= ONE,
        -a <= qi <= a,
        -2 * a <= a * si + NORMAL_EPS * qi <= 6 * a,
        999_890_000_000_000 <= l <= 1_000_110_000_000_000,
        ni == round_div(si * ONE * 10_000_000_000, l),
    ensures
        near_analytic(ni, qi, a),
{
    let big = si * ONE * 10_000_000_000;
    lemma_round_div(big, l);
    let e2 = 2 * (big - ni * l);
    let d = a * si + NORMAL_EPS * qi;
    let t = ni * a + ONE * qi;
    let tl = t * l;
    let al = a * l;
    let p1 = 10_000_000_000_000_000_000 * d;
    let gap = l - 1_000_000_000_000_000;
    let p2 = 1_000_000_000 * (qi * gap);
    let p3 = a * e2;
    assert(2 * tl == 2 * p1 + 2 * p2 - p3) by (nonlinear_arith)
        requires
            tl == t * l,
            t == ni * a + ONE * qi,
            ONE == 1_000_000_000,
            p1 == 10_000_000_000_000_000_000 * d,
            d == a * si + 100_000 * qi,
            p2 == 1_000_000_000 * (qi * gap),
            gap == l - 1_000_000_000_000_000,
            p3 == a * e2,
            e2 == 2 * (big - ni * l),
            big == si * ONE * 10_000_000_000,
    ;
    assert(-(110_000_000_000_000_000_000 * a) <= p2 <= 110_000_000_000_000_000_000 * a)
        by (nonlinear_arith)
        requires
            p2 == 1_000_000_000 * (qi * gap),
            -110_000_000_000 <= gap <= 110_000_000_000,
            -a <= qi <= a,
            a >= 0,
    ;
    assert(-al <= p3 <= al) by (nonlinear_arith)
        requires
            p3 == a * e2,
            al == a * l,
            -l <= e2 < l,
            a >= 0,
    ;
    assert(-250_000 * a <= t <= 250_000 * a) by (nonlinear_arith)
        requires
            2 * tl == 2 * p1 + 2 * p2 - p3,
            tl == t * l,
            al == a * l,
            -20_000_000_000_000_000_000 * a <= p1 <= 60_000_000_000_000_000_000 * a,
            -(110_000_000_000_000_000_000 * a) <= p2 <= 110_000_000_000_000_000_000 * a,
            -al <= p3 <= al,
            999_890_000_000_000 <= l <= 1_000_110_000_000_000,
            a >= 1_000_000_000,
    ;
}

/// At a point at least one unit from the centre of its cell, and far enough
/// from the cell's lower faces for the steps back to stay in the cell, the
/// estimated normal is the analytic one to within a quarter of a
/// thousandth on every axis. The analytic normal of the scene, which is
/// hollow, is the direction from the point to the centre of its cell.
pub proof fn lemma_normal_is_analytic(p: Point, wave: int)
    requires
        -ONE <= wave <= ONE,
        fold_point(p, CELL as int).len() >= ONE,
        fold_point(p, CELL as int).x - NORMAL_EPS >= -(CELL / 2),
        fold_point(p, CELL as int).y - NORMAL_EPS >= -(CELL / 2),
        fold_point(p, CELL as int).z - NORMAL_EPS >= -(CELL / 2),
    ensures
        scene_normal(p, wave) is Some,
        ({
            let q = fold_point(p, CELL as int);
            let n = scene_normal(p, wave)->0;
            &&& near_analytic(n.x, q.x, q.len())
            &&& near_analytic(n.y, q.y, q.len())
            &&& near_analytic(n.z, q.z, q.len())
        }),
{
    let e = NORMAL_EPS as int;
    let q = fold_point(p, CELL as int);
    let s = q.square_len();
    let a = q.len();
    let slope = scene_slope(p, wave);
    let (tx, ty, tz) = (stepped_square(s, q.x), stepped_square(s, q.y), stepped_square(s, q.z));
    lemma_normal_near_sphere(p, wave);
    lemma_slope_is_length_change(p, wave);
    lemma_int_sqrt_bounds(s);
    lemma_len_dominates(q);
    lemma_length_moves(s, tx, q.x, e);
    lemma_length_moves(s, ty, q.y, e);
    lemma_length_moves(s, tz, q.z, e);
    lemma_slope_near_analytic(s, tx, q.x, e);
    lemma_slope_near_analytic(s, ty, q.y, e);
    lemma_slope_near_analytic(s, tz, q.z, e);
    lemma_len_zero(slope);
    lemma_square_len_zero(slope);
    let n = slope.normalized();
    let l = slope.fine_len();
    lemma_slope_length(a, q, slope, l);
    lemma_component_analytic(a, slope.x, q.x, n.x, l);
    lemma_component_analytic(a, slope.y, q.y, n.y, l);
    lemma_component_analytic(a, slope.z, q.z, n.z, l);
}

/// A dominant coordinate of a point at least one unit from the centre is at
/// least half a unit from zero.
proof fn lemma_dominant_is_far(s: nat, qi: int)
    requires
        3 * (qi * qi) >= s,
        int_sqrt(s) >= ONE,
    ensures
        qi >= ONE / 2 || qi <= -(ONE / 2),
{
    lemma_int_sqrt_bounds(s);
    let a = int_sqrt(s) as int;
    assert(qi >= 500_000_000 || qi <= -500_000_000) by (nonlinear_arith)
        requires
            3 * (qi * qi) >= s,
            a * a <= s,
            a >= 1_000_000_000,
    ;
}

/// The divisor of a slope's normal: the slope is short, so its length is
/// taken at its finest, and is below twice the step.
proof fn lemma_slope_divisor(slope: Point, l: int)
    requires
        slope.within(NORMAL_EPS as int),
        slope.square_len() > 0,
        l == slope.fine_len(),
    ensures
        crate::vector::root_scale(slope.square_len()) == 10_000_000_000,
        0 < l < 2_000_000_000_000_000,
{
    let s = slope.square_len();
    lemma_square_nonnegative(slope.x);
    lemma_square_nonnegative(slope.y);
    lemma_square_nonnegative(slope.z);
    assert(s <= 30_000_000_000) by (nonlinear_arith)
        requires
            s == slope.x * slope.x + slope.y * slope.y + slope.z * slope.z,
            -100_000 <= slope.x <= 100_000,
            -100_000 <= slope.y <= 100_000,
            -100_000 <= slope.z <= 100_000,
    ;
    lemma_fine_len(slope);
    let k = crate::vector::root_scale(s);
    assert(l < 2_000_000_000_000_000) by (nonlinear_arith)
        requires
            l * l <= (k * k) * s,
            k == 10_000_000_000,
            s <= 30_000_000_000,
            l >= 0,
    ;
}

/// The scene's radius stays between its two extremes.
pub proof fn lemma_wave_range(wave: int)
    requires
        -ONE <= wave <= ONE,
    ensures
        MIN_RADIUS <= scene_radius(wave) <= MAX_RADIUS,
{
    let t = wave + ONE;
    let span = MAX_RADIUS - MIN_RADIUS;
    let d = 2 * ONE as int;
    let q = (t * span) / d;
    let r = (t * span) % d;
    vstd::arithmetic::div_mod::lemma_fundamental_div_mod(t * span, d);
    assert(0 <= q <= span) by (nonlinear_arith)
        requires
            t * span == d * q + r,
            0 <= r < d,
            0 <= t <= d,
            span >= 0,
            d > 0,
    ;
}

} // verus!
