//! Sphere tracing: walking along a ray by the scene's distance until the
//! surface is reached or the ray is given up, and shading what was hit.

use crate::fixed::{floor_div, ONE};
use crate::sdf::{
    calc_normal, de, dot, fold_point, lemma_fold_moves_by_cells, lemma_normal_is_analytic,
    lemma_normal_near_sphere, near_analytic,
    lemma_normal_periodic, lemma_scene_is_hollow, lemma_scene_periodic, lemma_wave_range,
    repeat_point, repeat_wide, scene_distance, scene_normal, CELL, MIN_RADIUS, NORMAL_EPS,
};
use crate::vector::{advance, point, vec3_advance, Point};
use vstd::prelude::*;

verus! {

/// A ray has hit the surface once the scene is nearer than this: 0.01.
pub const HIT_EPS: i64 = 10_000_000;

/// A ray that has travelled farther than this is given up: 100.
pub const MAX_DISTANCE: i64 = 100_000_000_000;

/// The number of steps after which a ray is given up.
pub const MAX_STEPS: u32 = 100;

/// The colour of a ray that hit nothing: black.
pub open spec fn miss() -> Seq<u8> {
    seq![0u8, 0u8, 0u8]
}

/// One colour channel for one component of a normal: the range `[-ONE, ONE]`
/// mapped linearly onto `0..=255` and rounded down; what lies outside the
/// range is clamped.
pub open spec fn channel(n: int) -> u8 {
    let v = ((n + ONE) * 255) / (2 * ONE);
    if v < 0 {
        0u8
    } else if v > 255 {
        255u8
    } else {
        v as u8
    }
}

/// The colour of a surface with the given normal. A surface without a normal
/// is black.
pub open spec fn shade_of(normal: Option<Point>) -> Seq<u8> {
    match normal {
        Some(n) => seq![channel(n.x), channel(n.y), channel(n.z)],
        None => miss(),
    }
}

/// The colour that a march yields which stands at `p`, has `travelled` so
/// far, and may take `steps` more steps: the shade of the surface if the
/// scene is nearer than `HIT_EPS`; black if the ray has travelled beyond
/// `MAX_DISTANCE` or has no step left; else what the march yields one step
/// on.
pub open spec fn march(p: Point, dir: Point, wave: int, travelled: int, steps: nat) -> Seq<u8>
    decreases steps,
{
    if steps == 0 {
        miss()
    } else {
        let d = scene_distance(p, wave);
        if d < HIT_EPS {
            shade_of(scene_normal(p, wave))
        } else if travelled > MAX_DISTANCE {
            miss()
        } else {
            march(advance(p, dir, d), dir, wave, travelled + d, (steps - 1) as nat)
        }
    }
}

/// The point at which a march from `p` stands after `k` steps, none of which
/// ended it.
pub open spec fn path_point(p: Point, dir: Point, wave: int, k: nat) -> Point
    decreases k,
{
    if k == 0 {
        p
    } else {
        let q = path_point(p, dir, wave, (k - 1) as nat);
        advance(q, dir, scene_distance(q, wave))
    }
}

/// One colour channel for one component of a normal.
pub fn shade_channel(n: i64) -> (c: u8)
    ensures
        c == channel(n as int),
{
    let v: i128 = floor_div((n as i128 + ONE as i128) * 255, 2 * (ONE as i128));
    if v < 0 {
        0
    } else if v > 255 {
        255
    } else {
        v as u8
    }
}

/// The colour of a surface with the given normal: each component of the
/// normal becomes one channel. A surface without a normal is black.
pub fn shade(normal: Option<[i64; 3]>) -> (c: [u8; 3])
    ensures
        c@ == shade_of(crate::sdf::point_of(normal)),
{
    match normal {
        Some(n) => {
            let c: [u8; 3] = [shade_channel(n[0]), shade_channel(n[1]), shade_channel(n[2])];
            assert(c@ =~= shade_of(crate::sdf::point_of(normal)));
            c
        },
        None => {
            let c: [u8; 3] = [0, 0, 0];
            assert(c@ =~= miss());
            c
        },
    }
}

/// Marches from `o` along `dir`, which need not have length one, and returns
/// the colour found: the shade of the first point at which the scene is
/// nearer than `HIT_EPS`, or black if the ray travels beyond `MAX_DISTANCE`
/// or takes `MAX_STEPS` steps without coming that near.
///
/// The march is carried out on points folded into the cell around the
/// origin. By [`lemma_march_folded`] that changes nothing of what it finds,
/// and it lets every origin and every direction be marched without
/// overflow.
pub fn ray_march(o: [i64; 3], dir: [i64; 3], wave: i64) -> (c: [u8; 3])
    requires
        -ONE <= wave <= ONE,
    ensures
        c@ == march(point(o), point(dir), wave as int, 0, MAX_STEPS as nat),
{
    let mut travelled: i64 = 0;
    let mut p: [i64; 3] = repeat_point(o, CELL);
    proof {
        lemma_march_folded(point(o), point(dir), wave as int, 0, MAX_STEPS as nat);
    }
    let mut step: u32 = 0;
    while step < MAX_STEPS
        invariant
            step <= MAX_STEPS,
            -ONE <= wave <= ONE,
            point(p).within(CELL - CELL / 2),
            0 <= travelled <= step * 3_000_000_000,
            march(point(p), point(dir), wave as int, travelled as int, (MAX_STEPS - step) as nat)
                == march(point(o), point(dir), wave as int, 0, MAX_STEPS as nat),
        decreases MAX_STEPS - step,
    {
        let d: i64 = de(p, wave);
        if d < HIT_EPS {
            return shade(calc_normal(p, wave));
        } else if travelled > MAX_DISTANCE {
            let c: [u8; 3] = [0, 0, 0];
            assert(c@ =~= miss());
            return c;
        }
        travelled = travelled + d;
        proof {
            lemma_march_folded(
                advance(point(p), point(dir), d as int),
                point(dir),
                wave as int,
                travelled as int,
                (MAX_STEPS - step - 1) as nat,
            );
        }
        p = step_along(p, dir, d);
        step = step + 1;
    }
    let c: [u8; 3] = [0, 0, 0];
    assert(c@ =~= miss());
    c
}

/// The point one step of length `d` along `dir` from `p`, folded into the
/// cell around the origin.
fn step_along(p: [i64; 3], dir: [i64; 3], d: i64) -> (r: [i64; 3])
    ensures
        point(r) == fold_point(advance(point(p), point(dir), d as int), CELL as int),
        point(r).within(CELL - CELL / 2),
{
    let next: [i128; 3] = vec3_advance(p, dir, d);
    [repeat_wide(next[0], CELL), repeat_wide(next[1], CELL), repeat_wide(next[2], CELL)]
}

/// A march from a point and the march from the same point folded into its
/// cell yield the same colour.
pub proof fn lemma_march_folded(p: Point, dir: Point, wave: int, travelled: int, steps: nat)
    ensures
        march(fold_point(p, CELL as int), dir, wave, travelled, steps) == march(
            p,
            dir,
            wave,
            travelled,
            steps,
        ),
{
    let c = CELL as int;
    lemma_fold_moves_by_cells(p.x, c);
    lemma_fold_moves_by_cells(p.y, c);
    lemma_fold_moves_by_cells(p.z, c);
    lemma_march_periodic(
        p,
        dir,
        wave,
        travelled,
        steps,
        -((p.x + c / 2) / c),
        -((p.y + c / 2) / c),
        -((p.z + c / 2) / c),
    );
}

/// A march that starts nearer to the surface than `HIT_EPS` hits at once: its
/// colour is the shade of its starting point, whatever its direction.
pub proof fn lemma_hit_at_start(o: Point, dir: Point, wave: int)
    requires
        scene_distance(o, wave) < HIT_EPS,
    ensures
        march(o, dir, wave, 0, MAX_STEPS as nat) == shade_of(scene_normal(o, wave)),
{
}

/// Where a march hits, the surface of the sphere is near: the point is
/// farther from the centre of its cell than the sphere's least radius less
/// `HIT_EPS`.
pub proof fn lemma_hit_is_near_sphere(p: Point, wave: int)
    requires
        -ONE <= wave <= ONE,
        scene_distance(p, wave) < HIT_EPS,
    ensures
        fold_point(p, CELL as int).len() > MIN_RADIUS - HIT_EPS,
{
    lemma_scene_is_hollow(p, wave);
    lemma_wave_range(wave);
}

/// Where a march hits, away from the lower faces of the cell, the surface
/// has a normal, and so a colour of its own; the normal is one long to
/// within one billionth; it points at the centre of the sphere, its dot
/// product with the vector from the centre of the cell to the point being
/// negative; and on every axis it is the analytic normal to within a
/// quarter of a thousandth.
pub proof fn lemma_hit_has_unit_normal(p: Point, wave: int)
    requires
        -ONE <= wave <= ONE,
        scene_distance(p, wave) < HIT_EPS,
        fold_point(p, CELL as int).x - NORMAL_EPS >= -(CELL / 2),
        fold_point(p, CELL as int).y - NORMAL_EPS >= -(CELL / 2),
        fold_point(p, CELL as int).z - NORMAL_EPS >= -(CELL / 2),
    ensures
        scene_normal(p, wave) is Some,
        (ONE - 1) * (ONE - 1) <= scene_normal(p, wave)->0.square_len() <= (ONE + 1) * (ONE + 1),
        ONE - 1 <= scene_normal(p, wave)->0.len() <= ONE + 1,
        dot(scene_normal(p, wave)->0, fold_point(p, CELL as int)) < 0,
        ({
            let q = fold_point(p, CELL as int);
            let n = scene_normal(p, wave)->0;
            &&& near_analytic(n.x, q.x, q.len())
            &&& near_analytic(n.y, q.y, q.len())
            &&& near_analytic(n.z, q.z, q.len())
        }),
{
    lemma_hit_is_near_sphere(p, wave);
    lemma_normal_near_sphere(p, wave);
    lemma_normal_is_analytic(p, wave);
}

/// What a ray sees repeats with the cells: a march from a point and the
/// march from the same point moved by whole cells, by `i`, `j` and `k` of
/// them along the three axes, yield the same colour.
pub proof fn lemma_march_periodic(
    p: Point,
    dir: Point,
    wave: int,
    travelled: int,
    steps: nat,
    i: int,
    j: int,
    k: int,
)
    ensures
        march(
            Point { x: p.x + i * CELL, y: p.y + j * CELL, z: p.z + k * CELL },
            dir,
            wave,
            travelled,
            steps,
        ) == march(p, dir, wave, travelled, steps),
    decreases steps,
{
    let moved = Point { x: p.x + i * CELL, y: p.y + j * CELL, z: p.z + k * CELL };
    lemma_scene_periodic(p, wave, i, j, k);
    lemma_normal_periodic(p, wave, i, j, k);
    if steps > 0 {
        let d = scene_distance(p, wave);
        if d >= HIT_EPS && travelled <= MAX_DISTANCE {
            let next = advance(p, dir, d);
            assert(advance(moved, dir, d) == (Point {
                x: next.x + i * CELL,
                y: next.y + j * CELL,
                z: next.z + k * CELL,
            }));
            lemma_march_periodic(next, dir, wave, travelled + d, (steps - 1) as nat, i, j, k);
        }
    }
}

/// A march that has travelled beyond `MAX_DISTANCE` without being near the
/// surface is given up at once.
pub proof fn lemma_miss_beyond_range(p: Point, dir: Point, wave: int, travelled: int, steps: nat)
    requires
        scene_distance(p, wave) >= HIT_EPS,
        travelled > MAX_DISTANCE,
    ensures
        march(p, dir, wave, travelled, steps) == miss(),
{
}

/// A march is black or the shade of a point nearer to the surface than
/// `HIT_EPS`: it never invents a colour.
pub proof fn lemma_march_outcome(p: Point, dir: Point, wave: int, travelled: int, steps: nat)
    ensures
        march(p, dir, wave, travelled, steps) == miss() || exists|q: Point|
            scene_distance(q, wave) < HIT_EPS && #[trigger] shade_of(scene_normal(q, wave))
                == march(p, dir, wave, travelled, steps),
    decreases steps,
{
    if steps > 0 {
        let d = scene_distance(p, wave);
        if d < HIT_EPS {
            assert(shade_of(scene_normal(p, wave)) == march(p, dir, wave, travelled, steps));
        } else if travelled <= MAX_DISTANCE {
            lemma_march_outcome(advance(p, dir, d), dir, wave, travelled + d, (steps - 1) as nat);
        }
    }
}

/// A ray that never comes nearer to the surface than `HIT_EPS`, at any of
/// the points where a march from `o` would stand, yields black.
pub proof fn lemma_miss_on_clear_path(o: Point, dir: Point, wave: int)
    requires
        forall|k: nat|
            k < MAX_STEPS ==> scene_distance(#[trigger] path_point(o, dir, wave, k), wave)
                >= HIT_EPS,
    ensures
        march(o, dir, wave, 0, MAX_STEPS as nat) == miss(),
{
    lemma_clear_path_from(o, dir, wave, 0, 0);
}

/// On the line through the centres of a row of cells the surface is never
/// nearer than a quarter of a unit: the sphere does not reach the middle of
/// a cell's face.
pub proof fn lemma_axis_is_clear(z: int, wave: int)
    requires
        -ONE <= wave <= ONE,
    ensures
        scene_distance(Point { x: 0, y: 0, z }, wave) >= MIN_RADIUS - CELL / 2,
{
    let p = Point { x: 0, y: 0, z };
    let q = fold_point(p, CELL as int);
    lemma_scene_is_hollow(p, wave);
    lemma_wave_range(wave);
    // Zero folds to zero, so the folded point is on the same line.
    vstd::arithmetic::div_mod::lemma_small_mod(
        (CELL / 2) as nat,
        CELL as nat,
    );
    assert(crate::sdf::fold_axis(0, CELL as int) == 0);
    assert(q.x == 0 && q.y == 0);
    assert(-(CELL / 2) <= q.z < CELL - CELL / 2);
    let m: nat = if q.z < 0 {
        (-q.z) as nat
    } else {
        q.z as nat
    };
    crate::vector::lemma_square_nonnegative(q.z);
    let s = q.square_len();
    assert(s == q.z * q.z) by (nonlinear_arith)
        requires
            s == q.x * q.x + q.y * q.y + q.z * q.z,
            q.x == 0,
            q.y == 0,
    {
        crate::vector::lemma_square_nonnegative(q.z);
    }
    assert(s == m * m && m * m < (m + 1) * (m + 1)) by (nonlinear_arith)
        requires
            s == q.z * q.z,
            m == q.z || m == -q.z,
    ;
    crate::fixed::lemma_int_sqrt_unique(q.square_len(), m);
}

proof fn lemma_axis_path(z0: int, dz: int, wave: int, k: nat)
    ensures
        path_point(Point { x: 0, y: 0, z: z0 }, Point { x: 0, y: 0, z: dz }, wave, k).x == 0,
        path_point(Point { x: 0, y: 0, z: z0 }, Point { x: 0, y: 0, z: dz }, wave, k).y == 0,
    decreases k,
{
    if k > 0 {
        lemma_axis_path(z0, dz, wave, (k - 1) as nat);
        let q = path_point(
            Point { x: 0, y: 0, z: z0 },
            Point { x: 0, y: 0, z: dz },
            wave,
            (k - 1) as nat,
        );
        let d = scene_distance(q, wave);
        assert(crate::fixed::scaled_product(0, d) == 0) by (nonlinear_arith)
            requires
                ONE == 1_000_000_000,
        ;
    }
}

/// A ray along the line through the centres of a row of cells hits nothing,
/// wherever on the line it starts and however long its direction is: the
/// camera's first view, straight ahead, is black.
pub proof fn lemma_axis_ray_misses(z0: int, dz: int, wave: int)
    requires
        -ONE <= wave <= ONE,
    ensures
        march(Point { x: 0, y: 0, z: z0 }, Point { x: 0, y: 0, z: dz }, wave, 0, MAX_STEPS as nat)
            == miss(),
{
    let o = Point { x: 0, y: 0, z: z0 };
    let dir = Point { x: 0, y: 0, z: dz };
    assert forall|k: nat| k < MAX_STEPS implies scene_distance(
        #[trigger] path_point(o, dir, wave, k),
        wave,
    ) >= HIT_EPS by {
        lemma_axis_path(z0, dz, wave, k);
        lemma_axis_is_clear(path_point(o, dir, wave, k).z, wave);
    }
    lemma_miss_on_clear_path(o, dir, wave);
}

proof fn lemma_clear_path_from(o: Point, dir: Point, wave: int, k: nat, travelled: int)
    requires
        k <= MAX_STEPS,
        forall|i: nat|
            i < MAX_STEPS ==> scene_distance(#[trigger] path_point(o, dir, wave, i), wave)
                >= HIT_EPS,
    ensures
        march(path_point(o, dir, wave, k), dir, wave, travelled, (MAX_STEPS - k) as nat) == miss(),
    decreases MAX_STEPS - k,
{
    if k < MAX_STEPS {
        let p = path_point(o, dir, wave, k);
        let d = scene_distance(p, wave);
        assert(d >= HIT_EPS);
        assert(path_point(o, dir, wave, k + 1) == advance(p, dir, d));
        if travelled <= MAX_DISTANCE {
            lemma_clear_path_from(o, dir, wave, k + 1, travelled + d);
        }
    }
}

} // verus!
