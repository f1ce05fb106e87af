//! The camera: its pose, how input turns and moves it, and how a pixel of
//! the frame becomes a ray.
//!
//! Angles are kept as scalars in radians. Their sines and cosines are not
//! computed here: the caller supplies them as a [`Heading`].

use crate::fixed::{floor_div, modulo, scaled_product, times, ONE};
use crate::vector::{narrow, point, vec3_advance, vec3_cross, wide_point, Point};
use vstd::prelude::*;

verus! {

/// The tangent of half the vertical field of view, which is 60 degrees.
pub const FOV_SCALE: i64 = 577_350_269;

/// A full turn in radians, rounded down: angles are kept in `[0, FULL_TURN)`.
pub const FULL_TURN: i64 = 6_283_185_307;

/// An angle turns by this much for each unit of mouse motion: 0.01 radians.
pub const TURN_RATE: i64 = 10_000_000;

/// The camera covers this distance per millisecond of frame time: 0.02.
pub const SPEED: i64 = 20_000_000;

/// The largest magnitude of a component of the camera's forward direction:
/// a billion units, far beyond any ray that is aimed through a pixel.
pub const AIM_LIMIT: i64 = 1_000_000_000_000_000_000;

/// The largest edge of a frame, in pixels.
pub const MAX_EDGE: u32 = 32_768;

/// The sines and cosines of the camera's pitch and yaw, as scalars.
#[derive(Clone, Copy, Debug, PartialEq, Eq)]
pub struct Heading {
    pub sin_pitch: i64,
    pub cos_pitch: i64,
    pub sin_yaw: i64,
    pub cos_yaw: i64,
}

/// A direction in which a key moves the camera.
#[derive(Clone, Copy, Debug, PartialEq, Eq, Structural)]
pub enum Motion {
    Forward,
    Back,
    Left,
    Right,
    Down,
    Up,
}

/// The camera's pose. `rotation` holds pitch, yaw and an unused roll;
/// `forward` is the direction of the ray through the centre of the frame
/// that was rendered last.
#[derive(Clone, Copy, Debug, PartialEq, Eq)]
pub struct Camera {
    pub position: [i64; 3],
    pub up: [i64; 3],
    pub forward: [i64; 3],
    pub rotation: [i64; 3],
}

/// Whether a scalar can be a sine or a cosine.
pub open spec fn unit_range(v: int) -> bool {
    -ONE <= v <= ONE
}

/// Whether an angle is wrapped.
pub open spec fn angle_range(a: int) -> bool {
    0 <= a < FULL_TURN
}

/// An angle after a mouse motion of `delta` units: turned back by `delta`
/// hundredths of a radian and wrapped into `[0, FULL_TURN)`.
pub open spec fn turned(angle: int, delta: int) -> int {
    (angle - delta * TURN_RATE) % (FULL_TURN as int)
}

/// The horizontal sensor coordinate of the centre of pixel column `x` in a
/// frame `w` wide and `h` high: `((x + 1/2) / w * 2 - 1) * (w / h)` times the
/// field-of-view scale, in which `w` cancels.
pub open spec fn sensor_x(x: int, w: int, h: int) -> int {
    ((2 * x + 1 - w) * FOV_SCALE) / h
}

/// The vertical sensor coordinate of the centre of pixel row `y` in a frame
/// `h` high: `(1 - (y + 1/2) / h * 2)` times the field-of-view scale. Rows
/// count downwards, the coordinate grows upwards.
pub open spec fn sensor_y(y: int, h: int) -> int {
    ((h - 2 * y - 1) * FOV_SCALE) / h
}

/// The vector `(a, b)` turned by the angle with the given sine and cosine:
/// `(a cos - b sin, b cos + a sin)`.
pub open spec fn rotated(a: int, b: int, sin: int, cos: int) -> (int, int) {
    (
        scaled_product(a, cos) - scaled_product(b, sin),
        scaled_product(b, cos) + scaled_product(a, sin),
    )
}

/// The direction of the ray through the centre of pixel `(x, y)`: the
/// sensor point one unit ahead, pitched in the vertical plane, then yawed
/// in the horizontal plane, with the horizontal axis mirrored.
pub open spec fn ray_direction(x: int, y: int, w: int, h: int, heading: Heading) -> Point {
    let sx = sensor_x(x, w, h);
    let sy = sensor_y(y, h);
    let (z1, y1) = rotated(ONE as int, sy, heading.sin_pitch as int, heading.cos_pitch as int);
    let (x2, z2) = rotated(sx, z1, heading.sin_yaw as int, heading.cos_yaw as int);
    Point { x: -x2, y: y1, z: z2 }
}

/// The scalar by which a motion scales its axis: the distance covered in
/// `delta_ms` milliseconds, negative for the motions against the axis.
pub open spec fn signed_speed(motion: Motion, delta_ms: int) -> int {
    match motion {
        Motion::Forward | Motion::Right | Motion::Up => delta_ms * SPEED,
        Motion::Back | Motion::Left | Motion::Down => -(delta_ms * SPEED),
    }
}

impl Heading {
    /// Whether the four values can be sines and cosines.
    pub open spec fn wf(&self) -> bool {
        &&& unit_range(self.sin_pitch as int)
        &&& unit_range(self.cos_pitch as int)
        &&& unit_range(self.sin_yaw as int)
        &&& unit_range(self.cos_yaw as int)
    }

    /// The heading of a camera that is not rotated.
    pub fn level() -> (h: Heading)
        ensures
            h.wf(),
            h == (Heading { sin_pitch: 0, cos_pitch: ONE, sin_yaw: 0, cos_yaw: ONE }),
    {
        Heading { sin_pitch: 0, cos_pitch: ONE, sin_yaw: 0, cos_yaw: ONE }
    }

    /// Tests [`Heading::wf`].
    pub fn is_valid(&self) -> (b: bool)
        ensures
            b == self.wf(),
    {
        -ONE <= self.sin_pitch && self.sin_pitch <= ONE && -ONE <= self.cos_pitch
            && self.cos_pitch <= ONE && -ONE <= self.sin_yaw && self.sin_yaw <= ONE && -ONE
            <= self.cos_yaw && self.cos_yaw <= ONE
    }
}

impl Camera {
    /// Whether the pose is one this crate can work with: forward within
    /// `AIM_LIMIT`, up no longer than one per axis, and every angle
    /// wrapped. The position is free.
    pub open spec fn wf(&self) -> bool {
        &&& point(self.forward).within(AIM_LIMIT as int)
        &&& point(self.up).within(ONE as int)
        &&& angle_range(self.rotation[0] as int)
        &&& angle_range(self.rotation[1] as int)
        &&& angle_range(self.rotation[2] as int)
    }

    /// The axis along which a motion moves the camera.
    pub open spec fn axis(&self, motion: Motion) -> Point {
        match motion {
            Motion::Forward | Motion::Back => point(self.forward),
            Motion::Left | Motion::Right => point(self.forward).cross(point(self.up)),
            Motion::Down | Motion::Up => point(self.up),
        }
    }

    /// Where a motion that lasts `delta_ms` milliseconds takes the camera.
    pub open spec fn target(&self, motion: Motion, delta_ms: int) -> Point {
        let s = signed_speed(motion, delta_ms);
        point(self.position).plus(self.axis(motion).times(Point { x: s, y: s, z: s }))
    }

    /// Whether `after` is this camera once `motion` has lasted `delta_ms`
    /// milliseconds: at the target if its coordinates can be held, else
    /// where it was; in either case turned and aimed as before.
    pub open spec fn travels_to(&self, after: Camera, motion: Motion, delta_ms: int) -> bool {
        let goal = self.target(motion, delta_ms);
        &&& goal.fits() ==> point(after.position) == goal
        &&& !goal.fits() ==> after.position == self.position
        &&& after.up == self.up
        &&& after.forward == self.forward
        &&& after.rotation == self.rotation
    }

    /// Whether this is the pose at start: two units behind the origin,
    /// upright, looking along the third axis, not rotated.
    pub open spec fn is_initial(&self) -> bool {
        &&& point(self.position) == (Point { x: 0, y: 0, z: -2 * ONE })
        &&& point(self.up) == (Point { x: 0, y: ONE as int, z: 0 })
        &&& point(self.forward) == (Point { x: 0, y: 0, z: ONE as int })
        &&& point(self.rotation) == (Point { x: 0, y: 0, z: 0 })
    }

    /// The pose at start.
    pub fn new() -> (c: Camera)
        ensures
            c.wf(),
            c.is_initial(),
    {
        Camera {
            position: [0, 0, -2 * ONE],
            up: [0, ONE, 0],
            forward: [0, 0, ONE],
            rotation: [0, 0, 0],
        }
    }

    /// Tests [`Camera::wf`].
    pub fn is_valid(&self) -> (b: bool)
        ensures
            b == self.wf(),
    {
        in_range(&self.forward, AIM_LIMIT) && in_range(&self.up, ONE) && 0 <= self.rotation[0] && self.rotation[0] < FULL_TURN && 0 <= self.rotation[1]
            && self.rotation[1] < FULL_TURN && 0 <= self.rotation[2] && self.rotation[2]
            < FULL_TURN
    }

    /// Turns the camera by a mouse motion of `dx` units to the right and
    /// `dy` units down: yaw and pitch each go back by that many hundredths
    /// of a radian and are wrapped; the roll stays.
    pub fn turn(&mut self, dx: i32, dy: i32)
        requires
            old(self).wf(),
        ensures
            final(self).wf(),
            final(self).rotation[0] == turned(old(self).rotation[0] as int, dy as int),
            final(self).rotation[1] == turned(old(self).rotation[1] as int, dx as int),
            final(self).rotation[2] == old(self).rotation[2],
            final(self).position == old(self).position,
            final(self).up == old(self).up,
            final(self).forward == old(self).forward,
    {
        let pitch: i64 = modulo(self.rotation[0] - (dy as i64) * TURN_RATE, FULL_TURN);
        let yaw: i64 = modulo(self.rotation[1] - (dx as i64) * TURN_RATE, FULL_TURN);
        self.rotation = [pitch, yaw, self.rotation[2]];
    }

    /// The axis to the camera's right: the cross product of forward and up.
    pub fn right(&self) -> (r: [i64; 3])
        requires
            self.wf(),
        ensures
            point(r) == point(self.forward).cross(point(self.up)),
            point(r).within(2 * AIM_LIMIT),
    {
        let f = self.forward;
        let u = self.up;
        proof {
            lemma_cross_term(f[1] as int, u[2] as int, f[2] as int, u[1] as int);
            lemma_cross_term(f[2] as int, u[0] as int, f[0] as int, u[2] as int);
            lemma_cross_term(f[0] as int, u[1] as int, f[1] as int, u[0] as int);
        }
        vec3_cross(f, u)
    }

    /// Moves the camera along the axis of `motion` for `delta_ms`
    /// milliseconds, unless that would take it to where its coordinates
    /// cannot be held: then it stays where it is. Returns whether it moved.
    pub fn travel(&mut self, motion: Motion, delta_ms: u32) -> (moved: bool)
        requires
            old(self).wf(),
        ensures
            final(self).wf(),
            moved == old(self).target(motion, delta_ms as int).fits(),
            old(self).travels_to(*final(self), motion, delta_ms as int),
    {
        let axis: [i64; 3] = match motion {
            Motion::Forward | Motion::Back => self.forward,
            Motion::Left | Motion::Right => self.right(),
            Motion::Down | Motion::Up => self.up,
        };
        let pace: i64 = (delta_ms as i64) * SPEED;
        let s: i64 = match motion {
            Motion::Forward | Motion::Right | Motion::Up => pace,
            Motion::Back | Motion::Left | Motion::Down => -pace,
        };
        let goal: [i128; 3] = vec3_advance(self.position, axis, s);
        assert(wide_point(goal) == old(self).target(motion, delta_ms as int));
        let least: i128 = i64::MIN as i128;
        let most: i128 = i64::MAX as i128;
        if least <= goal[0] && goal[0] <= most && least <= goal[1] && goal[1] <= most && least
            <= goal[2] && goal[2] <= most {
            self.position = narrow(goal);
            true
        } else {
            false
        }
    }

    /// Makes the ray through the centre pixel of a frame `w` wide and `h`
    /// high — column `w / 2`, row `h / 2` — the camera's forward direction.
    pub fn aim(&mut self, heading: &Heading, w: u32, h: u32)
        requires
            old(self).wf(),
            heading.wf(),
            0 < w <= MAX_EDGE,
            0 < h <= MAX_EDGE,
        ensures
            final(self).wf(),
            point(final(self).forward) == ray_direction(
                w as int / 2,
                h as int / 2,
                w as int,
                h as int,
                *heading,
            ),
            final(self).position == old(self).position,
            final(self).up == old(self).up,
            final(self).rotation == old(self).rotation,
    {
        self.forward = pixel_ray(w / 2, h / 2, w, h, heading);
    }
}

/// The direction of the ray from the camera through the centre of pixel
/// `(x, y)` of a frame `w` wide and `h` high. Its length is not one.
pub fn pixel_ray(x: u32, y: u32, w: u32, h: u32, heading: &Heading) -> (dir: [i64; 3])
    requires
        x < w <= MAX_EDGE,
        y < h <= MAX_EDGE,
        heading.wf(),
    ensures
        point(dir) == ray_direction(x as int, y as int, w as int, h as int, *heading),
        point(dir).within(AIM_LIMIT as int),
{
    let fov: i128 = FOV_SCALE as i128;
    let across: i128 = 2 * (x as i128) + 1 - (w as i128);
    let down: i128 = (h as i128) - 2 * (y as i128) - 1;
    proof {
        lemma_sensor_bound(across as int, h as int);
        lemma_sensor_bound(down as int, h as int);
    }
    let sx: i64 = floor_div(across * fov, h as i128) as i64;
    let sy: i64 = floor_div(down * fov, h as i128) as i64;
    proof {
        lemma_turn_bound(ONE as int, heading.cos_pitch as int, ONE as int);
        lemma_turn_bound(sy as int, heading.sin_pitch as int, SENSOR_MAX as int);
        lemma_turn_bound(sy as int, heading.cos_pitch as int, SENSOR_MAX as int);
        lemma_turn_bound(ONE as int, heading.sin_pitch as int, ONE as int);
    }
    let z1: i64 = (times(ONE, heading.cos_pitch) - times(sy, heading.sin_pitch)) as i64;
    let y1: i64 = (times(sy, heading.cos_pitch) + times(ONE, heading.sin_pitch)) as i64;
    proof {
        lemma_turn_bound(sx as int, heading.cos_yaw as int, SENSOR_MAX as int);
        lemma_turn_bound(z1 as int, heading.sin_yaw as int, SENSOR_MAX + ONE);
        lemma_turn_bound(z1 as int, heading.cos_yaw as int, SENSOR_MAX + ONE);
        lemma_turn_bound(sx as int, heading.sin_yaw as int, SENSOR_MAX as int);
    }
    let x2: i64 = (times(sx, heading.cos_yaw) - times(z1, heading.sin_yaw)) as i64;
    let z2: i64 = (times(z1, heading.cos_yaw) + times(sx, heading.sin_yaw)) as i64;
    [-x2, y1, z2]
}

/// Whether every component of `v` is at most `m` in magnitude.
pub fn in_range(v: &[i64; 3], m: i64) -> (b: bool)
    requires
        m >= 0,
    ensures
        b == point(*v).within(m as int),
{
    -m <= v[0] && v[0] <= m && -m <= v[1] && v[1] <= m && -m <= v[2] && v[2] <= m
}

/// No sensor coordinate is larger than this: the field-of-view scale times
/// the largest edge of a frame.
pub const SENSOR_MAX: i64 = 18_918_613_614_592;

proof fn lemma_sensor_bound(a: int, h: int)
    requires
        0 < h <= MAX_EDGE,
        -(MAX_EDGE as int) <= a <= MAX_EDGE,
    ensures
        -SENSOR_MAX <= (a * FOV_SCALE) / h <= SENSOR_MAX,
        -SENSOR_MAX <= a * FOV_SCALE <= SENSOR_MAX,
{
    let n = a * FOV_SCALE;
    assert(-SENSOR_MAX <= n <= SENSOR_MAX) by (nonlinear_arith)
        requires
            n == a * 577_350_269,
            -32_768 <= a <= 32_768,
            SENSOR_MAX == 18_918_613_614_592,
    ;
    let q = n / h;
    let r = n % h;
    vstd::arithmetic::div_mod::lemma_fundamental_div_mod(n, h);
    assert(-SENSOR_MAX <= q <= SENSOR_MAX) by (nonlinear_arith)
        requires
            n == h * q + r,
            0 <= r < h,
            h >= 1,
            -SENSOR_MAX <= n <= SENSOR_MAX,
            SENSOR_MAX == 18_918_613_614_592,
    ;
}

/// A scalar times a sine or cosine is no larger than the scalar.
proof fn lemma_turn_bound(a: int, t: int, m: int)
    requires
        -m <= a <= m,
        -ONE <= t <= ONE,
    ensures
        -m <= scaled_product(a, t) <= m,
{
    let one = ONE as int;
    let q = (a * t) / one;
    let r = (a * t) % one;
    vstd::arithmetic::div_mod::lemma_fundamental_div_mod(a * t, one);
    assert(-m <= q <= m) by (nonlinear_arith)
        requires
            a * t == one * q + r,
            0 <= r < one,
            -m <= a <= m,
            -one <= t <= one,
            one == 1_000_000_000,
    ;
}

proof fn lemma_cross_term(p: int, q: int, r: int, s: int)
    requires
        -AIM_LIMIT <= p <= AIM_LIMIT,
        -AIM_LIMIT <= r <= AIM_LIMIT,
        -ONE <= q <= ONE,
        -ONE <= s <= ONE,
    ensures
        crate::vector::crossable(p, q, r, s),
        -2 * AIM_LIMIT <= (p * q - r * s) / (ONE as int) <= 2 * AIM_LIMIT,
{
    let one = ONE as int;
    let lim = AIM_LIMIT as int;
    assert(-lim * one <= p * q <= lim * one) by (nonlinear_arith)
        requires
            -lim <= p <= lim,
            -one <= q <= one,
            one >= 0,
            lim >= 0,
    ;
    assert(-lim * one <= r * s <= lim * one) by (nonlinear_arith)
        requires
            -lim <= r <= lim,
            -one <= s <= one,
            one >= 0,
            lim >= 0,
    ;
    assert(lim * one == 1_000_000_000_000_000_000_000_000_000) by (nonlinear_arith)
        requires
            lim == 1_000_000_000_000_000_000,
            one == 1_000_000_000,
    ;
    let n = p * q - r * s;
    let k = n / one;
    let rem = n % one;
    vstd::arithmetic::div_mod::lemma_fundamental_div_mod(n, one);
    assert(-2 * lim <= k <= 2 * lim) by (nonlinear_arith)
        requires
            n == one * k + rem,
            0 <= rem < one,
            -2 * (lim * one) <= n <= 2 * (lim * one),
            one == 1_000_000_000,
    ;
}

} // verus!
