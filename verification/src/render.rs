//! The frame: one march per pixel.

use crate::camera::{pixel_ray, ray_direction, Camera, Heading, MAX_EDGE};
use crate::fixed::{floor_div, ONE};
use crate::march::{march, ray_march, MAX_STEPS};
use crate::vector::{point, Point};
use vstd::prelude::*;

verus! {

/// The colour of pixel `(x, y)` of a frame `w` wide and `h` high, seen from
/// `origin`.
pub open spec fn pixel_colour(
    origin: Point,
    x: int,
    y: int,
    w: int,
    h: int,
    heading: Heading,
    wave: int,
) -> Seq<u8> {
    march(origin, ray_direction(x, y, w, h, heading), wave, 0, MAX_STEPS as nat)
}

/// An edge of the screen scaled down: `screen * scale`, rounded down and
/// kept within what an edge can be.
pub open spec fn scaled_edge(screen: int, scale: int) -> int {
    let e = (screen * scale) / (ONE as int);
    if e < 0 {
        0
    } else if e > u32::MAX {
        u32::MAX as int
    } else {
        e
    }
}

/// The edge of the frame that is rendered for a screen edge of `screen`
/// pixels at the scale `scale`.
pub fn frame_edge(screen: u32, scale: i64) -> (edge: u32)
    ensures
        edge == scaled_edge(screen as int, scale as int),
{
    proof {
        crate::vector::lemma_product_fits(screen as int, scale as int);
    }
    let e: i128 = floor_div((screen as i128) * (scale as i128), ONE as i128);
    if e < 0 {
        0
    } else if e > u32::MAX as i128 {
        u32::MAX
    } else {
        e as u32
    }
}

/// In a frame `w` wide, stored row by row, the pixel `(x, y)` stands at
/// `y * w + x`, and nowhere else.
pub proof fn lemma_pixel_index(x: int, y: int, w: int)
    requires
        0 <= x < w,
        0 <= y,
    ensures
        (y * w + x) % w == x,
        (y * w + x) / w == y,
{
    vstd::arithmetic::div_mod::lemma_fundamental_div_mod_converse(y * w + x, w, y, x);
}

/// Seen from the pose at start, the centre pixel of a frame with odd edges
/// looks straight along a row of cells, through the middle of their faces,
/// and so is black, whatever the wave.
pub proof fn lemma_first_view_centre(w: int, h: int, wave: int)
    requires
        w > 0,
        h > 0,
        w % 2 == 1,
        h % 2 == 1,
        -ONE <= wave <= ONE,
    ensures
        ({
            let level = Heading { sin_pitch: 0, cos_pitch: ONE, sin_yaw: 0, cos_yaw: ONE };
            let start = Point { x: 0, y: 0, z: -2 * ONE };
            &&& ray_direction(w / 2, h / 2, w, h, level) == (Point { x: 0, y: 0, z: ONE as int })
            &&& pixel_colour(start, w / 2, h / 2, w, h, level, wave) == crate::march::miss()
        }),
{
    let one = ONE as int;
    assert(2 * (w / 2) + 1 - w == 0);
    assert(h - 2 * (h / 2) - 1 == 0);
    assert((0 * crate::camera::FOV_SCALE) / h == 0) by (nonlinear_arith)
        requires
            h > 0,
    ;
    assert(crate::fixed::scaled_product(one, one) == one) by (nonlinear_arith)
        requires
            one == 1_000_000_000,
    ;
    assert(crate::fixed::scaled_product(0, one) == 0 && crate::fixed::scaled_product(one, 0) == 0
        && crate::fixed::scaled_product(0, 0) == 0) by (nonlinear_arith)
        requires
            one == 1_000_000_000,
    ;
    crate::march::lemma_axis_ray_misses(-2 * one, one, wave);
}

/// Renders one frame `w` pixels wide and `h` high. First the ray through
/// the centre pixel becomes the camera's forward direction; then every
/// pixel is marched from the camera's position. The frame is stored row by
/// row: pixel `(x, y)` is element `y * w + x`.
pub fn render_frame(camera: &mut Camera, heading: &Heading, wave: i64, w: u32, h: u32) -> (frame:
    Vec<[u8; 3]>)
    requires
        old(camera).wf(),
        heading.wf(),
        -ONE <= wave <= ONE,
        0 < w <= MAX_EDGE,
        0 < h <= MAX_EDGE,
    ensures
        final(camera).wf(),
        point(final(camera).forward) == ray_direction(
            w as int / 2,
            h as int / 2,
            w as int,
            h as int,
            *heading,
        ),
        final(camera).position == old(camera).position,
        final(camera).up == old(camera).up,
        final(camera).rotation == old(camera).rotation,
        frame.len() == w * h,
        forall|j: int|
            0 <= j < w * h ==> (#[trigger] frame[j])@ == pixel_colour(
                point(old(camera).position),
                j % (w as int),
                j / (w as int),
                w as int,
                h as int,
                *heading,
                wave as int,
            ),
{
    camera.aim(heading, w, h);
    let origin: [i64; 3] = camera.position;
    proof {
        lemma_area(w as int, h as int);
    }
    let count: u32 = w * h;
    let mut frame: Vec<[u8; 3]> = Vec::new();
    let mut i: u32 = 0;
    while i < count
        invariant
            i <= count,
            count == w * h,
            0 < w <= MAX_EDGE,
            0 < h <= MAX_EDGE,
            heading.wf(),
            -ONE <= wave <= ONE,
            frame.len() == i,
            forall|j: int|
                0 <= j < i ==> (#[trigger] frame[j])@ == pixel_colour(
                    point(origin),
                    j % (w as int),
                    j / (w as int),
                    w as int,
                    h as int,
                    *heading,
                    wave as int,
                ),
        decreases count - i,
    {
        let x: u32 = i % w;
        let y: u32 = i / w;
        proof {
            lemma_row_in_frame(i as int, w as int, h as int);
        }
        let colour: [u8; 3] = ray_march(origin, pixel_ray(x, y, w, h, heading), wave);
        frame.push(colour);
        i = i + 1;
    }
    frame
}

proof fn lemma_area(w: int, h: int)
    by (nonlinear_arith)
    requires
        0 < w <= 32_768,
        0 < h <= 32_768,
    ensures
        0 < w * h <= 1_073_741_824,
{
}

proof fn lemma_row_in_frame(i: int, w: int, h: int)
    requires
        0 < w,
        0 < h,
        0 <= i < w * h,
    ensures
        0 <= i / w < h,
        0 <= i % w < w,
{
    let q = i / w;
    let r = i % w;
    vstd::arithmetic::div_mod::lemma_fundamental_div_mod(i, w);
    assert(0 <= q < h) by (nonlinear_arith)
        requires
            i == w * q + r,
            0 <= r < w,
            0 <= i < w * h,
            0 < w,
    ;
}

} // verus!
