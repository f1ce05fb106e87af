use raymarcher::fixed::ONE;
use raymarcher::march::{ray_march, shade, shade_channel, HIT_EPS, MAX_DISTANCE, MAX_STEPS};
use raymarcher::sdf::{calc_normal, de};

const BLACK: [u8; 3] = [0, 0, 0];

#[test]
fn march_constants() {
    assert_eq!(HIT_EPS, ONE / 100);
    assert_eq!(MAX_DISTANCE, 100 * ONE);
    assert_eq!(MAX_STEPS, 100);
}

#[test]
fn channel_maps_the_unit_range_onto_bytes() {
    assert_eq!(shade_channel(-ONE), 0);
    assert_eq!(shade_channel(0), 127);
    assert_eq!(shade_channel(ONE), 255);
    assert_eq!(shade_channel(ONE - 1), 254);
    assert_eq!(shade_channel(-577_350_269), 53);
    assert_eq!(shade_channel(ONE / 2), 191);
}

#[test]
fn channel_clamps_what_lies_outside() {
    assert_eq!(shade_channel(2 * ONE), 255);
    assert_eq!(shade_channel(-2 * ONE), 0);
    assert_eq!(shade_channel(i64::MAX), 255);
    assert_eq!(shade_channel(i64::MIN), 0);
}

#[test]
fn shade_turns_a_normal_into_a_colour() {
    assert_eq!(shade(Some([0, 0, ONE])), [127, 127, 255]);
    assert_eq!(shade(Some([-ONE, 0, ONE / 2])), [0, 127, 191]);
    assert_eq!(shade(Some([-577_350_269, -577_350_269, -577_350_269])), [53, 53, 53]);
}

#[test]
fn shade_without_a_normal_is_black() {
    assert_eq!(shade(None), BLACK);
}

#[test]
fn march_hits_at_once_when_it_starts_on_the_surface() {
    let starts: [[i64; 3]; 4] = [
        [1_660_000_000, 1_660_000_000, 1_660_000_000],
        [2 * ONE, -ONE, 2 * ONE],
        [2_300_000_000, 0, 1_725_000_000],
        [7 * ONE, 4 * ONE, -3 * ONE],
    ];
    for o in starts {
        assert!(de(o, 0) < HIT_EPS);
        let expected = shade(calc_normal(o, 0));
        assert_eq!(ray_march(o, [0, 0, ONE], 0), expected);
        assert_eq!(ray_march(o, [-ONE, 5 * ONE, 0], 0), expected);
        assert_eq!(ray_march(o, [0, 0, 0], 0), expected);
    }
    assert_eq!(ray_march([1_660_000_000, 1_660_000_000, 1_660_000_000], [0, 0, ONE], 0), [53, 53, 53]);
    assert_eq!(ray_march([2 * ONE, -ONE, 2 * ONE], [0, 0, ONE], 0), [42, 170, 42]);
}

#[test]
fn march_misses_along_an_axis_of_the_cells() {
    assert_eq!(ray_march([0, 0, -2 * ONE], [0, 0, ONE], 0), BLACK);
    assert_eq!(ray_march([0, 0, -2 * ONE], [0, 0, -ONE], 0), BLACK);
    assert_eq!(ray_march([0, 0, 0], [ONE, 0, 0], ONE), BLACK);
    assert_eq!(ray_march([0, 0, 0], [0, 40 * ONE, 0], -ONE), BLACK);
}

#[test]
fn march_that_stands_still_is_given_up() {
    assert_eq!(ray_march([0, 0, 0], [0, 0, 0], 0), BLACK);
    assert_eq!(ray_march([0, 0, 0], [1, 0, 0], 0), BLACK);
}

#[test]
fn march_shades_the_sphere_along_the_diagonal() {
    let unit = 577_350_269;
    assert_eq!(ray_march([0, 0, 0], [unit, unit, unit], 0), [53, 53, 53]);
    assert_eq!(ray_march([0, 0, 0], [-unit, -unit, -unit], 0), [201, 201, 201]);
    assert_eq!(ray_march([5 * ONE, -10 * ONE, 0], [unit, unit, unit], 0), [53, 53, 53]);
}

#[test]
fn march_exact_colours() {
    assert_eq!(ray_march([0, 0, -2 * ONE], [ONE, 0, 0], 0), [36, 127, 216]);
    assert_eq!(ray_march([0, 0, -2 * ONE], [ONE, 0, 0], ONE), [32, 127, 212]);
    assert_eq!(ray_march([0, 0, -2 * ONE], [ONE, 0, 0], -ONE), [40, 127, 220]);
    assert_eq!(ray_march([0, 0, -2 * ONE], [ONE, ONE, ONE], 0), [37, 37, 124]);
    assert_eq!(ray_march([0, 0, 0], [ONE, ONE, ONE], 0), [201, 201, 201]);
}

#[test]
fn march_takes_every_origin_and_direction() {
    assert_eq!(
        ray_march([i64::MAX, i64::MIN, 0], [i64::MIN, i64::MAX, i64::MAX], 0),
        [213, 41, 163]
    );
    assert_eq!(
        ray_march([i64::MAX, i64::MAX, i64::MAX], [i64::MAX, i64::MAX, i64::MAX], ONE),
        [53, 53, 53]
    );
    assert_eq!(
        ray_march([i64::MIN, i64::MIN, i64::MIN], [1, -1, i64::MIN], -ONE),
        [201, 201, 201]
    );
    assert_eq!(ray_march([i64::MAX, 0, i64::MIN], [0, 0, 0], 0), BLACK);
    assert_eq!(
        ray_march(
            [100_000_000 * ONE, 3_000_000_000 * ONE, -700_000_000 * ONE],
            [ONE, 2 * ONE, -ONE],
            0
        ),
        [214, 96, 40]
    );
    let far = 10_000_000 * ONE;
    assert_eq!(ray_march([far, -far, far], [far, far, -far], 0), BLACK);
}

#[test]
fn march_colour_follows_the_normal_of_the_hit() {
    let unit = 577_350_269;
    let hit = [1_659_882_023, 1_659_882_023, 1_659_882_023];
    assert!(de(hit, 0) < HIT_EPS);
    assert_eq!(ray_march([0, 0, 0], [unit, unit, unit], 0), shade(calc_normal(hit, 0)));
}

#[test]
fn march_repeats_with_the_cells() {
    let cell = 5 * ONE;
    let rays: [([i64; 3], [i64; 3]); 4] = [
        ([0, 0, -2 * ONE], [ONE, 0, 0]),
        ([0, 0, -2 * ONE], [ONE, ONE, ONE]),
        ([123_456_789, -ONE, 2 * ONE], [-300_000_000, 800_000_000, 500_000_000]),
        ([0, 0, 0], [577_350_269, 577_350_269, 577_350_269]),
    ];
    for (o, dir) in rays {
        for wave in [-ONE, 0, ONE / 2] {
            let here = ray_march(o, dir, wave);
            assert_eq!(here, ray_march([o[0] + cell, o[1], o[2]], dir, wave));
            assert_eq!(here, ray_march([o[0], o[1] - 3 * cell, o[2]], dir, wave));
            assert_eq!(here, ray_march([o[0] + 7 * cell, o[1] + cell, o[2] - 2 * cell], dir, wave));
        }
    }
}

fn float_scene(p: [f64; 3], sine: f64) -> f64 {
    let fold = |x: f64| {
        let a = x + 2.5;
        a - 5.0 * (a / 5.0).floor() - 2.5
    };
    let q = [fold(p[0]), fold(p[1]), fold(p[2])];
    let length = |v: [f64; 3]| (v[0] * v[0] + v[1] * v[1] + v[2] * v[2]).sqrt();
    let radius = 2.75 + (sine + 1.0) / 2.0 * 0.25;
    let b = [q[0].abs() - 5.0, q[1].abs() - 5.0, q[2].abs() - 5.0];
    let around = length([b[0].max(0.0), b[1].max(0.0), b[2].max(0.0)])
        + b[0].max(b[1].max(b[2])).min(0.0);
    (-(length(q) - radius)).max(around)
}

fn float_march(o: [f64; 3], dir: [f64; 3], sine: f64) -> [u8; 3] {
    let mut travelled = 0.0;
    let mut p = o;
    for _ in 0..100 {
        let d = float_scene(p, sine);
        if d < 0.01 {
            let e = 0.0001;
            let slope = [
                d - float_scene([p[0] - e, p[1], p[2]], sine),
                d - float_scene([p[0], p[1] - e, p[2]], sine),
                d - float_scene([p[0], p[1], p[2] - e], sine),
            ];
            let len = (slope[0] * slope[0] + slope[1] * slope[1] + slope[2] * slope[2]).sqrt();
            let channel = |s: f64| ((s / len + 1.0) * 0.5 * 255.0) as u8;
            return [channel(slope[0]), channel(slope[1]), channel(slope[2])];
        } else if travelled > 100.0 {
            break;
        }
        travelled += d;
        p = [p[0] + dir[0] * d, p[1] + dir[1] * d, p[2] + dir[2] * d];
    }
    [0, 0, 0]
}

#[test]
fn march_agrees_with_floats() {
    let rays: [([f64; 3], [f64; 3]); 8] = [
        ([0.0, 0.0, -2.0], [0.0, 0.0, 1.0]),
        ([0.0, 0.0, -2.0], [1.0, 0.0, 0.0]),
        ([0.0, 0.0, -2.0], [0.6, 0.0, 0.8]),
        ([0.0, 0.0, -2.0], [0.3, -0.4, 0.866]),
        ([1.0, 0.5, -1.0], [-0.5, 0.7, 0.51]),
        ([12.0, -7.5, 3.25], [0.2, 0.9, -0.38]),
        ([0.0, 0.0, 0.0], [0.57735, 0.57735, 0.57735]),
        ([-30.1, 40.2, -50.3], [0.86, 0.005, 0.51]),
    ];
    for (o, dir) in rays {
        for sine in [-1.0, 0.0, 0.25, 1.0] {
            let expected = float_march(o, dir, sine);
            let scalar = |v: f64| (v * 1e9).round() as i64;
            let got = ray_march(
                [scalar(o[0]), scalar(o[1]), scalar(o[2])],
                [scalar(dir[0]), scalar(dir[1]), scalar(dir[2])],
                scalar(sine),
            );
            for i in 0..3 {
                let gap = (got[i] as i32 - expected[i] as i32).abs();
                assert!(gap <= 1, "{o:?} {dir:?} {sine}: {got:?} vs {expected:?}");
            }
        }
    }
}
