use raymarcher::fixed::ONE;
use raymarcher::sdf::{
    box_sdf, calc_normal, de, repeat_axis, repeat_point, sphere_sdf, subtract_sdf_op,
    union_sdf_op, SdfError, BOX_HALF, CELL, MAX_RADIUS, MIN_RADIUS, NORMAL_EPS,
};
use raymarcher::vector::{vec3_len, vec3_square_len};

fn to_scalar(v: f64) -> i64 {
    (v * 1e9).round() as i64
}

fn to_vector(v: [f64; 3]) -> [i64; 3] {
    [to_scalar(v[0]), to_scalar(v[1]), to_scalar(v[2])]
}

fn to_float(v: i64) -> f64 {
    v as f64 / 1e9
}

fn float_length(p: [f64; 3]) -> f64 {
    (p[0] * p[0] + p[1] * p[1] + p[2] * p[2]).sqrt()
}

fn float_box(p: [f64; 3], b: [f64; 3]) -> f64 {
    let q = [p[0].abs() - b[0], p[1].abs() - b[1], p[2].abs() - b[2]];
    float_length([q[0].max(0.0), q[1].max(0.0), q[2].max(0.0)])
        + q[0].max(q[1].max(q[2])).min(0.0)
}

fn float_scene(p: [f64; 3], sine: f64) -> f64 {
    let fold = |x: f64| {
        let a = x + 2.5;
        a - 5.0 * (a / 5.0).floor() - 2.5
    };
    let q = [fold(p[0]), fold(p[1]), fold(p[2])];
    let radius = 2.75 + (sine + 1.0) / 2.0 * 0.25;
    (-(float_length(q) - radius)).max(float_box(q, [5.0, 5.0, 5.0]))
}

#[test]
fn scene_constants() {
    assert_eq!(CELL, 5 * ONE);
    assert_eq!(BOX_HALF, 5 * ONE);
    assert_eq!(MIN_RADIUS, 2_750_000_000);
    assert_eq!(MAX_RADIUS, 3 * ONE);
    assert_eq!(NORMAL_EPS, 100_000);
}

#[test]
fn sphere_distance_is_length_minus_radius() {
    let samples: [[i64; 3]; 6] = [
        [0, 0, 0],
        [ONE, 0, 0],
        [3 * ONE, 4 * ONE, 0],
        [-ONE, 2 * ONE, -2 * ONE],
        [123_456_789, -987_654_321, 555_555_555],
        [7 * ONE, -7 * ONE, 7 * ONE],
    ];
    for p in samples {
        for r in [0, ONE, 2_875_000_000, 5 * ONE] {
            assert_eq!(sphere_sdf(p, r), vec3_len(p) as i64 - r);
        }
    }
}

#[test]
fn sphere_distance_exact_values() {
    assert_eq!(sphere_sdf([0, 0, 0], 2 * ONE), -2 * ONE);
    assert_eq!(sphere_sdf([ONE, 2 * ONE, 2 * ONE], ONE), 2 * ONE);
    assert_eq!(sphere_sdf([0, 0, -2 * ONE], 2_875_000_000), -875_000_000);
}

#[test]
fn sphere_distance_is_zero_on_the_surface() {
    assert_eq!(sphere_sdf([5 * ONE, 0, 0], 5 * ONE), 0);
    assert_eq!(sphere_sdf([0, -5 * ONE, 0], 5 * ONE), 0);
    assert_eq!(sphere_sdf([3 * ONE, 0, 4 * ONE], 5 * ONE), 0);
    assert_eq!(sphere_sdf([2 * ONE, -3 * ONE, 6 * ONE], 7 * ONE), 0);
    let on_surface = to_vector([0.6 * 2.875, 0.0, -0.8 * 2.875]);
    assert!(sphere_sdf(on_surface, 2_875_000_000).abs() <= 1);
}

#[test]
fn sphere_distance_agrees_with_floats() {
    for p in [[0.3, -1.2, 2.0], [4.0, 4.0, 4.0], [-0.001, 0.002, 0.003]] {
        let expected = float_length(p) - 2.875;
        let got = to_float(sphere_sdf(to_vector(p), 2_875_000_000));
        assert!((got - expected).abs() < 1e-8);
    }
}

#[test]
fn box_is_negative_inside() {
    let d = box_sdf([0, 0, 0], [ONE, ONE, ONE]);
    assert!(d < 0);
    assert_eq!(d, -ONE);
    assert_eq!(box_sdf([ONE / 2, 0, 0], [ONE, ONE, ONE]), -ONE / 2);
    assert_eq!(box_sdf([ONE / 4, -ONE / 2, ONE / 8], [ONE, ONE, ONE]), -ONE / 2);
}

#[test]
fn box_is_one_unit_from_a_point_one_unit_outside() {
    assert_eq!(box_sdf([2 * ONE, 0, 0], [ONE, ONE, ONE]), ONE);
    assert_eq!(box_sdf([0, -2 * ONE, 0], [ONE, ONE, ONE]), ONE);
    assert_eq!(box_sdf([0, 0, 2 * ONE], [ONE, ONE, ONE]), ONE);
}

#[test]
fn box_is_zero_on_its_faces() {
    assert_eq!(box_sdf([ONE, 0, 0], [ONE, ONE, ONE]), 0);
    assert_eq!(box_sdf([ONE, ONE, ONE], [ONE, ONE, ONE]), 0);
    assert_eq!(box_sdf([-ONE, ONE / 2, 0], [ONE, ONE, ONE]), 0);
}

#[test]
fn box_measures_to_edges_and_corners() {
    assert_eq!(box_sdf([4 * ONE, 5 * ONE, 0], [ONE, ONE, ONE]), 5 * ONE);
    assert_eq!(box_sdf([2 * ONE, 3 * ONE, 3 * ONE], [ONE, ONE, ONE]), 3 * ONE);
    assert_eq!(box_sdf([-4 * ONE, 0, -5 * ONE], [ONE, ONE, ONE]), 5 * ONE);
    assert_eq!(box_sdf([3 * ONE, ONE / 2, 0], [ONE, 2 * ONE, 3 * ONE]), 2 * ONE);
}

#[test]
fn box_agrees_with_floats() {
    for p in [[0.3, -1.2, 2.0], [4.0, 4.0, 4.0], [-0.5, 0.25, 0.125], [1.5, -0.2, 0.9]] {
        let expected = float_box(p, [1.0, 1.0, 1.0]);
        let got = to_float(box_sdf(to_vector(p), [ONE, ONE, ONE]));
        assert!((got - expected).abs() < 1e-8, "{p:?}: {got} vs {expected}");
    }
}

#[test]
fn union_is_the_least_distance() {
    assert_eq!(union_sdf_op(vec![3]), Ok(3));
    assert_eq!(union_sdf_op(vec![3, -1, 2]), Ok(-1));
    assert_eq!(union_sdf_op(vec![ONE, 2 * ONE]), Ok(ONE));
    assert_eq!(union_sdf_op(vec![5, 5, 5]), Ok(5));
    assert_eq!(union_sdf_op(vec![i64::MAX, i64::MIN, 0]), Ok(i64::MIN));
}

#[test]
fn union_of_nothing_is_an_error() {
    assert_eq!(union_sdf_op(vec![]), Err(SdfError::EmptyUnion));
    assert_eq!(union_sdf_op(Vec::new()), Err(SdfError::EmptyUnion));
}

#[test]
fn subtract_is_the_larger_of_inside_and_outside() {
    assert_eq!(subtract_sdf_op(ONE, 2 * ONE), 2 * ONE);
    assert_eq!(subtract_sdf_op(-3 * ONE, 2 * ONE), 3 * ONE);
    assert_eq!(subtract_sdf_op(-875_000_000, -3 * ONE), 875_000_000);
    assert_eq!(subtract_sdf_op(0, 0), 0);
    assert_eq!(subtract_sdf_op(i64::MAX, i64::MIN), -i64::MAX);
}

#[test]
fn subtract_is_bounded_below_by_both() {
    for a in [-5 * ONE, -1, 0, 1, 7, 3 * ONE, i64::MAX, i64::MIN + 1] {
        for b in [-4 * ONE, -2, 0, 2, 9 * ONE, i64::MAX, i64::MIN] {
            let r = subtract_sdf_op(a, b);
            assert_eq!(r, (-a).max(b));
            assert!(r >= -a);
            assert!(r >= b);
        }
    }
}

#[test]
fn repeat_axis_folds_into_the_cell() {
    assert_eq!(repeat_axis(0, CELL), 0);
    assert_eq!(repeat_axis(2 * ONE, CELL), 2 * ONE);
    assert_eq!(repeat_axis(2_500_000_000, CELL), -2_500_000_000);
    assert_eq!(repeat_axis(-2_500_000_000, CELL), -2_500_000_000);
    assert_eq!(repeat_axis(2_499_999_999, CELL), 2_499_999_999);
    assert_eq!(repeat_axis(2_875_000_000, CELL), -2_125_000_000);
    assert_eq!(repeat_axis(-3 * ONE, CELL), 2 * ONE);
    assert_eq!(repeat_axis(7 * ONE, 2 * ONE), -ONE);
    assert_eq!(repeat_axis(i64::MAX, CELL), 1_854_775_807);
    assert_eq!(repeat_axis(i64::MIN, CELL), -1_854_775_808);
    assert_eq!(repeat_axis(5, 3), -1);
}

#[test]
fn repeat_point_folds_every_axis() {
    assert_eq!(
        repeat_point([6 * ONE, -6 * ONE, 12 * ONE], CELL),
        [ONE, -ONE, 2 * ONE]
    );
    assert_eq!(repeat_point([ONE, 2 * ONE, -ONE], CELL), [ONE, 2 * ONE, -ONE]);
}

#[test]
fn scene_distance_exact_values() {
    assert_eq!(de([0, 0, -2 * ONE], 0), 875_000_000);
    assert_eq!(de([0, 0, 0], 0), 2_875_000_000);
    assert_eq!(de([0, 0, 0], ONE), 3 * ONE);
    assert_eq!(de([0, 0, 0], -ONE), 2_750_000_000);
    assert_eq!(de([0, 0, 2_875_000_000], 0), 750_000_000);
    assert_eq!(de([2 * ONE, -ONE, 2 * ONE], 0), -125_000_000);
    assert_eq!(de([7 * ONE, 4 * ONE, -3 * ONE], 0), -125_000_000);
}

#[test]
fn scene_repeats_with_the_cell() {
    let points: [[i64; 3]; 6] = [
        [0, 0, -2 * ONE],
        [123_456_789, -2_222_222_222, 987_654_321],
        [2_499_999_999, 2_499_999_999, 2_499_999_999],
        [-2_500_000_000, 0, 1],
        [17 * ONE, -33 * ONE, 41 * ONE + 5],
        [-9_000_000_000_000, 4, 77],
    ];
    for p in points {
        for wave in [-ONE, -ONE / 3, 0, ONE / 7, ONE] {
            let here = de(p, wave);
            assert_eq!(here, de([p[0] + CELL, p[1], p[2]], wave));
            assert_eq!(here, de([p[0] - CELL, p[1], p[2]], wave));
            assert_eq!(here, de([p[0], p[1] + CELL, p[2]], wave));
            assert_eq!(here, de([p[0], p[1], p[2] + 3 * CELL], wave));
            assert_eq!(here, de([p[0] + 2 * CELL, p[1] - 5 * CELL, p[2] + CELL], wave));
        }
    }
}

#[test]
fn scene_is_defined_at_the_ends_of_the_number_line() {
    let far = de([i64::MAX, i64::MIN, 0], 0);
    assert_eq!(far, de([i64::MAX - CELL, i64::MIN + CELL, 0], 0));
    assert!(far <= MAX_RADIUS && far >= MIN_RADIUS - CELL);
}

#[test]
fn scene_agrees_with_floats() {
    let points = [
        [0.0, 0.0, -2.0],
        [1.0, 1.0, 1.0],
        [2.4, -2.4, 2.4],
        [7.3, -11.9, 0.2],
        [-100.25, 55.5, 3.125],
    ];
    for p in points {
        for sine in [-1.0, -0.5, 0.0, 0.3, 1.0] {
            let expected = float_scene(p, sine);
            let got = to_float(de(to_vector(p), to_scalar(sine)));
            assert!((got - expected).abs() < 1e-8, "{p:?} {sine}: {got} vs {expected}");
        }
    }
}

#[test]
fn normal_has_length_one() {
    let points = [
        [1.66, 1.66, 1.66],
        [2.0, -2.0, 0.5],
        [0.0, 2.3, 1.7],
        [-2.875, 0.0, 0.0001],
        [0.3, 0.4, 2.2],
        [0.375, 1.75, 2.25],
        [0.0, 0.0, -2.0],
        [7.3, -11.9, 0.2],
    ];
    for p in points {
        for wave in [-ONE, 0, ONE] {
            let n = calc_normal(to_vector(p), wave).unwrap();
            let len = vec3_len(n) as i64;
            assert!((len - ONE).abs() <= 1, "{p:?}: length {len}");
            let square = vec3_square_len(n);
            let one = ONE as u128;
            assert!((one - 1) * (one - 1) <= square, "{p:?}: squared length {square}");
            assert!(square <= (one + 1) * (one + 1), "{p:?}: squared length {square}");
        }
    }
}

#[test]
fn normal_on_the_sphere_points_at_its_centre() {
    let points = [
        [1.66, 1.66, 1.66],
        [2.0, -2.0, 0.5],
        [0.0, 2.3, 1.7],
        [0.3, 0.4, 2.2],
        [0.375, 1.75, 2.25],
        [-0.766527474, 0.183907618, -0.62044326],
        [1.0, 0.00001, 0.0],
    ];
    for p in points {
        for wave in [-ONE, 0, ONE] {
            let n = calc_normal(to_vector(p), wave).unwrap();
            let len = float_length(p);
            let mut dot = 0.0;
            for i in 0..3 {
                let expected = -p[i] / len;
                let got = to_float(n[i]);
                assert!((got - expected).abs() < 2.5e-4, "{p:?} axis {i}: {got} vs {expected}");
                dot += got * p[i];
            }
            assert!(dot < 0.0);
        }
    }
}

#[test]
fn normal_exact_values() {
    assert_eq!(calc_normal([0, 0, -2 * ONE], 0), Some([20_000, 20_000, ONE]));
    assert_eq!(calc_normal([2 * ONE, 0, 0], 0), Some([-ONE, 20_000, 20_000]));
    assert_eq!(calc_normal([0, -ONE, 0], ONE), Some([40_000, 999_999_998, 40_000]));
    assert_eq!(
        calc_normal([2 * ONE, -ONE, 2 * ONE], 0),
        Some([-666_664_444, 333_342_222, -666_664_444])
    );
    assert_eq!(
        calc_normal([375_000_000, 1_750_000_000, 2_250_000_000], 0),
        Some([-130_420_567, -608_692_646, -782_613_403])
    );
}

#[test]
fn normal_repeats_with_the_cell() {
    let here = calc_normal([2 * ONE, -ONE, 2 * ONE], 0);
    assert_eq!(here, calc_normal([7 * ONE, -11 * ONE, 2 * ONE], 0));
    assert_eq!(here, calc_normal([2 * ONE, 4 * ONE, -3 * ONE], 0));
}

#[test]
fn normal_is_defined_at_the_ends_of_the_number_line() {
    assert_eq!(
        calc_normal([i64::MIN, i64::MAX, 0], 0),
        Some([707_111_781, -707_101_781, 20_000])
    );
    assert_eq!(
        calc_normal([i64::MIN, i64::MIN, i64::MIN], ONE),
        Some([577_350_269, 577_350_269, 577_350_269])
    );
    assert_eq!(
        calc_normal([i64::MAX, i64::MAX, i64::MAX], -ONE),
        Some([-577_350_269, -577_350_269, -577_350_269])
    );
}

#[test]
fn normal_is_missing_where_the_scene_is_flat() {
    assert_eq!(calc_normal([NORMAL_EPS / 2, NORMAL_EPS / 2, NORMAL_EPS / 2], 0), None);
}
