use raymarcher::camera::{
    in_range, pixel_ray, Camera, Heading, Motion, AIM_LIMIT, FOV_SCALE, FULL_TURN, MAX_EDGE,
    SPEED, TURN_RATE,
};
use raymarcher::fixed::{sine_wave, ONE};
use raymarcher::input::{key_motion, Event, Key, RenderState};
use raymarcher::march::ray_march;
use raymarcher::render::{frame_edge, render_frame};
use raymarcher::sdf::{MAX_RADIUS, MIN_RADIUS};

fn heading_of(pitch: f64, yaw: f64) -> Heading {
    Heading {
        sin_pitch: (pitch.sin() * 1e9) as i64,
        cos_pitch: (pitch.cos() * 1e9) as i64,
        sin_yaw: (yaw.sin() * 1e9) as i64,
        cos_yaw: (yaw.cos() * 1e9) as i64,
    }
}

fn float_ray(x: u32, y: u32, w: u32, h: u32, pitch: f64, yaw: f64) -> [f64; 3] {
    let fov = (60.0f64.to_radians() / 2.0).tan();
    let aspect = w as f64 / h as f64;
    let sensor_x = (((x as f64 + 0.5) / w as f64) * 2.0 - 1.0) * aspect * fov;
    let sensor_y = (1.0 - ((y as f64 + 0.5) / h as f64) * 2.0) * fov;
    let theta_x = sensor_y.atan2(1.0);
    let r_x = (sensor_y * sensor_y + 1.0).sqrt();
    let z = r_x * (theta_x + pitch).cos();
    let up = r_x * (theta_x + pitch).sin();
    let theta_y = z.atan2(sensor_x);
    let r_y = (sensor_x * sensor_x + z * z).sqrt();
    [-(r_y * (theta_y + yaw).cos()), up, r_y * (theta_y + yaw).sin()]
}

#[test]
fn camera_constants() {
    assert_eq!(FOV_SCALE, ((60.0f64.to_radians() / 2.0).tan() * 1e9) as i64);
    assert_eq!(FULL_TURN, (std::f64::consts::TAU * 1e9) as i64);
    assert_eq!(TURN_RATE, ONE / 100);
    assert_eq!(SPEED, ONE / 50);
    assert_eq!(MAX_EDGE, 32_768);
    assert_eq!(AIM_LIMIT, 1_000_000_000 * ONE);
}

#[test]
fn camera_starts_behind_the_origin() {
    let c = Camera::new();
    assert_eq!(c.position, [0, 0, -2 * ONE]);
    assert_eq!(c.up, [0, ONE, 0]);
    assert_eq!(c.forward, [0, 0, ONE]);
    assert_eq!(c.rotation, [0, 0, 0]);
    assert!(c.is_valid());
}

#[test]
fn camera_validity() {
    let mut c = Camera::new();
    c.position = [i64::MAX, i64::MIN, 0];
    assert!(c.is_valid());
    c.rotation = [0, FULL_TURN - 1, 0];
    assert!(c.is_valid());
    c.rotation = [0, FULL_TURN, 0];
    assert!(!c.is_valid());
    c.rotation = [-1, 0, 0];
    assert!(!c.is_valid());
    c = Camera::new();
    c.up = [0, ONE + 1, 0];
    assert!(!c.is_valid());
    c = Camera::new();
    c.forward = [AIM_LIMIT, 0, -AIM_LIMIT];
    assert!(c.is_valid());
    c.forward = [0, 0, -AIM_LIMIT - 1];
    assert!(!c.is_valid());
}

#[test]
fn in_range_tests_every_component() {
    assert!(in_range(&[1, -1, 0], 1));
    assert!(!in_range(&[2, 0, 0], 1));
    assert!(!in_range(&[0, -2, 0], 1));
    assert!(!in_range(&[0, 0, 2], 1));
    assert!(in_range(&[0, 0, 0], 0));
}

#[test]
fn heading_validity() {
    assert!(Heading::level().is_valid());
    assert_eq!(
        Heading::level(),
        Heading { sin_pitch: 0, cos_pitch: ONE, sin_yaw: 0, cos_yaw: ONE }
    );
    assert!(heading_of(0.3, 1.1).is_valid());
    assert!(!Heading { sin_pitch: ONE + 1, cos_pitch: 0, sin_yaw: 0, cos_yaw: ONE }.is_valid());
    assert!(!Heading { sin_pitch: 0, cos_pitch: 0, sin_yaw: 0, cos_yaw: -ONE - 1 }.is_valid());
}

#[test]
fn turn_wraps_the_angles() {
    let mut c = Camera::new();
    c.turn(0, 1);
    assert_eq!(c.rotation, [6_273_185_307, 0, 0]);
    c.turn(-3, -1);
    assert_eq!(c.rotation, [0, 30_000_000, 0]);
    c.rotation = [FULL_TURN - 1, 100, 0];
    c.turn(i32::MAX, -1);
    assert_eq!(c.rotation, [9_999_999, 3_918_267_989, 0]);
    c.rotation = [0, 0, 5];
    c.turn(i32::MIN, 0);
    assert_eq!(c.rotation, [0, 2_374_917_418, 5]);
    assert_eq!(c.position, [0, 0, -2 * ONE]);
    assert_eq!(c.forward, [0, 0, ONE]);
    assert!(c.is_valid());
}

#[test]
fn right_is_forward_cross_up() {
    let mut c = Camera::new();
    assert_eq!(c.right(), [-ONE, 0, 0]);
    c.forward = [-5_773_502, -5_773_503, ONE];
    assert_eq!(c.right(), [-ONE, 0, -5_773_502]);
}

#[test]
fn travel_moves_along_the_axes() {
    let mut c = Camera::new();
    assert!(c.travel(Motion::Forward, 50));
    assert_eq!(c.position, [0, 0, -ONE]);
    assert!(c.travel(Motion::Back, 50));
    assert_eq!(c.position, [0, 0, -2 * ONE]);
    assert!(c.travel(Motion::Back, 16));
    assert_eq!(c.position, [0, 0, -2_320_000_000]);
    c = Camera::new();
    assert!(c.travel(Motion::Right, 16));
    assert_eq!(c.position, [-320_000_000, 0, -2 * ONE]);
    assert!(c.travel(Motion::Left, 32));
    assert_eq!(c.position, [320_000_000, 0, -2 * ONE]);
    assert!(c.travel(Motion::Up, 100));
    assert_eq!(c.position, [320_000_000, 2 * ONE, -2 * ONE]);
    assert!(c.travel(Motion::Down, 150));
    assert_eq!(c.position, [320_000_000, -ONE, -2 * ONE]);
    assert!(c.travel(Motion::Down, 0));
    assert_eq!(c.position, [320_000_000, -ONE, -2 * ONE]);
    assert_eq!(c.forward, [0, 0, ONE]);
    assert_eq!(c.up, [0, ONE, 0]);
    assert_eq!(c.rotation, [0, 0, 0]);
}

#[test]
fn travel_follows_the_aim() {
    let mut c = Camera::new();
    c.position = [ONE, 2 * ONE, 3 * ONE];
    c.forward = [-5_773_502, -5_773_503, ONE];
    assert!(c.travel(Motion::Forward, 7));
    assert_eq!(c.position, [999_191_709, 1_999_191_709, 3_140_000_000]);
    c.position = [ONE, 2 * ONE, 3 * ONE];
    assert!(c.travel(Motion::Left, 7));
    assert_eq!(c.position, [1_140_000_000, 2 * ONE, 3_000_808_290]);
}

#[test]
fn travel_stops_where_coordinates_end() {
    let mut c = Camera::new();
    c.position = [0, 0, i64::MAX - ONE];
    assert!(c.travel(Motion::Forward, 50));
    assert_eq!(c.position, [0, 0, i64::MAX]);
    assert!(!c.travel(Motion::Forward, 1));
    assert_eq!(c.position, [0, 0, i64::MAX]);
    assert!(!c.travel(Motion::Forward, u32::MAX));
    assert_eq!(c.position, [0, 0, i64::MAX]);
    c.forward = [AIM_LIMIT, AIM_LIMIT, AIM_LIMIT];
    assert_eq!(c.right(), [-AIM_LIMIT, 0, AIM_LIMIT]);
    assert!(!c.travel(Motion::Back, u32::MAX));
    assert!(!c.travel(Motion::Right, u32::MAX));
    assert!(!c.travel(Motion::Right, 1));
    assert_eq!(c.position, [0, 0, i64::MAX]);
    assert!(c.travel(Motion::Back, 1));
    assert_eq!(
        c.position,
        [-20_000_000 * ONE, -20_000_000 * ONE, i64::MAX - 20_000_000 * ONE]
    );
    c.position = [i64::MIN, i64::MIN, i64::MIN];
    assert!(!c.travel(Motion::Down, 1));
    assert!(c.travel(Motion::Up, 50));
    assert_eq!(c.position, [i64::MIN, i64::MIN + ONE, i64::MIN]);
    assert!(c.is_valid());
}

#[test]
fn centre_ray_of_an_odd_frame_looks_straight_ahead() {
    let level = Heading::level();
    assert_eq!(pixel_ray(1, 1, 3, 3, &level), [0, 0, ONE]);
    assert_eq!(pixel_ray(75, 50, 151, 101, &level), [0, 0, ONE]);
    assert_eq!(pixel_ray(0, 0, 1, 1, &level), [0, 0, ONE]);
}

#[test]
fn pixel_ray_exact_values() {
    let level = Heading::level();
    assert_eq!(pixel_ray(0, 0, 3, 3, &level), [384_900_180, 384_900_179, ONE]);
    assert_eq!(pixel_ray(75, 50, 150, 100, &level), [-5_773_502, -5_773_503, ONE]);
    assert_eq!(pixel_ray(0, 0, 150, 100, &level), [860_251_901, 571_576_766, ONE]);
    assert_eq!(pixel_ray(149, 99, 150, 100, &level), [-860_251_900, -571_576_767, ONE]);
    let turned = Heading {
        sin_pitch: 295_520_206,
        cos_pitch: 955_336_489,
        sin_yaw: 891_207_360,
        cos_yaw: 453_596_121,
    };
    assert_eq!(pixel_ray(10, 20, 150, 100, &turned), [1_099_519_666, 620_942_834, -276_079_400]);
}

#[test]
fn pixel_ray_agrees_with_floats() {
    for (pitch, yaw) in [(0.0, 0.0), (0.3, 1.1), (5.9, 3.2), (1.5, 6.0)] {
        let heading = heading_of(pitch, yaw);
        for (x, y) in [(0, 0), (149, 99), (75, 50), (10, 80), (140, 3)] {
            let expected = float_ray(x, y, 150, 100, pitch, yaw);
            let got = pixel_ray(x, y, 150, 100, &heading);
            for i in 0..3 {
                let g = got[i] as f64 / 1e9;
                assert!((g - expected[i]).abs() < 1e-7, "{x},{y} axis {i}: {g} vs {}", expected[i]);
            }
        }
    }
}

#[test]
fn pixel_ray_of_the_largest_frame() {
    let level = Heading::level();
    let first = pixel_ray(0, 0, MAX_EDGE, 1, &level);
    assert_eq!(first, [18_918_036_264_323, 0, ONE]);
    let last = pixel_ray(MAX_EDGE - 1, MAX_EDGE - 1, MAX_EDGE, MAX_EDGE, &level);
    assert_eq!(last, [-577_332_649, -577_332_650, ONE]);
}

#[test]
fn aim_stores_the_centre_ray() {
    let mut c = Camera::new();
    let heading = heading_of(0.3, 1.1);
    c.aim(&heading, 150, 100);
    assert_eq!(c.forward, pixel_ray(75, 50, 150, 100, &heading));
    assert_eq!(c.position, [0, 0, -2 * ONE]);
    c.aim(&Heading::level(), 3, 3);
    assert_eq!(c.forward, [0, 0, ONE]);
}

#[test]
fn frame_edge_scales_the_screen() {
    assert_eq!(frame_edge(600, ONE / 4), 150);
    assert_eq!(frame_edge(400, ONE / 4), 100);
    assert_eq!(frame_edge(601, ONE / 4), 150);
    assert_eq!(frame_edge(7, 333_333_333), 2);
    assert_eq!(frame_edge(600, ONE), 600);
    assert_eq!(frame_edge(600, 0), 0);
}

#[test]
fn frame_edge_stays_an_edge() {
    assert_eq!(frame_edge(600, -ONE), 0);
    assert_eq!(frame_edge(u32::MAX, 2 * ONE), u32::MAX);
    assert_eq!(frame_edge(u32::MAX, i64::MAX), u32::MAX);
    assert_eq!(frame_edge(u32::MAX, i64::MIN), 0);
}

#[test]
fn frame_holds_one_march_per_pixel() {
    let mut c = Camera::new();
    let level = Heading::level();
    let frame = render_frame(&mut c, &level, 0, 3, 3);
    assert_eq!(
        frame,
        vec![
            [60, 60, 42],
            [127, 53, 23],
            [194, 60, 42],
            [53, 127, 23],
            [0, 0, 0],
            [201, 127, 23],
            [60, 194, 42],
            [127, 201, 23],
            [194, 194, 42],
        ]
    );
    assert_eq!(c.forward, [0, 0, ONE]);
}

#[test]
fn frame_is_stored_row_by_row() {
    let mut c = Camera::new();
    let level = Heading::level();
    let frame = render_frame(&mut c, &level, 0, 4, 2);
    assert_eq!(
        frame,
        vec![
            [187, 73, 28],
            [72, 72, 26],
            [182, 72, 26],
            [67, 73, 28],
            [187, 181, 28],
            [72, 182, 26],
            [182, 182, 26],
            [67, 181, 28],
        ]
    );
    for y in 0..2u32 {
        for x in 0..4u32 {
            let expected = ray_march(c.position, pixel_ray(x, y, 4, 2, &level), 0);
            assert_eq!(frame[(y * 4 + x) as usize], expected);
        }
    }
    assert_eq!(c.forward, pixel_ray(2, 1, 4, 2, &level));
}

#[test]
fn frame_follows_camera_and_wave() {
    let mut c = Camera::new();
    c.position = [ONE, -7 * ONE, 3 * ONE];
    let heading = heading_of(0.4, 2.0);
    let wave = ONE / 3;
    let frame = render_frame(&mut c, &heading, wave, 5, 4);
    assert_eq!(frame.len(), 20);
    for y in 0..4u32 {
        for x in 0..5u32 {
            let expected = ray_march(c.position, pixel_ray(x, y, 5, 4, &heading), wave);
            assert_eq!(frame[(y * 5 + x) as usize], expected);
        }
    }
    assert_eq!(c.position, [ONE, -7 * ONE, 3 * ONE]);
    assert_eq!(c.forward, pixel_ray(2, 2, 5, 4, &heading));
}

#[test]
fn centre_pixel_at_start_sees_through_the_cells() {
    let state = RenderState::new();
    assert_eq!(state.camera.position, [0, 0, -2 * ONE]);
    assert_eq!(state.camera.rotation, [0, 0, 0]);
    assert_eq!(state.time, 0);
    let radius = sine_wave(0, MIN_RADIUS, MAX_RADIUS);
    assert_eq!(radius, 2_875_000_000);
    let dir = pixel_ray(75, 50, 151, 101, &Heading::level());
    assert_eq!(dir, [0, 0, ONE]);
    assert_eq!(ray_march(state.camera.position, dir, 0), [0, 0, 0]);
}

#[test]
fn keys_stand_for_motions() {
    assert_eq!(key_motion(Key::W), Some(Motion::Forward));
    assert_eq!(key_motion(Key::S), Some(Motion::Back));
    assert_eq!(key_motion(Key::A), Some(Motion::Left));
    assert_eq!(key_motion(Key::D), Some(Motion::Right));
    assert_eq!(key_motion(Key::Q), Some(Motion::Down));
    assert_eq!(key_motion(Key::E), Some(Motion::Up));
    assert_eq!(key_motion(Key::Escape), None);
    assert_eq!(key_motion(Key::Other), None);
}

#[test]
fn state_starts_running() {
    let s = RenderState::new();
    assert!(s.running);
    assert_eq!(s.time, 0);
    assert_eq!(s.camera, Camera::new());
}

#[test]
fn quit_and_escape_stop_the_loop() {
    let mut s = RenderState::new();
    s.handle_event(Event::Quit, 16);
    assert!(!s.running);
    assert_eq!(s.camera, Camera::new());
    let mut s = RenderState::new();
    s.handle_event(Event::KeyDown(Key::Escape), 16);
    assert!(!s.running);
    assert_eq!(s.camera, Camera::new());
    s.handle_event(Event::KeyDown(Key::W), 50);
    assert!(!s.running);
    assert_eq!(s.camera.position, [0, 0, -ONE]);
}

#[test]
fn movement_keys_move_the_camera() {
    let mut s = RenderState::new();
    s.handle_event(Event::KeyDown(Key::W), 50);
    assert_eq!(s.camera.position, [0, 0, -ONE]);
    s.handle_event(Event::KeyDown(Key::S), 100);
    assert_eq!(s.camera.position, [0, 0, -3 * ONE]);
    s.handle_event(Event::KeyDown(Key::A), 50);
    assert_eq!(s.camera.position, [ONE, 0, -3 * ONE]);
    s.handle_event(Event::KeyDown(Key::D), 100);
    assert_eq!(s.camera.position, [-ONE, 0, -3 * ONE]);
    s.handle_event(Event::KeyDown(Key::Q), 50);
    assert_eq!(s.camera.position, [-ONE, -ONE, -3 * ONE]);
    s.handle_event(Event::KeyDown(Key::E), 100);
    assert_eq!(s.camera.position, [-ONE, ONE, -3 * ONE]);
    assert!(s.running);
    assert_eq!(s.time, 0);
}

#[test]
fn other_events_change_nothing() {
    let mut s = RenderState::new();
    s.handle_event(Event::Other, 16);
    s.handle_event(Event::KeyDown(Key::Other), 16);
    assert_eq!(s, RenderState::new());
}

#[test]
fn look_turns_the_camera() {
    let mut s = RenderState::new();
    s.look(-3, 1);
    assert_eq!(s.camera.rotation, [6_273_185_307, 30_000_000, 0]);
    assert_eq!(s.camera.position, [0, 0, -2 * ONE]);
    assert!(s.running);
}

#[test]
fn end_frame_adds_up_the_time() {
    let mut s = RenderState::new();
    s.end_frame(16);
    s.end_frame(17);
    assert_eq!(s.time, 33);
    s.time = u64::MAX - 5;
    s.end_frame(5);
    assert_eq!(s.time, u64::MAX);
    s.end_frame(u32::MAX);
    assert_eq!(s.time, u64::MAX);
    assert_eq!(s.camera, Camera::new());
}

#[test]
fn state_renders_with_its_camera() {
    let mut s = RenderState::new();
    s.handle_event(Event::KeyDown(Key::W), 50);
    let level = Heading::level();
    let frame = s.render(&level, 0, 3, 3);
    let mut c = Camera::new();
    c.position = [0, 0, -ONE];
    assert_eq!(frame, render_frame(&mut c, &level, 0, 3, 3));
    assert_eq!(s.camera.forward, [0, 0, ONE]);
}
