//! What the main loop keeps between frames, and how events change it.

use crate::camera::{Camera, Heading, Motion, MAX_EDGE};
use crate::fixed::ONE;
use crate::render::{pixel_colour, render_frame};
use crate::vector::point;
use vstd::prelude::*;

verus! {

/// A key, as far as the loop tells keys apart.
#[derive(Clone, Copy, Debug, PartialEq, Eq, Structural)]
pub enum Key {
    Escape,
    W,
    S,
    A,
    D,
    Q,
    E,
    Other,
}

/// An input event, as far as the loop tells events apart.
#[derive(Clone, Copy, Debug, PartialEq, Eq, Structural)]
pub enum Event {
    /// The window was asked to close.
    Quit,
    /// A key went down.
    KeyDown(Key),
    /// Anything else.
    Other,
}

/// The state that the main loop owns: the camera, the time in milliseconds
/// that has passed in finished frames, and whether the loop goes on.
#[derive(Clone, Copy, Debug, PartialEq, Eq)]
pub struct RenderState {
    pub camera: Camera,
    pub time: u64,
    pub running: bool,
}

/// The motion that a key stands for: W and S move forward and back, A and D
/// left and right, Q and E down and up.
pub open spec fn motion_of(key: Key) -> Option<Motion> {
    match key {
        Key::W => Some(Motion::Forward),
        Key::S => Some(Motion::Back),
        Key::A => Some(Motion::Left),
        Key::D => Some(Motion::Right),
        Key::Q => Some(Motion::Down),
        Key::E => Some(Motion::Up),
        Key::Escape | Key::Other => None,
    }
}

/// Whether an event ends the loop: a request to close, or the escape key.
pub open spec fn ends_loop(event: Event) -> bool {
    event == Event::Quit || event == Event::KeyDown(Key::Escape)
}

/// The time after a frame that took `delta_ms` milliseconds; it stops at
/// the largest value rather than wrap.
pub open spec fn later(time: int, delta_ms: int) -> int {
    if time + delta_ms > u64::MAX {
        u64::MAX as int
    } else {
        time + delta_ms
    }
}

/// The motion that a key stands for, if it is a movement key.
pub fn key_motion(key: Key) -> (m: Option<Motion>)
    ensures
        m == motion_of(key),
{
    match key {
        Key::W => Some(Motion::Forward),
        Key::S => Some(Motion::Back),
        Key::A => Some(Motion::Left),
        Key::D => Some(Motion::Right),
        Key::Q => Some(Motion::Down),
        Key::E => Some(Motion::Up),
        Key::Escape | Key::Other => None,
    }
}

impl RenderState {
    /// Whether the state is one this crate can work with: its camera is.
    pub open spec fn wf(&self) -> bool {
        self.camera.wf()
    }

    /// The state at start: the camera in its first pose, no time passed,
    /// the loop running.
    pub fn new() -> (s: RenderState)
        ensures
            s.wf(),
            s.time == 0,
            s.running,
            s.camera.is_initial(),
    {
        RenderState { camera: Camera::new(), time: 0, running: true }
    }

    /// Applies one event of a frame that follows a frame of `delta_ms`
    /// milliseconds. A request to close and the escape key stop the loop; a
    /// movement key moves the camera for that time; nothing else changes
    /// anything. The time never changes here.
    pub fn handle_event(&mut self, event: Event, delta_ms: u32)
        requires
            old(self).wf(),
        ensures
            final(self).wf(),
            final(self).time == old(self).time,
            final(self).running == (old(self).running && !ends_loop(event)),
            match event {
                Event::KeyDown(key) => match motion_of(key) {
                    Some(motion) => old(self).camera.travels_to(
                        final(self).camera,
                        motion,
                        delta_ms as int,
                    ),
                    None => final(self).camera == old(self).camera,
                },
                _ => final(self).camera == old(self).camera,
            },
    {
        match event {
            Event::Quit => {
                self.running = false;
            },
            Event::KeyDown(key) => {
                match key_motion(key) {
                    Some(motion) => {
                        let mut camera = self.camera;
                        camera.travel(motion, delta_ms);
                        self.camera = camera;
                    },
                    None => {
                        if let Key::Escape = key {
                            self.running = false;
                        }
                    },
                }
            },
            Event::Other => {},
        }
    }

    /// Turns the camera by the mouse motion since the last frame.
    pub fn look(&mut self, dx: i32, dy: i32)
        requires
            old(self).wf(),
        ensures
            final(self).wf(),
            final(self).time == old(self).time,
            final(self).running == old(self).running,
            final(self).camera.rotation[0] == crate::camera::turned(
                old(self).camera.rotation[0] as int,
                dy as int,
            ),
            final(self).camera.rotation[1] == crate::camera::turned(
                old(self).camera.rotation[1] as int,
                dx as int,
            ),
            final(self).camera.rotation[2] == old(self).camera.rotation[2],
            final(self).camera.position == old(self).camera.position,
            final(self).camera.up == old(self).camera.up,
            final(self).camera.forward == old(self).camera.forward,
    {
        let mut camera = self.camera;
        camera.turn(dx, dy);
        self.camera = camera;
    }

    /// Renders the frame for the state as it stands; see [`render_frame`].
    pub fn render(&mut self, heading: &Heading, wave: i64, w: u32, h: u32) -> (frame: Vec<
        [u8; 3],
    >)
        requires
            old(self).wf(),
            heading.wf(),
            -ONE <= wave <= ONE,
            0 < w <= MAX_EDGE,
            0 < h <= MAX_EDGE,
        ensures
            final(self).wf(),
            final(self).time == old(self).time,
            final(self).running == old(self).running,
            point(final(self).camera.forward) == crate::camera::ray_direction(
                w as int / 2,
                h as int / 2,
                w as int,
                h as int,
                *heading,
            ),
            final(self).camera.position == old(self).camera.position,
            final(self).camera.up == old(self).camera.up,
            final(self).camera.rotation == old(self).camera.rotation,
            frame.len() == w * h,
            forall|j: int|
                0 <= j < w * h ==> (#[trigger] frame[j])@ == pixel_colour(
                    point(old(self).camera.position),
                    j % (w as int),
                    j / (w as int),
                    w as int,
                    h as int,
                    *heading,
                    wave as int,
                ),
    {
        let mut camera = self.camera;
        let frame = render_frame(&mut camera, heading, wave, w, h);
        self.camera = camera;
        frame
    }

    /// Ends a frame that took `delta_ms` milliseconds: the time moves on by
    /// as much.
    pub fn end_frame(&mut self, delta_ms: u32)
        ensures
            final(self).time == later(old(self).time as int, delta_ms as int),
            final(self).camera == old(self).camera,
            final(self).running == old(self).running,
    {
        self.time = self.time.saturating_add(delta_ms as u64);
    }
}

} // verus!
