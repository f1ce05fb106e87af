//! A signed-distance ray marcher on fixed-point numbers.
//!
//! The scene is given by a function that tells, for every point of space,
//! how far the nearest surface is. A ray is marched through it by stepping
//! that far again and again; what it hits is shaded by the surface normal.
//!
//! - [`fixed`]: the scalars, integers that count billionths
//! - [`vector`]: vectors of three scalars
//! - [`sdf`]: the shapes, their combination into the scene, and the normal
//! - [`march`]: the march along one ray, and the shading
//! - [`camera`]: the camera's pose and the ray through each pixel
//! - [`render`]: the frame, one march per pixel
//! - [`input`]: the state of the main loop and the events that change it
//!
//! Sines and cosines are not computed here. Where one is needed, of the
//! camera's angles or of the time that makes the sphere pulsate, the caller
//! passes it in as a scalar.

pub mod camera;
pub mod fixed;
pub mod input;
pub mod march;
pub mod render;
pub mod sdf;
pub mod vector;
