//! Verified core of an interactively explorable escape-time fractal viewer.
//!
//! The library works in Q32.32 fixed-point arithmetic so that every pixel of
//! the rendered image, and every view-state transition driven by pan, zoom and
//! resize gestures, has an exact, machine-checkable meaning.  A thin host
//! shell delivers interaction events and displays the produced pixel buffers.

pub mod fixed;
pub mod math;
pub mod escape;
pub mod color;
pub mod viewport;
pub mod render;
pub mod session;
