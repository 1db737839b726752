//! Bounds-checked drawing into a linear pixel buffer, and a variable-stride
//! view over a firmware-supplied memory map.
//!
//! The crate has two independent halves.  The drawing half models a
//! firmware-reported framebuffer as a [`canvas::Canvas`] (geometry plus an
//! exclusively owned pixel region) and builds point, rectangle, line and
//! bitmap-font text primitives on top of its bounds checks.  The memory-map
//! half wraps a byte buffer filled by a single firmware call and exposes the
//! fixed-layout region records it holds, stepping by a run-time stride.

pub mod canvas;
pub mod font;
pub mod line;
pub mod memmap;
pub mod writer;

pub use canvas::Canvas;
pub use canvas::DrawError;
