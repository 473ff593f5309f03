//! Escape-time sampling of Julia sets.
//!
//! The crate holds the two halves of an escape-time renderer's core: laying a
//! row-major grid of sample points over a region of the complex plane, and
//! counting how many rounds of `z <- z^e + c` a point survives before it
//! leaves the escape disk.
//!
//! Both halves are written over an arbitrary coordinate type `T`. The
//! arithmetic on coordinates is handed in by the caller as function values;
//! every contract here is stated over what those function values are
//! specified to return, so what is proved holds for whichever number type
//! and arithmetic the caller brings.

pub mod point;
pub mod ops;
pub mod grid;
pub mod escape;

pub use point::ComplexPoint;
pub use grid::generate_input_set;
pub use escape::in_jset;
