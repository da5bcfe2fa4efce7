//! The exact part of a small ray tracer: everything in it that is decided
//! by indices, integers and characters rather than by arithmetic on real
//! numbers.
//!
//! - [`matrix`]: which entries stay, and where, when a row and a column
//!   are struck out of a grid or the grid is transposed, and the sign that
//!   a cofactor carries.
//! - [`shapes`]: which of the crossings of a ray with the scene is the hit.
//! - [`canvas`]: a pixel buffer and its dump as a plain-text image.
//! - [`text`] and [`ppm`]: the text model behind that dump, and what is
//!   proved of it.
//!
//! Entries and pixels are of any copyable type; the caller brings the
//! numbers and the arithmetic.

pub mod canvas;
pub mod matrix;
pub mod ppm;
pub mod shapes;
pub mod text;
