//! Hint-code generation and overlay-box geometry for selecting on-screen
//! windows by typing a short keyboard code.
//!
//! The crate covers four concerns: minimal-length unique hint-code
//! generation over a bounded alphabet (`hints`), rectangle containment
//! (`geometry`), overlay-box placement inside a container (`align`), and
//! validation of font and color configuration strings (`font`).

pub mod align;
pub mod font;
pub mod geometry;
pub mod hints;
pub mod strutil;

pub use align::HorizontalAlign;
pub use align::VerticalAlign;
pub use geometry::contains;
pub use hints::get_next_hint;
