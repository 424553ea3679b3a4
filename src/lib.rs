//! Geometric metrics of SVG fonts: a bounding-box interpreter for SVG path
//! data, and glyph metrics (heights, widths, margins) built on top of it.
//!
//! Coordinates are exact fixed-point decimals (see [`coord`]), so the
//! arithmetic of the interpreter is integer arithmetic that is proved free
//! of overflow.

pub mod coord;
pub mod bounds;
pub mod path;
pub mod font;
mod xml;
