//! Renders text interleaved with ANSI SGR escape sequences onto a
//! fixed-size rectangular grid of styled character cells.
//!
//! The renderer splits its input into lines, tokenizes each line into
//! literal text runs and escape codes, threads a single running style
//! through the whole scan, and writes styled runs into the grid,
//! clipping at the grid's right edge and the region's bottom edge.

pub mod grid;
pub mod laws;
pub mod render;
pub mod scan;
pub mod style;
pub mod width;
