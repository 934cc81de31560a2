//! Analysis engine for ASCII diagrams.
//!
//! A rectangular grid of characters (a [`text_buffer::TextBuffer`]) is scanned
//! along four directions — rows, columns, and the two 45-degree diagonals — to
//! recover straight line segments, connected polylines ("wires"), and
//! axis-aligned rectangles bounded by `+` corners.  The scanning, merging,
//! grouping and validation rules live in [`analyze`]; the geometric helper
//! types live in [`tc`] and [`rect`].

use vstd::prelude::*;

pub mod action;
pub mod analyze;
pub mod rect;
pub mod tc;
pub mod text_buffer;

verus! {

/// A requested new size for a text buffer, in grid cells.
pub struct Resize {
    pub num_rows: u32,
    pub num_cols: u32,
}

} // verus!
