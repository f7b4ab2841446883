//! Verified core of a terminal text editor.
//!
//! The heart is a piece-table buffer (`buffer`, `iter`): a sequence stored as
//! an immutable original array plus an append-only add array, indexed by an
//! ordered list of pieces.  Around it stand the highlight overlay (`hl`), the
//! double-buffered character grid (`screen`), and the edit/render coordination
//! layer (`editor`).

pub mod buffer;
pub mod iter;
pub mod hl;
pub mod line;
pub mod screen;
pub mod editor;
