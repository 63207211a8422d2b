//! A tree-of-nodes widget model: a flat list of records linked by parent
//! references, from which root nodes and immediate children are derived by
//! scanning; expand/collapse state and the icon shown for each rendered
//! entry; and the drag-and-drop interaction that swaps two list positions.

pub mod drag;
pub mod model;
pub mod render;
pub mod simple;
