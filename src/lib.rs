//! Incremental horizontal resizing of a tiled layout. Panes are grouped into
//! rows by their top edge, and each row is turned into linear equations over
//! the panes' horizontal positions and widths: packed left to right with a
//! fixed gap, spanning the container, fixed panes keeping their width and
//! flexible ones their share of the room. A linear-constraint solver finds
//! the values, which are written back pane by pane.
pub mod pane;
pub mod rows;
pub mod constraints;
pub mod layout;
pub mod apply;
pub mod laws;

pub use pane::{Pane, GAP, MAX_COORD, MAX_PANES};
pub use rows::{row_boundaries, panes_in_row};
pub use constraints::{Constraint, Strength, Term, Var, constrain_row};
pub use layout::{Layout, plan_resize};
pub use apply::{apply_solution, update_by_id};
