use vstd::prelude::*;

verus! {

/// Spacing between neighbouring panes in a row, and between rows.
pub const GAP: i64 = 10;

/// Largest coordinate or length that a pane or a container may have.
pub const MAX_COORD: i64 = 1073741824;

/// Largest number of panes that one layout may hold.
pub const MAX_PANES: usize = 65536;

/// A rectangle of the layout: `pos` is its top-left corner `(x, y)`, `size`
/// its `(width, height)`. A flexible pane scales with the room left in its
/// row; a fixed one keeps its width.
#[derive(Clone, Copy, Debug, PartialEq, Eq)]
pub struct Pane {
    pub id: u32,
    pub pos: (i64, i64),
    pub size: (i64, i64),
    pub flex: bool,
}

impl Pane {
    /// Coordinates and lengths lie in `0..=MAX_COORD`.
    pub open spec fn wf(self) -> bool {
        &&& 0 <= self.pos.0 <= MAX_COORD
        &&& 0 <= self.pos.1 <= MAX_COORD
        &&& 0 <= self.size.0 <= MAX_COORD
        &&& 0 <= self.size.1 <= MAX_COORD
    }
}

/// Every pane of the collection is well formed, and there are not too many.
pub open spec fn panes_wf(panes: Seq<Pane>) -> bool {
    &&& panes.len() <= MAX_PANES
    &&& forall|i: int| 0 <= i < panes.len() ==> (#[trigger] panes[i]).wf()
}

} // verus!
