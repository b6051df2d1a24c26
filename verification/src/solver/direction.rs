//! The four unit steps on a board whose cells are (row, column).
use vstd::prelude::*;
use crate::components::CoordDelta;

verus! {

/// One column towards the first.
pub const LEFT: CoordDelta = [0, -1];

/// One column towards the last.
pub const RIGHT: CoordDelta = [0, 1];

/// One row towards the first.
pub const UP: CoordDelta = [-1, 0];

/// One row towards the last.
pub const DOWN: CoordDelta = [1, 0];

} // verus!
