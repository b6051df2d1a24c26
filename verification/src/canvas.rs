//! Where a point of a drawn board falls: the cells of the board are drawn side by side, each
//! as wide and as high as the others.
use vstd::prelude::*;
use crate::components::CoordElement;

verus! {

/// The place of the cell on which the pixel falls, where cells of the given size lie side by
/// side from the pixel 0 on: none before the first cell, behind the last, or where the cells
/// have no size.
pub open spec fn cell_at(pixel: int, size: int, count: int) -> Option<int> {
    if size > 0 && 0 <= pixel && pixel / size < count {
        Some(pixel / size)
    } else {
        None
    }
}

/// The place as a number.
pub open spec fn opt_place(place: Option<CoordElement>) -> Option<int> {
    match place {
        Some(place) => Some(place as int),
        None => None,
    }
}

/// The place of the cell on which the pixel falls.
fn cell_under(pixel: i32, size: usize, count: usize) -> (r: Option<CoordElement>)
    ensures
        opt_place(r) == cell_at(pixel as int, size as int, count as int),
{
    if size == 0 || pixel < 0 {
        return None;
    }
    let place: u64 = (pixel as u64) / (size as u64);
    if place < count as u64 {
        Some(place as CoordElement)
    } else {
        None
    }
}

/// The column of the cell on which the pixel falls, for cells of the given width.
pub fn xpos(xpixel: i32, tile_width: usize, cols: usize) -> (r: Option<CoordElement>)
    ensures
        opt_place(r) == cell_at(xpixel as int, tile_width as int, cols as int),
{
    cell_under(xpixel, tile_width, cols)
}

/// The row of the cell on which the pixel falls, for cells of the given height.
pub fn ypos(ypixel: i32, tile_height: usize, rows: usize) -> (r: Option<CoordElement>)
    ensures
        opt_place(r) == cell_at(ypixel as int, tile_height as int, rows as int),
{
    cell_under(ypixel, tile_height, rows)
}

} // verus!
