//! The dense board and the fixed-size path.
use vstd::prelude::*;
use crate::components::{pt, Coord, Point, Tile};
use crate::geometry::most;

verus! {

/// A number of rows or columns to step.
pub type TypedCoordElement = i32;

/// A step from one cell to another, as (rows, columns).
pub type TypedCoord = [TypedCoordElement; 2];

/// A path of up to four points: its two ends and the bends between them, then nothing.
pub type Nodes = [Option<Coord>; 4];

/// A dense board: a rectangle of cells, each empty or holding a tile. The cells are kept in a
/// two-dimensional array of `ndarray`.
#[verifier::external_body]
#[derive(Debug, PartialEq)]
pub struct TileMap {
    cells: ndarray::Array2<Option<Tile>>,
}

/// The number of rows of the array.
pub uninterp spec fn grid_rows(map: TileMap) -> nat;

/// The number of columns of the array.
pub uninterp spec fn grid_cols(map: TileMap) -> nat;

/// The cells of the array that hold a tile, with their labels.
pub uninterp spec fn grid_cells(map: TileMap) -> Map<Point, Tile>;

/// The label on the cell `p`, if a tile lies there.
pub open spec fn label_at(cells: Map<Point, Tile>, p: Point) -> Option<Tile> {
    if cells.contains_key(p) {
        Some(cells[p])
    } else {
        None
    }
}

/// The cells with the cell `p` set to hold the tile, or nothing.
pub open spec fn with_cell(cells: Map<Point, Tile>, p: Point, tile: Option<Tile>) -> Map<Point, Tile> {
    match tile {
        Some(t) => cells.insert(p, t),
        None => cells.remove(p),
    }
}

/// The cells of a board without tiles.
pub open spec fn no_tiles() -> Map<Point, Tile> {
    Map::empty()
}

/// Whether an array of this shape can be made: the number of its cells, and of the bytes that
/// they take, stays within the limits of the machine.
pub open spec fn can_hold(rows: int, cols: int) -> bool {
    most(rows, 1) * most(cols, 1) * 2 <= isize::MAX
}

/// Calls `ArrayBase::shape` and hands out the two axis lengths. Trusted: they are the numbers
/// of rows and columns, and every cell that holds a tile lies within them.
#[verifier::external_body]
pub(crate) fn shape_of(map: &TileMap) -> (shape: [usize; 2])
    ensures
        shape[0] == grid_rows(*map),
        shape[1] == grid_cols(*map),
        forall|p: Point| grid_cells(*map).contains_key(p) ==> 0 <= p.0 < shape[0] && 0 <= p.1 < shape[1],
{
    let shape = map.cells.shape();
    [shape[0], shape[1]]
}

/// Reads one cell through the array's `Index<[usize; 2]>`, which panics outside the shape.
/// Trusted: the value read is the content of that cell.
#[verifier::external_body]
pub(crate) fn tile_at(map: &TileMap, coord: &Coord) -> (tile: Option<Tile>)
    requires
        coord[0] < grid_rows(*map),
        coord[1] < grid_cols(*map),
    ensures
        tile == label_at(grid_cells(*map), pt(*coord)),
{
    map.cells[*coord]
}

/// Writes one cell through the array's `IndexMut<[usize; 2]>`, which panics outside the shape.
/// Trusted: that cell changes, no other cell does, and the shape stays.
#[verifier::external_body]
pub(crate) fn set_tile(map: &mut TileMap, coord: &Coord, tile: Option<Tile>)
    requires
        coord[0] < grid_rows(*old(map)),
        coord[1] < grid_cols(*old(map)),
    ensures
        grid_rows(*final(map)) == grid_rows(*old(map)),
        grid_cols(*final(map)) == grid_cols(*old(map)),
        grid_cells(*final(map)) == with_cell(grid_cells(*old(map)), pt(*coord), tile),
{
    map.cells[*coord] = tile;
}

/// Calls `clone` on the array. Trusted: the copy has the same shape and the same cells.
#[verifier::external_body]
pub(crate) fn clone_map(map: &TileMap) -> (copy: TileMap)
    ensures
        grid_rows(copy) == grid_rows(*map),
        grid_cols(copy) == grid_cols(*map),
        grid_cells(copy) == grid_cells(*map),
{
    TileMap { cells: map.cells.clone() }
}

/// Calls `ArrayBase::from_elem` with an empty cell, which panics where the number of cells
/// overflows `isize`. Trusted: the array has the given shape and no cell holds a tile.
#[verifier::external_body]
pub(crate) fn blank_map(rows: usize, cols: usize) -> (map: TileMap)
    requires
        can_hold(rows as int, cols as int),
    ensures
        grid_rows(map) == rows,
        grid_cols(map) == cols,
        grid_cells(map) == no_tiles(),
{
    TileMap { cells: ndarray::Array2::from_elem((rows, cols), None) }
}

impl View for TileMap {
    type V = Map<Point, Tile>;

    /// The cells that hold a tile, with their labels.
    open spec fn view(&self) -> Map<Point, Tile> {
        grid_cells(*self)
    }
}

/// The rows given are the rows of a rectangle.
pub open spec fn rectangular(rows: Seq<Vec<Option<Tile>>>) -> bool {
    forall|i: int| 0 <= i < rows.len() ==> (#[trigger] rows[i])@.len() == rows[0]@.len()
}

/// The number of columns of the rectangle.
pub open spec fn width_of(rows: Seq<Vec<Option<Tile>>>) -> int {
    if rows.len() == 0 {
        0
    } else {
        rows[0]@.len() as int
    }
}

impl TileMap {
    /// The extent of the board, as (rows, columns).
    pub open spec fn extent(&self) -> Point {
        (grid_rows(*self) as int, grid_cols(*self) as int)
    }

    /// The extent of the board, as (rows, columns).
    pub fn shape(&self) -> (shape: [usize; 2])
        ensures
            (shape[0] as int, shape[1] as int) == self.extent(),
            forall|p: Point| self@.contains_key(p) ==> 0 <= p.0 < shape[0] && 0 <= p.1 < shape[1],
    {
        shape_of(self)
    }

    /// The label of the tile on `coord`; none where the cell is empty or lies outside the
    /// board.
    pub fn get(&self, coord: &Coord) -> (tile: Option<Tile>)
        ensures
            tile == label_at(self@, pt(*coord)),
    {
        let shape = shape_of(self);
        if coord[0] < shape[0] && coord[1] < shape[1] {
            tile_at(self, coord)
        } else {
            None
        }
    }

    /// A board of the given extent without tiles.
    pub fn empty(rows: usize, cols: usize) -> (map: Self)
        requires
            can_hold(rows as int, cols as int),
        ensures
            map.extent() == (rows as int, cols as int),
            map@ == no_tiles(),
    {
        blank_map(rows, cols)
    }

    /// The board that the rows of a rectangle describe.
    pub fn from_rows(rows: &Vec<Vec<Option<Tile>>>) -> (map: Self)
        requires
            rectangular(rows@),
            can_hold(rows@.len() as int, width_of(rows@)),
        ensures
            map.extent() == (rows@.len() as int, width_of(rows@)),
            forall|p: Point|
                map@.contains_key(p) <==> 0 <= p.0 < rows@.len() && 0 <= p.1 < width_of(rows@) && rows@[p.0]@[p.1] is Some,
            forall|p: Point| map@.contains_key(p) ==> Some(map@[p]) == rows@[p.0]@[p.1],
    {
        let n = rows.len();
        let width = if n == 0 { 0 } else { rows[0].len() };
        let mut map = blank_map(n, width);
        let mut r: usize = 0;
        while r < n
            invariant
                r <= n,
                n == rows@.len(),
                width == width_of(rows@),
                rectangular(rows@),
                map.extent() == (n as int, width as int),
                forall|p: Point|
                    map@.contains_key(p) <==> 0 <= p.0 < r && 0 <= p.1 < width && rows@[p.0]@[p.1] is Some,
                forall|p: Point| map@.contains_key(p) ==> Some(map@[p]) == rows@[p.0]@[p.1],
            decreases n - r,
        {
            let mut c: usize = 0;
            while c < width
                invariant
                    r < n,
                    c <= width,
                    n == rows@.len(),
                    width == width_of(rows@),
                    rectangular(rows@),
                    map.extent() == (n as int, width as int),
                    forall|p: Point|
                        map@.contains_key(p) <==> ((0 <= p.0 < r && 0 <= p.1 < width) || (p.0 == r && 0 <= p.1 < c))
                            && rows@[p.0]@[p.1] is Some,
                    forall|p: Point| map@.contains_key(p) ==> Some(map@[p]) == rows@[p.0]@[p.1],
                decreases width - c,
            {
                assert(rows@[r as int]@.len() == width);
                let tile = rows[r][c];
                let ghost before = map@;
                set_tile(&mut map, &[r, c], tile);
                proof {
                    assert(!before.contains_key((r as int, c as int)));
                    assert forall|p: Point| map@.contains_key(p) implies Some(map@[p]) == rows@[p.0]@[p.1] by {
                        if p != (r as int, c as int) {
                            assert(before.contains_key(p));
                        }
                    }
                }
                c = c + 1;
            }
            r = r + 1;
        }
        map
    }

    /// The cells of the board, row by row.
    pub fn to_rows(&self) -> (rows: Vec<Vec<Option<Tile>>>)
        ensures
            rows@.len() == self.extent().0,
            forall|r: int| 0 <= r < rows@.len() ==> (#[trigger] rows@[r])@.len() == self.extent().1,
            forall|r: int, c: int|
                0 <= r < rows@.len() && 0 <= c < self.extent().1 ==> (#[trigger] rows@[r]@[c]) == label_at(self@, (r, c)),
    {
        let shape = shape_of(self);
        let mut rows: Vec<Vec<Option<Tile>>> = Vec::new();
        let mut r: usize = 0;
        while r < shape[0]
            invariant
                r <= shape[0],
                (shape[0] as int, shape[1] as int) == self.extent(),
                rows@.len() == r,
                forall|i: int| 0 <= i < r ==> (#[trigger] rows@[i])@.len() == shape[1],
                forall|i: int, c: int|
                    0 <= i < r && 0 <= c < shape[1] ==> (#[trigger] rows@[i]@[c]) == label_at(self@, (i, c)),
            decreases shape[0] - r,
        {
            let mut row: Vec<Option<Tile>> = Vec::new();
            let mut c: usize = 0;
            while c < shape[1]
                invariant
                    r < shape[0],
                    c <= shape[1],
                    (shape[0] as int, shape[1] as int) == self.extent(),
                    row@.len() == c,
                    forall|j: int| 0 <= j < c ==> (#[trigger] row@[j]) == label_at(self@, (r as int, j)),
                decreases shape[1] - c,
            {
                row.push(tile_at(self, &[r, c]));
                c = c + 1;
            }
            rows.push(row);
            r = r + 1;
        }
        rows
    }
}

/// The last point that the four slots hold.
pub open spec fn last_point(nodes: Nodes) -> Option<Coord> {
    if nodes[3] is Some {
        nodes[3]
    } else if nodes[2] is Some {
        nodes[2]
    } else if nodes[1] is Some {
        nodes[1]
    } else {
        nodes[0]
    }
}

/// The two ends of a path: its first point and the last point that it holds.
pub fn get_node_edge(node: &Nodes) -> (edges: [Coord; 2])
    requires
        node[0] is Some,
    ensures
        Some(edges[0]) == node[0],
        Some(edges[1]) == last_point(*node),
{
    let first = node[0].unwrap();
    let mut last = first;
    let mut i: usize = 1;
    while i < 4
        invariant
            1 <= i <= 4,
            node[0] == Some(first),
            Some(last) == (if i >= 4 && node[3] is Some {
                node[3]
            } else if i >= 3 && node[2] is Some {
                node[2]
            } else if i >= 2 && node[1] is Some {
                node[1]
            } else {
                node[0]
            }),
        decreases 4 - i,
    {
        match node[i] {
            Some(point) => {
                last = point;
            },
            None => {},
        }
        i = i + 1;
    }
    [first, last]
}

impl Clone for TileMap {
    /// A board of the same extent with the same tiles.
    fn clone(&self) -> (copy: Self)
        ensures
            copy.extent() == self.extent(),
            copy@ == self@,
    {
        clone_map(self)
    }
}

} // verus!
