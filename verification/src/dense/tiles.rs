//! The tiles of a dense board, read row by row.
use vstd::prelude::*;
use crate::components::{cells_of, distinct_cells, lemma_cells_of, lists, Point, Tile};
use crate::geometry::inside;

verus! {

/// The tiles of the row `r` in the columns before `c`, in the order of the columns.
pub open spec fn scan_row(cells: Map<Point, Tile>, r: int, c: nat) -> Seq<(Point, Tile)>
    decreases c,
{
    if c == 0 {
        Seq::empty()
    } else if cells.contains_key((r, c - 1)) {
        scan_row(cells, r, (c - 1) as nat).push(((r, c - 1), cells[(r, c - 1)]))
    } else {
        scan_row(cells, r, (c - 1) as nat)
    }
}

/// The tiles of the rows before `r`, row by row.
pub open spec fn scan(cells: Map<Point, Tile>, size: Point, r: nat) -> Seq<(Point, Tile)>
    decreases r,
{
    if r == 0 {
        Seq::empty()
    } else {
        scan(cells, size, (r - 1) as nat) + scan_row(cells, r - 1, size.1 as nat)
    }
}

/// The tiles of a board of the given extent, row by row.
pub open spec fn tiles_of(cells: Map<Point, Tile>, size: Point) -> Seq<(Point, Tile)> {
    scan(cells, size, size.0 as nat)
}

/// The number of tiles on a board of the given extent.
pub open spec fn tile_count(cells: Map<Point, Tile>, size: Point) -> nat {
    tiles_of(cells, size).len()
}

/// Every tile of the board lies inside its extent.
pub open spec fn bounded(cells: Map<Point, Tile>, size: Point) -> bool {
    forall|p: Point| cells.contains_key(p) ==> inside(size, p)
}

/// A row holds each of its tiles once, in the order of the columns.
pub proof fn lemma_scan_row(cells: Map<Point, Tile>, r: int, c: nat)
    ensures
        forall|i: int|
            0 <= i < scan_row(cells, r, c).len() ==> {
                let e = #[trigger] scan_row(cells, r, c)[i];
                e.0.0 == r && 0 <= e.0.1 < c && cells.contains_key(e.0) && cells[e.0] == e.1
            },
        forall|i: int, j: int|
            0 <= i < j < scan_row(cells, r, c).len() ==> (#[trigger] scan_row(cells, r, c)[i]).0.1 < (#[trigger] scan_row(
                cells,
                r,
                c,
            )[j]).0.1,
        forall|k: int| 0 <= k < c && cells.contains_key((r, k)) ==> lists(scan_row(cells, r, c), (r, k)),
    decreases c,
{
    if c > 0 {
        lemma_scan_row(cells, r, (c - 1) as nat);
        let before = scan_row(cells, r, (c - 1) as nat);
        let now = scan_row(cells, r, c);
        assert forall|k: int| 0 <= k < c && cells.contains_key((r, k)) implies lists(now, (r, k)) by {
            if k < c - 1 {
                let i = choose|i: int| 0 <= i < before.len() && #[trigger] before[i].0 == (r, k);
                assert(now[i].0 == (r, k));
            } else {
                assert(now[now.len() - 1].0 == (r, k));
            }
        }
    }
}

/// The board holds each of its tiles once, row by row.
pub proof fn lemma_scan(cells: Map<Point, Tile>, size: Point, r: nat)
    requires
        size.1 >= 0,
    ensures
        forall|i: int|
            0 <= i < scan(cells, size, r).len() ==> {
                let e = #[trigger] scan(cells, size, r)[i];
                0 <= e.0.0 < r && 0 <= e.0.1 < size.1 && cells.contains_key(e.0) && cells[e.0] == e.1
            },
        forall|i: int, j: int|
            0 <= i < j < scan(cells, size, r).len() ==> {
                let a = (#[trigger] scan(cells, size, r)[i]).0;
                let b = (#[trigger] scan(cells, size, r)[j]).0;
                a.0 < b.0 || (a.0 == b.0 && a.1 < b.1)
            },
        forall|p: Point| 0 <= p.0 < r && 0 <= p.1 < size.1 && cells.contains_key(p) ==> lists(scan(cells, size, r), p),
    decreases r,
{
    if r > 0 {
        lemma_scan(cells, size, (r - 1) as nat);
        lemma_scan_row(cells, r - 1, size.1 as nat);
        let before = scan(cells, size, (r - 1) as nat);
        let row = scan_row(cells, r - 1, size.1 as nat);
        let now = scan(cells, size, r);
        assert forall|i: int| 0 <= i < now.len() implies {
            let e = #[trigger] now[i];
            0 <= e.0.0 < r && 0 <= e.0.1 < size.1 && cells.contains_key(e.0) && cells[e.0] == e.1
        } by {
            if i < before.len() {
                assert(now[i] == before[i]);
            } else {
                assert(now[i] == row[i - before.len()]);
            }
        }
        assert forall|i: int, j: int| 0 <= i < j < now.len() implies {
            let a = (#[trigger] now[i]).0;
            let b = (#[trigger] now[j]).0;
            a.0 < b.0 || (a.0 == b.0 && a.1 < b.1)
        } by {
            if j < before.len() {
                assert(now[i] == before[i] && now[j] == before[j]);
            } else if i < before.len() {
                assert(now[i] == before[i] && now[j] == row[j - before.len()]);
            } else {
                assert(now[i] == row[i - before.len()] && now[j] == row[j - before.len()]);
            }
        }
        assert forall|p: Point| 0 <= p.0 < r && 0 <= p.1 < size.1 && cells.contains_key(p) implies lists(now, p) by {
            if p.0 < r - 1 {
                let i = choose|i: int| 0 <= i < before.len() && #[trigger] before[i].0 == p;
                assert(now[i].0 == p);
            } else {
                assert(p == (r - 1, p.1));
                let i = choose|i: int| 0 <= i < row.len() && #[trigger] row[i].0 == p;
                assert(now[before.len() + i].0 == p);
            }
        }
    }
}

/// The tiles of a board are its cells: each occurs once, and where every tile of the board
/// lies inside its extent, the tiles are all the cells that the board holds.
pub proof fn lemma_tiles_of(cells: Map<Point, Tile>, size: Point)
    requires
        size.0 >= 0,
        size.1 >= 0,
    ensures
        distinct_cells(tiles_of(cells, size)),
        forall|p: Point| lists(tiles_of(cells, size), p) <==> inside(size, p) && cells.contains_key(p),
        forall|p: Point| lists(tiles_of(cells, size), p) ==> cells_of(tiles_of(cells, size))[p] == cells[p],
        bounded(cells, size) ==> cells_of(tiles_of(cells, size)) == cells,
{
    let tiles = tiles_of(cells, size);
    lemma_scan(cells, size, size.0 as nat);
    assert(distinct_cells(tiles)) by {
        assert forall|i: int, j: int| 0 <= i < j < tiles.len() implies tiles[i].0 != tiles[j].0 by {
            let a = tiles[i].0;
            let b = tiles[j].0;
            assert(a.0 < b.0 || (a.0 == b.0 && a.1 < b.1));
        }
    }
    lemma_cells_of(tiles);
    assert forall|p: Point| lists(tiles, p) <==> inside(size, p) && cells.contains_key(p) by {
        if lists(tiles, p) {
            let i = choose|i: int| 0 <= i < tiles.len() && #[trigger] tiles[i].0 == p;
            let e = tiles[i];
            assert(0 <= e.0.0 < size.0 && cells.contains_key(e.0));
        }
    }
    assert forall|p: Point| lists(tiles, p) implies cells_of(tiles)[p] == cells[p] by {
        let i = choose|i: int| 0 <= i < tiles.len() && #[trigger] tiles[i].0 == p;
        let e = tiles[i];
        assert(cells[e.0] == e.1);
        assert(cells_of(tiles)[tiles[i].0] == tiles[i].1);
    }
    if bounded(cells, size) {
        assert(cells_of(tiles) =~= cells);
    }
}

/// A row of a board that holds no more tiles has no more tiles when read.
proof fn lemma_scan_row_len(big: Map<Point, Tile>, small: Map<Point, Tile>, r: int, c: nat)
    requires
        forall|p: Point| small.contains_key(p) ==> big.contains_key(p),
    ensures
        scan_row(small, r, c).len() <= scan_row(big, r, c).len(),
        forall|k: int|
            0 <= k < c && big.contains_key((r, k)) && !small.contains_key((r, k)) ==> scan_row(small, r, c).len()
                < scan_row(big, r, c).len(),
    decreases c,
{
    if c > 0 {
        lemma_scan_row_len(big, small, r, (c - 1) as nat);
    }
}

/// A board that holds no more tiles has no more tiles when read.
proof fn lemma_scan_len(big: Map<Point, Tile>, small: Map<Point, Tile>, size: Point, r: nat)
    requires
        size.1 >= 0,
        forall|p: Point| small.contains_key(p) ==> big.contains_key(p),
    ensures
        scan(small, size, r).len() <= scan(big, size, r).len(),
        forall|p: Point|
            0 <= p.0 < r && 0 <= p.1 < size.1 && big.contains_key(p) && !small.contains_key(p) ==> scan(small, size, r).len()
                < scan(big, size, r).len(),
    decreases r,
{
    if r > 0 {
        lemma_scan_len(big, small, size, (r - 1) as nat);
        lemma_scan_row_len(big, small, r - 1, size.1 as nat);
        assert forall|p: Point|
            0 <= p.0 < r && 0 <= p.1 < size.1 && big.contains_key(p) && !small.contains_key(p) implies scan(
            small,
            size,
            r,
        ).len() < scan(big, size, r).len() by {
            if p.0 == r - 1 {
                assert(p == (r - 1, p.1));
            }
        }
    }
}

/// Taking tiles off a board makes the number of its tiles no greater, and smaller where a
/// tile inside the board is taken off.
pub proof fn lemma_count_drops(big: Map<Point, Tile>, small: Map<Point, Tile>, size: Point)
    requires
        size.0 >= 0,
        size.1 >= 0,
        forall|p: Point| small.contains_key(p) ==> big.contains_key(p),
    ensures
        tile_count(small, size) <= tile_count(big, size),
        forall|p: Point|
            inside(size, p) && big.contains_key(p) && !small.contains_key(p) ==> tile_count(small, size) < tile_count(
                big,
                size,
            ),
{
    lemma_scan_len(big, small, size, size.0 as nat);
}

/// A board without a tile inside its extent has no tiles when read.
pub proof fn lemma_count_zero(cells: Map<Point, Tile>, size: Point)
    requires
        size.0 >= 0,
        size.1 >= 0,
    ensures
        tile_count(cells, size) == 0 <==> (forall|p: Point| inside(size, p) ==> !cells.contains_key(p)),
{
    lemma_tiles_of(cells, size);
    let tiles = tiles_of(cells, size);
    if tiles.len() > 0 {
        let p = tiles[0].0;
        assert(lists(tiles, p));
        assert(inside(size, p) && cells.contains_key(p));
    } else {
        assert forall|p: Point| inside(size, p) implies !cells.contains_key(p) by {
            if cells.contains_key(p) {
                assert(lists(tiles, p));
                let i = choose|i: int| 0 <= i < tiles.len() && #[trigger] tiles[i].0 == p;
                assert(false);
            }
        }
    }
}

} // verus!
