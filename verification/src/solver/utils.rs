//! The frame around a board, and the ends of a path.
use vstd::prelude::*;
use crate::components::{
    cells_of, distinct_cells, lemma_cells_of, lists, path_of, pt, with_tile, Coord, Nodes, Point, Tile,
    TileMap,
};
use crate::solver::lut::{coords_with, index_view, tile_index, tile_map_to_coord_collection};

verus! {

/// The tiles of the list, each moved one row down and one column to the right.
pub open spec fn padded(entries: Seq<(Point, Tile)>) -> Seq<(Point, Tile)> {
    Seq::new(entries.len(), |i: int| ((entries[i].0.0 + 1, entries[i].0.1 + 1), entries[i].1))
}

/// Whether every tile of the list lies inside a board of the given extent.
pub open spec fn fits(entries: Seq<(Point, Tile)>, size: Point) -> bool {
    forall|i: int| 0 <= i < entries.len() ==> 0 <= (#[trigger] entries[i]).0.0 < size.0 && 0 <= entries[i].0.1 < size.1
}

/// Whether some tile of the list lies in the row `r`.
pub open spec fn reaches_row(entries: Seq<(Point, Tile)>, r: int) -> bool {
    exists|i: int| 0 <= i < entries.len() && (#[trigger] entries[i]).0.0 == r
}

/// Whether some tile of the list lies in the column `c`.
pub open spec fn reaches_col(entries: Seq<(Point, Tile)>, c: int) -> bool {
    exists|i: int| 0 <= i < entries.len() && (#[trigger] entries[i]).0.1 == c
}

/// The extent is the smallest with a row and a column that holds every tile.
pub open spec fn is_extent_of(entries: Seq<(Point, Tile)>, size: Point) -> bool {
    &&& fits(entries, size)
    &&& size.0 >= 1 && size.1 >= 1
    &&& size.0 == 1 || reaches_row(entries, size.0 - 1)
    &&& size.1 == 1 || reaches_col(entries, size.1 - 1)
}

/// The board with an empty row and an empty column added before the first ones: every tile
/// moves one row down and one column to the right.
pub fn pad_tilemap(map: &TileMap) -> (padded_map: TileMap)
    requires
        fits(map.entries(), (usize::MAX as int, usize::MAX as int)),
    ensures
        padded_map.entries() == padded(map.entries()),
        forall|p: Point| padded_map@.contains_key(p) <==> map@.contains_key((p.0 - 1, p.1 - 1)),
        forall|p: Point| padded_map@.contains_key(p) ==> padded_map@[p] == map@[(p.0 - 1, p.1 - 1)],
{
    let ghost before = map.entries();
    let ghost want = padded(before);
    proof {
        use_type_invariant(map);
        lemma_cells_of(before);
        assert(distinct_cells(want));
        lemma_cells_of(want);
    }
    let mut padded_map = TileMap::new();
    let n = map.len();
    let mut i: usize = 0;
    while i < n
        invariant
            i <= n,
            n == before.len(),
            before == map.entries(),
            want == padded(before),
            distinct_cells(want),
            fits(before, (usize::MAX as int, usize::MAX as int)),
            padded_map.entries() == want.subrange(0, i as int),
        decreases n - i,
    {
        let (coord, tile) = map.entry(i);
        let moved: Coord = [coord[0] + 1, coord[1] + 1];
        proof {
            let so_far = padded_map.entries();
            assert(pt(moved) == want[i as int].0);
            if lists(so_far, pt(moved)) {
                let k = choose|k: int| 0 <= k < so_far.len() && #[trigger] so_far[k].0 == pt(moved);
                assert(want[k].0 == want[i as int].0);
            }
            assert(with_tile(so_far, pt(moved), tile) =~= want.subrange(0, i + 1));
        }
        padded_map.insert(moved, tile);
        i = i + 1;
    }
    proof {
        assert(padded_map.entries() =~= want);
        assert forall|p: Point| padded_map@.contains_key(p) <==> map@.contains_key((p.0 - 1, p.1 - 1)) by {
            if lists(want, p) {
                let k = choose|k: int| 0 <= k < want.len() && #[trigger] want[k].0 == p;
                assert(before[k].0 == (p.0 - 1, p.1 - 1));
            }
            if lists(before, (p.0 - 1, p.1 - 1)) {
                let k = choose|k: int| 0 <= k < before.len() && #[trigger] before[k].0 == (p.0 - 1, p.1 - 1);
                assert(want[k].0 == p);
            }
        }
        assert forall|p: Point| padded_map@.contains_key(p) implies padded_map@[p] == map@[(p.0 - 1, p.1 - 1)] by {
            let k = choose|k: int| 0 <= k < want.len() && #[trigger] want[k].0 == p;
            assert(before[k].0 == (p.0 - 1, p.1 - 1));
            assert(cells_of(want)[want[k].0] == want[k].1);
            assert(cells_of(before)[before[k].0] == before[k].1);
        }
    }
    padded_map
}

/// The extent of the smallest board that holds every tile and one more row and column after
/// the last ones: each number is one more than the greatest row, or column, that holds a
/// tile, and 1 where the board is empty.
pub fn get_size_from_map(map: &TileMap) -> (size: [usize; 2])
    requires
        fits(map.entries(), (usize::MAX as int, usize::MAX as int)),
    ensures
        is_extent_of(map.entries(), (size[0] as int, size[1] as int)),
{
    let ghost entries = map.entries();
    let n = map.len();
    let mut rows: usize = 0;
    let mut cols: usize = 0;
    let mut i: usize = 0;
    while i < n
        invariant
            i <= n,
            n == entries.len(),
            entries == map.entries(),
            fits(entries, (usize::MAX as int, usize::MAX as int)),
            rows < usize::MAX,
            cols < usize::MAX,
            forall|j: int| 0 <= j < i ==> (#[trigger] entries[j]).0.0 <= rows && entries[j].0.1 <= cols,
            rows == 0 || reaches_row(entries, rows as int),
            cols == 0 || reaches_col(entries, cols as int),
        decreases n - i,
    {
        let (coord, _tile) = map.entry(i);
        if coord[0] > rows {
            rows = coord[0];
            assert(entries[i as int].0.0 == rows);
        }
        if coord[1] > cols {
            cols = coord[1];
            assert(entries[i as int].0.1 == cols);
        }
        i = i + 1;
    }
    [rows + 1, cols + 1]
}

/// The two ends of a path.
pub fn get_node_edges(node: &Nodes) -> (edges: [Coord; 2])
    requires
        node@.len() > 0,
    ensures
        edges[0] == node@[0],
        edges[1] == node@[node@.len() - 1],
{
    [node[0], node[node.len() - 1]]
}

/// Whether the tiles of the list can be paired at all: every label is carried by an even
/// number of tiles.
pub open spec fn evenly_labelled(entries: Seq<(Point, Tile)>) -> bool {
    forall|t: Tile| (#[trigger] coords_with(entries, t, entries.len())).len() % 2 == 0
}

/// Whether the tiles of the board can be paired at all: every label is carried by an even
/// number of tiles.
pub fn validate_tiles(map: &TileMap) -> (r: bool)
    ensures
        r == evenly_labelled(map.entries()),
{
    broadcast use vstd::std_specs::hash::group_hash_axioms;

    let ghost entries = map.entries();
    let lut = tile_map_to_coord_collection(map);
    let mut tile: Tile = 0;
    loop
        invariant
            entries == map.entries(),
            index_view(lut@) == tile_index(entries, entries.len()),
            forall|t: Tile| t < tile ==> (#[trigger] coords_with(entries, t, entries.len())).len() % 2 == 0,
        decreases 255 - tile,
    {
        proof {
            let index = tile_index(entries, entries.len());
            assert(index_view(lut@).contains_key(tile) == index.contains_key(tile));
            if lut@.contains_key(tile) {
                assert(index_view(lut@)[tile] == index[tile]);
            }
        }
        match lut.get(&tile) {
            Some(coords) => {
                assert(path_of(coords@) == coords_with(entries, tile, entries.len()));
                if coords.len() % 2 != 0 {
                    return false;
                }
            },
            None => {},
        }
        if tile == 255 {
            return true;
        }
        tile = tile + 1;
    }
}

} // verus!
