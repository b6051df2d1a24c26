//! The tile index: the cells of a board by label, and the pairs of cells of each label.
use std::collections::HashMap;
use vstd::prelude::*;
use crate::components::{path_of, seg, Coord, Point, Tile, TileMap};

verus! {

broadcast use vstd::std_specs::hash::group_hash_axioms;

/// The cells of each label that occurs.
pub type CoordCollection = HashMap<Tile, Vec<Coord>>;

/// The pairs of cells of each label that occurs.
pub type CoordPairCollection = HashMap<Tile, Vec<[Coord; 2]>>;

/// The cells of the first `n` tiles of the list that carry the label `t`, in order.
pub open spec fn coords_with(entries: Seq<(Point, Tile)>, t: Tile, n: nat) -> Seq<Point>
    decreases n,
{
    if n == 0 || n > entries.len() {
        Seq::empty()
    } else if entries[n - 1].1 == t {
        coords_with(entries, t, (n - 1) as nat).push(entries[n - 1].0)
    } else {
        coords_with(entries, t, (n - 1) as nat)
    }
}

/// The index of the first `n` tiles of the list: for every label that occurs, its cells.
pub open spec fn tile_index(entries: Seq<(Point, Tile)>, n: nat) -> Map<Tile, Seq<Point>> {
    Map::new(|t: Tile| coords_with(entries, t, n).len() > 0, |t: Tile| coords_with(entries, t, n))
}

/// What a collection of cells holds, as points.
pub open spec fn index_view(lut: Map<Tile, Vec<Coord>>) -> Map<Tile, Seq<Point>> {
    Map::new(|t: Tile| lut.contains_key(t), |t: Tile| path_of(lut[t]@))
}

/// The pairs of the first cell with each of the cells after it, up to the cell at `j`.
pub open spec fn pairs_in_row(cells: Seq<Point>, i: int, j: int) -> Seq<(Point, Point)>
    decreases j - i,
{
    if j <= i + 1 || j > cells.len() || i < 0 {
        Seq::empty()
    } else {
        pairs_in_row(cells, i, j - 1).push((cells[i], cells[j - 1]))
    }
}

/// The pairs of cells whose first lies before the place `i`: every cell with every cell after
/// it, in the order of their places.
pub open spec fn pairs_before(cells: Seq<Point>, i: int) -> Seq<(Point, Point)>
    decreases i,
{
    if i <= 0 || i > cells.len() {
        Seq::empty()
    } else {
        pairs_before(cells, i - 1) + pairs_in_row(cells, i - 1, cells.len() as int)
    }
}

/// All pairs of cells of a list: every cell with every cell after it.
pub open spec fn pairs_of(cells: Seq<Point>) -> Seq<(Point, Point)> {
    pairs_before(cells, cells.len() as int)
}

/// What a list of pairs holds, as points.
pub open spec fn pairs_view(pairs: Seq<[Coord; 2]>) -> Seq<(Point, Point)> {
    Seq::new(pairs.len(), |i: int| seg(pairs[i]))
}

/// The index of a board: for every label that occurs, the cells that carry it, in the order of
/// the board's entries.
pub fn tile_map_to_coord_collection(map: &TileMap) -> (collection: CoordCollection)
    ensures
        index_view(collection@) == tile_index(map.entries(), map.entries().len()),
{
    let ghost entries = map.entries();
    let mut collection: CoordCollection = HashMap::new();
    let n = map.len();
    let mut i: usize = 0;
    assert(index_view(collection@) =~= tile_index(entries, 0));
    while i < n
        invariant
            i <= n,
            n == entries.len(),
            entries == map.entries(),
            index_view(collection@) == tile_index(entries, i as nat),
        decreases n - i,
    {
        let (coord, tile) = map.entry(i);
        let ghost before = collection@;
        let mut coords: Vec<Coord> = match collection.remove(&tile) {
            Some(coords) => coords,
            None => Vec::new(),
        };
        proof {
            assert(index_view(before).contains_key(tile) == tile_index(entries, i as nat).contains_key(tile));
            if before.contains_key(tile) {
                assert(index_view(before)[tile] == tile_index(entries, i as nat)[tile]);
            }
            assert(path_of(coords@) =~= coords_with(entries, tile, i as nat));
        }
        coords.push(coord);
        proof {
            assert(path_of(coords@) =~= coords_with(entries, tile, (i + 1) as nat));
        }
        collection.insert(tile, coords);
        proof {
            let now = index_view(collection@);
            let want = tile_index(entries, (i + 1) as nat);
            assert forall|t: Tile| now.contains_key(t) == want.contains_key(t) by {
                if t != tile {
                    assert(index_view(before).contains_key(t) == tile_index(entries, i as nat).contains_key(t));
                }
            }
            assert forall|t: Tile| now.contains_key(t) implies now[t] == want[t] by {
                if t != tile {
                    assert(index_view(before).contains_key(t));
                    assert(index_view(before)[t] == tile_index(entries, i as nat)[t]);
                }
            }
            assert(now =~= want);
        }
        i = i + 1;
    }
    collection
}

/// All pairs of cells of a list: every cell with every cell after it.
pub fn create_coord_pair(coords: &Vec<Coord>) -> (pairs: Vec<[Coord; 2]>)
    ensures
        pairs_view(pairs@) == pairs_of(path_of(coords@)),
{
    let ghost cells = path_of(coords@);
    let mut pairs: Vec<[Coord; 2]> = Vec::new();
    let n = coords.len();
    let mut i: usize = 0;
    assert(pairs_view(pairs@) =~= pairs_before(cells, 0));
    while i < n
        invariant
            i <= n,
            n == coords@.len(),
            cells == path_of(coords@),
            pairs_view(pairs@) == pairs_before(cells, i as int),
        decreases n - i,
    {
        let ghost done = pairs_view(pairs@);
        let mut j: usize = i + 1;
        assert(pairs_view(pairs@) =~= done + pairs_in_row(cells, i as int, j as int));
        while j < n
            invariant
                i < j <= n,
                n == coords@.len(),
                cells == path_of(coords@),
                pairs_view(pairs@) == done + pairs_in_row(cells, i as int, j as int),
            decreases n - j,
        {
            let ghost row = pairs_in_row(cells, i as int, j as int);
            pairs.push([coords[i], coords[j]]);
            assert(pairs_in_row(cells, i as int, j + 1) == row.push((cells[i as int], cells[j as int])));
            assert(pairs_view(pairs@) =~= (done + row).push((cells[i as int], cells[j as int])));
            assert((done + row).push((cells[i as int], cells[j as int])) =~= done + row.push(
                (cells[i as int], cells[j as int]),
            ));
            j = j + 1;
        }
        i = i + 1;
    }
    pairs
}

/// For every label of the index, all pairs of its cells.
pub fn create_coord_pair_collection(lut: &CoordCollection) -> (pairs: CoordPairCollection)
    ensures
        forall|t: Tile| pairs@.contains_key(t) <==> lut@.contains_key(t),
        forall|t: Tile| #[trigger] pairs@.contains_key(t) ==> pairs_view(pairs@[t]@) == pairs_of(path_of(lut@[t]@)),
{
    let mut pairs: CoordPairCollection = HashMap::new();
    let mut tile: Tile = 0;
    loop
        invariant_except_break
            forall|t: Tile| pairs@.contains_key(t) <==> (lut@.contains_key(t) && t < tile),
        invariant
            forall|t: Tile| #[trigger] pairs@.contains_key(t) ==> pairs_view(pairs@[t]@) == pairs_of(path_of(lut@[t]@)),
        ensures
            forall|t: Tile| pairs@.contains_key(t) <==> lut@.contains_key(t),
            forall|t: Tile| #[trigger] pairs@.contains_key(t) ==> pairs_view(pairs@[t]@) == pairs_of(path_of(lut@[t]@)),
        decreases 255 - tile,
    {
        match lut.get(&tile) {
            Some(coords) => {
                let found = create_coord_pair(coords);
                pairs.insert(tile, found);
            },
            None => {},
        }
        if tile == 255 {
            break;
        }
        tile = tile + 1;
    }
    pairs
}

} // verus!
