//! The search on a dense board: forced pairs are taken off, a pair is assumed where none is
//! forced, and an assumption that leads nowhere is taken back.
use std::collections::HashMap;
use vstd::prelude::*;
use crate::components::{path_of, seg, Coord, Point, Tile};
use crate::dense::components::{clone_map, set_tile, shape_of, tile_at, Nodes, TileMap};
use crate::dense::connect::{connection, find_connection, slot_view, slots};
use crate::dense::laws::{
    lemma_propagation_settles, holds, is_end, lemma_candidates, lemma_cleared, lemma_cleared_concat, lemma_single_links,
    lemma_step_replays, replays, untouched,
};
use crate::dense::tiles::{
    lemma_count_drops, lemma_count_zero, scan, scan_row, tile_count, tiles_of,
};
use crate::geometry::inside;
use crate::order::{arranged, key_seqs, nums, order_of, sorted_order};
use crate::solver::lut::{coords_with, index_view, tile_index};

verus! {

broadcast use vstd::std_specs::hash::group_hash_axioms;

/// A connection: the label of the two tiles, their cells, and the path that joins them.
#[derive(Eq, PartialEq, Debug, Clone, Copy, Hash)]
pub struct ConnectionInfo {
    pub tile: Tile,
    pub pair: [Coord; 2],
    pub nodes: Nodes,
}

/// The cells of each label that occurs.
pub type TileLut = HashMap<Tile, Vec<Coord>>;

/// The connections of each label that occurs.
pub type ConnectionLut = HashMap<Tile, Vec<ConnectionInfo>>;

/// A connection as the label, the two cells and the four slots of the path.
pub type Link = (Tile, (Point, Point), Seq<Option<Point>>);

/// What a connection holds, as points.
pub open spec fn link_view(info: ConnectionInfo) -> Link {
    (info.tile, seg(info.pair), slot_view(info.nodes))
}

/// What a list of connections holds, as points.
pub open spec fn links_view(infos: Seq<ConnectionInfo>) -> Seq<Link> {
    Seq::new(infos.len(), |i: int| link_view(infos[i]))
}

/// The connection of the label `t` between two cells, where a path joins them.
pub open spec fn link_of(cells: Map<Point, Tile>, size: Point, t: Tile, pair: (Point, Point)) -> Option<Link> {
    match connection(cells, size, pair.0, pair.1) {
        Some(path) => Some((t, pair, slots(path))),
        None => None,
    }
}

/// The index of a board: for every label that occurs, its cells, row by row.
pub open spec fn board_index(cells: Map<Point, Tile>, size: Point) -> Map<Tile, Seq<Point>> {
    tile_index(tiles_of(cells, size), tiles_of(cells, size).len())
}

/// The forced connections of the labels below `n`: for every label that exactly two tiles
/// carry, in the order of the labels, the connection of the two, where a path joins them.
pub open spec fn single_links(cells: Map<Point, Tile>, size: Point, n: nat) -> Seq<Link>
    decreases n,
{
    if n == 0 || n > 256 {
        Seq::empty()
    } else {
        let rest = single_links(cells, size, (n - 1) as nat);
        let t = (n - 1) as Tile;
        let index = board_index(cells, size);
        if index.contains_key(t) && index[t].len() == 2 {
            match link_of(cells, size, t, (index[t][0], index[t][1])) {
                Some(link) => rest.push(link),
                None => rest,
            }
        } else {
            rest
        }
    }
}

/// The board without the tiles of the first `n` connections.
pub open spec fn cleared(cells: Map<Point, Tile>, links: Seq<Link>, n: nat) -> Map<Point, Tile>
    decreases n,
{
    if n == 0 || n > links.len() {
        cells
    } else {
        cleared(cells, links, (n - 1) as nat).remove(links[n - 1].1.0).remove(links[n - 1].1.1)
    }
}

/// The pairs of places below `i` with every place after them and before `j`.
pub open spec fn place_row(i: int, j: int) -> Seq<(int, int)>
    decreases j - i,
{
    if j <= i + 1 || i < 0 {
        Seq::empty()
    } else {
        place_row(i, j - 1).push((i, j - 1))
    }
}

/// The pairs of places among `n` whose first lies before `i`: every place with every place
/// after it, in their order.
pub open spec fn place_pairs(n: int, i: int) -> Seq<(int, int)>
    decreases i,
{
    if i <= 0 || i > n {
        Seq::empty()
    } else {
        place_pairs(n, i - 1) + place_row(i - 1, n)
    }
}

/// All pairs of `n` places: every place with every place after it.
pub open spec fn all_place_pairs(n: int) -> Seq<(int, int)> {
    if n <= 0 {
        Seq::empty()
    } else {
        place_pairs(n, n - 1)
    }
}

/// What a list of pairs of places holds.
pub open spec fn places_view(pairs: Seq<[usize; 2]>) -> Seq<(int, int)> {
    Seq::new(pairs.len(), |i: int| (pairs[i][0] as int, pairs[i][1] as int))
}

/// The connections of the label `t` among the first `n` pairs of its cells, in the order of
/// the pairs; a pair that no path joins gives none.
pub open spec fn label_links(
    cells: Map<Point, Tile>,
    size: Point,
    t: Tile,
    coords: Seq<Point>,
    n: nat,
) -> Seq<Link>
    decreases n,
{
    let pairs = all_place_pairs(coords.len() as int);
    if n == 0 || n > pairs.len() {
        Seq::empty()
    } else {
        let rest = label_links(cells, size, t, coords, (n - 1) as nat);
        match link_of(cells, size, t, (coords[pairs[n - 1].0], coords[pairs[n - 1].1])) {
            Some(link) => rest.push(link),
            None => rest,
        }
    }
}

/// All connections of the label `t` among its cells.
pub open spec fn all_label_links(cells: Map<Point, Tile>, size: Point, t: Tile, coords: Seq<Point>) -> Seq<Link> {
    label_links(cells, size, t, coords, all_place_pairs(coords.len() as int).len())
}

/// What is read of the first `n` entries depends on these entries alone.
proof fn lemma_coords_with_prefix(one: Seq<(Point, Tile)>, other: Seq<(Point, Tile)>, t: Tile, n: nat)
    requires
        n <= one.len(),
        n <= other.len(),
        forall|i: int| 0 <= i < n ==> one[i] == other[i],
    ensures
        coords_with(one, t, n) == coords_with(other, t, n),
    decreases n,
{
    if n > 0 {
        lemma_coords_with_prefix(one, other, t, (n - 1) as nat);
    }
}

/// The index of a board: for every label that occurs, the cells that carry it, row by row.
pub fn create_tile_lookup_table(map: &TileMap) -> (lut: TileLut)
    ensures
        index_view(lut@) == board_index(map@, map.extent()),
{
    let shape = shape_of(map);
    let ghost cells = map@;
    let ghost size = map.extent();
    let mut lut: TileLut = HashMap::new();
    let mut x: usize = 0;
    assert(index_view(lut@) =~= tile_index(scan(cells, size, 0), 0));
    while x < shape[0]
        invariant
            x <= shape[0],
            cells == map@,
            size == map.extent(),
            size == (shape[0] as int, shape[1] as int),
            index_view(lut@) == tile_index(scan(cells, size, x as nat), scan(cells, size, x as nat).len()),
        decreases shape[0] - x,
    {
        let ghost above = scan(cells, size, x as nat);
        let mut y: usize = 0;
        assert(above + scan_row(cells, x as int, 0) =~= above);
        while y < shape[1]
            invariant
                x < shape[0],
                y <= shape[1],
                cells == map@,
                size == map.extent(),
                size == (shape[0] as int, shape[1] as int),
                above == scan(cells, size, x as nat),
                index_view(lut@) == tile_index(
                    above + scan_row(cells, x as int, y as nat),
                    (above + scan_row(cells, x as int, y as nat)).len(),
                ),
            decreases shape[1] - y,
        {
            let ghost so_far = above + scan_row(cells, x as int, y as nat);
            match tile_at(map, &[x, y]) {
                Some(tile) => {
                    let ghost before = lut@;
                    let mut coords: Vec<Coord> = match lut.remove(&tile) {
                        Some(coords) => coords,
                        None => Vec::new(),
                    };
                    let ghost now = so_far.push(((x as int, y as int), tile));
                    proof {
                        assert(above + scan_row(cells, x as int, (y + 1) as nat) =~= now);
                        assert(index_view(before).contains_key(tile) == tile_index(so_far, so_far.len()).contains_key(tile));
                        if before.contains_key(tile) {
                            assert(index_view(before)[tile] == tile_index(so_far, so_far.len())[tile]);
                        }
                        assert(path_of(coords@) =~= coords_with(so_far, tile, so_far.len()));
                        lemma_coords_with_prefix(so_far, now, tile, so_far.len());
                    }
                    coords.push([x, y]);
                    proof {
                        assert(path_of(coords@) =~= coords_with(now, tile, now.len()));
                    }
                    lut.insert(tile, coords);
                    proof {
                        let got = index_view(lut@);
                        let want = tile_index(now, now.len());
                        assert forall|t: Tile| got.contains_key(t) == want.contains_key(t) by {
                            lemma_coords_with_prefix(so_far, now, t, so_far.len());
                            if t != tile {
                                assert(index_view(before).contains_key(t) == tile_index(so_far, so_far.len()).contains_key(t));
                            }
                        }
                        assert forall|t: Tile| got.contains_key(t) implies got[t] == want[t] by {
                            lemma_coords_with_prefix(so_far, now, t, so_far.len());
                            if t != tile {
                                assert(index_view(before).contains_key(t));
                                assert(index_view(before)[t] == tile_index(so_far, so_far.len())[t]);
                            }
                        }
                        assert(got =~= want);
                    }
                },
                None => {
                    assert(above + scan_row(cells, x as int, (y + 1) as nat) =~= so_far);
                },
            }
            y = y + 1;
        }
        x = x + 1;
    }
    lut
}

/// All pairs of `n_items` places: every place with every place after it.
pub fn get_pair_indices(n_items: usize) -> (indices: Vec<[usize; 2]>)
    ensures
        places_view(indices@) == all_place_pairs(n_items as int),
        forall|k: int| 0 <= k < indices@.len() ==> (#[trigger] indices@[k])[0] < indices@[k][1] < n_items,
{
    let mut indices: Vec<[usize; 2]> = Vec::new();
    if n_items == 0 {
        assert(places_view(indices@) =~= all_place_pairs(0));
        return indices;
    }
    let mut i: usize = 0;
    assert(places_view(indices@) =~= place_pairs(n_items as int, 0));
    while i < n_items - 1
        invariant
            n_items > 0,
            i <= n_items - 1,
            places_view(indices@) == place_pairs(n_items as int, i as int),
            forall|k: int| 0 <= k < indices@.len() ==> (#[trigger] indices@[k])[0] < indices@[k][1] < n_items,
        decreases n_items - i,
    {
        let ghost done = places_view(indices@);
        let mut j: usize = i + 1;
        assert(places_view(indices@) =~= done + place_row(i as int, j as int));
        while j < n_items
            invariant
                i < j <= n_items,
                places_view(indices@) == done + place_row(i as int, j as int),
                forall|k: int| 0 <= k < indices@.len() ==> (#[trigger] indices@[k])[0] < indices@[k][1] < n_items,
            decreases n_items - j,
        {
            let ghost row = place_row(i as int, j as int);
            indices.push([i, j]);
            assert(place_row(i as int, j + 1) == row.push((i as int, j as int)));
            assert(places_view(indices@) =~= (done + row).push((i as int, j as int)));
            assert((done + row).push((i as int, j as int)) =~= done + row.push((i as int, j as int)));
            j = j + 1;
        }
        i = i + 1;
    }
    indices
}

/// The forced connections of a board: for every label that exactly two tiles carry, in the
/// order of the labels, the connection of the two, where a path joins them.
pub fn collect_connection_single_pair_tiles(map: &TileMap) -> (connections: Vec<ConnectionInfo>)
    ensures
        links_view(connections@) == single_links(map@, map.extent(), 256),
{
    let lut = create_tile_lookup_table(map);
    let mut connections: Vec<ConnectionInfo> = Vec::new();
    let mut tile: Tile = 0;
    assert(links_view(connections@) =~= single_links(map@, map.extent(), 0));
    loop
        invariant_except_break
            links_view(connections@) == single_links(map@, map.extent(), tile as nat),
        invariant
            index_view(lut@) == board_index(map@, map.extent()),
        ensures
            links_view(connections@) == single_links(map@, map.extent(), 256),
        decreases 255 - tile,
    {
        let ghost before = links_view(connections@);
        match lut.get(&tile) {
            Some(coords) => {
                if coords.len() == 2 {
                    assert(index_view(lut@)[tile] == path_of(coords@));
                    match find_connection(map, &coords[0], &coords[1]) {
                        Some(nodes) => {
                            let info = ConnectionInfo { tile, pair: [coords[0], coords[1]], nodes };
                            connections.push(info);
                            assert(links_view(connections@) =~= before.push(link_view(info)));
                        },
                        None => {},
                    }
                }
            },
            None => {},
        }
        assert(links_view(connections@) == single_links(map@, map.extent(), (tile + 1) as nat));
        if tile == 255 {
            break;
        }
        tile = tile + 1;
    }
    connections
}

/// Whether the two cells of every connection lie inside the board.
pub open spec fn pairs_inside(links: Seq<Link>, size: Point) -> bool {
    forall|i: int| 0 <= i < links.len() ==> inside(size, (#[trigger] links[i]).1.0) && inside(size, links[i].1.1)
}

/// The board without the tiles of the connections.
pub fn remove_connected_tiles(map: &TileMap, connections: &Vec<ConnectionInfo>) -> (new_map: TileMap)
    requires
        pairs_inside(links_view(connections@), map.extent()),
    ensures
        new_map.extent() == map.extent(),
        new_map@ == cleared(map@, links_view(connections@), connections@.len()),
{
    let mut new_map = clone_map(map);
    let mut i: usize = 0;
    while i < connections.len()
        invariant
            i <= connections@.len(),
            pairs_inside(links_view(connections@), map.extent()),
            new_map.extent() == map.extent(),
            new_map@ == cleared(map@, links_view(connections@), i as nat),
        decreases connections@.len() - i,
    {
        let pair = connections[i].pair;
        assert(links_view(connections@)[i as int].1 == seg(pair));
        set_tile(&mut new_map, &pair[0], None);
        set_tile(&mut new_map, &pair[1], None);
        i = i + 1;
    }
    new_map
}

/// The connections that are forced on a board, one pass after the other: the forced
/// connections of the board itself, then those of what is left when their tiles are taken
/// off, until a pass finds none.
#[verifier::opaque]
pub open spec fn forced_links(cells: Map<Point, Tile>, size: Point) -> Seq<Link>
    decreases tile_count(cells, size),
{
    let pass = single_links(cells, size, 256);
    let rest = cleared(cells, pass, pass.len());
    if pass.len() == 0 || tile_count(rest, size) >= tile_count(cells, size) {
        Seq::empty()
    } else {
        pass + forced_links(rest, size)
    }
}

/// The forced connections of a board, by the first pass and the rest.
pub proof fn lemma_forced_unfold(cells: Map<Point, Tile>, size: Point)
    ensures
        forced_links(cells, size) == ({
            let pass = single_links(cells, size, 256);
            let rest = cleared(cells, pass, pass.len());
            if pass.len() == 0 || tile_count(rest, size) >= tile_count(cells, size) {
                Seq::<Link>::empty()
            } else {
                pass + forced_links(rest, size)
            }
        }),
{
    reveal(forced_links);
}

/// A pass that finds a connection takes tiles off the board, and all of its connections lie
/// inside the board.
pub proof fn lemma_pass_shrinks(cells: Map<Point, Tile>, size: Point)
    requires
        size.0 >= 0,
        size.1 >= 0,
    ensures
        pairs_inside(single_links(cells, size, 256), size),
        single_links(cells, size, 256).len() > 0 ==> tile_count(
            cleared(cells, single_links(cells, size, 256), single_links(cells, size, 256).len()),
            size,
        ) < tile_count(cells, size),
{
    reveal(holds);
    let pass = single_links(cells, size, 256);
    lemma_single_links(cells, size, 256);
    assert forall|i: int| 0 <= i < pass.len() implies inside(size, (#[trigger] pass[i]).1.0) && inside(size, pass[i].1.1) by {
        assert(holds(cells, size, pass[i]));
    }
    if pass.len() > 0 {
        let rest = cleared(cells, pass, pass.len());
        lemma_cleared(cells, pass, pass.len());
        let p = pass[0].1.0;
        assert(holds(cells, size, pass[0]));
        assert(is_end(pass[0], p));
        assert(!untouched(pass, pass.len(), p));
        assert(!rest.contains_key(p));
        assert forall|q: Point| rest.contains_key(q) implies cells.contains_key(q) by {}
        lemma_count_drops(cells, rest, size);
    }
}

/// Takes the forced connections off a board until none is left, and returns the connections
/// in the order in which they were made.
pub fn collect_connection_single_pair_tiles_loop(map: &TileMap) -> (connections: Vec<ConnectionInfo>)
    ensures
        links_view(connections@) == forced_links(map@, map.extent()),
{
    let (_left, connections) = settle(map);
    connections
}

/// Takes the forced connections off a board until none is left, and returns what remains of
/// the board and the connections in the order in which they were made.
pub fn settle(map: &TileMap) -> (r: (TileMap, Vec<ConnectionInfo>))
    ensures
        links_view(r.1@) == forced_links(map@, map.extent()),
        r.0.extent() == map.extent(),
        r.0@ == cleared(map@, links_view(r.1@), r.1@.len()),
        single_links(r.0@, map.extent(), 256).len() == 0,
{
    let ghost start = map@;
    let ghost size = map.extent();
    let mut current = clone_map(map);
    let mut connections: Vec<ConnectionInfo> = Vec::new();
    assert(links_view(connections@) + forced_links(current@, size) =~= forced_links(start, size));
    loop
        invariant
            start == map@,
            size == map.extent(),
            current.extent() == size,
            forced_links(start, size) == links_view(connections@) + forced_links(current@, size),
            current@ == cleared(start, links_view(connections@), connections@.len()),
        ensures
            links_view(connections@) == forced_links(start, size),
            current.extent() == size,
            current@ == cleared(start, links_view(connections@), connections@.len()),
            single_links(current@, size, 256).len() == 0,
        decreases tile_count(current@, size),
    {
        let mut pass = collect_connection_single_pair_tiles(&current);
        proof {
            lemma_forced_unfold(current@, size);
            lemma_pass_shrinks(current@, size);
        }
        if pass.len() == 0 {
            assert(links_view(connections@) + Seq::<Link>::empty() =~= links_view(connections@));
            break;
        }
        let ghost done = links_view(connections@);
        let ghost found = links_view(pass@);
        current = remove_connected_tiles(&current, &pass);
        connections.append(&mut pass);
        proof {
            assert(links_view(connections@) =~= done + found);
            assert(done + (found + forced_links(current@, size)) =~= (done + found) + forced_links(current@, size));
            lemma_cleared_concat(start, done, found, found.len());
        }
    }
    (current, connections)
}

/// For every label of the index, the connections among its cells: every cell is tried with
/// every cell after it.
pub fn create_tile_connection_lookup_table(map: &TileMap, maplut: &TileLut) -> (lut: ConnectionLut)
    ensures
        forall|t: Tile| lut@.contains_key(t) <==> maplut@.contains_key(t),
        forall|t: Tile|
            #[trigger] lut@.contains_key(t) ==> links_view(lut@[t]@) == all_label_links(
                map@,
                map.extent(),
                t,
                path_of(maplut@[t]@),
            ),
{
    let mut lut: ConnectionLut = HashMap::new();
    let mut tile: Tile = 0;
    loop
        invariant_except_break
            forall|t: Tile| lut@.contains_key(t) <==> (maplut@.contains_key(t) && t < tile),
        invariant
            forall|t: Tile|
                #[trigger] lut@.contains_key(t) ==> links_view(lut@[t]@) == all_label_links(
                    map@,
                    map.extent(),
                    t,
                    path_of(maplut@[t]@),
                ),
        ensures
            forall|t: Tile| lut@.contains_key(t) <==> maplut@.contains_key(t),
            forall|t: Tile|
                #[trigger] lut@.contains_key(t) ==> links_view(lut@[t]@) == all_label_links(
                    map@,
                    map.extent(),
                    t,
                    path_of(maplut@[t]@),
                ),
        decreases 255 - tile,
    {
        match maplut.get(&tile) {
            Some(coords) => {
                let connections = connect_label(map, tile, coords);
                lut.insert(tile, connections);
            },
            None => {},
        }
        if tile == 255 {
            break;
        }
        tile = tile + 1;
    }
    lut
}

/// The connections of a label among its cells: every cell is tried with every cell after
/// it.
pub fn connect_label(map: &TileMap, tile: Tile, coords: &Vec<Coord>) -> (connections: Vec<ConnectionInfo>)
    ensures
        links_view(connections@) == all_label_links(map@, map.extent(), tile, path_of(coords@)),
{
    let ghost cells = path_of(coords@);
    let indices = get_pair_indices(coords.len());
    let mut connections: Vec<ConnectionInfo> = Vec::new();
    let mut k: usize = 0;
    assert(links_view(connections@) =~= label_links(map@, map.extent(), tile, cells, 0));
    while k < indices.len()
        invariant
            k <= indices@.len(),
            cells == path_of(coords@),
            places_view(indices@) == all_place_pairs(coords@.len() as int),
            forall|k: int| 0 <= k < indices@.len() ==> (#[trigger] indices@[k])[0] < indices@[k][1] < coords@.len(),
            links_view(connections@) == label_links(map@, map.extent(), tile, cells, k as nat),
        decreases indices@.len() - k,
    {
        let ghost before = links_view(connections@);
        let i = indices[k][0];
        let j = indices[k][1];
        assert(places_view(indices@)[k as int] == (i as int, j as int));
        match find_connection(map, &coords[i], &coords[j]) {
            Some(nodes) => {
                let info = ConnectionInfo { tile, pair: [coords[i], coords[j]], nodes };
                connections.push(info);
                assert(links_view(connections@) =~= before.push(link_view(info)));
            },
            None => {},
        }
        k = k + 1;
    }
    connections
}

/// All connections of the labels below `n`, label after label.
pub open spec fn all_links(cells: Map<Point, Tile>, size: Point, n: nat) -> Seq<Link>
    decreases n,
{
    if n == 0 || n > 256 {
        Seq::empty()
    } else {
        let rest = all_links(cells, size, (n - 1) as nat);
        let t = (n - 1) as Tile;
        let index = board_index(cells, size);
        if index.contains_key(t) {
            rest + all_label_links(cells, size, t, index[t])
        } else {
            rest
        }
    }
}

/// The keys by which connections are ordered: the first cell before the second, row before
/// column.
pub open spec fn link_keys(links: Seq<Link>) -> Seq<Seq<int>> {
    Seq::new(links.len(), |i: int| seq![links[i].1.0.0, links[i].1.0.1, links[i].1.1.0, links[i].1.1.1])
}

/// The candidates of a board: all connections between tiles with one label, in the order of
/// their cells.
#[verifier::opaque]
pub open spec fn candidates(cells: Map<Point, Tile>, size: Point) -> Seq<Link> {
    let all = all_links(cells, size, 256);
    arranged(all, order_of(link_keys(all)))
}

/// The candidates of a board: all connections between tiles with one label, in the order of
/// their cells.
pub fn collect_available_connections(map: &TileMap) -> (connections: Vec<ConnectionInfo>)
    ensures
        links_view(connections@) == candidates(map@, map.extent()),
{
    proof {
        reveal(candidates);
    }
    let maplut = create_tile_lookup_table(map);
    let connlut = create_tile_connection_lookup_table(map, &maplut);
    let mut all: Vec<ConnectionInfo> = Vec::new();
    let mut tile: Tile = 0;
    assert(links_view(all@) =~= all_links(map@, map.extent(), 0));
    loop
        invariant_except_break
            links_view(all@) == all_links(map@, map.extent(), tile as nat),
        invariant
            index_view(maplut@) == board_index(map@, map.extent()),
            forall|t: Tile| connlut@.contains_key(t) <==> maplut@.contains_key(t),
            forall|t: Tile|
                #[trigger] connlut@.contains_key(t) ==> links_view(connlut@[t]@) == all_label_links(
                    map@,
                    map.extent(),
                    t,
                    path_of(maplut@[t]@),
                ),
        ensures
            links_view(all@) == all_links(map@, map.extent(), 256),
        decreases 255 - tile,
    {
        let ghost done = links_view(all@);
        match connlut.get(&tile) {
            Some(group) => {
                assert(connlut@.contains_key(tile));
                assert(index_view(maplut@)[tile] == path_of(maplut@[tile]@));
                let mut j: usize = 0;
                assert(links_view(all@) =~= done + links_view(group@).subrange(0, 0));
                while j < group.len()
                    invariant
                        j <= group@.len(),
                        links_view(all@) == done + links_view(group@).subrange(0, j as int),
                    decreases group@.len() - j,
                {
                    let ghost before = links_view(all@);
                    all.push(group[j]);
                    assert(links_view(all@) =~= before.push(link_view(group@[j as int])));
                    assert(before.push(link_view(group@[j as int])) =~= done + links_view(group@).subrange(0, j + 1));
                    j = j + 1;
                }
                assert(links_view(group@).subrange(0, group@.len() as int) =~= links_view(group@));
            },
            None => {},
        }
        assert(links_view(all@) == all_links(map@, map.extent(), (tile + 1) as nat));
        if tile == 255 {
            break;
        }
        tile = tile + 1;
    }
    let mut keys: Vec<Vec<usize>> = Vec::new();
    let mut i: usize = 0;
    while i < all.len()
        invariant
            i <= all@.len(),
            keys@.len() == i,
            forall|j: int| 0 <= j < i ==> nums((#[trigger] keys@[j])@) == link_keys(links_view(all@))[j],
        decreases all@.len() - i,
    {
        let pair = all[i].pair;
        let key: Vec<usize> = vec![pair[0][0], pair[0][1], pair[1][0], pair[1][1]];
        assert(nums(key@) =~= link_keys(links_view(all@))[i as int]);
        keys.push(key);
        i = i + 1;
    }
    assert(key_seqs(keys@) =~= link_keys(links_view(all@)));
    let order = sorted_order(&keys);
    let mut connections: Vec<ConnectionInfo> = Vec::new();
    let mut k: usize = 0;
    while k < order.len()
        invariant
            k <= order@.len(),
            order@.len() == all@.len(),
            forall|i: int| 0 <= i < order@.len() ==> #[trigger] order@[i] < all@.len(),
            connections@.len() == k,
            forall|j: int| 0 <= j < k ==> #[trigger] connections@[j] == all@[order@[j] as int],
        decreases order@.len() - k,
    {
        connections.push(all[order[k]]);
        k = k + 1;
    }
    assert(links_view(connections@) =~= arranged(links_view(all@), nums(order@)));
    connections
}

/// What assuming the candidate `k` takes off the board: the candidate itself, and the
/// connections that are forced once its tiles are gone.
pub open spec fn step_of(cells: Map<Point, Tile>, size: Point, k: int) -> Seq<Link> {
    let assumed = candidates(cells, size)[k];
    seq![assumed] + forced_links(cleared(cells, seq![assumed], 1), size)
}

/// The board that assuming the candidate `k` leaves.
pub open spec fn next_cells(cells: Map<Point, Tile>, size: Point, k: int) -> Map<Point, Tile> {
    cleared(cells, step_of(cells, size, k), step_of(cells, size, k).len())
}

/// The connections that clear a board on which no connection is forced, found by trying its
/// candidates in order from the candidate `k` on: a candidate is assumed, the forced
/// connections follow, and what is left is explored in the same way; where that fails, the
/// next candidate is tried. There is none where no candidate leads to an empty board.
#[verifier::opaque]
pub open spec fn explore(cells: Map<Point, Tile>, size: Point, k: nat) -> Option<Seq<Link>>
    decreases tile_count(cells, size), candidates(cells, size).len() - k,
{
    if k >= candidates(cells, size).len() {
        None
    } else {
        let step = step_of(cells, size, k as int);
        let next = next_cells(cells, size, k as int);
        if tile_count(next, size) == 0 {
            Some(step)
        } else if tile_count(next, size) < tile_count(cells, size) {
            match explore(next, size, 0) {
                Some(rest) => Some(step + rest),
                None => explore(cells, size, k + 1),
            }
        } else {
            explore(cells, size, k + 1)
        }
    }
}

/// The number of assumptions that exploring a board from the candidate `k` on makes at most.
#[verifier::opaque]
pub open spec fn cost(cells: Map<Point, Tile>, size: Point, k: nat) -> nat
    decreases tile_count(cells, size), candidates(cells, size).len() - k,
{
    if k >= candidates(cells, size).len() {
        0
    } else {
        let next = next_cells(cells, size, k as int);
        let below = if 0 < tile_count(next, size) < tile_count(cells, size) {
            cost(next, size, 0)
        } else {
            0
        };
        1 + below + cost(cells, size, k + 1)
    }
}

/// The connections that clear a board, in the order in which they are made: the forced
/// ones, then those that exploring the rest finds. There is none where the search fails.
pub open spec fn search(cells: Map<Point, Tile>, size: Point) -> Option<Seq<Link>> {
    let first = forced_links(cells, size);
    let rest = cleared(cells, first, first.len());
    if tile_count(rest, size) == 0 {
        Some(first)
    } else {
        match explore(rest, size, 0) {
            Some(tail) => Some(first + tail),
            None => None,
        }
    }
}

/// What exploring a board from the candidate `k` on finds, by the candidate `k` and the rest.
pub proof fn lemma_explore_unfold(cells: Map<Point, Tile>, size: Point, k: nat)
    ensures
        explore(cells, size, k) == (if k >= candidates(cells, size).len() {
            None
        } else {
            let step = step_of(cells, size, k as int);
            let next = next_cells(cells, size, k as int);
            if tile_count(next, size) == 0 {
                Some(step)
            } else if tile_count(next, size) < tile_count(cells, size) {
                match explore(next, size, 0) {
                    Some(rest) => Some(step + rest),
                    None => explore(cells, size, k + 1),
                }
            } else {
                explore(cells, size, k + 1)
            }
        }),
{
    reveal(explore);
}

/// The cost of exploring a board from the candidate `k` on, by the candidate `k` and the rest.
pub proof fn lemma_cost_unfold(cells: Map<Point, Tile>, size: Point, k: nat)
    ensures
        cost(cells, size, k) == (if k >= candidates(cells, size).len() {
            0
        } else {
            let next = next_cells(cells, size, k as int);
            let below = if 0 < tile_count(next, size) < tile_count(cells, size) {
                cost(next, size, 0)
            } else {
                0
            };
            1 + below + cost(cells, size, k + 1)
        }),
{
    reveal(cost);
}

/// A copy of a list of connections.
pub fn copy_connections(connections: &Vec<ConnectionInfo>) -> (copy: Vec<ConnectionInfo>)
    ensures
        copy@ == connections@,
{
    let mut copy: Vec<ConnectionInfo> = Vec::new();
    let mut i: usize = 0;
    while i < connections.len()
        invariant
            i <= connections@.len(),
            copy@ == connections@.subrange(0, i as int),
        decreases connections@.len() - i,
    {
        copy.push(connections[i]);
        assert(copy@ =~= connections@.subrange(0, i + 1));
        i = i + 1;
    }
    assert(copy@ =~= connections@);
    copy
}

/// How a search stands after a step.
#[derive(Debug, PartialEq, Eq, Clone, Copy)]
pub enum SichuanSolverStatus {
    NoAnswerFound,
    InProgress,
    AnswerFound,
}

/// Why the last assumption is taken back.
#[derive(Debug, PartialEq, Eq, Clone, Copy)]
pub enum SichuanSolverRollbackReason {
    AssumeIndexOutOfRange,
    LogicalInterpolationFailed,
    ValidationFailed,
}

/// The level `i`, which is not the first, stands on the level before it: its forced
/// connections are those that the assumed candidate of that level forces, and its board is
/// what they leave.
pub open spec fn frame_follows(
    size: Point,
    boards: Seq<Map<Point, Tile>>,
    assumed: Seq<Link>,
    confirmed: Seq<Seq<Link>>,
    i: int,
) -> bool {
    &&& i - 1 < assumed.len()
    &&& confirmed[i] == forced_links(cleared(boards[i - 1], seq![assumed[i - 1]], 1), size)
    &&& boards[i] == cleared(cleared(boards[i - 1], seq![assumed[i - 1]], 1), confirmed[i], confirmed[i].len())
}

/// The candidate that is assumed on the level `i` is the one at the place of its cursor, and
/// every candidate before it was found to lead nowhere.
pub open spec fn frame_tried(
    size: Point,
    boards: Seq<Map<Point, Tile>>,
    cursors: Seq<int>,
    assumed: Seq<Link>,
    offered: Seq<Seq<Link>>,
    i: int,
) -> bool {
    &&& 0 <= cursors[i] < offered[i].len()
    &&& assumed[i] == offered[i][cursors[i]]
    &&& explore(boards[i], size, 0) == explore(boards[i], size, cursors[i] as nat)
}

/// The candidates of the level `i` are those of its board.
pub open spec fn frame_offered(size: Point, boards: Seq<Map<Point, Tile>>, offered: Seq<Seq<Link>>, i: int) -> bool {
    offered[i] == candidates(boards[i], size)
}

/// The levels of a search stand on each other: the first board is what the forced connections
/// leave of the board at the start, every further board is what an assumed candidate and the
/// connections that it forces leave of the board before it, every list of candidates is that
/// of its board, and every candidate before an assumed one was found to lead nowhere.
pub open spec fn frames_ok(
    origin: Map<Point, Tile>,
    size: Point,
    boards: Seq<Map<Point, Tile>>,
    cursors: Seq<int>,
    assumed: Seq<Link>,
    offered: Seq<Seq<Link>>,
    confirmed: Seq<Seq<Link>>,
) -> bool {
    &&& size.0 >= 0 && size.1 >= 0
    &&& confirmed.len() == boards.len()
    &&& assumed.len() <= cursors.len() <= offered.len() <= boards.len()
    &&& boards.len() >= 1 ==> confirmed[0] == forced_links(origin, size) && boards[0] == cleared(
        origin,
        confirmed[0],
        confirmed[0].len(),
    )
    &&& forall|i: int| 1 <= i < boards.len() ==> #[trigger] frame_follows(size, boards, assumed, confirmed, i)
    &&& forall|i: int| 0 <= i < offered.len() ==> #[trigger] frame_offered(size, boards, offered, i)
    &&& forall|i: int| 0 <= i < assumed.len() ==> #[trigger] frame_tried(size, boards, cursors, assumed, offered, i)
}

/// The connections of a search in the order in which they were made, from the level `i` on:
/// for every level the forced connections, then, but for the last level, the assumed
/// candidate.
pub open spec fn gathered(confirmed: Seq<Seq<Link>>, assumed: Seq<Link>, i: nat) -> Seq<Link>
    decreases confirmed.len() - i,
{
    if i >= confirmed.len() {
        Seq::empty()
    } else if i + 1 < confirmed.len() && i < assumed.len() {
        confirmed[i as int] + seq![assumed[i as int]] + gathered(confirmed, assumed, i + 1)
    } else {
        confirmed[i as int] + gathered(confirmed, assumed, i + 1)
    }
}

/// What the levels from the level `i` on take off the board: for every level but the last
/// the assumed candidate and the connections that it forces.
pub open spec fn tail(confirmed: Seq<Seq<Link>>, assumed: Seq<Link>, i: nat) -> Seq<Link>
    decreases confirmed.len() - i,
{
    if i + 1 >= confirmed.len() || i >= assumed.len() {
        Seq::empty()
    } else {
        seq![assumed[i as int]] + confirmed[i as int + 1] + tail(confirmed, assumed, i + 1)
    }
}

/// The number of assumptions that are left to the first `n` levels once their present one has
/// failed.
pub open spec fn spent(boards: Seq<Map<Point, Tile>>, cursors: Seq<int>, size: Point, n: nat) -> nat
    decreases n,
{
    if n == 0 || n > boards.len() || n > cursors.len() {
        0
    } else {
        spent(boards, cursors, size, (n - 1) as nat) + cost(boards[n - 1], size, (cursors[n - 1] + 1) as nat)
    }
}

/// The number of assumptions that a search can still make.
pub open spec fn remaining_cost(boards: Seq<Map<Point, Tile>>, cursors: Seq<int>, size: Point) -> nat {
    spent(boards, cursors, size, cursors.len()) + (if cursors.len() < boards.len() {
        cost(boards[boards.len() - 1], size, 0)
    } else {
        0
    })
}

/// What is spent on the first `n` levels depends on these levels alone.
proof fn lemma_spent_prefix(
    boards: Seq<Map<Point, Tile>>,
    cursors: Seq<int>,
    others: Seq<Map<Point, Tile>>,
    other_cursors: Seq<int>,
    size: Point,
    n: nat,
)
    requires
        n <= boards.len(),
        n <= cursors.len(),
        n <= others.len(),
        n <= other_cursors.len(),
        forall|i: int| 0 <= i < n ==> boards[i] == others[i] && cursors[i] == other_cursors[i],
    ensures
        spent(boards, cursors, size, n) == spent(others, other_cursors, size, n),
    decreases n,
{
    if n > 0 {
        lemma_spent_prefix(boards, cursors, others, other_cursors, size, (n - 1) as nat);
    }
}

/// A board with a candidate holds a tile.
proof fn lemma_board_not_empty(cells: Map<Point, Tile>, size: Point)
    requires
        size.0 >= 0,
        size.1 >= 0,
        candidates(cells, size).len() > 0,
    ensures
        tile_count(cells, size) > 0,
{
    reveal(holds);
    lemma_candidates(cells, size);
    assert(holds(cells, size, candidates(cells, size)[0]));
    lemma_count_zero(cells, size);
}

/// The board that a level leaves is the board of the next level.
proof fn lemma_next_board(
    origin: Map<Point, Tile>,
    size: Point,
    boards: Seq<Map<Point, Tile>>,
    cursors: Seq<int>,
    assumed: Seq<Link>,
    offered: Seq<Seq<Link>>,
    confirmed: Seq<Seq<Link>>,
    i: int,
)
    requires
        frames_ok(origin, size, boards, cursors, assumed, offered, confirmed),
        0 <= i < assumed.len(),
        i + 1 < boards.len(),
    ensures
        step_of(boards[i], size, cursors[i]) == seq![assumed[i]] + confirmed[i + 1],
        next_cells(boards[i], size, cursors[i]) == boards[i + 1],
        tile_count(boards[i + 1], size) < tile_count(boards[i], size),
        0 <= cursors[i] < candidates(boards[i], size).len(),
        explore(boards[i], size, 0) == explore(boards[i], size, cursors[i] as nat),
{
    assert(frame_tried(size, boards, cursors, assumed, offered, i));
    assert(frame_offered(size, boards, offered, i));
    assert(frame_follows(size, boards, assumed, confirmed, i + 1));
    let one = seq![assumed[i]];
    lemma_cleared_concat(boards[i], one, confirmed[i + 1], confirmed[i + 1].len());
    lemma_step_replays(boards[i], size, cursors[i]);
}

/// Where the last level stands on an empty board, exploring the board of any level before it
/// finds what the levels from there on take off.
proof fn lemma_found_from(
    origin: Map<Point, Tile>,
    size: Point,
    boards: Seq<Map<Point, Tile>>,
    cursors: Seq<int>,
    assumed: Seq<Link>,
    offered: Seq<Seq<Link>>,
    confirmed: Seq<Seq<Link>>,
    i: nat,
)
    requires
        frames_ok(origin, size, boards, cursors, assumed, offered, confirmed),
        boards.len() >= 1,
        assumed.len() == boards.len() - 1,
        tile_count(boards[boards.len() - 1], size) == 0,
        i < assumed.len(),
    ensures
        explore(boards[i as int], size, 0) == Some(tail(confirmed, assumed, i)),
    decreases boards.len() - i,
{
    lemma_next_board(origin, size, boards, cursors, assumed, offered, confirmed, i as int);
    lemma_explore_unfold(boards[i as int], size, cursors[i as int] as nat);
    let step = seq![assumed[i as int]] + confirmed[i as int + 1];
    if i + 1 == assumed.len() {
        assert(tail(confirmed, assumed, i + 1) == Seq::<Link>::empty());
        assert(step + Seq::<Link>::empty() =~= step);
    } else {
        lemma_found_from(origin, size, boards, cursors, assumed, offered, confirmed, i + 1);
        assert(frame_tried(size, boards, cursors, assumed, offered, i as int + 1));
        assert(frame_offered(size, boards, offered, i as int + 1));
        lemma_board_not_empty(boards[i as int + 1], size);
    }
}

/// The connections of a search are the forced connections of a level and what the levels
/// from there on take off.
proof fn lemma_gathered(confirmed: Seq<Seq<Link>>, assumed: Seq<Link>, i: nat)
    requires
        confirmed.len() >= 1,
        assumed.len() == confirmed.len() - 1,
        i < confirmed.len(),
    ensures
        gathered(confirmed, assumed, i) == confirmed[i as int] + tail(confirmed, assumed, i),
    decreases confirmed.len() - i,
{
    if i + 1 < confirmed.len() {
        lemma_gathered(confirmed, assumed, i + 1);
        assert(confirmed[i as int] + seq![assumed[i as int]] + (confirmed[i as int + 1] + tail(confirmed, assumed, i + 1))
            =~= confirmed[i as int] + (seq![assumed[i as int]] + confirmed[i as int + 1] + tail(confirmed, assumed, i + 1)));
    } else {
        assert(gathered(confirmed, assumed, i + 1) == Seq::<Link>::empty());
        assert(confirmed[i as int] + Seq::<Link>::empty() =~= confirmed[i as int]);
    }
}

/// The solver: the board as it stands, and for every level of the search its board, its
/// forced connections, its candidates, the place of the candidate that is assumed, and that
/// candidate.
pub struct SichuanSolver {
    current: TileMap,
    index_log: Vec<usize>,
    map_log: Vec<TileMap>,
    assumed_connections: Vec<ConnectionInfo>,
    available_connections: Vec<Vec<ConnectionInfo>>,
    confirmed_connections: Vec<Vec<ConnectionInfo>>,
    origin: Ghost<Map<Point, Tile>>,
}

impl SichuanSolver {
    /// The board as it stands.
    pub closed spec fn now(&self) -> Map<Point, Tile> {
        self.current@
    }

    /// The extent of the board.
    pub closed spec fn extent(&self) -> Point {
        self.current.extent()
    }

    /// The board with which the solver began.
    pub closed spec fn origin(&self) -> Map<Point, Tile> {
        self.origin@
    }

    /// The boards of the levels.
    pub closed spec fn boards(&self) -> Seq<Map<Point, Tile>> {
        Seq::new(self.map_log@.len(), |i: int| self.map_log@[i]@)
    }

    /// Every board of a level has the extent of the board.
    pub closed spec fn extents_ok(&self) -> bool {
        forall|i: int| 0 <= i < self.map_log@.len() ==> (#[trigger] self.map_log@[i]).extent() == self.current.extent()
    }

    /// The places of the assumed candidates.
    pub closed spec fn cursors(&self) -> Seq<int> {
        nums(self.index_log@)
    }

    /// The assumed candidates.
    pub closed spec fn assumed(&self) -> Seq<Link> {
        links_view(self.assumed_connections@)
    }

    /// The candidates of the levels.
    pub closed spec fn offered(&self) -> Seq<Seq<Link>> {
        Seq::new(self.available_connections@.len(), |i: int| links_view(self.available_connections@[i]@))
    }

    /// The forced connections of the levels.
    pub closed spec fn confirmed(&self) -> Seq<Seq<Link>> {
        Seq::new(self.confirmed_connections@.len(), |i: int| links_view(self.confirmed_connections@[i]@))
    }

    /// The levels stand on each other.
    pub open spec fn consistent(&self) -> bool {
        self.extents_ok() && frames_ok(
            self.origin(),
            self.extent(),
            self.boards(),
            self.cursors(),
            self.assumed(),
            self.offered(),
            self.confirmed(),
        )
    }

    /// Nothing was done yet.
    pub open spec fn fresh(&self) -> bool {
        self.consistent() && self.boards().len() == 0 && self.now() == self.origin()
    }

    /// A candidate was assumed on the last level and its tiles were taken off.
    pub open spec fn assuming(&self) -> bool {
        &&& self.consistent()
        &&& self.boards().len() >= 1
        &&& self.assumed().len() == self.boards().len()
        &&& self.now() == cleared(self.boards().last(), seq![self.assumed().last()], 1)
    }

    /// The forced connections of a new level were made; its candidates are not listed yet.
    pub open spec fn interpolated(&self) -> bool {
        &&& self.consistent()
        &&& self.boards().len() >= 1
        &&& self.offered().len() == self.boards().len() - 1
        &&& self.assumed().len() == self.boards().len() - 1
        &&& self.now() == self.boards().last()
    }

    /// The last level has its candidates and no candidate of it is assumed: either none was
    /// tried yet, or the one that was tried last has failed.
    pub open spec fn ready(&self) -> bool {
        &&& self.consistent()
        &&& self.boards().len() >= 1
        &&& self.offered().len() == self.boards().len()
        &&& self.assumed().len() == self.boards().len() - 1
        &&& self.now() == self.boards().last()
        &&& self.cursors().len() == self.boards().len() ==> 0 <= self.cursors().last() < self.offered().last().len()
            && explore(self.now(), self.extent(), 0) == explore(
            self.now(),
            self.extent(),
            (self.cursors().last() + 1) as nat,
        )
    }

    /// The last level has no candidate left.
    pub open spec fn exhausted(&self) -> bool {
        &&& self.consistent()
        &&& self.boards().len() >= 1
        &&& self.offered().len() == self.boards().len()
        &&& self.cursors().len() == self.boards().len()
        &&& self.assumed().len() == self.boards().len() - 1
        &&& self.now() == self.boards().last()
        &&& self.cursors().last() >= self.offered().last().len()
        &&& explore(self.now(), self.extent(), 0) is None
    }

    /// The board as it stands.
    pub fn current(&self) -> (map: TileMap)
        ensures
            map@ == self.now(),
            map.extent() == self.extent(),
    {
        clone_map(&self.current)
    }

    /// The boards of the levels.
    pub fn map_log(&self) -> (maps: Vec<TileMap>)
        ensures
            maps@.len() == self.boards().len(),
            forall|i: int| 0 <= i < maps@.len() ==> (#[trigger] maps@[i])@ == self.boards()[i],
            self.consistent() ==> forall|i: int| 0 <= i < maps@.len() ==> (#[trigger] maps@[i]).extent() == self.extent(),
    {
        let mut maps: Vec<TileMap> = Vec::new();
        let mut i: usize = 0;
        while i < self.map_log.len()
            invariant
                i <= self.map_log@.len(),
                maps@.len() == i,
                forall|j: int| 0 <= j < i ==> (#[trigger] maps@[j])@ == self.map_log@[j]@,
                forall|j: int| 0 <= j < i ==> (#[trigger] maps@[j]).extent() == self.map_log@[j].extent(),
            decreases self.map_log@.len() - i,
        {
            maps.push(clone_map(&self.map_log[i]));
            i = i + 1;
        }
        maps
    }

    /// The places of the assumed candidates.
    pub fn index_log(&self) -> (places: Vec<usize>)
        ensures
            nums(places@) == self.cursors(),
    {
        let mut places: Vec<usize> = Vec::new();
        let mut i: usize = 0;
        while i < self.index_log.len()
            invariant
                i <= self.index_log@.len(),
                places@ == self.index_log@.subrange(0, i as int),
            decreases self.index_log@.len() - i,
        {
            places.push(self.index_log[i]);
            assert(places@ =~= self.index_log@.subrange(0, i + 1));
            i = i + 1;
        }
        assert(places@ =~= self.index_log@);
        places
    }

    /// The assumed candidates.
    pub fn assumed_connections(&self) -> (connections: Vec<ConnectionInfo>)
        ensures
            links_view(connections@) == self.assumed(),
    {
        copy_connections(&self.assumed_connections)
    }

    /// The candidates of the levels.
    pub fn available_connections(&self) -> (lists: Vec<Vec<ConnectionInfo>>)
        ensures
            lists@.len() == self.offered().len(),
            forall|i: int| 0 <= i < lists@.len() ==> links_view((#[trigger] lists@[i])@) == self.offered()[i],
    {
        let mut lists: Vec<Vec<ConnectionInfo>> = Vec::new();
        let mut i: usize = 0;
        while i < self.available_connections.len()
            invariant
                i <= self.available_connections@.len(),
                lists@.len() == i,
                forall|j: int| 0 <= j < i ==> (#[trigger] lists@[j])@ == self.available_connections@[j]@,
            decreases self.available_connections@.len() - i,
        {
            lists.push(copy_connections(&self.available_connections[i]));
            i = i + 1;
        }
        lists
    }

    /// The forced connections of the levels.
    pub fn confirmed_connections(&self) -> (lists: Vec<Vec<ConnectionInfo>>)
        ensures
            lists@.len() == self.confirmed().len(),
            forall|i: int| 0 <= i < lists@.len() ==> links_view((#[trigger] lists@[i])@) == self.confirmed()[i],
    {
        let mut lists: Vec<Vec<ConnectionInfo>> = Vec::new();
        let mut i: usize = 0;
        while i < self.confirmed_connections.len()
            invariant
                i <= self.confirmed_connections@.len(),
                lists@.len() == i,
                forall|j: int| 0 <= j < i ==> (#[trigger] lists@[j])@ == self.confirmed_connections@[j]@,
            decreases self.confirmed_connections@.len() - i,
        {
            lists.push(copy_connections(&self.confirmed_connections[i]));
            i = i + 1;
        }
        lists
    }

    /// A solver for the given board.
    pub fn new(map: &TileMap) -> (solver: Self)
        ensures
            solver.fresh(),
            solver.origin() == map@,
            solver.extent() == map.extent(),
    {
        let solver = Self {
            current: clone_map(map),
            map_log: Vec::new(),
            index_log: Vec::new(),
            assumed_connections: Vec::new(),
            available_connections: Vec::new(),
            confirmed_connections: Vec::new(),
            origin: Ghost(map@),
        };
        assert(solver.boards() =~= Seq::<Map<Point, Tile>>::empty());
        solver
    }

    /// Makes the forced connections of the board as it stands, once, and takes their tiles
    /// off.
    pub fn apply_connection_collector(&mut self) -> (conn: Vec<ConnectionInfo>)
        ensures
            links_view(conn@) == single_links(old(self).now(), old(self).extent(), 256),
            final(self).now() == cleared(old(self).now(), links_view(conn@), conn@.len()),
            final(self).extent() == old(self).extent(),
            final(self).origin() == old(self).origin(),
            final(self).boards() == old(self).boards(),
            final(self).extents_ok() == old(self).extents_ok(),
            final(self).cursors() == old(self).cursors(),
            final(self).assumed() == old(self).assumed(),
            final(self).offered() == old(self).offered(),
            final(self).confirmed() == old(self).confirmed(),
    {
        let conn = collect_connection_single_pair_tiles(&self.current);
        proof {
            lemma_pass_shrinks(self.current@, self.current.extent());
        }
        self.current = remove_connected_tiles(&self.current, &conn);
        conn
    }

    /// Makes the forced connections until none is left, and opens a level on the board that
    /// they leave. On that board no connection is forced: called once more at once, it leaves
    /// the board as it is and records a level without connections.
    pub fn logically_interpolate_connection(&mut self) -> (r: Option<SichuanSolverRollbackReason>)
        requires
            old(self).fresh() || old(self).assuming() || old(self).interpolated(),
        ensures
            r is None,
            old(self).fresh() || old(self).assuming() ==> final(self).interpolated(),
            old(self).interpolated() ==> final(self).now() == old(self).now() && final(self).confirmed().last()
                == Seq::<Link>::empty(),
            forced_links(final(self).now(), final(self).extent()) == Seq::<Link>::empty(),
            final(self).extent() == old(self).extent(),
            final(self).origin() == old(self).origin(),
            final(self).boards() == old(self).boards().push(final(self).now()),
            final(self).confirmed() == old(self).confirmed().push(forced_links(old(self).now(), old(self).extent())),
            final(self).cursors() == old(self).cursors(),
            final(self).assumed() == old(self).assumed(),
            final(self).offered() == old(self).offered(),
    {
        let ghost start = self.current@;
        let ghost size = self.current.extent();
        proof {
            if self.interpolated() {
                let bs = self.boards();
                let n = bs.len() as int;
                if n == 1 {
                    lemma_propagation_settles(self.origin(), size);
                } else {
                    assert(frame_follows(size, bs, self.assumed(), self.confirmed(), n - 1));
                    lemma_propagation_settles(cleared(bs[n - 2], seq![self.assumed()[n - 2]], 1), size);
                }
                assert(forced_links(start, size) == Seq::<Link>::empty());
            }
        }
        let mut connections: Vec<ConnectionInfo> = Vec::new();
        assert(links_view(connections@) + forced_links(self.now(), size) =~= forced_links(start, size));
        loop
            invariant
                start == old(self).now(),
                size == old(self).extent(),
                self.extent() == size,
                self.origin() == old(self).origin(),
                self.boards() == old(self).boards(),
                self.extents_ok() == old(self).extents_ok(),
                self.cursors() == old(self).cursors(),
                self.assumed() == old(self).assumed(),
                self.offered() == old(self).offered(),
                self.confirmed() == old(self).confirmed(),
                forced_links(start, size) == links_view(connections@) + forced_links(self.now(), size),
                self.now() == cleared(start, links_view(connections@), connections@.len()),
            ensures
                self.extent() == size,
                self.origin() == old(self).origin(),
                self.boards() == old(self).boards(),
                self.extents_ok() == old(self).extents_ok(),
                self.cursors() == old(self).cursors(),
                self.assumed() == old(self).assumed(),
                self.offered() == old(self).offered(),
                self.confirmed() == old(self).confirmed(),
                links_view(connections@) == forced_links(start, size),
                self.now() == cleared(start, links_view(connections@), connections@.len()),
                forced_links(self.now(), size) == Seq::<Link>::empty(),
            decreases tile_count(self.now(), size),
        {
            let ghost before = self.now();
            let mut conn = self.apply_connection_collector();
            proof {
                lemma_forced_unfold(before, size);
                lemma_pass_shrinks(before, size);
            }
            if conn.len() == 0 {
                assert(links_view(connections@) + Seq::<Link>::empty() =~= links_view(connections@));
                assert(self.now() == before);
                break;
            }
            let ghost done = links_view(connections@);
            let ghost found = links_view(conn@);
            connections.append(&mut conn);
            proof {
                assert(links_view(connections@) =~= done + found);
                assert(done + (found + forced_links(self.now(), size)) =~= (done + found) + forced_links(self.now(), size));
                lemma_cleared_concat(start, done, found, found.len());
            }
        }
        let ghost made = links_view(connections@);
        self.confirmed_connections.push(connections);
        self.map_log.push(clone_map(&self.current));
        proof {
            assert(self.boards() =~= old(self).boards().push(self.now()));
            assert(self.confirmed() =~= old(self).confirmed().push(made));
            assert(self.offered() =~= old(self).offered());
            let bs = self.boards();
            let cf = self.confirmed();
            let obs = old(self).boards();
            let ocf = old(self).confirmed();
            let taken = self.assumed();
            if old(self).interpolated() {
                assert(made == Seq::<Link>::empty());
                assert(cf.last() == made);
            }
            assert(old(self).fresh() || old(self).assuming() ==> forall|i: int|
                1 <= i < bs.len() ==> #[trigger] frame_follows(size, bs, taken, cf, i)) by {
                if old(self).fresh() || old(self).assuming() {
                    assert forall|i: int| 1 <= i < bs.len() implies #[trigger] frame_follows(size, bs, taken, cf, i) by {
                        if i < obs.len() {
                            assert(frame_follows(size, obs, taken, ocf, i));
                            assert(cf[i] == ocf[i] && bs[i] == obs[i] && bs[i - 1] == obs[i - 1]);
                        } else {
                            assert(bs[i - 1] == obs[i - 1]);
                            assert(obs[i - 1] == obs.last());
                        }
                    }
                }
            }
            assert forall|i: int| 0 <= i < self.offered().len() implies #[trigger] frame_offered(
                size,
                bs,
                self.offered(),
                i,
            ) by {
                assert(frame_offered(size, obs, self.offered(), i));
                assert(bs[i] == obs[i]);
            }
            assert forall|i: int| 0 <= i < taken.len() implies #[trigger] frame_tried(
                size,
                bs,
                self.cursors(),
                taken,
                self.offered(),
                i,
            ) by {
                assert(frame_tried(size, obs, self.cursors(), taken, self.offered(), i));
                assert(bs[i] == obs[i]);
            }
            assert(self.extents_ok());
        }
        None
    }

    /// Lists the candidates of the last level.
    pub fn set_available_connections(&mut self)
        requires
            old(self).interpolated(),
        ensures
            final(self).ready(),
            final(self).now() == old(self).now(),
            final(self).extent() == old(self).extent(),
            final(self).origin() == old(self).origin(),
            final(self).boards() == old(self).boards(),
            final(self).confirmed() == old(self).confirmed(),
            final(self).cursors() == old(self).cursors(),
            final(self).assumed() == old(self).assumed(),
            final(self).offered() == old(self).offered().push(candidates(old(self).now(), old(self).extent())),
    {
        let connections = collect_available_connections(&self.current);
        let ghost listed = links_view(connections@);
        self.available_connections.push(connections);
        proof {
            assert(self.offered() =~= old(self).offered().push(listed));
            let off = self.offered();
            let bs = self.boards();
            let size = self.extent();
            assert forall|i: int| 0 <= i < off.len() implies #[trigger] frame_offered(size, bs, off, i) by {
                if i < old(self).offered().len() {
                    assert(frame_offered(size, bs, old(self).offered(), i));
                    assert(off[i] == old(self).offered()[i]);
                }
            }
            assert forall|i: int| 0 <= i < self.assumed().len() implies #[trigger] frame_tried(
                size,
                bs,
                self.cursors(),
                self.assumed(),
                off,
                i,
            ) by {
                assert(frame_tried(size, bs, self.cursors(), self.assumed(), old(self).offered(), i));
                assert(off[i] == old(self).offered()[i]);
            }
        }
    }

    /// Whether the last level goes on from the candidate that it tried last.
    pub fn should_resume_index(&self) -> (r: bool)
        ensures
            r == (self.boards().len() == self.cursors().len()),
    {
        self.map_log.len() == self.index_log.len()
    }

    /// Assumes the next candidate of the last level and takes its tiles off; fails where the
    /// level has no candidate left.
    pub fn assume_connection(&mut self) -> (r: Option<SichuanSolverRollbackReason>)
        requires
            old(self).ready(),
        ensures
            r is None || r == Some(SichuanSolverRollbackReason::AssumeIndexOutOfRange),
            r is None ==> final(self).assuming(),
            r is Some ==> final(self).exhausted(),
            final(self).cursors().len() == old(self).boards().len(),
            final(self).cursors().last() == (if old(self).cursors().len() == old(self).boards().len() {
                old(self).cursors().last() + 1
            } else {
                0
            }),
            final(self).cursors().drop_last() == old(self).cursors().take(old(self).boards().len() - 1),
            final(self).extent() == old(self).extent(),
            final(self).origin() == old(self).origin(),
            final(self).boards() == old(self).boards(),
            final(self).confirmed() == old(self).confirmed(),
            final(self).offered() == old(self).offered(),
            r is None ==> final(self).assumed() == old(self).assumed().push(
                old(self).offered().last()[final(self).cursors().last()],
            ),
            r is Some ==> final(self).assumed() == old(self).assumed() && final(self).now() == old(self).now(),
    {
        let n = self.map_log.len();
        let ghost size = self.extent();
        let ghost board = self.now();
        assert(self.available_connections@.len() == n) by {
            assert(self.offered().len() == n);
        }
        assert(self.offered().last().len() == self.available_connections@[n - 1]@.len());
        assert(self.cursors().len() == self.index_log@.len());
        let resume = self.should_resume_index();
        assert(self.boards().len() == n);
        let cursor: usize = if resume {
            let last = self.index_log[n - 1];
            assert(last as int == self.cursors().last());
            assert(last < self.available_connections@[n - 1].len());
            self.index_log.pop();
            last + 1
        } else {
            0
        };
        self.index_log.push(cursor);
        proof {
            assert(self.cursors().drop_last() =~= old(self).cursors().take(n - 1));
            assert(explore(board, size, 0) == explore(board, size, cursor as nat));
            assert(self.offered() =~= old(self).offered());
            assert(frame_offered(size, self.boards(), self.offered(), n - 1));
            assert(self.offered()[n - 1] == candidates(board, size));
            let cs = self.cursors();
            let ocs = old(self).cursors();
            assert forall|i: int| 0 <= i < old(self).assumed().len() implies #[trigger] frame_tried(
                size,
                self.boards(),
                cs,
                old(self).assumed(),
                self.offered(),
                i,
            ) by {
                assert(frame_tried(size, self.boards(), ocs, old(self).assumed(), self.offered(), i));
                assert(cs.drop_last()[i] == ocs.take(n - 1)[i]);
            }
        }
        let available = &self.available_connections[n - 1];
        assert(links_view(available@) == self.offered()[n - 1]);
        if cursor < available.len() {
            let conn = available[cursor];
            self.assumed_connections.push(conn);
            proof {
                lemma_candidates(board, size);
                assert(link_view(conn) == candidates(board, size)[cursor as int]);
                assert(holds(board, size, link_view(conn)));
                reveal(holds);
            }
            let taken: Vec<ConnectionInfo> = vec![conn];
            assert(links_view(taken@) =~= seq![link_view(conn)]);
            self.current = remove_connected_tiles(&self.current, &taken);
            proof {
                assert(self.boards() =~= old(self).boards());
                assert(self.offered() =~= old(self).offered());
                assert(self.confirmed() =~= old(self).confirmed());
            }
            proof {
                assert(self.assumed() =~= old(self).assumed().push(link_view(conn)));
                lemma_candidates(board, size);
                assert(link_view(conn) == candidates(board, size)[cursor as int]);
                assert(holds(board, size, link_view(conn)));
                reveal(holds);
                let now_assumed = self.assumed();
                assert forall|i: int| 0 <= i < now_assumed.len() implies #[trigger] frame_tried(
                    size,
                    self.boards(),
                    self.cursors(),
                    now_assumed,
                    self.offered(),
                    i,
                ) by {
                    if i < n - 1 {
                        assert(frame_tried(size, self.boards(), self.cursors(), old(self).assumed(), self.offered(), i));
                        assert(now_assumed[i] == old(self).assumed()[i]);
                    }
                }
                assert forall|i: int| 1 <= i < self.boards().len() implies #[trigger] frame_follows(
                    size,
                    self.boards(),
                    now_assumed,
                    self.confirmed(),
                    i,
                ) by {
                    assert(frame_follows(size, self.boards(), old(self).assumed(), self.confirmed(), i));
                    assert(now_assumed[i - 1] == old(self).assumed()[i - 1]);
                }
            }
            proof {
                assert(self.extents_ok());
                assert(self.assumed().last() == link_view(conn));
                assert(self.boards().last() == board);
                assert(self.now() == cleared(board, seq![link_view(conn)], 1));
            }
            None
        } else {
            proof {
                lemma_explore_unfold(board, size, cursor as nat);
            }
            Some(SichuanSolverRollbackReason::AssumeIndexOutOfRange)
        }
    }

    /// Whether no tile is left on the board as it stands.
    pub fn is_completed(&self) -> (r: bool)
        ensures
            r == (tile_count(self.now(), self.extent()) == 0),
    {
        let shape = shape_of(&self.current);
        proof {
            lemma_count_zero(self.now(), self.extent());
        }
        let mut x: usize = 0;
        while x < shape[0]
            invariant
                x <= shape[0],
                (shape[0] as int, shape[1] as int) == self.extent(),
                forall|p: Point| 0 <= p.0 < x && 0 <= p.1 < shape[1] ==> !self.now().contains_key(p),
            decreases shape[0] - x,
        {
            let mut y: usize = 0;
            while y < shape[1]
                invariant
                    x < shape[0],
                    y <= shape[1],
                    (shape[0] as int, shape[1] as int) == self.extent(),
                    forall|p: Point| 0 <= p.0 < x && 0 <= p.1 < shape[1] ==> !self.now().contains_key(p),
                    forall|p: Point| p.0 == x && 0 <= p.1 < y ==> !self.now().contains_key(p),
                decreases shape[1] - y,
            {
                if tile_at(&self.current, &[x, y]).is_some() {
                    proof {
                        assert(inside(self.extent(), (x as int, y as int)));
                        lemma_count_zero(self.now(), self.extent());
                    }
                    return false;
                }
                y = y + 1;
            }
            x = x + 1;
        }
        proof {
            lemma_count_zero(self.now(), self.extent());
        }
        true
    }

    /// Whether the last level can go on: fails where it has no candidate.
    pub fn validate_current_map(&self) -> (r: Option<SichuanSolverRollbackReason>)
        requires
            self.offered().len() >= 1,
        ensures
            r == (if self.offered().last().len() == 0 {
                Some(SichuanSolverRollbackReason::ValidationFailed)
            } else {
                None::<SichuanSolverRollbackReason>
            }),
    {
        let n = self.available_connections.len();
        assert(self.offered().last().len() == self.available_connections@[n - 1]@.len());
        if self.available_connections[n - 1].len() == 0 {
            return Some(SichuanSolverRollbackReason::ValidationFailed);
        }
        None
    }

    /// The search went on: the cost that is left is smaller, or it is no greater and a level
    /// was dropped.
    pub open spec fn advanced(&self, before: &Self) -> bool {
        let now_cost = remaining_cost(self.boards(), self.cursors(), self.extent());
        let old_cost = remaining_cost(before.boards(), before.cursors(), before.extent());
        now_cost < old_cost || (now_cost <= old_cost && self.boards().len() < before.boards().len())
    }

    /// Takes the last assumption back. Where the last level has no candidate left, or has no
    /// candidate at all, the level is dropped and the level before it goes on from its next
    /// candidate; where it is the first level, no answer is found.
    pub fn rollback(&mut self, reason: SichuanSolverRollbackReason) -> (r: Option<SichuanSolverStatus>)
        requires
            match reason {
                SichuanSolverRollbackReason::AssumeIndexOutOfRange => old(self).exhausted() && (old(self).boards().len() >= 2
                    ==> tile_count(old(self).now(), old(self).extent()) > 0),
                SichuanSolverRollbackReason::ValidationFailed => old(self).ready() && old(self).cursors().len() == old(self).boards().len() - 1 && old(self).offered().last().len() == 0 && tile_count(old(self).now(), old(self).extent())
                    > 0,
                SichuanSolverRollbackReason::LogicalInterpolationFailed => old(self).consistent() && old(self).boards().len()
                    >= 1,
            },
        ensures
            final(self).extent() == old(self).extent(),
            final(self).origin() == old(self).origin(),
            reason is LogicalInterpolationFailed ==> r is None && final(self).now() == old(self).boards().last() && final(self).consistent() && final(self).boards() == old(self).boards() && final(self).cursors() == old(self).cursors()
                && final(self).assumed() == old(self).assumed() && final(self).offered() == old(self).offered() && final(self).confirmed() == old(self).confirmed(),
            !(reason is LogicalInterpolationFailed) ==> (r is None <==> old(self).boards().len() >= 2),
            r is Some ==> r == Some(SichuanSolverStatus::NoAnswerFound) && old(self).boards().len() == 1 && explore(
                old(self).boards()[0],
                old(self).extent(),
                0,
            ) is None,
            r is None && !(reason is LogicalInterpolationFailed) ==> final(self).ready() && final(self).boards() == old(self).boards().drop_last() && final(self).cursors() == old(self).cursors().take(old(self).boards().len() - 1)
                && tile_count(final(self).now(), final(self).extent()) > 0,
            r is Some ==> final(self).boards() == old(self).boards(),
    {
        let n = self.map_log.len();
        let ghost size = self.extent();
        let ghost bs = self.boards();
        let ghost cs = self.cursors();
        let ghost taken = self.assumed();
        let ghost off = self.offered();
        let ghost cf = self.confirmed();
        assert(bs.len() == n);
        assert(self.available_connections@.len() == off.len());
        assert(self.confirmed_connections@.len() == cf.len());
        assert(self.index_log@.len() == cs.len());
        assert(self.assumed_connections@.len() == taken.len());
        match reason {
            SichuanSolverRollbackReason::LogicalInterpolationFailed => {
                self.current = clone_map(&self.map_log[n - 1]);
                proof {
                    assert(self.boards() =~= bs);
                    assert(self.offered() =~= off);
                    assert(self.confirmed() =~= cf);
                    assert(self.extents_ok());
                }
                None
            },
            SichuanSolverRollbackReason::AssumeIndexOutOfRange => {
                proof {
                    assert(frame_offered(size, bs, off, n - 1));
                }
                if n <= 1 {
                    return Some(SichuanSolverStatus::NoAnswerFound);
                }
                proof {
                    lemma_next_board(self.origin(), size, bs, cs, taken, off, cf, n - 2);
                    lemma_explore_unfold(bs[n - 2], size, cs[n - 2] as nat);
                    assert(frame_offered(size, bs, off, n - 2));
                    assert(frame_tried(size, bs, cs, taken, off, n - 2));
                    assert(explore(bs[n - 2], size, 0) == explore(bs[n - 2], size, (cs[n - 2] + 1) as nat));
                    lemma_board_not_empty(bs[n - 2], size);
                }
                self.map_log.pop();
                self.current = clone_map(&self.map_log[n - 2]);
                self.index_log.pop();
                self.assumed_connections.pop();
                self.available_connections.pop();
                self.confirmed_connections.pop();
                proof {
                    assert(self.boards() =~= bs.drop_last());
                    assert(self.offered() =~= off.drop_last());
                    assert(self.confirmed() =~= cf.drop_last());
                    assert(self.cursors() =~= cs.take(n - 1));
                    assert(self.assumed() =~= taken.drop_last());
                    assert(self.extents_ok());
                    lemma_frames_drop(self.origin(), size, bs, cs, taken, off, cf, self.cursors(), self.assumed());
                    assert(self.now() == bs[n - 2]);
                    assert(self.boards().last() == bs[n - 2]);
                    assert(self.cursors().last() == cs[n - 2]);
                    assert(self.offered().last() == off[n - 2]);
                }
                None
            },
            SichuanSolverRollbackReason::ValidationFailed => {
                proof {
                    assert(frame_offered(size, bs, off, n - 1));
                    lemma_explore_unfold(bs[n - 1], size, 0);
                }
                if n <= 1 {
                    return Some(SichuanSolverStatus::NoAnswerFound);
                }
                proof {
                    lemma_next_board(self.origin(), size, bs, cs, taken, off, cf, n - 2);
                    lemma_explore_unfold(bs[n - 2], size, cs[n - 2] as nat);
                    assert(frame_offered(size, bs, off, n - 2));
                    assert(frame_tried(size, bs, cs, taken, off, n - 2));
                    assert(explore(bs[n - 2], size, 0) == explore(bs[n - 2], size, (cs[n - 2] + 1) as nat));
                    lemma_board_not_empty(bs[n - 2], size);
                }
                self.map_log.pop();
                self.current = clone_map(&self.map_log[n - 2]);
                self.assumed_connections.pop();
                self.available_connections.pop();
                self.confirmed_connections.pop();
                proof {
                    assert(self.boards() =~= bs.drop_last());
                    assert(self.offered() =~= off.drop_last());
                    assert(self.confirmed() =~= cf.drop_last());
                    assert(self.cursors() =~= cs.take(n - 1));
                    assert(self.assumed() =~= taken.drop_last());
                    assert(self.extents_ok());
                    lemma_frames_drop(self.origin(), size, bs, cs, taken, off, cf, self.cursors(), self.assumed());
                    assert(self.now() == bs[n - 2]);
                    assert(self.boards().last() == bs[n - 2]);
                    assert(self.cursors().last() == cs[n - 2]);
                    assert(self.offered().last() == off[n - 2]);
                }
                None
            },
        }
    }

    /// One step of the search: the next candidate of the last level is assumed, the forced
    /// connections follow, and a level is opened on what is left. The search ends where that
    /// is nothing. Where the level has no candidate left, or the new level has none at all,
    /// the assumption is taken back.
    pub fn next(&mut self) -> (r: SichuanSolverStatus)
        requires
            old(self).ready(),
            old(self).boards().len() >= 2 ==> tile_count(old(self).now(), old(self).extent()) > 0,
        ensures
            final(self).extent() == old(self).extent(),
            final(self).origin() == old(self).origin(),
            final(self).boards().len() >= 1 && old(self).boards().len() >= 1 ==> final(self).boards()[0] == old(self).boards()[0],
            r is InProgress ==> final(self).ready() && (final(self).boards().len() >= 2 ==> tile_count(
                final(self).now(),
                final(self).extent(),
            ) > 0) && final(self).advanced(old(self)),
            r is AnswerFound ==> final(self).interpolated() && tile_count(final(self).now(), final(self).extent()) == 0,
            r is NoAnswerFound ==> old(self).boards().len() == 1 && explore(old(self).boards()[0], old(self).extent(), 0) is None,
    {
        let ghost size = self.extent();
        let ghost bs = self.boards();
        let ghost cs = self.cursors();
        let ghost n = bs.len() as int;
        match self.assume_connection() {
            Some(err) => {
                let ghost mid_cs = self.cursors();
                return match self.rollback(err) {
                    None => {
                        proof {
                            assert(self.boards()[0] == bs[0]);
                            assert forall|i: int| 0 <= i < n - 1 implies self.boards()[i] == bs[i] && self.cursors()[i] == cs[i] by {
                                assert(mid_cs.drop_last()[i] == cs.take(n - 1)[i]);
                            }
                            lemma_spent_prefix(self.boards(), self.cursors(), bs, cs, size, (n - 1) as nat);
                            assert(self.cursors().len() == n - 1 && self.boards().len() == n - 1);
                            assert(remaining_cost(self.boards(), self.cursors(), size) == spent(bs, cs, size, (n - 1) as nat));
                            if cs.len() == n {
                                assert(spent(bs, cs, size, n as nat) == spent(bs, cs, size, (n - 1) as nat) + cost(
                                    bs[n - 1],
                                    size,
                                    (cs[n - 1] + 1) as nat,
                                ));
                            }
                        }
                        SichuanSolverStatus::InProgress
                    },
                    Some(status) => status,
                };
            },
            None => {},
        }
        let ghost k = self.cursors().last();
        let ghost tried_cs = self.cursors();
        proof {
            assert(frame_tried(size, self.boards(), tried_cs, self.assumed(), self.offered(), n - 1));
            assert(frame_offered(size, self.boards(), self.offered(), n - 1));
            lemma_cost_unfold(bs[n - 1], size, k as nat);
            assert forall|i: int| 0 <= i < n - 1 implies tried_cs[i] == cs[i] by {
                assert(tried_cs.drop_last()[i] == cs.take(n - 1)[i]);
            }
            lemma_spent_prefix(bs, tried_cs, bs, cs, size, (n - 1) as nat);
        }
        match self.logically_interpolate_connection() {
            Some(err) => {
                return match self.rollback(err) {
                    None => SichuanSolverStatus::InProgress,
                    Some(status) => status,
                };
            },
            None => {},
        }
        proof {
            lemma_next_board(
                self.origin(),
                size,
                self.boards(),
                self.cursors(),
                self.assumed(),
                self.offered(),
                self.confirmed(),
                n - 1,
            );
        }
        if self.is_completed() {
            return SichuanSolverStatus::AnswerFound;
        }
        self.set_available_connections();
        let ghost pushed = self.boards();
        match self.validate_current_map() {
            Some(err) => {
                return match self.rollback(err) {
                    None => {
                        proof {
                            lemma_spent_prefix(self.boards(), self.cursors(), bs, tried_cs, size, n as nat);
                            assert(self.boards() =~= bs);
                        }
                        SichuanSolverStatus::InProgress
                    },
                    Some(status) => status,
                };
            },
            None => {},
        }
        proof {
            lemma_spent_prefix(self.boards(), self.cursors(), bs, tried_cs, size, n as nat);
        }
        SichuanSolverStatus::InProgress
    }

    /// The connections that the solver holds, in the order in which they were made.
    pub fn get_connections(&self) -> (connections: Vec<ConnectionInfo>)
        requires
            self.interpolated(),
        ensures
            links_view(connections@) == gathered(self.confirmed(), self.assumed(), 0),
    {
        let n = self.confirmed_connections.len();
        let ghost cf = self.confirmed();
        let ghost taken = self.assumed();
        assert(cf.len() == n && taken.len() == self.assumed_connections@.len());
        let mut connections: Vec<ConnectionInfo> = Vec::new();
        let mut i: usize = 0;
        assert(links_view(connections@) + gathered(cf, taken, 0) =~= gathered(cf, taken, 0));
        while i < n
            invariant
                i <= n,
                n == self.confirmed_connections@.len(),
                cf == self.confirmed(),
                taken == self.assumed(),
                cf.len() == n,
                taken.len() == self.assumed_connections@.len(),
                links_view(connections@) + gathered(cf, taken, i as nat) == gathered(cf, taken, 0),
            decreases n - i,
        {
            let ghost done = links_view(connections@);
            let group = &self.confirmed_connections[i];
            assert(links_view(group@) == cf[i as int]);
            let mut j: usize = 0;
            assert(links_view(connections@) =~= done + links_view(group@).subrange(0, 0));
            while j < group.len()
                invariant
                    j <= group@.len(),
                    links_view(connections@) == done + links_view(group@).subrange(0, j as int),
                decreases group@.len() - j,
            {
                let ghost before = links_view(connections@);
                connections.push(group[j]);
                assert(links_view(connections@) =~= before.push(link_view(group@[j as int])));
                assert(before.push(link_view(group@[j as int])) =~= done + links_view(group@).subrange(0, j + 1));
                j = j + 1;
            }
            assert(links_view(group@).subrange(0, group@.len() as int) =~= links_view(group@));
            if i + 1 < n && i < self.assumed_connections.len() {
                let ghost before = links_view(connections@);
                connections.push(self.assumed_connections[i]);
                assert(links_view(connections@) =~= before.push(taken[i as int]));
                assert(before.push(taken[i as int]) + gathered(cf, taken, (i + 1) as nat) =~= done + (cf[i as int]
                    + seq![taken[i as int]] + gathered(cf, taken, (i + 1) as nat)));
            } else {
                assert((done + cf[i as int]) + gathered(cf, taken, (i + 1) as nat) =~= done + (cf[i as int] + gathered(
                    cf,
                    taken,
                    (i + 1) as nat,
                )));
            }
            i = i + 1;
        }
        assert(links_view(connections@) + Seq::<Link>::empty() =~= links_view(connections@));
        connections
    }

    /// Searches for connections that clear the board, and returns them in the order in which
    /// they are made. The forced connections are made first. Then the candidates are assumed
    /// in order, each followed by the connections that it forces; an assumption that leaves
    /// tiles but no candidate is taken back. Fails with `NoAnswerFound` where every candidate
    /// of the first level has been taken back.
    pub fn solve(&mut self) -> (r: Result<Vec<ConnectionInfo>, SichuanSolverStatus>)
        requires
            old(self).fresh(),
        ensures
            final(self).extent() == old(self).extent(),
            final(self).origin() == old(self).origin(),
            r matches Ok(connections) ==> search(old(self).origin(), old(self).extent()) == Some(links_view(connections@))
                && replays(old(self).origin(), old(self).extent(), links_view(connections@)) && tile_count(
                cleared(old(self).origin(), links_view(connections@), connections@.len()),
                old(self).extent(),
            ) == 0 && tile_count(final(self).now(), final(self).extent()) == 0,
            r matches Err(status) ==> status == SichuanSolverStatus::NoAnswerFound && search(
                old(self).origin(),
                old(self).extent(),
            ) is None,
    {
        let ghost origin = self.origin();
        let ghost size = self.extent();
        proof {
            crate::dense::laws::lemma_search_clears(origin, size);
        }
        self.logically_interpolate_connection();
        if self.is_completed() {
            let connections = self.get_connections();
            proof {
                lemma_gathered(self.confirmed(), self.assumed(), 0);
                assert(tail(self.confirmed(), self.assumed(), 0) == Seq::<Link>::empty());
                assert(self.confirmed()[0] + Seq::<Link>::empty() =~= self.confirmed()[0]);
            }
            return Ok(connections);
        }
        self.set_available_connections();
        let ghost root = self.boards()[0];
        loop
            invariant
                self.ready(),
                self.boards().len() >= 2 ==> tile_count(self.now(), self.extent()) > 0,
                self.extent() == size,
                self.origin() == origin,
                size == old(self).extent(),
                origin == old(self).origin(),
                self.boards()[0] == root,
                root == cleared(origin, forced_links(origin, size), forced_links(origin, size).len()),
                tile_count(root, size) > 0,
                search(origin, size) matches Some(made) ==> replays(origin, size, made) && tile_count(
                    cleared(origin, made, made.len()),
                    size,
                ) == 0,
            decreases remaining_cost(self.boards(), self.cursors(), self.extent()), self.boards().len(),
        {
            match self.next() {
                SichuanSolverStatus::AnswerFound => {
                    let connections = self.get_connections();
                    proof {
                        lemma_gathered(self.confirmed(), self.assumed(), 0);
                        lemma_found_from(
                            origin,
                            size,
                            self.boards(),
                            self.cursors(),
                            self.assumed(),
                            self.offered(),
                            self.confirmed(),
                            0,
                        );
                    }
                    return Ok(connections);
                },
                SichuanSolverStatus::NoAnswerFound => {
                    return Err(SichuanSolverStatus::NoAnswerFound);
                },
                SichuanSolverStatus::InProgress => {},
            }
        }
    }
}

/// Dropping the last level leaves levels that stand on each other.
proof fn lemma_frames_drop(
    origin: Map<Point, Tile>,
    size: Point,
    boards: Seq<Map<Point, Tile>>,
    cursors: Seq<int>,
    assumed: Seq<Link>,
    offered: Seq<Seq<Link>>,
    confirmed: Seq<Seq<Link>>,
    kept_cursors: Seq<int>,
    kept_assumed: Seq<Link>,
)
    requires
        frames_ok(origin, size, boards, cursors, assumed, offered, confirmed),
        boards.len() >= 2,
        offered.len() == boards.len(),
        assumed.len() == boards.len() - 1,
        kept_cursors == cursors.take(boards.len() - 1),
        kept_assumed == assumed.drop_last(),
    ensures
        frames_ok(
            origin,
            size,
            boards.drop_last(),
            kept_cursors,
            kept_assumed,
            offered.drop_last(),
            confirmed.drop_last(),
        ),
{
    let bs = boards.drop_last();
    let off = offered.drop_last();
    let cf = confirmed.drop_last();
    assert forall|i: int| 1 <= i < bs.len() implies #[trigger] frame_follows(size, bs, kept_assumed, cf, i) by {
        assert(frame_follows(size, boards, assumed, confirmed, i));
    }
    assert forall|i: int| 0 <= i < off.len() implies #[trigger] frame_offered(size, bs, off, i) by {
        assert(frame_offered(size, boards, offered, i));
    }
    assert forall|i: int| 0 <= i < kept_assumed.len() implies #[trigger] frame_tried(
        size,
        bs,
        kept_cursors,
        kept_assumed,
        off,
        i,
    ) by {
        assert(frame_tried(size, boards, cursors, assumed, offered, i));
    }
}

} // verus!
