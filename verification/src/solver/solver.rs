//! The search: forced pairs are taken off the board, a pair is assumed where none is forced,
//! and an assumption that leads nowhere is taken back.
use vstd::prelude::*;
use crate::components::{
    cells_of, distinct_cells, ext, lists, path_of, pt, seg, without_tile, Coord, Nodes, Point, Tile,
    TileMap,
};
use crate::solver::laws::{
    lemma_after, lemma_after_concat, lemma_candidates, lemma_forced_shape, lemma_search_clears,
    lemma_trivial_connections, lemma_without_ends, links, replays,
};
use crate::solver::utils::{fits, get_size_from_map, is_extent_of, pad_tilemap, padded};
use crate::order::{arranged, key_seqs, nums, order_of, sorted_order};
use crate::solver::connect::{node_connection, try_get_node_connection};
use crate::solver::lut::{
    create_coord_pair, index_view, pairs_of, pairs_view, tile_index, tile_map_to_coord_collection,
    CoordCollection,
};
use crate::solver::utils::get_node_edges;

verus! {

broadcast use vstd::std_specs::hash::group_hash_axioms;

/// What a list of paths holds, as points.
pub open spec fn paths_view(nodes: Seq<Nodes>) -> Seq<Seq<Point>> {
    Seq::new(nodes.len(), |i: int| path_of(nodes[i]@))
}

/// The list without the tiles on the two ends of the path.
pub open spec fn without_ends(entries: Seq<(Point, Tile)>, path: Seq<Point>) -> Seq<(Point, Tile)> {
    if path.len() == 0 {
        entries
    } else {
        without_tile(without_tile(entries, path[0]), path[path.len() - 1])
    }
}

/// The list after the tiles on the ends of the first `n` paths were taken off, one path after
/// the other.
pub open spec fn after(entries: Seq<(Point, Tile)>, paths: Seq<Seq<Point>>, n: nat) -> Seq<(Point, Tile)>
    decreases n,
{
    if n == 0 || n > paths.len() {
        entries
    } else {
        without_ends(after(entries, paths, (n - 1) as nat), paths[n - 1])
    }
}

/// Whether `a` comes before `b` when cells are read row by row.
pub open spec fn point_less(a: Point, b: Point) -> bool {
    a.0 < b.0 || (a.0 == b.0 && a.1 < b.1)
}

/// The two cells, the one that is read first in front.
pub open spec fn ordered(pair: (Point, Point)) -> (Point, Point) {
    if point_less(pair.1, pair.0) {
        (pair.1, pair.0)
    } else {
        pair
    }
}

/// For every label below `n` that exactly two cells carry, in the order of the labels, the two
/// cells.
pub open spec fn single_pairs(index: Map<Tile, Seq<Point>>, n: nat) -> Seq<(Point, Point)>
    decreases n,
{
    if n == 0 || n > 256 {
        Seq::empty()
    } else {
        let rest = single_pairs(index, (n - 1) as nat);
        let t = (n - 1) as Tile;
        if index.contains_key(t) && index[t].len() == 2 {
            rest.push(ordered((index[t][0], index[t][1])))
        } else {
            rest
        }
    }
}

/// The paths that join the first `n` pairs, in order; a pair that no path joins gives none.
pub open spec fn connections(
    cells: Map<Point, Tile>,
    size: Point,
    pairs: Seq<(Point, Point)>,
    n: nat,
) -> Seq<Seq<Point>>
    decreases n,
{
    if n == 0 || n > pairs.len() {
        Seq::empty()
    } else {
        let rest = connections(cells, size, pairs, (n - 1) as nat);
        match node_connection(cells, size, pairs[n - 1].0, pairs[n - 1].1) {
            Some(path) => rest.push(path),
            None => rest,
        }
    }
}

/// The rows and columns of the first `n` points of a path, one after the other.
pub open spec fn flat(path: Seq<Point>, n: nat) -> Seq<int>
    decreases n,
{
    if n == 0 || n > path.len() {
        Seq::empty()
    } else {
        flat(path, (n - 1) as nat).push(path[n - 1].0).push(path[n - 1].1)
    }
}

/// The keys by which paths are ordered: point by point, row before column.
pub open spec fn path_keys(paths: Seq<Seq<Point>>) -> Seq<Seq<int>> {
    Seq::new(paths.len(), |i: int| flat(paths[i], paths[i].len()))
}

/// The paths in the order of their points.
pub open spec fn sorted_paths(paths: Seq<Seq<Point>>) -> Seq<Seq<Point>> {
    arranged(paths, order_of(path_keys(paths)))
}

/// The keys by which pairs are ordered: the first cell before the second, row before column.
pub open spec fn pair_keys(pairs: Seq<(Point, Point)>) -> Seq<Seq<int>> {
    Seq::new(pairs.len(), |i: int| seq![pairs[i].0.0, pairs[i].0.1, pairs[i].1.0, pairs[i].1.1])
}

/// The pairs in the order of their cells.
pub open spec fn sorted_pairs(pairs: Seq<(Point, Point)>) -> Seq<(Point, Point)> {
    arranged(pairs, order_of(pair_keys(pairs)))
}

/// The forced connections of a board: for every label that exactly two tiles carry, the path
/// that joins the two, where there is one; the paths in the order of their points.
#[verifier::opaque]
pub open spec fn trivial_connections(entries: Seq<(Point, Tile)>, size: Point) -> Seq<Seq<Point>> {
    let pairs = single_pairs(tile_index(entries, entries.len()), 256);
    sorted_paths(connections(cells_of(entries), size, pairs, pairs.len()))
}

/// All pairs of the cells of one label, each with the cell that is read first in front, in
/// the order of their cells.
pub open spec fn label_pairs(cells: Seq<Point>) -> Seq<(Point, Point)> {
    let pairs = pairs_of(cells);
    sorted_pairs(Seq::new(pairs.len(), |i: int| ordered(pairs[i])))
}

/// The paths that join pairs of tiles of the label `t`.
pub open spec fn label_connections(entries: Seq<(Point, Tile)>, size: Point, t: Tile) -> Seq<Seq<Point>> {
    let pairs = label_pairs(tile_index(entries, entries.len())[t]);
    connections(cells_of(entries), size, pairs, pairs.len())
}

/// The connections of the labels below `n`, label after label.
pub open spec fn all_connections(entries: Seq<(Point, Tile)>, size: Point, n: nat) -> Seq<Seq<Point>>
    decreases n,
{
    if n == 0 || n > 256 {
        Seq::empty()
    } else if tile_index(entries, entries.len()).contains_key((n - 1) as Tile) {
        all_connections(entries, size, (n - 1) as nat) + label_connections(entries, size, (n - 1) as Tile)
    } else {
        all_connections(entries, size, (n - 1) as nat)
    }
}

/// The key of a path by its two ends: the first end before the last, row before column.
pub open spec fn end_key(path: Seq<Point>) -> Seq<int> {
    if path.len() == 0 {
        Seq::empty()
    } else {
        seq![path[0].0, path[0].1, path[path.len() - 1].0, path[path.len() - 1].1]
    }
}

/// The keys by which candidates are ordered.
pub open spec fn end_keys(paths: Seq<Seq<Point>>) -> Seq<Seq<int>> {
    Seq::new(paths.len(), |i: int| end_key(paths[i]))
}

/// The candidates of a board: the connections of all labels in one list, in the order of the
/// cells that they join: by the row and the column of the first end, then of the second.
#[verifier::opaque]
pub open spec fn candidates(entries: Seq<(Point, Tile)>, size: Point) -> Seq<Seq<Point>> {
    let all = all_connections(entries, size, 256);
    arranged(all, order_of(end_keys(all)))
}

/// The connections that are forced on a board, one pass after the other: the forced
/// connections of the board itself, then those of what is left when their tiles are taken
/// off, until a pass finds none.
#[verifier::opaque]
pub open spec fn forced_connections(entries: Seq<(Point, Tile)>, size: Point) -> Seq<Seq<Point>>
    decreases entries.len(),
{
    let pass = trivial_connections(entries, size);
    let rest = after(entries, pass, pass.len());
    if pass.len() == 0 || rest.len() >= entries.len() {
        Seq::empty()
    } else {
        pass + forced_connections(rest, size)
    }
}

/// What assuming the candidate `k` takes off the board: the candidate itself, and the
/// connections that are forced once its tiles are gone.
pub open spec fn step_of(entries: Seq<(Point, Tile)>, size: Point, k: int) -> Seq<Seq<Point>> {
    let assumed = candidates(entries, size)[k];
    seq![assumed] + forced_connections(without_ends(entries, assumed), size)
}

/// The board that assuming the candidate `k` leaves.
pub open spec fn next_board(entries: Seq<(Point, Tile)>, size: Point, k: int) -> Seq<(Point, Tile)> {
    after(entries, step_of(entries, size, k), step_of(entries, size, k).len())
}

/// The connections that clear a board on which no connection is forced, found by trying its
/// candidates in order from the candidate `k` on: a candidate is assumed, the forced
/// connections follow, and what is left is explored in the same way; where that fails, the
/// next candidate is tried. There is none where no candidate leads to an empty board.
#[verifier::opaque]
pub open spec fn explore(entries: Seq<(Point, Tile)>, size: Point, k: nat) -> Option<Seq<Seq<Point>>>
    decreases entries.len(), candidates(entries, size).len() - k,
{
    if k >= candidates(entries, size).len() {
        None
    } else {
        let step = step_of(entries, size, k as int);
        let next = next_board(entries, size, k as int);
        if next.len() == 0 {
            Some(step)
        } else if next.len() < entries.len() {
            match explore(next, size, 0) {
                Some(rest) => Some(step + rest),
                None => explore(entries, size, k + 1),
            }
        } else {
            explore(entries, size, k + 1)
        }
    }
}

/// The number of assumptions that exploring a board from the candidate `k` on makes at most.
#[verifier::opaque]
pub open spec fn cost(entries: Seq<(Point, Tile)>, size: Point, k: nat) -> nat
    decreases entries.len(), candidates(entries, size).len() - k,
{
    if k >= candidates(entries, size).len() {
        0
    } else {
        let next = next_board(entries, size, k as int);
        let below = if 0 < next.len() < entries.len() {
            cost(next, size, 0)
        } else {
            0
        };
        1 + below + cost(entries, size, k + 1)
    }
}

/// The connections that clear a board, in the order in which they are made: the forced
/// ones, then those that exploring the rest finds. There is none where the search fails.
pub open spec fn search(entries: Seq<(Point, Tile)>, size: Point) -> Option<Seq<Seq<Point>>> {
    let first = forced_connections(entries, size);
    let rest = after(entries, first, first.len());
    if rest.len() == 0 {
        Some(first)
    } else {
        match explore(rest, size, 0) {
            Some(tail) => Some(first + tail),
            None => None,
        }
    }
}

/// The forced connections of a board, by the first pass and the rest.
pub proof fn lemma_forced_unfold(entries: Seq<(Point, Tile)>, size: Point)
    ensures
        forced_connections(entries, size) == ({
            let pass = trivial_connections(entries, size);
            let rest = after(entries, pass, pass.len());
            if pass.len() == 0 || rest.len() >= entries.len() {
                Seq::<Seq<Point>>::empty()
            } else {
                pass + forced_connections(rest, size)
            }
        }),
{
    reveal(forced_connections);
}

/// What exploring a board from the candidate `k` on finds, by the candidate `k` and the rest.
pub proof fn lemma_explore_unfold(entries: Seq<(Point, Tile)>, size: Point, k: nat)
    ensures
        explore(entries, size, k) == (if k >= candidates(entries, size).len() {
            None
        } else {
            let step = step_of(entries, size, k as int);
            let next = next_board(entries, size, k as int);
            if next.len() == 0 {
                Some(step)
            } else if next.len() < entries.len() {
                match explore(next, size, 0) {
                    Some(rest) => Some(step + rest),
                    None => explore(entries, size, k + 1),
                }
            } else {
                explore(entries, size, k + 1)
            }
        }),
{
    reveal(explore);
}

/// The cost of exploring a board from the candidate `k` on, by the candidate `k` and the rest.
pub proof fn lemma_cost_unfold(entries: Seq<(Point, Tile)>, size: Point, k: nat)
    ensures
        cost(entries, size, k) == (if k >= candidates(entries, size).len() {
            0
        } else {
            let next = next_board(entries, size, k as int);
            let below = if 0 < next.len() < entries.len() {
                cost(next, size, 0)
            } else {
                0
            };
            1 + below + cost(entries, size, k + 1)
        }),
{
    reveal(cost);
}

/// A copy of a path.
pub fn copy_nodes(nodes: &Nodes) -> (copy: Nodes)
    ensures
        copy@ == nodes@,
{
    let mut copy: Nodes = Vec::new();
    let mut i: usize = 0;
    while i < nodes.len()
        invariant
            i <= nodes@.len(),
            copy@ == nodes@.subrange(0, i as int),
        decreases nodes@.len() - i,
    {
        copy.push(nodes[i]);
        assert(copy@ =~= nodes@.subrange(0, i + 1));
        i = i + 1;
    }
    assert(copy@ =~= nodes@);
    copy
}

/// A copy of a list of paths.
pub fn copy_paths(paths: &Vec<Nodes>) -> (copy: Vec<Nodes>)
    ensures
        paths_view(copy@) == paths_view(paths@),
{
    let mut copy: Vec<Nodes> = Vec::new();
    let mut i: usize = 0;
    while i < paths.len()
        invariant
            i <= paths@.len(),
            copy@.len() == i,
            forall|j: int| 0 <= j < i ==> (#[trigger] copy@[j])@ == paths@[j]@,
        decreases paths@.len() - i,
    {
        copy.push(copy_nodes(&paths[i]));
        i = i + 1;
    }
    assert(paths_view(copy@) =~= paths_view(paths@));
    copy
}

/// The board without the tiles on the two ends of each path.
pub fn remove_tiles(map: &TileMap, nodes: &Vec<Nodes>) -> (new_map: TileMap)
    requires
        forall|i: int| 0 <= i < nodes@.len() ==> (#[trigger] nodes@[i])@.len() > 0,
    ensures
        new_map.entries() == after(map.entries(), paths_view(nodes@), nodes@.len()),
{
    let mut new_map = map.clone();
    let mut i: usize = 0;
    while i < nodes.len()
        invariant
            i <= nodes@.len(),
            forall|i: int| 0 <= i < nodes@.len() ==> (#[trigger] nodes@[i])@.len() > 0,
            new_map.entries() == after(map.entries(), paths_view(nodes@), i as nat),
        decreases nodes@.len() - i,
    {
        let edges = get_node_edges(&nodes[i]);
        new_map.remove(&edges[0]);
        new_map.remove(&edges[1]);
        i = i + 1;
    }
    new_map
}

/// Whether `a` comes before `b` when cells are read row by row.
pub fn coord_less(a: &Coord, b: &Coord) -> (r: bool)
    ensures
        r == point_less(pt(*a), pt(*b)),
{
    a[0] < b[0] || (a[0] == b[0] && a[1] < b[1])
}

/// For every label that exactly two cells carry, in the order of the labels, the two cells,
/// the one that is read first in front.
pub fn get_single_pair_tiles(lut: &CoordCollection) -> (pairs: Vec<[Coord; 2]>)
    ensures
        pairs_view(pairs@) == single_pairs(index_view(lut@), 256),
{
    let mut pairs: Vec<[Coord; 2]> = Vec::new();
    let mut tile: Tile = 0;
    assert(pairs_view(pairs@) =~= single_pairs(index_view(lut@), 0));
    loop
        invariant_except_break
            pairs_view(pairs@) == single_pairs(index_view(lut@), tile as nat),
        ensures
            pairs_view(pairs@) == single_pairs(index_view(lut@), 256),
        decreases 255 - tile,
    {
        let ghost before = pairs_view(pairs@);
        match lut.get(&tile) {
            Some(coords) => {
                if coords.len() == 2 {
                    let first = coords[0];
                    let second = coords[1];
                    if coord_less(&second, &first) {
                        pairs.push([second, first]);
                    } else {
                        pairs.push([first, second]);
                    }
                    assert(pairs_view(pairs@) =~= before.push(
                        ordered((index_view(lut@)[tile][0], index_view(lut@)[tile][1])),
                    ));
                }
            },
            None => {},
        }
        assert(pairs_view(pairs@) == single_pairs(index_view(lut@), (tile + 1) as nat));
        if tile == 255 {
            break;
        }
        tile = tile + 1;
    }
    pairs
}

/// The paths that join the pairs, in order; a pair that no path joins gives none.
pub fn connect_pairs(pairs: &Vec<[Coord; 2]>, map: &TileMap, map_size: &[usize; 2]) -> (nodes: Vec<Nodes>)
    ensures
        paths_view(nodes@) == connections(map@, ext(*map_size), pairs_view(pairs@), pairs@.len()),
{
    let mut nodes: Vec<Nodes> = Vec::new();
    let mut i: usize = 0;
    assert(paths_view(nodes@) =~= connections(map@, ext(*map_size), pairs_view(pairs@), 0));
    while i < pairs.len()
        invariant
            i <= pairs@.len(),
            paths_view(nodes@) == connections(map@, ext(*map_size), pairs_view(pairs@), i as nat),
        decreases pairs@.len() - i,
    {
        let ghost before = paths_view(nodes@);
        let pair = pairs[i];
        match try_get_node_connection(&pair[0], &pair[1], map, map_size) {
            Some(path) => {
                nodes.push(path);
                assert(paths_view(nodes@) =~= before.push(path_of(path@)));
            },
            None => {},
        }
        i = i + 1;
    }
    nodes
}

/// The key of a path: the rows and columns of its points, one after the other.
fn path_key(nodes: &Nodes) -> (key: Vec<usize>)
    ensures
        nums(key@) == flat(path_of(nodes@), nodes@.len()),
{
    let mut key: Vec<usize> = Vec::new();
    let mut i: usize = 0;
    assert(nums(key@) =~= flat(path_of(nodes@), 0));
    while i < nodes.len()
        invariant
            i <= nodes@.len(),
            nums(key@) == flat(path_of(nodes@), i as nat),
        decreases nodes@.len() - i,
    {
        let ghost before = nums(key@);
        key.push(nodes[i][0]);
        key.push(nodes[i][1]);
        assert(nums(key@) =~= before.push(nodes@[i as int][0] as int).push(nodes@[i as int][1] as int));
        i = i + 1;
    }
    key
}

/// The paths in the order of their points.
pub fn sort_paths(nodes: &Vec<Nodes>) -> (sorted: Vec<Nodes>)
    ensures
        paths_view(sorted@) == sorted_paths(paths_view(nodes@)),
{
    let mut keys: Vec<Vec<usize>> = Vec::new();
    let mut i: usize = 0;
    while i < nodes.len()
        invariant
            i <= nodes@.len(),
            keys@.len() == i,
            forall|j: int| 0 <= j < i ==> nums((#[trigger] keys@[j])@) == path_keys(paths_view(nodes@))[j],
        decreases nodes@.len() - i,
    {
        keys.push(path_key(&nodes[i]));
        i = i + 1;
    }
    assert(key_seqs(keys@) =~= path_keys(paths_view(nodes@)));
    let order = sorted_order(&keys);
    let mut sorted: Vec<Nodes> = Vec::new();
    let mut k: usize = 0;
    while k < order.len()
        invariant
            k <= order@.len(),
            order@.len() == nodes@.len(),
            forall|i: int| 0 <= i < order@.len() ==> #[trigger] order@[i] < nodes@.len(),
            sorted@.len() == k,
            forall|j: int| 0 <= j < k ==> (#[trigger] sorted@[j])@ == nodes@[order@[j] as int]@,
        decreases order@.len() - k,
    {
        sorted.push(copy_nodes(&nodes[order[k]]));
        k = k + 1;
    }
    assert(paths_view(sorted@) =~= arranged(paths_view(nodes@), nums(order@)));
    sorted
}

/// The pairs in the order of their cells.
pub fn sort_pairs(pairs: &Vec<[Coord; 2]>) -> (sorted: Vec<[Coord; 2]>)
    ensures
        pairs_view(sorted@) == sorted_pairs(pairs_view(pairs@)),
{
    let mut keys: Vec<Vec<usize>> = Vec::new();
    let mut i: usize = 0;
    while i < pairs.len()
        invariant
            i <= pairs@.len(),
            keys@.len() == i,
            forall|j: int| 0 <= j < i ==> nums((#[trigger] keys@[j])@) == pair_keys(pairs_view(pairs@))[j],
        decreases pairs@.len() - i,
    {
        let pair = pairs[i];
        let key: Vec<usize> = vec![pair[0][0], pair[0][1], pair[1][0], pair[1][1]];
        assert(nums(key@) =~= pair_keys(pairs_view(pairs@))[i as int]);
        keys.push(key);
        i = i + 1;
    }
    assert(key_seqs(keys@) =~= pair_keys(pairs_view(pairs@)));
    let order = sorted_order(&keys);
    let mut sorted: Vec<[Coord; 2]> = Vec::new();
    let mut k: usize = 0;
    while k < order.len()
        invariant
            k <= order@.len(),
            order@.len() == pairs@.len(),
            forall|i: int| 0 <= i < order@.len() ==> #[trigger] order@[i] < pairs@.len(),
            sorted@.len() == k,
            forall|j: int| 0 <= j < k ==> #[trigger] sorted@[j] == pairs@[order@[j] as int],
        decreases order@.len() - k,
    {
        sorted.push(pairs[order[k]]);
        k = k + 1;
    }
    assert(pairs_view(sorted@) =~= arranged(pairs_view(pairs@), nums(order@)));
    sorted
}

/// The forced connections of a board: for every label that exactly two tiles carry, the path
/// that joins the two, where there is one; the paths in the order of their points.
pub fn get_trivial_connections(map: &TileMap, map_size: &[usize; 2]) -> (nodes: Vec<Nodes>)
    ensures
        paths_view(nodes@) == trivial_connections(map.entries(), ext(*map_size)),
{
    proof {
        reveal(trivial_connections);
    }
    let lut = tile_map_to_coord_collection(map);
    let pairs = get_single_pair_tiles(&lut);
    let found = connect_pairs(&pairs, map, map_size);
    sort_paths(&found)
}

/// The paths that join pairs of the given cells: all pairs are tried, each with the cell that
/// is read first in front, in the order of their cells.
pub fn connect_label(coords: &Vec<Coord>, map: &TileMap, map_size: &[usize; 2]) -> (nodes: Vec<Nodes>)
    ensures
        paths_view(nodes@) == connections(
            map@,
            ext(*map_size),
            label_pairs(path_of(coords@)),
            label_pairs(path_of(coords@)).len(),
        ),
{
    let pairs = create_coord_pair(coords);
    let mut in_order: Vec<[Coord; 2]> = Vec::new();
    let mut i: usize = 0;
    while i < pairs.len()
        invariant
            i <= pairs@.len(),
            in_order@.len() == i,
            forall|j: int| 0 <= j < i ==> seg(#[trigger] in_order@[j]) == ordered(seg(pairs@[j])),
        decreases pairs@.len() - i,
    {
        let pair = pairs[i];
        if coord_less(&pair[1], &pair[0]) {
            in_order.push([pair[1], pair[0]]);
        } else {
            in_order.push(pair);
        }
        i = i + 1;
    }
    proof {
        let all = pairs_of(path_of(coords@));
        assert(pairs_view(in_order@) =~= Seq::new(all.len(), |i: int| ordered(all[i])));
    }
    let sorted = sort_pairs(&in_order);
    connect_pairs(&sorted, map, map_size)
}

/// The key of a path by its two ends.
fn path_end_key(nodes: &Nodes) -> (key: Vec<usize>)
    ensures
        nums(key@) == end_key(path_of(nodes@)),
{
    if nodes.len() == 0 {
        let key: Vec<usize> = Vec::new();
        assert(nums(key@) =~= end_key(path_of(nodes@)));
        key
    } else {
        let first = nodes[0];
        let last = nodes[nodes.len() - 1];
        let key: Vec<usize> = vec![first[0], first[1], last[0], last[1]];
        assert(nums(key@) =~= end_key(path_of(nodes@)));
        key
    }
}

/// The candidates of a board: the paths that join pairs of tiles with one label, for all
/// labels in one list, in the order of the cells that they join: by the row and the column of
/// the first end, then of the second.
pub fn get_ordered_available_connections(map: &TileMap, map_size: &[usize; 2]) -> (nodes: Vec<Nodes>)
    ensures
        paths_view(nodes@) == candidates(map.entries(), ext(*map_size)),
{
    proof {
        reveal(candidates);
    }
    let ghost entries = map.entries();
    let ghost size = ext(*map_size);
    let ghost index = tile_index(entries, entries.len());
    let lut = tile_map_to_coord_collection(map);
    let mut all: Vec<Nodes> = Vec::new();
    let mut tile: Tile = 0;
    assert(paths_view(all@) =~= all_connections(entries, size, 0));
    loop
        invariant_except_break
            paths_view(all@) == all_connections(entries, size, tile as nat),
        invariant
            entries == map.entries(),
            size == ext(*map_size),
            index == tile_index(entries, entries.len()),
            index_view(lut@) == index,
        ensures
            paths_view(all@) == all_connections(entries, size, 256),
        decreases 255 - tile,
    {
        let ghost done = paths_view(all@);
        match lut.get(&tile) {
            Some(coords) => {
                assert(index[tile] == path_of(coords@));
                let mut found = connect_label(coords, map, map_size);
                let ghost group = paths_view(found@);
                all.append(&mut found);
                assert(paths_view(all@) =~= done + group);
            },
            None => {},
        }
        assert(paths_view(all@) == all_connections(entries, size, (tile + 1) as nat));
        if tile == 255 {
            break;
        }
        tile = tile + 1;
    }
    let mut keys: Vec<Vec<usize>> = Vec::new();
    let mut i: usize = 0;
    while i < all.len()
        invariant
            i <= all@.len(),
            keys@.len() == i,
            forall|j: int| 0 <= j < i ==> nums((#[trigger] keys@[j])@) == end_keys(paths_view(all@))[j],
        decreases all@.len() - i,
    {
        keys.push(path_end_key(&all[i]));
        i = i + 1;
    }
    assert(key_seqs(keys@) =~= end_keys(paths_view(all@)));
    let order = sorted_order(&keys);
    let mut nodes: Vec<Nodes> = Vec::new();
    let mut k: usize = 0;
    while k < order.len()
        invariant
            k <= order@.len(),
            order@.len() == all@.len(),
            forall|i: int| 0 <= i < order@.len() ==> #[trigger] order@[i] < all@.len(),
            nodes@.len() == k,
            forall|j: int| 0 <= j < k ==> (#[trigger] nodes@[j])@ == all@[order@[j] as int]@,
        decreases order@.len() - k,
    {
        nodes.push(copy_nodes(&all[order[k]]));
        k = k + 1;
    }
    assert(paths_view(nodes@) =~= arranged(paths_view(all@), nums(order@)));
    nodes
}

/// Takes the forced connections off a board until none is left, and returns what remains of
/// the board and the connections in the order in which they were made.
pub fn propagate(map: &TileMap, map_size: &[usize; 2]) -> (r: (TileMap, Vec<Nodes>))
    ensures
        paths_view(r.1@) == forced_connections(map.entries(), ext(*map_size)),
        r.0.entries() == after(map.entries(), paths_view(r.1@), r.1@.len()),
        trivial_connections(r.0.entries(), ext(*map_size)).len() == 0,
{
    let ghost start = map.entries();
    let ghost size = ext(*map_size);
    let mut board = map.clone();
    let mut forced: Vec<Nodes> = Vec::new();
    assert(paths_view(forced@) + forced_connections(board.entries(), size) =~= forced_connections(start, size));
    loop
        invariant
            start == map.entries(),
            size == ext(*map_size),
            forced_connections(start, size) == paths_view(forced@) + forced_connections(board.entries(), size),
            board.entries() == after(start, paths_view(forced@), forced@.len()),
        ensures
            paths_view(forced@) == forced_connections(start, size),
            board.entries() == after(start, paths_view(forced@), forced@.len()),
            trivial_connections(board.entries(), size).len() == 0,
        decreases board.entries().len(),
    {
        let mut pass = get_trivial_connections(&board, map_size);
        proof {
            lemma_forced_unfold(board.entries(), size);
        }
        if pass.len() == 0 {
            assert(paths_view(forced@) + Seq::<Seq<Point>>::empty() =~= paths_view(forced@));
            break;
        }
        let ghost before = board.entries();
        let ghost done = paths_view(forced@);
        let ghost found = paths_view(pass@);
        proof {
            use_type_invariant(&board);
            reveal(links);
            lemma_trivial_connections(before, size);
            assert(links(before, size, found[0]));
            assert forall|i: int| 0 <= i < pass@.len() implies (#[trigger] pass@[i])@.len() > 0 by {
                assert(links(before, size, found[i]));
            }
            lemma_after(before, found, found.len());
        }
        board = remove_tiles(&board, &pass);
        forced.append(&mut pass);
        proof {
            assert(paths_view(forced@) =~= done + found);
            assert(done + (found + forced_connections(board.entries(), size)) =~= (done + found)
                + forced_connections(board.entries(), size));
            lemma_after_concat(start, done, found, found.len());
        }
    }
    (board, forced)
}

/// The connections that are forced once the tiles on the ends of a path are taken off.
pub fn forced_by(map: &TileMap, map_size: &[usize; 2], assumed: &Nodes) -> (forced: Vec<Nodes>)
    requires
        assumed@.len() > 0,
    ensures
        paths_view(forced@) == forced_connections(without_ends(map.entries(), path_of(assumed@)), ext(*map_size)),
{
    let taken: Vec<Nodes> = vec![copy_nodes(assumed)];
    assert(paths_view(taken@) =~= seq![path_of(assumed@)]);
    let rest = remove_tiles(map, &taken);
    assert(rest.entries() == without_ends(map.entries(), path_of(assumed@))) by {
        let paths = seq![path_of(assumed@)];
        assert(after(map.entries(), paths, 0) == map.entries());
        assert(after(map.entries(), paths, 1) == without_ends(after(map.entries(), paths, 0), paths[0]));
    }
    let (_left, forced) = propagate(&rest, map_size);
    forced
}

/// One level of the search: a board, its candidates, the place of the candidate that is
/// assumed, and the connections that the assumption forces.
pub struct SichuanSolverSnapshot {
    map: TileMap,
    map_size: [usize; 2],
    connections: Vec<Nodes>,
    cursor: usize,
    resolved: Vec<Nodes>,
}

impl SichuanSolverSnapshot {
    /// The tiles of the board of this level.
    pub closed spec fn board(&self) -> Seq<(Point, Tile)> {
        self.map.entries()
    }

    /// The extent of the board.
    pub closed spec fn extent(&self) -> Point {
        ext(self.map_size)
    }

    /// The candidates of this level.
    pub closed spec fn listed(&self) -> Seq<Seq<Point>> {
        paths_view(self.connections@)
    }

    /// The place of the candidate that is assumed.
    pub closed spec fn cursor_at(&self) -> nat {
        self.cursor as nat
    }

    /// The connections that were found to follow from the assumption.
    pub closed spec fn forced(&self) -> Seq<Seq<Point>> {
        paths_view(self.resolved@)
    }

    /// The level holds the candidates of its board, and one of them is assumed.
    pub open spec fn wf(&self) -> bool {
        &&& distinct_cells(self.board())
        &&& self.listed() == candidates(self.board(), self.extent())
        &&& self.cursor_at() < self.listed().len()
    }

    /// The forced connections are those of the candidate that is assumed now.
    pub open spec fn resolved_ok(&self) -> bool {
        self.forced() == forced_connections(
            without_ends(self.board(), self.listed()[self.cursor_at() as int]),
            self.extent(),
        )
    }

    /// What this level takes off the board: the assumed candidate, then the forced
    /// connections.
    pub open spec fn steps(&self) -> Seq<Seq<Point>> {
        seq![self.listed()[self.cursor_at() as int]] + self.forced()
    }

    /// A level for the given board, with its first candidate assumed; none where the board has
    /// no candidate.
    pub fn try_new(map: &TileMap, map_size: &[usize; 2]) -> (r: Option<Self>)
        ensures
            r is None <==> candidates(map.entries(), ext(*map_size)).len() == 0,
            r matches Some(s) ==> s.wf() && s.board() == map.entries() && s.extent() == ext(*map_size)
                && s.cursor_at() == 0,
    {
        let connections = get_ordered_available_connections(map, map_size);
        if connections.len() == 0 {
            None
        } else {
            proof {
                use_type_invariant(map);
            }
            Some(
                Self {
                    map: map.clone(),
                    map_size: *map_size,
                    connections,
                    cursor: 0,
                    resolved: Vec::new(),
                },
            )
        }
    }

    /// Finds the connections that the assumed candidate forces.
    pub fn resolve(&mut self)
        requires
            old(self).wf(),
        ensures
            final(self).wf(),
            final(self).resolved_ok(),
            final(self).board() == old(self).board(),
            final(self).extent() == old(self).extent(),
            final(self).listed() == old(self).listed(),
            final(self).cursor_at() == old(self).cursor_at(),
    {
        assert(self.connections@[self.cursor as int]@.len() > 0) by {
            reveal(links);
            lemma_candidates(self.board(), self.extent());
            assert(links(self.board(), self.extent(), self.listed()[self.cursor as int]));
        }
        let forced = forced_by(&self.map, &self.map_size, &self.connections[self.cursor]);
        self.resolved = forced;
    }

    /// Moves on to the next candidate; fails where there is none.
    pub fn next(&mut self) -> (r: Result<(), ()>)
        requires
            old(self).wf(),
        ensures
            r is Ok <==> old(self).cursor_at() + 1 < old(self).listed().len(),
            r is Ok ==> final(self).wf() && final(self).cursor_at() == old(self).cursor_at() + 1,
            r is Err ==> final(self).cursor_at() == old(self).cursor_at() && final(self).forced() == old(self).forced(),
            final(self).board() == old(self).board(),
            final(self).extent() == old(self).extent(),
            final(self).listed() == old(self).listed(),
    {
        if self.cursor < self.connections.len() - 1 {
            self.cursor += 1;
            Ok(())
        } else {
            Err(())
        }
    }

    /// What this level takes off the board: the assumed candidate, then the connections that
    /// it forces.
    pub fn nodes(&self) -> (nodes: Vec<Nodes>)
        requires
            self.wf(),
        ensures
            paths_view(nodes@) == self.steps(),
    {
        let mut nodes: Vec<Nodes> = vec![copy_nodes(&self.connections[self.cursor])];
        let mut forced = copy_paths(&self.resolved);
        let ghost head = paths_view(nodes@);
        let ghost tail = paths_view(forced@);
        nodes.append(&mut forced);
        assert(paths_view(nodes@) =~= head + tail);
        assert(head =~= seq![self.listed()[self.cursor_at() as int]]);
        nodes
    }

    /// The candidates of this level.
    pub fn connections(&self) -> (nodes: Vec<Nodes>)
        ensures
            paths_view(nodes@) == self.listed(),
    {
        copy_paths(&self.connections)
    }
}

/// The levels follow from each other: each is resolved, the first stands on the board `rest`,
/// and each further one on the board that the level before it leaves, which is smaller and
/// not empty.
pub open spec fn chained(frames: Seq<SichuanSolverSnapshot>, rest: Seq<(Point, Tile)>, size: Point) -> bool {
    &&& forall|i: int|
        0 <= i < frames.len() ==> (#[trigger] frames[i]).wf() && frames[i].resolved_ok() && frames[i].extent()
            == size
    &&& frames.len() > 0 ==> frames[0].board() == rest
    &&& forall|i: int|
        0 <= i < frames.len() - 1 ==> (#[trigger] frames[i + 1]).board() == next_board(
            frames[i].board(),
            size,
            frames[i].cursor_at() as int,
        ) && 0 < frames[i + 1].board().len() < frames[i].board().len()
}

/// Every candidate before the assumed one was found to lead nowhere.
pub open spec fn tried(frame: SichuanSolverSnapshot, size: Point) -> bool {
    explore(frame.board(), size, 0) == explore(frame.board(), size, frame.cursor_at())
}

/// What the levels from the level `i` on take off the board, one after the other.
pub open spec fn tail(frames: Seq<SichuanSolverSnapshot>, i: nat) -> Seq<Seq<Point>>
    decreases frames.len() - i,
{
    if i >= frames.len() {
        Seq::empty()
    } else {
        frames[i as int].steps() + tail(frames, i + 1)
    }
}

/// The number of assumptions that are left to the first `n` levels once their present one has
/// failed.
pub open spec fn spent(frames: Seq<SichuanSolverSnapshot>, size: Point, n: nat) -> nat
    decreases n,
{
    if n == 0 || n > frames.len() {
        0
    } else {
        spent(frames, size, (n - 1) as nat) + cost(frames[n - 1].board(), size, frames[n - 1].cursor_at() + 1)
    }
}

/// The number of assumptions that the search can still make.
pub open spec fn remaining_cost(frames: Seq<SichuanSolverSnapshot>, size: Point) -> nat {
    if frames.len() == 0 {
        0
    } else {
        let top = frames[frames.len() - 1];
        spent(frames, size, (frames.len() - 1) as nat) + cost(top.board(), size, top.cursor_at())
    }
}

/// What is spent on the first `n` levels depends on these levels alone.
proof fn lemma_spent_prefix(one: Seq<SichuanSolverSnapshot>, other: Seq<SichuanSolverSnapshot>, size: Point, n: nat)
    requires
        n <= one.len(),
        n <= other.len(),
        forall|i: int| 0 <= i < n ==> one[i] == other[i],
    ensures
        spent(one, size, n) == spent(other, size, n),
    decreases n,
{
    if n > 0 {
        lemma_spent_prefix(one, other, size, (n - 1) as nat);
    }
}

/// Where the last level leaves an empty board, exploring the board of any level finds what
/// the levels from there on take off.
proof fn lemma_found_from(frames: Seq<SichuanSolverSnapshot>, rest: Seq<(Point, Tile)>, size: Point, i: nat)
    requires
        chained(frames, rest, size),
        forall|j: int| 0 <= j < frames.len() ==> tried(#[trigger] frames[j], size),
        i < frames.len(),
        next_board(
            frames[frames.len() - 1].board(),
            size,
            frames[frames.len() - 1].cursor_at() as int,
        ).len() == 0,
    ensures
        explore(frames[i as int].board(), size, 0) == Some(tail(frames, i)),
    decreases frames.len() - i,
{
    let frame = frames[i as int];
    assert(frame.wf() && frame.resolved_ok() && tried(frame, size));
    assert(frame.steps() == step_of(frame.board(), size, frame.cursor_at() as int));
    lemma_explore_unfold(frame.board(), size, frame.cursor_at());
    if i == frames.len() - 1 {
        assert(tail(frames, i + 1) == Seq::<Seq<Point>>::empty());
        assert(frame.steps() + Seq::<Seq<Point>>::empty() =~= frame.steps());
    } else {
        lemma_found_from(frames, rest, size, i + 1);
        assert(frames[i as int + 1].board() == next_board(frame.board(), size, frame.cursor_at() as int));
    }
}

/// The solver: the connections that were forced on the whole board, and the levels of the
/// search on what they left.
pub struct SichuanSolver {
    snapshots: Vec<SichuanSolverSnapshot>,
    first_resolved: Vec<Nodes>,
    remaining: TileMap,
    map_size: [usize; 2],
    start: Ghost<Seq<(Point, Tile)>>,
}

impl SichuanSolver {
    /// The levels of the search, the first one first.
    pub closed spec fn frames(&self) -> Seq<SichuanSolverSnapshot> {
        self.snapshots@
    }

    /// The connections that were forced on the whole board.
    pub closed spec fn first(&self) -> Seq<Seq<Point>> {
        paths_view(self.first_resolved@)
    }

    /// The board that the first forced connections left.
    pub closed spec fn rest(&self) -> Seq<(Point, Tile)> {
        self.remaining.entries()
    }

    /// The extent of the board.
    pub closed spec fn extent(&self) -> Point {
        ext(self.map_size)
    }

    /// The board with which the solver began, with its frame.
    pub closed spec fn start(&self) -> Seq<(Point, Tile)> {
        self.start@
    }

    /// The connections that the solver holds: the first forced ones, then those of its levels.
    pub open spec fn solution(&self) -> Seq<Seq<Point>> {
        self.first() + tail(self.frames(), 0)
    }

    /// The solver stands on its board: the first connections are the forced ones, and the
    /// levels stand on what they left.
    pub open spec fn rooted(&self) -> bool {
        &&& distinct_cells(self.start())
        &&& distinct_cells(self.rest())
        &&& self.first() == forced_connections(self.start(), self.extent())
        &&& self.rest() == after(self.start(), self.first(), self.first().len())
        &&& chained(self.frames(), self.rest(), self.extent())
    }

    /// The state between two steps of the search.
    pub open spec fn wf(&self) -> bool {
        &&& self.rooted()
        &&& forall|j: int| 0 <= j < self.frames().len() ==> tried(#[trigger] self.frames()[j], self.extent())
        &&& self.frames().len() == 0 ==> explore(self.rest(), self.extent(), 0) is None
    }

    /// The state after the assumption of the last level has failed.
    pub open spec fn stalled(&self) -> bool {
        &&& self.rooted()
        &&& forall|j: int| 0 <= j < self.frames().len() - 1 ==> tried(#[trigger] self.frames()[j], self.extent())
        &&& self.frames().len() > 0 ==> {
            let top = self.frames()[self.frames().len() - 1];
            explore(top.board(), self.extent(), 0) == explore(top.board(), self.extent(), top.cursor_at() + 1)
        }
        &&& self.frames().len() == 0 ==> explore(self.rest(), self.extent(), 0) is None
    }

    /// A solver for the given board. The board gets an empty row and an empty column in front,
    /// the connections that are forced are made, and the first candidate of what is left is
    /// assumed.
    pub fn new(map: &TileMap) -> (solver: Self)
        requires
            fits(map.entries(), (usize::MAX - 2, usize::MAX - 2)),
        ensures
            solver.wf(),
            solver.start() == padded(map.entries()),
            is_extent_of(solver.start(), (solver.extent().0 - 1, solver.extent().1 - 1)),
    {
        let pad_map = pad_tilemap(map);
        let inner = get_size_from_map(&pad_map);
        let map_size: [usize; 2] = [inner[0] + 1, inner[1] + 1];
        let (remaining, first_resolved) = propagate(&pad_map, &map_size);
        proof {
            use_type_invariant(&pad_map);
            use_type_invariant(&remaining);
        }
        let mut snapshots: Vec<SichuanSolverSnapshot> = Vec::new();
        match SichuanSolverSnapshot::try_new(&remaining, &map_size) {
            Some(snapshot) => {
                let mut snapshot = snapshot;
                snapshot.resolve();
                snapshots.push(snapshot);
            },
            None => {
                proof {
                    lemma_explore_unfold(remaining.entries(), ext(map_size), 0);
                }
            },
        }
        Self { snapshots, first_resolved, remaining, map_size, start: Ghost(pad_map.entries()) }
    }

    /// Adds a level for the board that the last level leaves; fails where there is no level,
    /// or where that board has no candidate.
    fn add_snapshot(&mut self) -> (r: Result<(), ()>)
        requires
            old(self).wf(),
        ensures
            final(self).start() == old(self).start(),
            final(self).first() == old(self).first(),
            final(self).rest() == old(self).rest(),
            final(self).extent() == old(self).extent(),
            r is Ok ==> final(self).wf() && remaining_cost(final(self).frames(), final(self).extent())
                < remaining_cost(old(self).frames(), old(self).extent()),
            r is Err ==> final(self).frames() == old(self).frames(),
            r is Err && old(self).frames().len() > 0 ==> candidates(
                next_board(
                    old(self).frames()[old(self).frames().len() - 1].board(),
                    old(self).extent(),
                    old(self).frames()[old(self).frames().len() - 1].cursor_at() as int,
                ),
                old(self).extent(),
            ).len() == 0,
    {
        let n = self.snapshots.len();
        if n == 0 {
            return Err(());
        }
        let ghost frames = self.snapshots@;
        let ghost size = ext(self.map_size);
        let latest = &self.snapshots[n - 1];
        assert(latest.wf() && latest.resolved_ok() && latest.extent() == size);
        let nodes = latest.nodes();
        proof {
            reveal(links);
            lemma_candidates(latest.board(), size);
            assert(links(latest.board(), size, latest.listed()[latest.cursor_at() as int]));
            lemma_forced_shape_after(latest.board(), size, latest.listed()[latest.cursor_at() as int]);
            assert forall|i: int| 0 <= i < nodes@.len() implies (#[trigger] nodes@[i])@.len() > 0 by {
                assert(paths_view(nodes@)[i].len() >= 2);
            }
        }
        let map = remove_tiles(&latest.map, &nodes);
        let map_size = latest.map_size;
        match SichuanSolverSnapshot::try_new(&map, &map_size) {
            Some(snapshot) => {
                let mut snapshot = snapshot;
                snapshot.resolve();
                proof {
                    let steps = latest.steps();
                    lemma_after(latest.board(), steps, steps.len());
                    lemma_candidates(snapshot.board(), size);
                    assert(links(snapshot.board(), size, snapshot.listed()[0]));
                    assert(lists(snapshot.board(), snapshot.listed()[0][0]));
                    assert(snapshot.board().len() > 0);
                    lemma_spent_prefix(frames, frames.push(snapshot), size, n as nat);
                    lemma_spent_prefix(frames, frames.push(snapshot), size, (n - 1) as nat);
                    lemma_cost_unfold(latest.board(), size, latest.cursor_at());
                    assert(cost(latest.board(), size, latest.cursor_at()) == 1 + cost(snapshot.board(), size, 0)
                        + cost(latest.board(), size, latest.cursor_at() + 1));
                }
                self.snapshots.push(snapshot);
                Ok(())
            },
            None => Err(()),
        }
    }

    /// Moves the last level on to its next candidate; a level that has none left is dropped,
    /// and the level before it moves on. Fails where no level is left.
    fn update_snapshot(&mut self) -> (r: Result<(), ()>)
        requires
            old(self).stalled(),
        ensures
            final(self).start() == old(self).start(),
            final(self).first() == old(self).first(),
            final(self).rest() == old(self).rest(),
            final(self).extent() == old(self).extent(),
            final(self).wf(),
            r is Ok ==> remaining_cost(final(self).frames(), final(self).extent()) <= spent(
                old(self).frames(),
                old(self).extent(),
                old(self).frames().len(),
            ),
            r is Err ==> final(self).frames().len() == 0,
            r is Ok ==> old(self).frames().len() > 0,
    {
        let ghost size = ext(self.map_size);
        let ghost before = self.snapshots@;
        loop
            invariant
                self.stalled(),
                self.start() == old(self).start(),
                self.first() == old(self).first(),
                self.rest() == old(self).rest(),
                self.extent() == old(self).extent(),
                size == self.extent(),
                before == old(self).frames(),
                self.frames().len() <= before.len(),
                spent(self.frames(), size, self.frames().len()) <= spent(before, size, before.len()),
            decreases self.frames().len(),
        {
            let ghost frames = self.snapshots@;
            match self.snapshots.pop() {
                Some(top) => {
                    let mut top = top;
                    let ghost was = top;
                    assert(was == frames[frames.len() - 1]);
                    assert(was.wf() && was.extent() == size);
                    let ghost below = frames.drop_last();
                    proof {
                        lemma_spent_prefix(frames, below, size, below.len());
                    }
                    match top.next() {
                        Ok(()) => {
                            top.resolve();
                            proof {
                                lemma_spent_prefix(below, below.push(top), size, below.len());
                                assert(chained(below.push(top), self.rest(), size));
                            }
                            self.snapshots.push(top);
                            return Ok(());
                        },
                        Err(()) => {
                            proof {
                                lemma_explore_unfold(was.board(), size, was.cursor_at() + 1);
                                assert(explore(was.board(), size, was.cursor_at() + 1) is None);
                                if below.len() > 0 {
                                    let parent = below[below.len() - 1];
                                    assert(parent == frames[frames.len() - 2]);
                                    assert(frames[frames.len() - 2 + 1] == was);
                                    assert(was.board() == next_board(parent.board(), size, parent.cursor_at() as int));
                                    assert(tried(parent, size));
                                    lemma_explore_unfold(parent.board(), size, parent.cursor_at());
                                }
                                assert(chained(below, self.rest(), size));
                            }
                        },
                    }
                },
                None => {
                    return Err(());
                },
            }
        }
    }

    /// Whether the board is cleared: the last level leaves nothing, or, where there is no
    /// level, the first forced connections left nothing.
    pub fn is_completed(&self) -> (r: bool)
        requires
            self.wf(),
        ensures
            r == (if self.frames().len() == 0 {
                self.rest().len() == 0
            } else {
                next_board(
                    self.frames()[self.frames().len() - 1].board(),
                    self.extent(),
                    self.frames()[self.frames().len() - 1].cursor_at() as int,
                ).len() == 0
            }),
    {
        let n = self.snapshots.len();
        if n == 0 {
            return self.remaining.is_empty();
        }
        let ghost size = ext(self.map_size);
        let latest = &self.snapshots[n - 1];
        assert(latest.wf() && latest.resolved_ok() && latest.extent() == size);
        let nodes = latest.nodes();
        proof {
            reveal(links);
            lemma_candidates(latest.board(), size);
            assert(links(latest.board(), size, latest.listed()[latest.cursor_at() as int]));
            lemma_forced_shape_after(latest.board(), size, latest.listed()[latest.cursor_at() as int]);
            assert forall|i: int| 0 <= i < nodes@.len() implies (#[trigger] nodes@[i])@.len() > 0 by {
                assert(paths_view(nodes@)[i].len() >= 2);
            }
        }
        let map = remove_tiles(&latest.map, &nodes);
        map.len() == 0
    }

    /// Searches for connections that clear the board. The candidates of each level are
    /// assumed in order; an assumption whose board has no candidate left, but tiles, is taken
    /// back. Succeeds as soon as the board is cleared, and fails when every candidate of the
    /// first level has been taken back.
    pub fn solve(&mut self) -> (r: Result<(), ()>)
        requires
            old(self).wf(),
        ensures
            final(self).wf(),
            final(self).start() == old(self).start(),
            final(self).extent() == old(self).extent(),
            r is Ok <==> search(old(self).start(), old(self).extent()) is Some,
            r is Ok ==> search(old(self).start(), old(self).extent()) == Some(final(self).solution()),
            r is Ok ==> replays(old(self).start(), old(self).extent(), final(self).solution()) && after(
                old(self).start(),
                final(self).solution(),
                final(self).solution().len(),
            ).len() == 0,
    {
        proof {
            lemma_search_clears(self.start(), self.extent());
        }
        loop
            invariant
                self.wf(),
                self.start() == old(self).start(),
                self.extent() == old(self).extent(),
                search(self.start(), self.extent()) matches Some(made) ==> replays(self.start(), self.extent(), made)
                    && after(self.start(), made, made.len()).len() == 0,
            decreases remaining_cost(self.frames(), self.extent()),
        {
            let ghost frames = self.frames();
            let ghost size = self.extent();
            if self.add_snapshot().is_err() {
                if self.is_completed() {
                    proof {
                        if frames.len() > 0 {
                            lemma_found_from(frames, self.rest(), size, 0);
                            reveal(links);
                            lemma_candidates(self.rest(), size);
                            assert(links(self.rest(), size, frames[0].listed()[0]));
                        } else {
                            assert(tail(frames, 0) == Seq::<Seq<Point>>::empty());
                            assert(self.first() + Seq::<Seq<Point>>::empty() =~= self.first());
                        }
                    }
                    return Ok(());
                }
                proof {
                    if frames.len() > 0 {
                        let top = frames[frames.len() - 1];
                        assert(top.wf() && tried(top, size));
                        let next = next_board(top.board(), size, top.cursor_at() as int);
                        lemma_explore_unfold(next, size, 0);
                        assert(explore(next, size, 0) is None);
                        lemma_explore_unfold(top.board(), size, top.cursor_at());
                        lemma_cost_unfold(top.board(), size, top.cursor_at());
                        assert(spent(frames, size, frames.len()) == spent(frames, size, (frames.len() - 1) as nat)
                            + cost(top.board(), size, top.cursor_at() + 1));
                        assert(spent(frames, size, frames.len()) < remaining_cost(frames, size));
                        reveal(links);
                        lemma_candidates(self.rest(), size);
                        assert(links(self.rest(), size, frames[0].listed()[0]));
                    }
                }
                if self.update_snapshot().is_err() {
                    return Err(());
                }
            }
        }
    }

    /// The connections that the solver holds, in the order in which they were made.
    pub fn result(&self) -> (nodes: Vec<Nodes>)
        requires
            self.wf(),
        ensures
            paths_view(nodes@) == self.solution(),
    {
        let mut nodes = copy_paths(&self.first_resolved);
        let mut i: usize = 0;
        assert(paths_view(nodes@) + tail(self.frames(), 0) == self.solution());
        while i < self.snapshots.len()
            invariant
                i <= self.snapshots@.len(),
                self.wf(),
                paths_view(nodes@) + tail(self.frames(), i as nat) == self.solution(),
            decreases self.snapshots@.len() - i,
        {
            let ghost done = paths_view(nodes@);
            assert(self.frames()[i as int].wf());
            let mut steps = self.snapshots[i].nodes();
            let ghost more = paths_view(steps@);
            nodes.append(&mut steps);
            assert(paths_view(nodes@) =~= done + more);
            assert((done + more) + tail(self.frames(), (i + 1) as nat) =~= done + (more + tail(
                self.frames(),
                (i + 1) as nat,
            )));
            i = i + 1;
        }
        assert(paths_view(nodes@) + Seq::<Seq<Point>>::empty() =~= paths_view(nodes@));
        nodes
    }
}

/// Every connection that a level takes off has two ends.
proof fn lemma_forced_shape_after(entries: Seq<(Point, Tile)>, size: Point, assumed: Seq<Point>)
    requires
        distinct_cells(entries),
        assumed.len() >= 2,
    ensures
        forall|i: int|
            0 <= i < (seq![assumed] + forced_connections(without_ends(entries, assumed), size)).len() ==> (#[trigger] (
            seq![assumed] + forced_connections(without_ends(entries, assumed), size))[i]).len() >= 2,
{
    lemma_without_ends(entries, assumed);
    lemma_forced_shape(without_ends(entries, assumed), size);
}

} // verus!
