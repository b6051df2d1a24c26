//! What holds of the index, of the forced connections and of the candidates of a board.
use vstd::prelude::*;
use crate::components::{cells_of, distinct_cells, index_of, lemma_cells_of, lists, without_tile, Point, Tile};
use crate::geometry::{connectable, free, inside, joins, segment_open};
use crate::order::{arranged, lemma_order_of, order_of};
use crate::solver::connect::{lemma_connection_is_found, lemma_connection_is_open, node_connection};
use crate::solver::lut::{coords_with, pairs_before, pairs_in_row, pairs_of, tile_index};
use crate::solver::solver::{
    after, all_connections, candidates, connections, end_keys, explore, forced_connections,
    label_connections, label_pairs, lemma_explore_unfold, lemma_forced_unfold, next_board, ordered,
    pair_keys, path_keys, search, single_pairs, step_of, trivial_connections, without_ends,
};
use crate::solver::utils::fits;

verus! {

/// Two different tiles of the board with one label.
pub open spec fn is_pair(entries: Seq<(Point, Tile)>, pair: (Point, Point)) -> bool {
    &&& pair.0 != pair.1
    &&& lists(entries, pair.0)
    &&& lists(entries, pair.1)
    &&& cells_of(entries)[pair.0] == cells_of(entries)[pair.1]
}

/// The path joins two different tiles of the board that carry one label, and it is open.
#[verifier::opaque]
pub open spec fn links(entries: Seq<(Point, Tile)>, size: Point, path: Seq<Point>) -> bool {
    &&& path.len() >= 2
    &&& is_pair(entries, (path[0], path[path.len() - 1]))
    &&& joins(cells_of(entries), size, path[0], path[path.len() - 1], path)
}

/// The label of the tile from which a path starts.
pub open spec fn label_of(entries: Seq<(Point, Tile)>, path: Seq<Point>) -> Tile {
    cells_of(entries)[path[0]]
}

/// One of the first `n` tiles of the list lies on `c` and carries the label `t`.
pub open spec fn placed_in(entries: Seq<(Point, Tile)>, n: nat, c: Point, t: Tile) -> bool {
    exists|i: int| 0 <= i < n && #[trigger] entries[i] == (c, t)
}

/// The pair holds two cells of the list, the first from an earlier place than the second.
pub open spec fn pair_from(cells: Seq<Point>, pair: (Point, Point)) -> bool {
    exists|i: int, j: int| #![trigger cells[i], cells[j]] 0 <= i < j < cells.len() && pair == (cells[i], cells[j])
}

/// Every cell of the index is a tile of the board with the label under which it stands, and
/// no cell stands there twice.
pub proof fn lemma_coords_with(entries: Seq<(Point, Tile)>, t: Tile, n: nat)
    requires
        distinct_cells(entries),
        n <= entries.len(),
    ensures
        forall|j: int|
            0 <= j < coords_with(entries, t, n).len() ==> placed_in(
                entries,
                n,
                #[trigger] coords_with(entries, t, n)[j],
                t,
            ),
        forall|j: int, k: int|
            0 <= j < k < coords_with(entries, t, n).len() ==> coords_with(entries, t, n)[j] != coords_with(
                entries,
                t,
                n,
            )[k],
        forall|i: int| 0 <= i < n && (#[trigger] entries[i]).1 == t ==> coords_with(entries, t, n).contains(entries[i].0),
    decreases n,
{
    if n > 0 {
        lemma_coords_with(entries, t, (n - 1) as nat);
        let before = coords_with(entries, t, (n - 1) as nat);
        let now = coords_with(entries, t, n);
        assert forall|j: int| 0 <= j < now.len() implies placed_in(entries, n, #[trigger] now[j], t) by {
            if j < before.len() {
                assert(placed_in(entries, (n - 1) as nat, before[j], t));
                let i = choose|i: int| 0 <= i < n - 1 && #[trigger] entries[i] == (before[j], t);
                assert(entries[i] == (now[j], t));
            } else {
                assert(entries[n - 1] == (now[j], t));
            }
        }
        assert forall|j: int, k: int| 0 <= j < k < now.len() implies now[j] != now[k] by {
            if k >= before.len() {
                assert(placed_in(entries, (n - 1) as nat, before[j], t));
                let i = choose|i: int| 0 <= i < n - 1 && #[trigger] entries[i] == (before[j], t);
                assert(entries[i].0 != entries[n - 1].0);
            }
        }
        assert forall|i: int| 0 <= i < n && (#[trigger] entries[i]).1 == t implies now.contains(entries[i].0) by {
            if i < n - 1 {
                assert(before.contains(entries[i].0));
                let j = choose|j: int| 0 <= j < before.len() && before[j] == entries[i].0;
                assert(now[j] == entries[i].0);
            } else {
                assert(now[now.len() - 1] == entries[i].0);
            }
        }
    }
}

/// Every pair of the cells of a list holds two cells of the list, the first from an earlier
/// place than the second.
pub proof fn lemma_pairs_of(cells: Seq<Point>)
    ensures
        forall|k: int| 0 <= k < pairs_of(cells).len() ==> pair_from(cells, #[trigger] pairs_of(cells)[k]),
{
    lemma_pairs_before(cells, cells.len() as int);
}

/// Every pair of a row holds two cells of the list, the first from an earlier place.
proof fn lemma_pairs_in_row(cells: Seq<Point>, i: int, j: int)
    requires
        0 <= i < cells.len(),
        j <= cells.len(),
    ensures
        forall|k: int|
            0 <= k < pairs_in_row(cells, i, j).len() ==> pair_from(cells, #[trigger] pairs_in_row(cells, i, j)[k]),
    decreases j - i,
{
    if j > i + 1 {
        lemma_pairs_in_row(cells, i, j - 1);
        let before = pairs_in_row(cells, i, j - 1);
        let now = pairs_in_row(cells, i, j);
        assert forall|k: int| 0 <= k < now.len() implies pair_from(cells, #[trigger] now[k]) by {
            if k < before.len() {
                assert(pair_from(cells, before[k]));
            } else {
                assert(now[k] == (cells[i], cells[j - 1]));
            }
        }
    }
}

/// Every pair before a place holds two cells of the list, the first from an earlier place.
proof fn lemma_pairs_before(cells: Seq<Point>, n: int)
    requires
        0 <= n <= cells.len(),
    ensures
        forall|k: int|
            0 <= k < pairs_before(cells, n).len() ==> pair_from(cells, #[trigger] pairs_before(cells, n)[k]),
    decreases n,
{
    if n > 0 {
        lemma_pairs_before(cells, n - 1);
        lemma_pairs_in_row(cells, n - 1, cells.len() as int);
        let before = pairs_before(cells, n - 1);
        let row = pairs_in_row(cells, n - 1, cells.len() as int);
        let now = pairs_before(cells, n);
        assert forall|k: int| 0 <= k < now.len() implies pair_from(cells, #[trigger] now[k]) by {
            if k < before.len() {
                assert(pair_from(cells, before[k]));
            } else {
                assert(pair_from(cells, row[k - before.len()]));
            }
        }
    }
}

/// The cells under a label of the index are different tiles of the board with that label.
pub proof fn lemma_index_cells(entries: Seq<(Point, Tile)>, t: Tile)
    requires
        distinct_cells(entries),
    ensures
        forall|j: int|
            0 <= j < coords_with(entries, t, entries.len()).len() ==> lists(
                entries,
                #[trigger] coords_with(entries, t, entries.len())[j],
            ) && cells_of(entries)[coords_with(entries, t, entries.len())[j]] == t,
        forall|j: int, k: int|
            0 <= j < k < coords_with(entries, t, entries.len()).len() ==> coords_with(entries, t, entries.len())[j]
                != coords_with(entries, t, entries.len())[k],
{
    lemma_coords_with(entries, t, entries.len());
    lemma_cells_of(entries);
    let cs = coords_with(entries, t, entries.len());
    assert forall|j: int| 0 <= j < cs.len() implies lists(entries, #[trigger] cs[j]) && cells_of(entries)[cs[j]]
        == t by {
        assert(placed_in(entries, entries.len(), cs[j], t));
        let i = choose|i: int| 0 <= i < entries.len() && #[trigger] entries[i] == (cs[j], t);
        assert(entries[i].0 == cs[j]);
    }
}

/// Taking a tile off shortens the list by one where the tile lay on the board, and leaves it
/// as it is where it did not.
pub proof fn lemma_without_tile_len(entries: Seq<(Point, Tile)>, p: Point)
    ensures
        lists(entries, p) ==> without_tile(entries, p).len() == entries.len() - 1,
        !lists(entries, p) ==> without_tile(entries, p) == entries,
{
}

/// Taking tiles off never makes a board larger, and keeps every tile on a cell of its own.
pub proof fn lemma_after(entries: Seq<(Point, Tile)>, paths: Seq<Seq<Point>>, n: nat)
    requires
        distinct_cells(entries),
        n <= paths.len(),
    ensures
        distinct_cells(after(entries, paths, n)),
        after(entries, paths, n).len() <= entries.len(),
        n > 0 && paths[0].len() > 0 && lists(entries, paths[0][0]) ==> after(entries, paths, n).len()
            < entries.len(),
        forall|p: Point| lists(after(entries, paths, n), p) ==> lists(entries, p),
        forall|p: Point|
            lists(after(entries, paths, n), p) ==> cells_of(after(entries, paths, n))[p] == cells_of(entries)[p],
    decreases n,
{
    if n > 0 {
        lemma_after(entries, paths, (n - 1) as nat);
        let before = after(entries, paths, (n - 1) as nat);
        let path = paths[n - 1];
        lemma_without_ends(before, path);
        lemma_cells_of(entries);
        lemma_cells_of(before);
        lemma_cells_of(after(entries, paths, n));
    }
}

/// Taking the tiles on the two ends of a path off a board takes exactly these two cells out
/// of it.
pub proof fn lemma_without_ends(entries: Seq<(Point, Tile)>, path: Seq<Point>)
    requires
        distinct_cells(entries),
    ensures
        distinct_cells(without_ends(entries, path)),
        without_ends(entries, path).len() <= entries.len(),
        path.len() > 0 && lists(entries, path[0]) ==> without_ends(entries, path).len() < entries.len(),
        path.len() > 0 ==> cells_of(without_ends(entries, path)) == cells_of(entries).remove(path[0]).remove(
            path[path.len() - 1],
        ),
        path.len() == 0 ==> without_ends(entries, path) == entries,
{
    if path.len() > 0 {
        let first = without_tile(entries, path[0]);
        crate::components::lemma_without_tile(entries, path[0]);
        crate::components::lemma_without_tile(first, path[path.len() - 1]);
        lemma_without_tile_len(entries, path[0]);
        lemma_without_tile_len(first, path[path.len() - 1]);
    }
}

/// Taking off the tiles of one list of paths and then those of another is taking off the
/// tiles of the two lists joined.
pub proof fn lemma_after_concat(entries: Seq<(Point, Tile)>, first: Seq<Seq<Point>>, second: Seq<Seq<Point>>, n: nat)
    requires
        n <= second.len(),
    ensures
        after(entries, first + second, first.len() + n) == after(
            after(entries, first, first.len()),
            second,
            n,
        ),
    decreases n,
{
    let all = first + second;
    if n == 0 {
        lemma_after_prefix(entries, first, all, first.len());
    } else {
        lemma_after_concat(entries, first, second, (n - 1) as nat);
        assert(all[first.len() + n - 1] == second[n - 1]);
    }
}

/// What is taken off for the first `n` paths depends on these paths alone.
pub proof fn lemma_after_prefix(entries: Seq<(Point, Tile)>, one: Seq<Seq<Point>>, other: Seq<Seq<Point>>, n: nat)
    requires
        n <= one.len(),
        n <= other.len(),
        forall|i: int| 0 <= i < n ==> one[i] == other[i],
    ensures
        after(entries, one, n) == after(entries, other, n),
    decreases n,
{
    if n > 0 {
        lemma_after_prefix(entries, one, other, (n - 1) as nat);
    }
}

/// A path that the connectivity test gives leads from the first cell to the second.
pub proof fn lemma_connection_ends(cells: Map<Point, Tile>, size: Point, a: Point, b: Point)
    ensures
        node_connection(cells, size, a, b) matches Some(path) ==> path.len() >= 2 && path[0] == a && path[path.len()
            - 1] == b,
{
}

/// The pairs of the labels that exactly two tiles carry are pairs of the board, and they
/// follow each other by label.
pub proof fn lemma_single_pairs(entries: Seq<(Point, Tile)>, n: nat)
    requires
        distinct_cells(entries),
        n <= 256,
    ensures
        forall|i: int|
            0 <= i < single_pairs(tile_index(entries, entries.len()), n).len() ==> is_pair(
                entries,
                #[trigger] single_pairs(tile_index(entries, entries.len()), n)[i],
            ) && cells_of(entries)[single_pairs(tile_index(entries, entries.len()), n)[i].0] < n,
        forall|i: int, j: int|
            0 <= i < j < single_pairs(tile_index(entries, entries.len()), n).len() ==> cells_of(
                entries,
            )[single_pairs(tile_index(entries, entries.len()), n)[i].0] < cells_of(entries)[single_pairs(
                tile_index(entries, entries.len()),
                n,
            )[j].0],
    decreases n,
{
    if n > 0 {
        lemma_single_pairs(entries, (n - 1) as nat);
        let index = tile_index(entries, entries.len());
        let t = (n - 1) as Tile;
        let before = single_pairs(index, (n - 1) as nat);
        let now = single_pairs(index, n);
        if index.contains_key(t) && index[t].len() == 2 {
            lemma_index_cells(entries, t);
            let cs = coords_with(entries, t, entries.len());
            assert(index[t] == cs);
            assert(cs[0] != cs[1]);
            assert(lists(entries, cs[0]) && lists(entries, cs[1]));
            let pair = ordered((cs[0], cs[1]));
            assert(is_pair(entries, pair));
            assert(now == before.push(pair));
            assert forall|i: int| 0 <= i < now.len() implies is_pair(entries, #[trigger] now[i]) && cells_of(
                entries,
            )[now[i].0] < n by {
                if i < before.len() {
                    assert(now[i] == before[i]);
                }
            }
            assert forall|i: int, j: int| 0 <= i < j < now.len() implies cells_of(entries)[now[i].0] < cells_of(
                entries,
            )[now[j].0] by {
                assert(now[i] == before[i]);
                if j < before.len() {
                    assert(now[j] == before[j]);
                }
            }
        }
    }
}

/// The paths that join pairs of the board link tiles of the board; where the pairs follow
/// each other by label, so do the paths.
pub proof fn lemma_connections(entries: Seq<(Point, Tile)>, size: Point, pairs: Seq<(Point, Point)>, n: nat)
    requires
        distinct_cells(entries),
        n <= pairs.len(),
        forall|i: int| 0 <= i < pairs.len() ==> is_pair(entries, #[trigger] pairs[i]),
    ensures
        forall|i: int|
            0 <= i < connections(cells_of(entries), size, pairs, n).len() ==> links(
                entries,
                size,
                #[trigger] connections(cells_of(entries), size, pairs, n)[i],
            ),
        forall|i: int|
            0 <= i < connections(cells_of(entries), size, pairs, n).len() ==> exists|k: int|
                0 <= k < n && label_of(entries, #[trigger] connections(cells_of(entries), size, pairs, n)[i])
                    == cells_of(entries)[(#[trigger] pairs[k]).0],
        (forall|i: int, j: int|
            0 <= i < j < pairs.len() ==> cells_of(entries)[(#[trigger] pairs[i]).0] < cells_of(entries)[(#[trigger] pairs[j]).0])
            ==> (forall|i: int, j: int|
            0 <= i < j < connections(cells_of(entries), size, pairs, n).len() ==> label_of(
                entries,
                #[trigger] connections(cells_of(entries), size, pairs, n)[i],
            ) < label_of(entries, #[trigger] connections(cells_of(entries), size, pairs, n)[j])),
    decreases n,
{
    reveal(links);
    if n > 0 {
        lemma_connections(entries, size, pairs, (n - 1) as nat);
        let cells = cells_of(entries);
        let before = connections(cells, size, pairs, (n - 1) as nat);
        let now = connections(cells, size, pairs, n);
        let pair = pairs[n - 1];
        assert(is_pair(entries, pair));
        lemma_cells_of(entries);
        lemma_connection_ends(cells, size, pair.0, pair.1);
        lemma_connection_is_open(cells, size, pair.0, pair.1);
        assert forall|i: int| 0 <= i < now.len() implies links(entries, size, #[trigger] now[i]) by {
            if i < before.len() {
                assert(now[i] == before[i]);
            }
        }
        assert forall|i: int| 0 <= i < now.len() implies exists|k: int|
            0 <= k < n && label_of(entries, #[trigger] now[i]) == cells[(#[trigger] pairs[k]).0] by {
            if i < before.len() {
                assert(now[i] == before[i]);
                let k = choose|k: int| 0 <= k < n - 1 && label_of(entries, before[i]) == cells[(#[trigger] pairs[k]).0];
                assert(label_of(entries, now[i]) == cells[pairs[k].0]);
            } else {
                assert(label_of(entries, now[i]) == cells[pairs[n - 1].0]);
            }
        }
        if forall|i: int, j: int|
            0 <= i < j < pairs.len() ==> cells[(#[trigger] pairs[i]).0] < cells[(#[trigger] pairs[j]).0] {
            assert forall|i: int, j: int| 0 <= i < j < now.len() implies label_of(entries, #[trigger] now[i])
                < label_of(entries, #[trigger] now[j]) by {
                assert(now[i] == before[i]);
                if j < before.len() {
                    assert(now[j] == before[j]);
                } else {
                    let k = choose|k: int| 0 <= k < n - 1 && label_of(entries, before[i]) == cells[(#[trigger] pairs[k]).0];
                    assert(cells[pairs[k].0] < cells[pairs[n - 1].0]);
                }
            }
        }
    }
}

/// Every forced connection of a board links two tiles of the board, and no two of them start
/// from tiles with one label.
pub proof fn lemma_trivial_connections(entries: Seq<(Point, Tile)>, size: Point)
    requires
        distinct_cells(entries),
    ensures
        forall|i: int|
            0 <= i < trivial_connections(entries, size).len() ==> links(
                entries,
                size,
                #[trigger] trivial_connections(entries, size)[i],
            ),
        forall|i: int, j: int|
            0 <= i < j < trivial_connections(entries, size).len() ==> label_of(
                entries,
                #[trigger] trivial_connections(entries, size)[i],
            ) != label_of(entries, #[trigger] trivial_connections(entries, size)[j]),
{
    reveal(trivial_connections);
    let pairs = single_pairs(tile_index(entries, entries.len()), 256);
    lemma_single_pairs(entries, 256);
    lemma_connections(entries, size, pairs, pairs.len());
    let found = connections(cells_of(entries), size, pairs, pairs.len());
    let order = order_of(path_keys(found));
    lemma_order_of(path_keys(found));
    let sorted = trivial_connections(entries, size);
    assert(sorted == arranged(found, order));
    assert forall|i: int| 0 <= i < sorted.len() implies links(entries, size, #[trigger] sorted[i]) by {
        assert(sorted[i] == found[order[i]]);
    }
    assert forall|i: int, j: int| 0 <= i < j < sorted.len() implies label_of(entries, #[trigger] sorted[i])
        != label_of(entries, #[trigger] sorted[j]) by {
        assert(sorted[i] == found[order[i]]);
        assert(sorted[j] == found[order[j]]);
        assert(order[i] != order[j]);
        if order[i] < order[j] {
            assert(label_of(entries, found[order[i]]) < label_of(entries, found[order[j]]));
        } else {
            assert(label_of(entries, found[order[j]]) < label_of(entries, found[order[i]]));
        }
    }
}

/// Every connection of a label links two tiles of the board.
pub proof fn lemma_label_connections(entries: Seq<(Point, Tile)>, size: Point, t: Tile)
    requires
        distinct_cells(entries),
        tile_index(entries, entries.len()).contains_key(t),
    ensures
        forall|i: int|
            0 <= i < label_connections(entries, size, t).len() ==> links(
                entries,
                size,
                #[trigger] label_connections(entries, size, t)[i],
            ),
{
    let index = tile_index(entries, entries.len());
    let cs = coords_with(entries, t, entries.len());
    assert(index[t] == cs);
    lemma_index_cells(entries, t);
    lemma_pairs_of(cs);
    let all = pairs_of(cs);
    let turned = Seq::new(all.len(), |i: int| ordered(all[i]));
    lemma_order_of(pair_keys(turned));
    let pairs = label_pairs(cs);
    assert(pairs == arranged(turned, order_of(pair_keys(turned))));
    assert forall|i: int| 0 <= i < pairs.len() implies is_pair(entries, #[trigger] pairs[i]) by {
        let k = order_of(pair_keys(turned))[i];
        assert(pairs[i] == turned[k]);
        assert(turned[k] == ordered(all[k]));
        assert(pair_from(cs, all[k]));
        let (a, b) = choose|a: int, b: int| #![trigger cs[a], cs[b]] 0 <= a < b < cs.len() && all[k] == (cs[a], cs[b]);
        assert(cs[a] != cs[b]);
        assert(lists(entries, cs[a]) && lists(entries, cs[b]));
        assert(cells_of(entries)[cs[a]] == t && cells_of(entries)[cs[b]] == t);
    }
    lemma_connections(entries, size, pairs, pairs.len());
}

/// Every connection of the labels below `n` links two tiles of the board.
pub proof fn lemma_all_connections(entries: Seq<(Point, Tile)>, size: Point, n: nat)
    requires
        distinct_cells(entries),
    ensures
        forall|i: int|
            0 <= i < all_connections(entries, size, n).len() ==> links(
                entries,
                size,
                #[trigger] all_connections(entries, size, n)[i],
            ),
    decreases n,
{
    if !(n == 0 || n > 256) {
        lemma_all_connections(entries, size, (n - 1) as nat);
        let t = (n - 1) as Tile;
        let before = all_connections(entries, size, (n - 1) as nat);
        let now = all_connections(entries, size, n);
        if tile_index(entries, entries.len()).contains_key(t) {
            lemma_label_connections(entries, size, t);
            let group = label_connections(entries, size, t);
            assert forall|i: int| 0 <= i < now.len() implies links(entries, size, #[trigger] now[i]) by {
                if i < before.len() {
                    assert(now[i] == before[i]);
                } else {
                    assert(now[i] == group[i - before.len()]);
                }
            }
        }
    }
}

/// Every candidate of a board links two tiles of the board.
pub proof fn lemma_candidates(entries: Seq<(Point, Tile)>, size: Point)
    requires
        distinct_cells(entries),
    ensures
        forall|i: int|
            0 <= i < candidates(entries, size).len() ==> links(entries, size, #[trigger] candidates(entries, size)[i]),
{
    reveal(candidates);
    let all = all_connections(entries, size, 256);
    lemma_all_connections(entries, size, 256);
    lemma_order_of(end_keys(all));
    let cands = candidates(entries, size);
    assert forall|i: int| 0 <= i < cands.len() implies links(entries, size, #[trigger] cands[i]) by {
        assert(cands[i] == all[order_of(end_keys(all))[i]]);
    }
}

/// Every forced connection has two ends.
pub proof fn lemma_forced_shape(entries: Seq<(Point, Tile)>, size: Point)
    requires
        distinct_cells(entries),
    ensures
        forall|i: int|
            0 <= i < forced_connections(entries, size).len() ==> (#[trigger] forced_connections(entries, size)[i]).len()
                >= 2,
    decreases entries.len(),
{
    reveal(links);
    reveal(forced_connections);
    let pass = trivial_connections(entries, size);
    let rest = after(entries, pass, pass.len());
    if !(pass.len() == 0 || rest.len() >= entries.len()) {
        lemma_trivial_connections(entries, size);
        lemma_after(entries, pass, pass.len());
        lemma_forced_shape(rest, size);
        let all = forced_connections(entries, size);
        assert forall|i: int| 0 <= i < all.len() implies (#[trigger] all[i]).len() >= 2 by {
            if i < pass.len() {
                assert(links(entries, size, pass[i]));
            } else {
                assert(all[i] == forced_connections(rest, size)[i - pass.len()]);
            }
        }
    }
}

/// A replay: every connection of the list links two tiles of the board as it stands when
/// the connections before it have been made.
pub open spec fn replays(entries: Seq<(Point, Tile)>, size: Point, made: Seq<Seq<Point>>) -> bool {
    forall|i: int| 0 <= i < made.len() ==> links(after(entries, made, i as nat), size, #[trigger] made[i])
}

/// Whether `p` is one of the two ends of the path.
pub open spec fn is_end(path: Seq<Point>, p: Point) -> bool {
    path.len() > 0 && (p == path[0] || p == path[path.len() - 1])
}

/// An open path stays open when tiles are taken off the board.
pub proof fn lemma_joins_survives(
    big: Map<Point, Tile>,
    small: Map<Point, Tile>,
    size: Point,
    a: Point,
    b: Point,
    path: Seq<Point>,
)
    requires
        forall|p: Point| small.contains_key(p) ==> big.contains_key(p),
        joins(big, size, a, b, path),
    ensures
        joins(small, size, a, b, path),
{
    assert forall|i: int| 0 <= i < path.len() - 1 implies segment_open(small, #[trigger] path[i], path[i + 1]) by {
        assert(segment_open(big, path[i], path[i + 1]));
    }
    assert forall|i: int| 0 < i < path.len() - 1 implies free(small, size, #[trigger] path[i]) by {
        assert(free(big, size, path[i]));
    }
}

/// A tile stays on the board as long as no path that ends on it is taken off.
pub proof fn lemma_after_keeps(entries: Seq<(Point, Tile)>, paths: Seq<Seq<Point>>, n: nat, p: Point)
    requires
        distinct_cells(entries),
        n <= paths.len(),
        lists(entries, p),
        forall|j: int| 0 <= j < n ==> !is_end(#[trigger] paths[j], p),
    ensures
        lists(after(entries, paths, n), p),
    decreases n,
{
    if n > 0 {
        lemma_after_keeps(entries, paths, (n - 1) as nat, p);
        lemma_after(entries, paths, (n - 1) as nat);
        let before = after(entries, paths, (n - 1) as nat);
        lemma_without_ends(before, paths[n - 1]);
        lemma_cells_of(before);
        lemma_cells_of(after(entries, paths, n));
        assert(!is_end(paths[n - 1], p));
    }
}

/// A connection of a board still links its two tiles after other tiles were taken off.
pub proof fn lemma_links_survives(entries: Seq<(Point, Tile)>, size: Point, paths: Seq<Seq<Point>>, n: nat, path: Seq<Point>)
    requires
        distinct_cells(entries),
        n <= paths.len(),
        links(entries, size, path),
        forall|j: int| 0 <= j < n ==> !is_end(#[trigger] paths[j], path[0]) && !is_end(paths[j], path[path.len() - 1]),
    ensures
        links(after(entries, paths, n), size, path),
{
    reveal(links);
    let later = after(entries, paths, n);
    lemma_after(entries, paths, n);
    lemma_after_keeps(entries, paths, n, path[0]);
    lemma_after_keeps(entries, paths, n, path[path.len() - 1]);
    lemma_cells_of(entries);
    lemma_cells_of(later);
    lemma_joins_survives(cells_of(entries), cells_of(later), size, path[0], path[path.len() - 1], path);
}

/// Two replays, one after the other, are a replay.
pub proof fn lemma_replays_concat(entries: Seq<(Point, Tile)>, size: Point, first: Seq<Seq<Point>>, second: Seq<Seq<Point>>)
    requires
        replays(entries, size, first),
        replays(after(entries, first, first.len()), size, second),
    ensures
        replays(entries, size, first + second),
{
    let all = first + second;
    assert forall|i: int| 0 <= i < all.len() implies links(after(entries, all, i as nat), size, #[trigger] all[i]) by {
        if i < first.len() {
            lemma_after_prefix(entries, first, all, i as nat);
            assert(links(after(entries, first, i as nat), size, first[i]));
        } else {
            let k = (i - first.len()) as nat;
            lemma_after_concat(entries, first, second, k);
            assert(links(after(after(entries, first, first.len()), second, k), size, second[k as int]));
            assert(all[i] == second[k as int]);
        }
    }
}

/// The forced connections of a board, made in their order, are a replay.
pub proof fn lemma_pass_replays(entries: Seq<(Point, Tile)>, size: Point)
    requires
        distinct_cells(entries),
    ensures
        replays(entries, size, trivial_connections(entries, size)),
{
    reveal(links);
    let pass = trivial_connections(entries, size);
    lemma_trivial_connections(entries, size);
    lemma_cells_of(entries);
    assert forall|i: int| 0 <= i < pass.len() implies links(after(entries, pass, i as nat), size, #[trigger] pass[i]) by {
        assert(links(entries, size, pass[i]));
        assert forall|j: int| 0 <= j < i implies !is_end(#[trigger] pass[j], pass[i][0]) && !is_end(
            pass[j],
            pass[i][pass[i].len() - 1],
        ) by {
            assert(links(entries, size, pass[j]));
            assert(label_of(entries, pass[j]) != label_of(entries, pass[i]));
        }
        lemma_links_survives(entries, size, pass, i as nat, pass[i]);
    }
}

/// All connections that propagation makes on a board, in their order, are a replay.
pub proof fn lemma_forced_replays(entries: Seq<(Point, Tile)>, size: Point)
    requires
        distinct_cells(entries),
    ensures
        replays(entries, size, forced_connections(entries, size)),
    decreases entries.len(),
{
    lemma_forced_unfold(entries, size);
    let pass = trivial_connections(entries, size);
    let rest = after(entries, pass, pass.len());
    if !(pass.len() == 0 || rest.len() >= entries.len()) {
        lemma_pass_replays(entries, size);
        lemma_after(entries, pass, pass.len());
        lemma_forced_replays(rest, size);
        lemma_replays_concat(entries, size, pass, forced_connections(rest, size));
    }
}

/// What assuming a candidate takes off the board is a replay.
pub proof fn lemma_step_replays(entries: Seq<(Point, Tile)>, size: Point, k: int)
    requires
        distinct_cells(entries),
        0 <= k < candidates(entries, size).len(),
    ensures
        replays(entries, size, step_of(entries, size, k)),
        distinct_cells(next_board(entries, size, k)),
{
    reveal(links);
    let assumed = candidates(entries, size)[k];
    lemma_candidates(entries, size);
    assert(links(entries, size, assumed));
    let one = seq![assumed];
    assert(after(entries, one, 0) == entries);
    assert(after(entries, one, 1) == without_ends(after(entries, one, 0), one[0]));
    lemma_without_ends(entries, assumed);
    lemma_forced_replays(without_ends(entries, assumed), size);
    lemma_replays_concat(entries, size, one, forced_connections(without_ends(entries, assumed), size));
    lemma_after(entries, step_of(entries, size, k), step_of(entries, size, k).len());
}

/// What exploring a board finds is a replay that clears the board.
pub proof fn lemma_explore_replays(entries: Seq<(Point, Tile)>, size: Point, k: nat)
    requires
        distinct_cells(entries),
    ensures
        explore(entries, size, k) matches Some(made) ==> replays(entries, size, made) && after(
            entries,
            made,
            made.len(),
        ).len() == 0,
    decreases entries.len(), candidates(entries, size).len() - k,
{
    lemma_explore_unfold(entries, size, k);
    if k < candidates(entries, size).len() {
        let step = step_of(entries, size, k as int);
        let next = next_board(entries, size, k as int);
        lemma_step_replays(entries, size, k as int);
        if next.len() == 0 {
        } else if next.len() < entries.len() {
            lemma_explore_replays(next, size, 0);
            match explore(next, size, 0) {
                Some(rest) => {
                    lemma_replays_concat(entries, size, step, rest);
                    lemma_after_concat(entries, step, rest, rest.len());
                },
                None => {
                    lemma_explore_replays(entries, size, k + 1);
                },
            }
        } else {
            lemma_explore_replays(entries, size, k + 1);
        }
    }
}

/// The connections that the search finds are a replay that clears the board: each of them
/// links two tiles with one label of the board as it stands then, along an open path, and
/// after the last no tile is left.
pub proof fn lemma_search_clears(entries: Seq<(Point, Tile)>, size: Point)
    requires
        distinct_cells(entries),
    ensures
        search(entries, size) matches Some(made) ==> replays(entries, size, made) && after(
            entries,
            made,
            made.len(),
        ).len() == 0,
{
    let first = forced_connections(entries, size);
    let rest = after(entries, first, first.len());
    lemma_forced_replays(entries, size);
    lemma_after(entries, first, first.len());
    if rest.len() != 0 {
        lemma_explore_replays(rest, size, 0);
        match explore(rest, size, 0) {
            Some(tail) => {
                lemma_replays_concat(entries, size, first, tail);
                lemma_after_concat(entries, first, tail, tail.len());
            },
            None => {},
        }
    }
}

/// Propagation runs to its end: on the board that it leaves no connection is forced, so a
/// second propagation makes no connection and leaves the board as it is.
pub proof fn lemma_propagation_settles(entries: Seq<(Point, Tile)>, size: Point)
    requires
        distinct_cells(entries),
    ensures
        ({
            let made = forced_connections(entries, size);
            let left = after(entries, made, made.len());
            &&& trivial_connections(left, size).len() == 0
            &&& forced_connections(left, size) == Seq::<Seq<Point>>::empty()
            &&& after(left, forced_connections(left, size), 0) == left
        }),
    decreases entries.len(),
{
    reveal(links);
    lemma_forced_unfold(entries, size);
    let pass = trivial_connections(entries, size);
    let rest = after(entries, pass, pass.len());
    if pass.len() == 0 {
    } else {
        lemma_trivial_connections(entries, size);
        assert(links(entries, size, pass[0]));
        lemma_after(entries, pass, pass.len());
        lemma_propagation_settles(rest, size);
        lemma_after_concat(entries, pass, forced_connections(rest, size), forced_connections(rest, size).len());
    }
    let made = forced_connections(entries, size);
    let left = after(entries, made, made.len());
    lemma_forced_unfold(left, size);
}

/// A replay that clears a board pairs up its tiles: every tile is an end of one of the
/// connections, no tile is an end of two, and the two ends of a connection differ.
pub proof fn lemma_replay_partitions(entries: Seq<(Point, Tile)>, size: Point, made: Seq<Seq<Point>>, n: nat)
    requires
        distinct_cells(entries),
        replays(entries, size, made),
        n <= made.len(),
    ensures
        after(entries, made, n).len() + 2 * n == entries.len(),
        forall|p: Point|
            lists(entries, p) ==> lists(after(entries, made, n), p) || exists|i: int|
                0 <= i < n && is_end(#[trigger] made[i], p),
        forall|i: int, j: int|
            0 <= i < j < n ==> !is_end(#[trigger] made[i], (#[trigger] made[j])[0]) && !is_end(
                made[i],
                made[j][made[j].len() - 1],
            ),
        forall|i: int| 0 <= i < n ==> (#[trigger] made[i])[0] != made[i][made[i].len() - 1],
    decreases n,
{
    reveal(links);
    if n > 0 {
        lemma_replay_partitions(entries, size, made, (n - 1) as nat);
        lemma_after(entries, made, (n - 1) as nat);
        let before = after(entries, made, (n - 1) as nat);
        let now = after(entries, made, n);
        let path = made[n - 1];
        assert(links(before, size, path));
        lemma_without_ends(before, path);
        lemma_cells_of(before);
        lemma_cells_of(now);
        crate::components::lemma_without_tile(before, path[0]);
        lemma_cells_of(without_tile(before, path[0]));
        lemma_without_tile_len(before, path[0]);
        lemma_without_tile_len(without_tile(before, path[0]), path[path.len() - 1]);
        assert forall|p: Point| lists(entries, p) implies lists(now, p) || exists|i: int|
            0 <= i < n && is_end(#[trigger] made[i], p) by {
            if lists(before, p) {
                if !lists(now, p) {
                    assert(is_end(made[n - 1], p));
                }
            } else {
                let i = choose|i: int| 0 <= i < n - 1 && is_end(#[trigger] made[i], p);
                assert(is_end(made[i], p));
            }
        }
        assert forall|i: int, j: int| 0 <= i < j < n implies !is_end(#[trigger] made[i], (#[trigger] made[j])[0])
            && !is_end(made[i], made[j][made[j].len() - 1]) by {
            if j == n - 1 {
                assert(links(after(entries, made, i as nat), size, made[i]));
                lemma_after_gone(entries, made, i as nat, (n - 1) as nat);
            }
        }
    }
}

/// The tiles on the ends of a connection that was made are gone from every later board.
pub proof fn lemma_after_gone(entries: Seq<(Point, Tile)>, made: Seq<Seq<Point>>, i: nat, n: nat)
    requires
        distinct_cells(entries),
        i < n <= made.len(),
        made[i as int].len() > 0,
    ensures
        !lists(after(entries, made, n), made[i as int][0]),
        !lists(after(entries, made, n), made[i as int][made[i as int].len() - 1]),
    decreases n,
{
    lemma_after(entries, made, (n - 1) as nat);
    let before = after(entries, made, (n - 1) as nat);
    lemma_without_ends(before, made[n - 1]);
    lemma_cells_of(before);
    lemma_cells_of(after(entries, made, n));
    if i < n - 1 {
        lemma_after_gone(entries, made, i, (n - 1) as nat);
    }
}

/// Replaying the connectivity test along a replay finds a path for every connection: on the
/// board as it stands when the connections before it have been made, the test joins the two
/// ends of the connection.
pub proof fn lemma_replay_reproduces(entries: Seq<(Point, Tile)>, size: Point, made: Seq<Seq<Point>>, i: int)
    requires
        distinct_cells(entries),
        fits(entries, size),
        replays(entries, size, made),
        0 <= i < made.len(),
    ensures
        node_connection(
            cells_of(after(entries, made, i as nat)),
            size,
            made[i][0],
            made[i][made[i].len() - 1],
        ) is Some,
{
    reveal(links);
    let board = after(entries, made, i as nat);
    let path = made[i];
    let (a, b) = (path[0], path[path.len() - 1]);
    assert(links(board, size, path));
    lemma_after(entries, made, i as nat);
    assert(lists(entries, a) && lists(entries, b));
    let ia = index_of(entries, a);
    let ib = index_of(entries, b);
    assert(entries[ia].0 == a && entries[ib].0 == b);
    assert(inside(size, a) && inside(size, b));
    assert(connectable(cells_of(board), size, a, b));
    lemma_connection_is_found(cells_of(board), size, a, b);
}

} // verus!
