//! What holds of the forced connections and of the candidates of a dense board.
use vstd::prelude::*;
use crate::components::{lists, Point, Tile};
use crate::dense::connect::{
    connection, double_of, faced_cols, faced_rows, in_sight, joins_pair, l_dirs,
    lemma_connection_is_found, lemma_connection_is_open, runs, slots, triple_of,
};
use crate::dense::solver::{
    all_label_links, all_links, all_place_pairs, board_index, candidates, cleared, explore,
    forced_links, label_links, lemma_explore_unfold, lemma_forced_unfold, lemma_pass_shrinks,
    link_keys, link_of, next_cells, pairs_inside, place_pairs, place_row, search, single_links,
    step_of, Link,
};
use crate::order::{lemma_order_of, order_of};
use crate::dense::tiles::{lemma_count_drops, lemma_tiles_of, tile_count, tiles_of};
use crate::geometry::{connectable, inside, joins};
use crate::solver::laws::{lemma_index_cells, lemma_joins_survives};
use crate::solver::lut::coords_with;

verus! {

/// The points that the slots of a path hold, up to the first empty slot.
pub open spec fn filled(slots: Seq<Option<Point>>) -> Seq<Point> {
    if slots.len() < 4 || slots[0] is None {
        Seq::empty()
    } else if slots[1] is None {
        seq![slots[0]->0]
    } else if slots[2] is None {
        seq![slots[0]->0, slots[1]->0]
    } else if slots[3] is None {
        seq![slots[0]->0, slots[1]->0, slots[2]->0]
    } else {
        seq![slots[0]->0, slots[1]->0, slots[2]->0, slots[3]->0]
    }
}

/// The slots of a path of up to four points hold the path.
pub proof fn lemma_filled(path: Seq<Point>)
    requires
        path.len() <= 4,
    ensures
        filled(slots(path)) == path,
{
    assert(filled(slots(path)) =~= path);
}

/// The connection stands on the board: its two cells are different tiles of the board with
/// its label, and its path joins them and is open.
#[verifier::opaque]
pub open spec fn holds(cells: Map<Point, Tile>, size: Point, link: Link) -> bool {
    let (a, b) = link.1;
    &&& a != b
    &&& inside(size, a) && inside(size, b)
    &&& cells.contains_key(a) && cells.contains_key(b)
    &&& cells[a] == link.0 && cells[b] == link.0
    &&& joins_pair(cells, size, a, b, filled(link.2))
}

/// A replay: every connection of the list stands on the board as it is when the tiles of the
/// connections before it have been taken off.
pub open spec fn replays(cells: Map<Point, Tile>, size: Point, made: Seq<Link>) -> bool {
    forall|i: int| 0 <= i < made.len() ==> holds(cleared(cells, made, i as nat), size, #[trigger] made[i])
}

/// Whether `p` is a cell of none of the first `n` connections.
pub open spec fn untouched(links: Seq<Link>, n: nat, p: Point) -> bool {
    forall|j: int| 0 <= j < n ==> !is_end(#[trigger] links[j], p)
}

/// Whether `p` is one of the two cells of the connection.
pub open spec fn is_end(link: Link, p: Point) -> bool {
    p == link.1.0 || p == link.1.1
}

/// A path that the connectivity test gives has at most four points.
pub proof fn lemma_connection_len(cells: Map<Point, Tile>, size: Point, a: Point, b: Point)
    ensures
        connection(cells, size, a, b) matches Some(path) ==> 2 <= path.len() <= 4,
{
    if !in_sight(cells, size, a, b) {
        let l = l_dirs(a, b);
        lemma_double_of_len(runs(cells, size, a, b, l.0));
        lemma_double_of_len(runs(cells, size, a, b, l.1));
        lemma_triple_of_len(cells, size, runs(cells, size, a, b, faced_rows(a, b)));
        lemma_triple_of_len(cells, size, runs(cells, size, a, b, faced_cols(a, b)));
        lemma_triple_of_len(cells, size, runs(cells, size, a, b, Some(((1, 0), (1, 0)))));
        lemma_triple_of_len(cells, size, runs(cells, size, a, b, Some(((-1, 0), (-1, 0)))));
        lemma_triple_of_len(cells, size, runs(cells, size, a, b, Some(((0, 1), (0, 1)))));
        lemma_triple_of_len(cells, size, runs(cells, size, a, b, Some(((0, -1), (0, -1)))));
    }
}

/// A path with one bend has three points.
proof fn lemma_double_of_len(g: Option<((Point, Point), (Point, Point))>)
    ensures
        double_of(g) matches Some(path) ==> path.len() == 3,
{
}

/// A path with two bends has four points.
proof fn lemma_triple_of_len(cells: Map<Point, Tile>, size: Point, g: Option<((Point, Point), (Point, Point))>)
    ensures
        triple_of(cells, size, g) matches Some(path) ==> path.len() == 4,
{
}

/// The connection between two tiles of the board with one label stands on the board.
pub proof fn lemma_link_of(cells: Map<Point, Tile>, size: Point, t: Tile, pair: (Point, Point))
    requires
        pair.0 != pair.1,
        inside(size, pair.0),
        inside(size, pair.1),
        cells.contains_key(pair.0),
        cells.contains_key(pair.1),
        cells[pair.0] == t,
        cells[pair.1] == t,
    ensures
        link_of(cells, size, t, pair) matches Some(link) ==> holds(cells, size, link) && link.0 == t && link.1 == pair,
{
    reveal(holds);
    lemma_connection_len(cells, size, pair.0, pair.1);
    lemma_connection_is_open(cells, size, pair.0, pair.1);
    if let Some(path) = connection(cells, size, pair.0, pair.1) {
        lemma_filled(path);
    }
}

/// The cells under a label of the index are different tiles of the board with that label.
pub proof fn lemma_board_index(cells: Map<Point, Tile>, size: Point, t: Tile)
    requires
        size.0 >= 0,
        size.1 >= 0,
    ensures
        forall|j: int|
            0 <= j < coords_with(tiles_of(cells, size), t, tiles_of(cells, size).len()).len() ==> {
                let p = #[trigger] coords_with(tiles_of(cells, size), t, tiles_of(cells, size).len())[j];
                inside(size, p) && cells.contains_key(p) && cells[p] == t
            },
        forall|j: int, k: int|
            0 <= j < k < coords_with(tiles_of(cells, size), t, tiles_of(cells, size).len()).len() ==> coords_with(
                tiles_of(cells, size),
                t,
                tiles_of(cells, size).len(),
            )[j] != coords_with(tiles_of(cells, size), t, tiles_of(cells, size).len())[k],
{
    let tiles = tiles_of(cells, size);
    lemma_tiles_of(cells, size);
    lemma_index_cells(tiles, t);
    let cs = coords_with(tiles, t, tiles.len());
    assert forall|j: int| 0 <= j < cs.len() implies {
        let p = #[trigger] cs[j];
        inside(size, p) && cells.contains_key(p) && cells[p] == t
    } by {
        assert(lists(tiles, cs[j]));
    }
}

/// Taking tiles off leaves a part of the board: the cells that are left are cells of the
/// board with their labels, and they are the cells that are no end of a connection.
pub proof fn lemma_cleared(cells: Map<Point, Tile>, links: Seq<Link>, n: nat)
    requires
        n <= links.len(),
    ensures
        forall|p: Point| #[trigger] cleared(cells, links, n).contains_key(p) ==> cells.contains_key(p) && cleared(cells, links, n)[p]
            == cells[p],
        forall|p: Point| #[trigger] cleared(cells, links, n).contains_key(p) <==> cells.contains_key(p) && untouched(links, n, p),
    decreases n,
{
    if n > 0 {
        lemma_cleared(cells, links, (n - 1) as nat);
        let before = cleared(cells, links, (n - 1) as nat);
        let now = cleared(cells, links, n);
        assert forall|p: Point| #[trigger] now.contains_key(p) <==> cells.contains_key(p) && untouched(links, n, p) by {
            assert(before.contains_key(p) <==> cells.contains_key(p) && untouched(links, (n - 1) as nat, p));
            if untouched(links, n, p) {
                assert(!is_end(links[n - 1], p));
                assert forall|j: int| 0 <= j < n - 1 implies !is_end(#[trigger] links[j], p) by {}
            }
            if untouched(links, (n - 1) as nat, p) && !is_end(links[n - 1], p) {
                assert forall|j: int| 0 <= j < n implies !is_end(#[trigger] links[j], p) by {
                    if j < n - 1 {
                    }
                }
            }
        }
    }
}

/// What is taken off for the first `n` connections depends on these connections alone.
pub proof fn lemma_cleared_prefix(cells: Map<Point, Tile>, one: Seq<Link>, other: Seq<Link>, n: nat)
    requires
        n <= one.len(),
        n <= other.len(),
        forall|i: int| 0 <= i < n ==> one[i] == other[i],
    ensures
        cleared(cells, one, n) == cleared(cells, other, n),
    decreases n,
{
    if n > 0 {
        lemma_cleared_prefix(cells, one, other, (n - 1) as nat);
    }
}

/// Taking off the tiles of one list of connections and then those of another is taking off
/// the tiles of the two lists joined.
pub proof fn lemma_cleared_concat(cells: Map<Point, Tile>, first: Seq<Link>, second: Seq<Link>, n: nat)
    requires
        n <= second.len(),
    ensures
        cleared(cells, first + second, first.len() + n) == cleared(cleared(cells, first, first.len()), second, n),
    decreases n,
{
    let all = first + second;
    if n == 0 {
        lemma_cleared_prefix(cells, first, all, first.len());
    } else {
        lemma_cleared_concat(cells, first, second, (n - 1) as nat);
        assert(all[first.len() + n - 1] == second[n - 1]);
    }
}

/// A connection still stands on the board after other tiles were taken off.
pub proof fn lemma_holds_survives(big: Map<Point, Tile>, small: Map<Point, Tile>, size: Point, link: Link)
    requires
        holds(big, size, link),
        forall|p: Point| #[trigger] small.contains_key(p) ==> big.contains_key(p) && small[p] == big[p],
        small.contains_key(link.1.0),
        small.contains_key(link.1.1),
    ensures
        holds(small, size, link),
{
    reveal(holds);
    let (a, b) = link.1;
    let path = filled(link.2);
    assert forall|p: Point| small.contains_key(p) implies big.contains_key(p) by {}
    if joins(big, size, a, b, path) {
        lemma_joins_survives(big, small, size, a, b, path);
    } else {
        lemma_joins_survives(big, small, size, b, a, path);
    }
}

/// Two replays, one after the other, are a replay.
pub proof fn lemma_replays_concat(cells: Map<Point, Tile>, size: Point, first: Seq<Link>, second: Seq<Link>)
    requires
        replays(cells, size, first),
        replays(cleared(cells, first, first.len()), size, second),
    ensures
        replays(cells, size, first + second),
{
    let all = first + second;
    assert forall|i: int| 0 <= i < all.len() implies holds(cleared(cells, all, i as nat), size, #[trigger] all[i]) by {
        if i < first.len() {
            lemma_cleared_prefix(cells, first, all, i as nat);
            assert(holds(cleared(cells, first, i as nat), size, first[i]));
        } else {
            let k = (i - first.len()) as nat;
            lemma_cleared_concat(cells, first, second, k);
            assert(holds(cleared(cleared(cells, first, first.len()), second, k), size, second[k as int]));
            assert(all[i] == second[k as int]);
        }
    }
}

/// Every forced connection of a board stands on the board, and the forced connections follow
/// each other by label.
pub proof fn lemma_single_links(cells: Map<Point, Tile>, size: Point, n: nat)
    requires
        size.0 >= 0,
        size.1 >= 0,
        n <= 256,
    ensures
        forall|i: int|
            0 <= i < single_links(cells, size, n).len() ==> holds(cells, size, #[trigger] single_links(cells, size, n)[i])
                && single_links(cells, size, n)[i].0 < n,
        forall|i: int, j: int|
            0 <= i < j < single_links(cells, size, n).len() ==> (#[trigger] single_links(cells, size, n)[i]).0 < (#[trigger] single_links(
                cells,
                size,
                n,
            )[j]).0,
    decreases n,
{
    if n > 0 {
        lemma_single_links(cells, size, (n - 1) as nat);
        let before = single_links(cells, size, (n - 1) as nat);
        let now = single_links(cells, size, n);
        let t = (n - 1) as Tile;
        let index = board_index(cells, size);
        if index.contains_key(t) && index[t].len() == 2 {
            lemma_board_index(cells, size, t);
            let cs = coords_with(tiles_of(cells, size), t, tiles_of(cells, size).len());
            assert(index[t] == cs);
            let pair = (cs[0], cs[1]);
            assert(cs[0] != cs[1]);
            lemma_link_of(cells, size, t, pair);
            assert forall|i: int| 0 <= i < now.len() implies holds(cells, size, #[trigger] now[i]) && now[i].0 < n by {
                if i < before.len() {
                    assert(now[i] == before[i]);
                }
            }
            assert forall|i: int, j: int| 0 <= i < j < now.len() implies (#[trigger] now[i]).0 < (#[trigger] now[j]).0 by {
                assert(now[i] == before[i]);
                if j < before.len() {
                    assert(now[j] == before[j]);
                }
            }
        }
    }
}

/// The forced connections of a board, made in their order, are a replay.
pub proof fn lemma_pass_replays(cells: Map<Point, Tile>, size: Point)
    requires
        size.0 >= 0,
        size.1 >= 0,
    ensures
        replays(cells, size, single_links(cells, size, 256)),
{
    let pass = single_links(cells, size, 256);
    lemma_single_links(cells, size, 256);
    assert forall|i: int| 0 <= i < pass.len() implies holds(cleared(cells, pass, i as nat), size, #[trigger] pass[i]) by {
        let small = cleared(cells, pass, i as nat);
        lemma_cleared(cells, pass, i as nat);
        assert(holds(cells, size, pass[i]));
        assert(untouched(pass, i as nat, pass[i].1.0) && untouched(pass, i as nat, pass[i].1.1)) by {
            reveal(holds);
            assert forall|j: int| 0 <= j < i implies !is_end(#[trigger] pass[j], pass[i].1.0) && !is_end(
                pass[j],
                pass[i].1.1,
            ) by {
                assert(holds(cells, size, pass[j]));
                assert(pass[j].0 < pass[i].0);
            }
        }
        assert(small.contains_key(pass[i].1.0) && small.contains_key(pass[i].1.1)) by {
            reveal(holds);
        }
        lemma_holds_survives(cells, small, size, pass[i]);
    }
}

/// Every pair of places holds two places of the list, the first before the second.
pub proof fn lemma_place_pairs(n: int)
    ensures
        forall|k: int|
            0 <= k < all_place_pairs(n).len() ==> 0 <= (#[trigger] all_place_pairs(n)[k]).0 < all_place_pairs(n)[k].1 < n,
{
    if n > 0 {
        lemma_place_pairs_before(n, n - 1);
    }
}

/// Every pair of a row holds the place of the row and a place behind it.
proof fn lemma_place_row(i: int, j: int)
    requires
        0 <= i,
    ensures
        forall|k: int| 0 <= k < place_row(i, j).len() ==> (#[trigger] place_row(i, j)[k]).0 == i && i < place_row(i, j)[k].1 < j,
    decreases j - i,
{
    if j > i + 1 {
        lemma_place_row(i, j - 1);
        let before = place_row(i, j - 1);
        let now = place_row(i, j);
        assert forall|k: int| 0 <= k < now.len() implies (#[trigger] now[k]).0 == i && i < now[k].1 < j by {
            if k < before.len() {
                assert(now[k] == before[k]);
            }
        }
    }
}

/// Every pair before a place holds two places of the list, the first before the second.
proof fn lemma_place_pairs_before(n: int, i: int)
    requires
        0 <= i <= n,
    ensures
        forall|k: int|
            0 <= k < place_pairs(n, i).len() ==> 0 <= (#[trigger] place_pairs(n, i)[k]).0 < place_pairs(n, i)[k].1 < n,
    decreases i,
{
    if i > 0 {
        lemma_place_pairs_before(n, i - 1);
        lemma_place_row(i - 1, n);
        let before = place_pairs(n, i - 1);
        let row = place_row(i - 1, n);
        let now = place_pairs(n, i);
        assert forall|k: int| 0 <= k < now.len() implies 0 <= (#[trigger] now[k]).0 < now[k].1 < n by {
            if k < before.len() {
                assert(now[k] == before[k]);
            } else {
                assert(now[k] == row[k - before.len()]);
            }
        }
    }
}

/// Every connection among the cells of a label stands on the board.
pub proof fn lemma_label_links(cells: Map<Point, Tile>, size: Point, t: Tile, n: nat)
    requires
        size.0 >= 0,
        size.1 >= 0,
        board_index(cells, size).contains_key(t),
    ensures
        forall|i: int|
            0 <= i < label_links(cells, size, t, board_index(cells, size)[t], n).len() ==> holds(
                cells,
                size,
                #[trigger] label_links(cells, size, t, board_index(cells, size)[t], n)[i],
            ),
    decreases n,
{
    let coords = board_index(cells, size)[t];
    let pairs = all_place_pairs(coords.len() as int);
    if !(n == 0 || n > pairs.len()) {
        lemma_label_links(cells, size, t, (n - 1) as nat);
        lemma_place_pairs(coords.len() as int);
        let before = label_links(cells, size, t, coords, (n - 1) as nat);
        let now = label_links(cells, size, t, coords, n);
        let (i, j) = pairs[n - 1];
        assert(0 <= i < j < coords.len());
        assert(coords.len() > 0);
        lemma_board_index(cells, size, t);
        let cs = coords_with(tiles_of(cells, size), t, tiles_of(cells, size).len());
        assert(coords == cs);
        assert(cs[i] != cs[j]);
        lemma_link_of(cells, size, t, (cs[i], cs[j]));
        assert forall|k: int| 0 <= k < now.len() implies holds(cells, size, #[trigger] now[k]) by {
            if k < before.len() {
                assert(now[k] == before[k]);
            }
        }
    }
}

/// Every connection between tiles with one label stands on the board.
pub proof fn lemma_all_links(cells: Map<Point, Tile>, size: Point, n: nat)
    requires
        size.0 >= 0,
        size.1 >= 0,
    ensures
        forall|i: int| 0 <= i < all_links(cells, size, n).len() ==> holds(cells, size, #[trigger] all_links(cells, size, n)[i]),
    decreases n,
{
    if !(n == 0 || n > 256) {
        lemma_all_links(cells, size, (n - 1) as nat);
        let t = (n - 1) as Tile;
        let index = board_index(cells, size);
        let before = all_links(cells, size, (n - 1) as nat);
        let now = all_links(cells, size, n);
        if index.contains_key(t) {
            let group = all_label_links(cells, size, t, index[t]);
            lemma_label_links(cells, size, t, all_place_pairs(index[t].len() as int).len());
            assert forall|i: int| 0 <= i < now.len() implies holds(cells, size, #[trigger] now[i]) by {
                if i < before.len() {
                    assert(now[i] == before[i]);
                } else {
                    assert(now[i] == group[i - before.len()]);
                }
            }
        }
    }
}

/// Every candidate of a board stands on the board.
pub proof fn lemma_candidates(cells: Map<Point, Tile>, size: Point)
    requires
        size.0 >= 0,
        size.1 >= 0,
    ensures
        forall|i: int| 0 <= i < candidates(cells, size).len() ==> holds(cells, size, #[trigger] candidates(cells, size)[i]),
{
    reveal(candidates);
    let all = all_links(cells, size, 256);
    lemma_all_links(cells, size, 256);
    lemma_order_of(link_keys(all));
    let cands = candidates(cells, size);
    assert forall|i: int| 0 <= i < cands.len() implies holds(cells, size, #[trigger] cands[i]) by {
        assert(cands[i] == all[order_of(link_keys(all))[i]]);
    }
}

/// All connections that propagation makes on a board, in their order, are a replay.
pub proof fn lemma_forced_replays(cells: Map<Point, Tile>, size: Point)
    requires
        size.0 >= 0,
        size.1 >= 0,
    ensures
        replays(cells, size, forced_links(cells, size)),
    decreases tile_count(cells, size),
{
    lemma_forced_unfold(cells, size);
    let pass = single_links(cells, size, 256);
    let rest = cleared(cells, pass, pass.len());
    if !(pass.len() == 0 || tile_count(rest, size) >= tile_count(cells, size)) {
        lemma_pass_replays(cells, size);
        lemma_forced_replays(rest, size);
        lemma_replays_concat(cells, size, pass, forced_links(rest, size));
    }
}

/// The two cells of every connection of a replay lie inside the board.
pub proof fn lemma_replay_inside(cells: Map<Point, Tile>, size: Point, made: Seq<Link>)
    requires
        replays(cells, size, made),
    ensures
        pairs_inside(made, size),
{
    reveal(holds);
    assert forall|i: int| 0 <= i < made.len() implies inside(size, (#[trigger] made[i]).1.0) && inside(size, made[i].1.1) by {
        assert(holds(cleared(cells, made, i as nat), size, made[i]));
    }
}

/// Taking the tiles of a replay off makes the number of tiles no greater, and smaller where a
/// connection is made.
pub proof fn lemma_replay_shrinks(cells: Map<Point, Tile>, size: Point, made: Seq<Link>)
    requires
        size.0 >= 0,
        size.1 >= 0,
        replays(cells, size, made),
    ensures
        tile_count(cleared(cells, made, made.len()), size) <= tile_count(cells, size),
        made.len() > 0 ==> tile_count(cleared(cells, made, made.len()), size) < tile_count(cells, size),
{
    reveal(holds);
    let rest = cleared(cells, made, made.len());
    lemma_cleared(cells, made, made.len());
    assert forall|q: Point| rest.contains_key(q) implies cells.contains_key(q) by {}
    lemma_count_drops(cells, rest, size);
    if made.len() > 0 {
        let p = made[0].1.0;
        assert(holds(cleared(cells, made, 0), size, made[0]));
        assert(is_end(made[0], p));
        assert(!untouched(made, made.len(), p));
        assert(!rest.contains_key(p));
    }
}

/// What assuming a candidate takes off the board is a replay.
pub proof fn lemma_step_replays(cells: Map<Point, Tile>, size: Point, k: int)
    requires
        size.0 >= 0,
        size.1 >= 0,
        0 <= k < candidates(cells, size).len(),
    ensures
        replays(cells, size, step_of(cells, size, k)),
        replays(cells, size, seq![candidates(cells, size)[k]]),
        pairs_inside(step_of(cells, size, k), size),
        tile_count(next_cells(cells, size, k), size) < tile_count(cells, size),
{
    let assumed = candidates(cells, size)[k];
    lemma_candidates(cells, size);
    assert(holds(cells, size, assumed));
    let one = seq![assumed];
    assert(cleared(cells, one, 0) == cells);
    assert(replays(cells, size, one));
    lemma_forced_replays(cleared(cells, one, 1), size);
    lemma_replays_concat(cells, size, one, forced_links(cleared(cells, one, 1), size));
    lemma_replay_inside(cells, size, step_of(cells, size, k));
    lemma_replay_shrinks(cells, size, step_of(cells, size, k));
}

/// What exploring a board finds is a replay that clears the board.
pub proof fn lemma_explore_replays(cells: Map<Point, Tile>, size: Point, k: nat)
    requires
        size.0 >= 0,
        size.1 >= 0,
    ensures
        explore(cells, size, k) matches Some(made) ==> replays(cells, size, made) && tile_count(
            cleared(cells, made, made.len()),
            size,
        ) == 0,
    decreases tile_count(cells, size), candidates(cells, size).len() - k,
{
    lemma_explore_unfold(cells, size, k);
    if k < candidates(cells, size).len() {
        let step = step_of(cells, size, k as int);
        let next = next_cells(cells, size, k as int);
        lemma_step_replays(cells, size, k as int);
        if tile_count(next, size) == 0 {
        } else if tile_count(next, size) < tile_count(cells, size) {
            lemma_explore_replays(next, size, 0);
            match explore(next, size, 0) {
                Some(rest) => {
                    lemma_replays_concat(cells, size, step, rest);
                    lemma_cleared_concat(cells, step, rest, rest.len());
                },
                None => {
                    lemma_explore_replays(cells, size, k + 1);
                },
            }
        } else {
            lemma_explore_replays(cells, size, k + 1);
        }
    }
}

/// The connections that the search finds are a replay that clears the board: each of them
/// joins two tiles with one label of the board as it stands then, along an open path, and
/// after the last no tile is left.
pub proof fn lemma_search_clears(cells: Map<Point, Tile>, size: Point)
    requires
        size.0 >= 0,
        size.1 >= 0,
    ensures
        search(cells, size) matches Some(made) ==> replays(cells, size, made) && tile_count(
            cleared(cells, made, made.len()),
            size,
        ) == 0,
{
    let first = forced_links(cells, size);
    let rest = cleared(cells, first, first.len());
    lemma_forced_replays(cells, size);
    if tile_count(rest, size) != 0 {
        lemma_explore_replays(rest, size, 0);
        match explore(rest, size, 0) {
            Some(tail) => {
                lemma_replays_concat(cells, size, first, tail);
                lemma_cleared_concat(cells, first, tail, tail.len());
            },
            None => {},
        }
    }
}

/// Propagation runs to its end: on the board that it leaves no connection is forced, so a
/// second propagation makes no connection and leaves the board as it is.
pub proof fn lemma_propagation_settles(cells: Map<Point, Tile>, size: Point)
    requires
        size.0 >= 0,
        size.1 >= 0,
    ensures
        ({
            let made = forced_links(cells, size);
            let left = cleared(cells, made, made.len());
            &&& single_links(left, size, 256).len() == 0
            &&& forced_links(left, size) == Seq::<Link>::empty()
            &&& cleared(left, forced_links(left, size), 0) == left
        }),
    decreases tile_count(cells, size),
{
    lemma_forced_unfold(cells, size);
    let pass = single_links(cells, size, 256);
    let rest = cleared(cells, pass, pass.len());
    if pass.len() != 0 {
        lemma_pass_shrinks(cells, size);
        lemma_propagation_settles(rest, size);
        lemma_cleared_concat(cells, pass, forced_links(rest, size), forced_links(rest, size).len());
    }
    let made = forced_links(cells, size);
    let left = cleared(cells, made, made.len());
    lemma_forced_unfold(left, size);
}

/// A replay that clears a board pairs up its tiles: every tile of the board is a cell of one
/// of the connections, no tile is a cell of two, and the two cells of a connection differ.
pub proof fn lemma_replay_partitions(cells: Map<Point, Tile>, size: Point, made: Seq<Link>)
    requires
        size.0 >= 0,
        size.1 >= 0,
        replays(cells, size, made),
        tile_count(cleared(cells, made, made.len()), size) == 0,
    ensures
        forall|p: Point| inside(size, p) && cells.contains_key(p) ==> !untouched(made, made.len(), p),
        forall|i: int, j: int|
            0 <= i < j < made.len() ==> !is_end(#[trigger] made[i], (#[trigger] made[j]).1.0) && !is_end(made[i], made[j].1.1),
        forall|i: int| 0 <= i < made.len() ==> (#[trigger] made[i]).1.0 != made[i].1.1,
{
    reveal(holds);
    let left = cleared(cells, made, made.len());
    lemma_cleared(cells, made, made.len());
    crate::dense::tiles::lemma_count_zero(left, size);
    assert forall|p: Point| inside(size, p) && cells.contains_key(p) implies !untouched(made, made.len(), p) by {
        assert(!left.contains_key(p));
    }
    assert forall|i: int, j: int| 0 <= i < j < made.len() implies !is_end(#[trigger] made[i], (#[trigger] made[j]).1.0)
        && !is_end(made[i], made[j].1.1) by {
        let board = cleared(cells, made, j as nat);
        lemma_cleared(cells, made, j as nat);
        assert(holds(board, size, made[j]));
        assert(board.contains_key(made[j].1.0) && board.contains_key(made[j].1.1));
        assert(untouched(made, j as nat, made[j].1.0) && untouched(made, j as nat, made[j].1.1));
    }
    assert forall|i: int| 0 <= i < made.len() implies (#[trigger] made[i]).1.0 != made[i].1.1 by {
        assert(holds(cleared(cells, made, i as nat), size, made[i]));
    }
}

/// Replaying the connectivity test along a replay finds a path for every connection: on the
/// board as it stands when the connections before it have been made, the test joins the two
/// cells of the connection.
pub proof fn lemma_replay_reproduces(cells: Map<Point, Tile>, size: Point, made: Seq<Link>, i: int)
    requires
        replays(cells, size, made),
        0 <= i < made.len(),
    ensures
        connection(cleared(cells, made, i as nat), size, made[i].1.0, made[i].1.1) is Some,
{
    reveal(holds);
    let board = cleared(cells, made, i as nat);
    let link = made[i];
    assert(holds(board, size, link));
    let (a, b) = link.1;
    let path = filled(link.2);
    if joins(board, size, a, b, path) {
        lemma_connection_is_found(board, size, a, b);
    } else {
        assert(joins(board, size, b, a, path));
        lemma_joins_back(board, size, b, a, path);
        lemma_connection_is_found(board, size, a, b);
    }
}

/// Two cells that an open path joins are joined in both directions.
pub proof fn lemma_joins_back(cells: Map<Point, Tile>, size: Point, a: Point, b: Point, path: Seq<Point>)
    requires
        joins(cells, size, a, b, path),
    ensures
        connectable(cells, size, b, a),
{
    let back = path.reverse();
    assert forall|i: int| 0 <= i < back.len() - 1 implies crate::geometry::segment_open(
        cells,
        #[trigger] back[i],
        back[i + 1],
    ) by {
        let j = path.len() - 2 - i;
        assert(crate::geometry::segment_open(cells, path[j], path[j + 1]));
        assert(back[i] == path[j + 1] && back[i + 1] == path[j]);
    }
    assert forall|i: int| 0 < i < back.len() - 1 implies crate::geometry::free(cells, size, #[trigger] back[i]) by {
        let j = path.len() - 1 - i;
        assert(crate::geometry::free(cells, size, path[j]));
    }
    assert(joins(cells, size, b, a, back));
}

} // verus!
