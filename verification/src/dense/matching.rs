//! Complete pairings: connections of one label that use every tile of the label once.
use vstd::prelude::*;
use crate::components::{pt, Coord, Point, Tile};
use crate::dense::components::TileMap;
use crate::components::path_of;
use crate::dense::solver::{
    all_label_links, board_index, connect_label, copy_connections, create_tile_lookup_table, link_view,
    links_view, ConnectionInfo, Link,
};
use crate::solver::lut::index_view;

verus! {

broadcast use vstd::std_specs::hash::group_hash_axioms;

/// The cells of the first `n` connections, one connection after the other.
pub open spec fn ends_of(links: Seq<Link>, n: nat) -> Seq<Point>
    decreases n,
{
    if n == 0 || n > links.len() {
        Seq::empty()
    } else {
        ends_of(links, (n - 1) as nat).push(links[n - 1].1.0).push(links[n - 1].1.1)
    }
}

/// The cells of a list without repeats, each where it first occurs.
pub open spec fn distinct(cells: Seq<Point>, n: nat) -> Seq<Point>
    decreases n,
{
    if n == 0 || n > cells.len() {
        Seq::empty()
    } else if distinct(cells, (n - 1) as nat).contains(cells[n - 1]) {
        distinct(cells, (n - 1) as nat)
    } else {
        distinct(cells, (n - 1) as nat).push(cells[n - 1])
    }
}

/// The number of different cells that the connections use.
pub open spec fn unique_coords(links: Seq<Link>) -> nat {
    distinct(ends_of(links, links.len()), ends_of(links, links.len()).len()).len()
}

/// Whether the connection uses one of the two cells.
pub open spec fn touches(link: Link, target: (Point, Point)) -> bool {
    link.1.0 == target.0 || link.1.1 == target.0 || link.1.0 == target.1 || link.1.1 == target.1
}

/// The first `n` connections without those that use one of the two cells.
pub open spec fn without_touching(links: Seq<Link>, target: (Point, Point), n: nat) -> Seq<Link>
    decreases n,
{
    if n == 0 || n > links.len() {
        Seq::empty()
    } else if touches(links[n - 1], target) {
        without_touching(links, target, (n - 1) as nat)
    } else {
        without_touching(links, target, (n - 1) as nat).push(links[n - 1])
    }
}

/// Whether the connections that are left cannot complete the chosen ones: together they do not
/// use the wanted number of cells, or none is left to try.
pub open spec fn stuck(curr: Seq<Link>, chosen: Seq<Link>, n_coords: nat, idx: nat) -> bool {
    unique_coords(curr) + chosen.len() * 2 != n_coords || idx >= curr.len()
}

/// The complete pairing that is found by trying the connections in order from the place `idx`
/// on: a connection is chosen, the connections that share a cell with it are set aside, and
/// the rest is tried in the same way; where that fails, the next connection is tried.
#[verifier::opaque]
pub open spec fn matching(curr: Seq<Link>, chosen: Seq<Link>, n_coords: nat, idx: nat) -> Option<Seq<Link>>
    decreases curr.len(), curr.len() - idx,
{
    if stuck(curr, chosen, n_coords, idx) {
        None
    } else {
        let picked = chosen.push(curr[idx as int]);
        let rest = without_touching(curr, curr[idx as int].1, curr.len());
        if unique_coords(picked) == n_coords {
            Some(picked)
        } else if rest.len() < curr.len() {
            match matching(rest, picked, n_coords, 0) {
                Some(found) => Some(found),
                None => matching(curr, chosen, n_coords, idx + 1),
            }
        } else {
            matching(curr, chosen, n_coords, idx + 1)
        }
    }
}

/// The number of choices that the search for a complete pairing makes at most.
#[verifier::opaque]
pub open spec fn effort(curr: Seq<Link>, chosen: Seq<Link>, n_coords: nat, idx: nat) -> nat
    decreases curr.len(), curr.len() - idx,
{
    if stuck(curr, chosen, n_coords, idx) {
        0
    } else {
        let picked = chosen.push(curr[idx as int]);
        let rest = without_touching(curr, curr[idx as int].1, curr.len());
        let below = if unique_coords(picked) != n_coords && rest.len() < curr.len() {
            effort(rest, picked, n_coords, 0)
        } else {
            0
        };
        1 + below + effort(curr, chosen, n_coords, idx + 1)
    }
}

/// The pairing that is found from a place on, by the connection at that place and the rest.
proof fn lemma_matching_unfold(curr: Seq<Link>, chosen: Seq<Link>, n_coords: nat, idx: nat)
    ensures
        matching(curr, chosen, n_coords, idx) == (if stuck(curr, chosen, n_coords, idx) {
            None
        } else {
            let picked = chosen.push(curr[idx as int]);
            let rest = without_touching(curr, curr[idx as int].1, curr.len());
            if unique_coords(picked) == n_coords {
                Some(picked)
            } else if rest.len() < curr.len() {
                match matching(rest, picked, n_coords, 0) {
                    Some(found) => Some(found),
                    None => matching(curr, chosen, n_coords, idx + 1),
                }
            } else {
                matching(curr, chosen, n_coords, idx + 1)
            }
        }),
{
    reveal(matching);
}

/// The effort from a place on, by the connection at that place and the rest.
proof fn lemma_effort_unfold(curr: Seq<Link>, chosen: Seq<Link>, n_coords: nat, idx: nat)
    ensures
        effort(curr, chosen, n_coords, idx) == (if stuck(curr, chosen, n_coords, idx) {
            0
        } else {
            let picked = chosen.push(curr[idx as int]);
            let rest = without_touching(curr, curr[idx as int].1, curr.len());
            let below = if unique_coords(picked) != n_coords && rest.len() < curr.len() {
                effort(rest, picked, n_coords, 0)
            } else {
                0
            };
            1 + below + effort(curr, chosen, n_coords, idx + 1)
        }),
{
    reveal(effort);
}

/// Setting connections aside leaves no more than there were, and fewer where one of the first
/// `n` uses one of the two cells.
proof fn lemma_without_touching_len(links: Seq<Link>, target: (Point, Point), n: nat)
    requires
        n <= links.len(),
    ensures
        without_touching(links, target, n).len() <= n,
        forall|i: int| 0 <= i < n && touches(#[trigger] links[i], target) ==> without_touching(links, target, n).len() < n,
    decreases n,
{
    if n > 0 {
        lemma_without_touching_len(links, target, (n - 1) as nat);
    }
}

/// The number of different cells that the connections use.
pub fn count_unique_coords_in_connections(connections: &Vec<ConnectionInfo>) -> (count: usize)
    ensures
        count == unique_coords(links_view(connections@)),
{
    let ghost links = links_view(connections@);
    let mut seen: Vec<Coord> = Vec::new();
    let mut i: usize = 0;
    assert(Seq::new(0, |k: int| pt(seen@[k])) =~= distinct(ends_of(links, 0), 0));
    while i < connections.len()
        invariant
            i <= connections@.len(),
            links == links_view(connections@),
            ends_of(links, i as nat).len() == 2 * i,
            Seq::new(seen@.len(), |k: int| pt(seen@[k])) == distinct(
                ends_of(links, i as nat),
                ends_of(links, i as nat).len(),
            ),
        decreases connections@.len() - i,
    {
        let pair = connections[i].pair;
        let ghost before = ends_of(links, i as nat);
        let ghost middle = before.push(pt(pair[0]));
        let ghost after = middle.push(pt(pair[1]));
        proof {
            assert(ends_of(links, (i + 1) as nat) == after);
            lemma_distinct_prefix(before, middle, before.len());
            lemma_distinct_prefix(middle, after, middle.len());
        }
        if !has_coord(&seen, &pair[0]) {
            seen.push(pair[0]);
        }
        assert(Seq::new(seen@.len(), |k: int| pt(seen@[k])) =~= distinct(middle, middle.len()));
        if !has_coord(&seen, &pair[1]) {
            seen.push(pair[1]);
        }
        assert(Seq::new(seen@.len(), |k: int| pt(seen@[k])) =~= distinct(after, after.len()));
        i = i + 1;
    }
    seen.len()
}

/// What is kept of the first `n` cells depends on these cells alone.
proof fn lemma_distinct_prefix(one: Seq<Point>, other: Seq<Point>, n: nat)
    requires
        n <= one.len(),
        n <= other.len(),
        forall|i: int| 0 <= i < n ==> one[i] == other[i],
    ensures
        distinct(one, n) == distinct(other, n),
    decreases n,
{
    if n > 0 {
        lemma_distinct_prefix(one, other, (n - 1) as nat);
    }
}

/// Whether the cell is in the list.
fn has_coord(coords: &Vec<Coord>, coord: &Coord) -> (r: bool)
    ensures
        r == Seq::new(coords@.len(), |k: int| pt(coords@[k])).contains(pt(*coord)),
{
    let ghost cells = Seq::new(coords@.len(), |k: int| pt(coords@[k]));
    let mut i: usize = 0;
    while i < coords.len()
        invariant
            i <= coords@.len(),
            cells == Seq::new(coords@.len(), |k: int| pt(coords@[k])),
            forall|k: int| 0 <= k < i ==> cells[k] != pt(*coord),
        decreases coords@.len() - i,
    {
        if coords[i][0] == coord[0] && coords[i][1] == coord[1] {
            assert(cells[i as int] == pt(*coord));
            return true;
        }
        i = i + 1;
    }
    false
}

/// The connections without those that use one of the two cells of the target.
fn set_aside(connections: &Vec<ConnectionInfo>, target: &[Coord; 2]) -> (rest: Vec<ConnectionInfo>)
    ensures
        links_view(rest@) == without_touching(
            links_view(connections@),
            (pt(target[0]), pt(target[1])),
            connections@.len(),
        ),
{
    let ghost links = links_view(connections@);
    let ghost cells = (pt(target[0]), pt(target[1]));
    let mut rest: Vec<ConnectionInfo> = Vec::new();
    let mut i: usize = 0;
    assert(links_view(rest@) =~= without_touching(links, cells, 0));
    while i < connections.len()
        invariant
            i <= connections@.len(),
            links == links_view(connections@),
            cells == (pt(target[0]), pt(target[1])),
            links_view(rest@) == without_touching(links, cells, i as nat),
        decreases connections@.len() - i,
    {
        let ghost before = links_view(rest@);
        let pair = connections[i].pair;
        let shared = same_coord(&pair[0], &target[0]) || same_coord(&pair[1], &target[0]) || same_coord(
            &pair[0],
            &target[1],
        ) || same_coord(&pair[1], &target[1]);
        assert(shared == touches(links[i as int], cells));
        if !shared {
            rest.push(connections[i]);
            assert(links_view(rest@) =~= before.push(links[i as int]));
        }
        i = i + 1;
    }
    rest
}

/// Whether two coordinates name one cell.
fn same_coord(a: &Coord, b: &Coord) -> (r: bool)
    ensures
        r == (pt(*a) == pt(*b)),
{
    a[0] == b[0] && a[1] == b[1]
}

/// The levels of the search for a complete pairing stand on each other.
pub open spec fn level_ok(log: Seq<(Seq<Link>, int)>, result: Seq<Link>, curr: Seq<Link>, n_coords: nat, j: int) -> bool {
    let (links, place) = log[j];
    let chosen = result.take(j);
    &&& 0 <= place < links.len()
    &&& result[j] == links[place]
    &&& !stuck(links, chosen, n_coords, place as nat)
    &&& unique_coords(chosen.push(links[place])) != n_coords
    &&& matching(links, chosen, n_coords, 0) == matching(links, chosen, n_coords, place as nat)
    &&& (if j + 1 < log.len() {
        log[j + 1].0
    } else {
        curr
    }) == without_touching(links, links[place].1, links.len())
}

/// The levels that wait for the present one, as connections and places.
pub open spec fn log_view(log: Seq<(Vec<ConnectionInfo>, usize)>) -> Seq<(Seq<Link>, int)> {
    Seq::new(log.len(), |j: int| (links_view(log[j].0@), log[j].1 as int))
}

/// What is left to the first `n` levels once their present choice has failed.
pub open spec fn pending(log: Seq<(Seq<Link>, int)>, result: Seq<Link>, n_coords: nat, n: nat) -> nat
    decreases n,
{
    if n == 0 || n > log.len() {
        0
    } else {
        pending(log, result, n_coords, (n - 1) as nat) + effort(
            log[n - 1].0,
            result.take(n - 1),
            n_coords,
            (log[n - 1].1 + 1) as nat,
        )
    }
}

/// What is left to the first `n` levels depends on these levels alone.
proof fn lemma_pending_prefix(
    log: Seq<(Seq<Link>, int)>,
    result: Seq<Link>,
    other_log: Seq<(Seq<Link>, int)>,
    other_result: Seq<Link>,
    n_coords: nat,
    n: nat,
)
    requires
        n <= log.len(),
        n <= other_log.len(),
        n <= result.len(),
        n <= other_result.len(),
        forall|j: int| 0 <= j < n ==> log[j] == other_log[j] && result[j] == other_result[j],
    ensures
        pending(log, result, n_coords, n) == pending(other_log, other_result, n_coords, n),
    decreases n,
{
    if n > 0 {
        lemma_pending_prefix(log, result, other_log, other_result, n_coords, (n - 1) as nat);
        assert(result.take(n - 1) =~= other_result.take(n - 1));
    }
}

/// Where the present level finds a complete pairing, so does every level that waits for it.
proof fn lemma_found_down(
    log: Seq<(Seq<Link>, int)>,
    result: Seq<Link>,
    curr: Seq<Link>,
    n_coords: nat,
    found: Seq<Link>,
    j: int,
)
    requires
        result.len() == log.len(),
        forall|k: int| 0 <= k < log.len() ==> #[trigger] level_ok(log, result, curr, n_coords, k),
        matching(curr, result, n_coords, 0) == Some(found),
        0 <= j < log.len(),
    ensures
        matching(log[j].0, result.take(j), n_coords, 0) == Some(found),
    decreases log.len() - j,
{
    assert(level_ok(log, result, curr, n_coords, j));
    let (links, place) = log[j];
    let chosen = result.take(j);
    lemma_matching_unfold(links, chosen, n_coords, place as nat);
    lemma_without_touching_len(links, links[place].1, links.len());
    assert(touches(links[place], links[place].1));
    assert(chosen.push(links[place]) =~= result.take(j + 1));
    if j + 1 < log.len() {
        lemma_found_down(log, result, curr, n_coords, found, j + 1);
    } else {
        assert(result.take(j + 1) =~= result);
    }
}

/// A pairing that is found uses the wanted number of cells.
pub proof fn lemma_matching_covers(curr: Seq<Link>, chosen: Seq<Link>, n_coords: nat, idx: nat)
    ensures
        matching(curr, chosen, n_coords, idx) matches Some(found) ==> unique_coords(found) == n_coords,
    decreases curr.len(), curr.len() - idx,
{
    lemma_matching_unfold(curr, chosen, n_coords, idx);
    if !stuck(curr, chosen, n_coords, idx) {
        let picked = chosen.push(curr[idx as int]);
        let rest = without_touching(curr, curr[idx as int].1, curr.len());
        if unique_coords(picked) != n_coords {
            if rest.len() < curr.len() {
                lemma_matching_covers(rest, picked, n_coords, 0);
            }
            lemma_matching_covers(curr, chosen, n_coords, idx + 1);
        }
    }
}

/// The complete pairings of the labels below `n`, label after label; a label without a
/// complete pairing gives nothing.
pub open spec fn completed_links(cells: Map<Point, Tile>, size: Point, n: nat) -> Seq<Link>
    decreases n,
{
    if n == 0 || n > 256 {
        Seq::empty()
    } else {
        let rest = completed_links(cells, size, (n - 1) as nat);
        let t = (n - 1) as Tile;
        let index = board_index(cells, size);
        if index.contains_key(t) {
            match matching(all_label_links(cells, size, t, index[t]), Seq::<Link>::empty(), index[t].len(), 0) {
                Some(found) => rest + found,
                None => rest,
            }
        } else {
            rest
        }
    }
}

/// A complete pairing among the connections: connections that share no cell and use
/// `n_coords` cells together. The connections are tried in their order; none is found where
/// there is none.
pub fn get_completed_connections(connections: &Vec<ConnectionInfo>, n_coords: usize) -> (r: Option<Vec<ConnectionInfo>>)
    ensures
        match r {
            Some(found) => Some(links_view(found@)),
            None => None,
        } == matching(links_view(connections@), Seq::<Link>::empty(), n_coords as nat, 0),
        r matches Some(found) ==> unique_coords(links_view(found@)) == n_coords,
{
    proof {
        lemma_matching_covers(links_view(connections@), Seq::<Link>::empty(), n_coords as nat, 0);
    }
    let ghost all = links_view(connections@);
    let ghost goal = matching(all, Seq::<Link>::empty(), n_coords as nat, 0);
    let mut result: Vec<ConnectionInfo> = Vec::new();
    let mut curr = copy_connections(connections);
    let mut log: Vec<(Vec<ConnectionInfo>, usize)> = Vec::new();
    let mut idx: usize = 0;
    assert(links_view(result@) =~= Seq::<Link>::empty());
    loop
        invariant
            all == links_view(connections@),
            goal == matching(all, Seq::<Link>::empty(), n_coords as nat, 0),
            result@.len() == log@.len(),
            idx <= curr@.len(),
            forall|k: int|
                0 <= k < log@.len() ==> #[trigger] level_ok(
                    log_view(log@),
                    links_view(result@),
                    links_view(curr@),
                    n_coords as nat,
                    k,
                ),
            matching(links_view(curr@), links_view(result@), n_coords as nat, 0) == matching(
                links_view(curr@),
                links_view(result@),
                n_coords as nat,
                idx as nat,
            ),
            log@.len() == 0 ==> links_view(curr@) == all,
            log@.len() > 0 ==> log_view(log@)[0].0 == all,
        decreases
                pending(log_view(log@), links_view(result@), n_coords as nat, log@.len() as nat) + effort(
                    links_view(curr@),
                    links_view(result@),
                    n_coords as nat,
                    idx as nat,
                ),
                log@.len(),
    {
        let ghost frames = log_view(log@);
        let ghost chosen = links_view(result@);
        let ghost links = links_view(curr@);
        let ghost depth = log@.len();
        proof {
            lemma_matching_unfold(links, chosen, n_coords as nat, idx as nat);
            lemma_effort_unfold(links, chosen, n_coords as nat, idx as nat);
        }
        let used = count_unique_coords_in_connections(&curr);
        let closed = idx == curr.len() || result.len() > usize::MAX / 2 || used > usize::MAX - result.len() * 2 || used
            + result.len() * 2 != n_coords;
        if closed {
            assert(stuck(links, chosen, n_coords as nat, idx as nat));
            match log.pop() {
                Some(level) => {
                    let (conn, i) = level;
                    proof {
                        assert(level_ok(frames, chosen, links, n_coords as nat, depth - 1));
                        assert(frames[depth - 1] == (links_view(conn@), i as int));
                        assert(i < conn.len());
                        lemma_matching_unfold(links_view(conn@), chosen.take(depth - 1), n_coords as nat, i as nat);
                        lemma_without_touching_len(links_view(conn@), links_view(conn@)[i as int].1, conn@.len() as nat);
                        assert(touches(links_view(conn@)[i as int], links_view(conn@)[i as int].1));
                        assert(chosen.take(depth - 1).push(links_view(conn@)[i as int]) =~= chosen);
                    }
                    result.pop();
                    curr = conn;
                    idx = i + 1;
                    proof {
                        assert(links_view(result@) =~= chosen.take(depth - 1));
                        assert(log_view(log@) =~= frames.drop_last());
                        let now_frames = log_view(log@);
                        let now_chosen = links_view(result@);
                        assert forall|k: int| 0 <= k < log@.len() implies #[trigger] level_ok(
                            now_frames,
                            now_chosen,
                            links_view(curr@),
                            n_coords as nat,
                            k,
                        ) by {
                            assert(level_ok(frames, chosen, links, n_coords as nat, k));
                            assert(now_chosen.take(k) =~= chosen.take(k));
                        }
                        lemma_pending_prefix(now_frames, now_chosen, frames, chosen, n_coords as nat, log@.len() as nat);
                    }
                },
                None => {
                    assert(chosen =~= Seq::<Link>::empty());
                    return None;
                },
            }
            continue;
        }
        let pick = curr[idx];
        let rest = set_aside(&curr, &pick.pair);
        proof {
            lemma_without_touching_len(links, link_view(pick).1, links.len());
            assert(touches(links[idx as int], link_view(pick).1));
        }
        log.push((curr, idx));
        result.push(pick);
        curr = rest;
        idx = 0;
        let ghost now_frames = log_view(log@);
        let ghost now_chosen = links_view(result@);
        proof {
            assert(now_chosen =~= chosen.push(link_view(pick)));
            assert(now_frames =~= frames.push((links, log@[depth as int].1 as int)));
        }
        let covered = count_unique_coords_in_connections(&result);
        if covered == n_coords {
            proof {
                // the level that was just opened is the one that found the pairing
                assert(matching(links, chosen, n_coords as nat, 0) == Some(now_chosen));
                if depth > 0 {
                    lemma_found_down(frames, chosen, links, n_coords as nat, now_chosen, 0);
                    assert(chosen.take(0) =~= Seq::<Link>::empty());
                    assert(frames[0].0 == all);
                } else {
                    assert(chosen =~= Seq::<Link>::empty());
                    assert(links == all);
                }
                assert(goal == Some(now_chosen));
            }
            return Some(result);
        }
        proof {
            assert forall|k: int| 0 <= k < log@.len() implies #[trigger] level_ok(
                now_frames,
                now_chosen,
                links_view(curr@),
                n_coords as nat,
                k,
            ) by {
                assert(now_chosen.take(k) =~= chosen.take(k));
                if k < depth {
                    assert(level_ok(frames, chosen, links, n_coords as nat, k));
                } else {
                    assert(now_chosen.take(k) =~= chosen);
                }
            }
            lemma_pending_prefix(now_frames, now_chosen, frames, chosen, n_coords as nat, depth as nat);
            assert(now_chosen.take(depth as int) =~= chosen);
        }
    }
}

/// For every label, a complete pairing among the connections of its tiles, where there is
/// one: connections that use every tile of the label once. The labels follow each other in
/// their order.
pub fn collect_completed_connections(map: &TileMap) -> (completed: Vec<ConnectionInfo>)
    ensures
        links_view(completed@) == completed_links(map@, map.extent(), 256),
{
    let maplut = create_tile_lookup_table(map);
    let mut completed: Vec<ConnectionInfo> = Vec::new();
    let mut tile: Tile = 0;
    assert(links_view(completed@) =~= completed_links(map@, map.extent(), 0));
    loop
        invariant_except_break
            links_view(completed@) == completed_links(map@, map.extent(), tile as nat),
        invariant
            index_view(maplut@) == board_index(map@, map.extent()),
        ensures
            links_view(completed@) == completed_links(map@, map.extent(), 256),
        decreases 255 - tile,
    {
        let ghost done = links_view(completed@);
        match maplut.get(&tile) {
            Some(coords) => {
                assert(index_view(maplut@)[tile] == path_of(coords@));
                let conns = connect_label(map, tile, coords);
                match get_completed_connections(&conns, coords.len()) {
                    Some(connections) => {
                        let mut connections = connections;
                        let ghost found = links_view(connections@);
                        completed.append(&mut connections);
                        assert(links_view(completed@) =~= done + found);
                    },
                    None => {},
                }
            },
            None => {},
        }
        assert(links_view(completed@) == completed_links(map@, map.extent(), (tile + 1) as nat));
        if tile == 255 {
            break;
        }
        tile = tile + 1;
    }
    completed
}

} // verus!
