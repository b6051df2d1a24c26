//! The frame around a dense board.
use vstd::prelude::*;
use crate::components::Point;
use crate::dense::components::{blank_map, can_hold, set_tile, shape_of, tile_at, TileMap};

verus! {

/// The board with an empty row and an empty column added on every side: every tile moves one
/// row down and one column to the right.
pub fn pad_tilemap(map: &TileMap) -> (padmap: TileMap)
    requires
        map.extent().0 + 2 <= usize::MAX,
        map.extent().1 + 2 <= usize::MAX,
        can_hold(map.extent().0 + 2, map.extent().1 + 2),
    ensures
        padmap.extent() == (map.extent().0 + 2, map.extent().1 + 2),
        forall|p: Point| padmap@.contains_key(p) <==> map@.contains_key((p.0 - 1, p.1 - 1)),
        forall|p: Point| padmap@.contains_key(p) ==> padmap@[p] == map@[(p.0 - 1, p.1 - 1)],
{
    let shape = shape_of(map);
    let mut padmap = blank_map(shape[0] + 2, shape[1] + 2);
    let mut x: usize = 0;
    while x < shape[0]
        invariant
            x <= shape[0],
            (shape[0] as int, shape[1] as int) == map.extent(),
            shape[0] + 2 <= usize::MAX,
            shape[1] + 2 <= usize::MAX,
            forall|p: Point| map@.contains_key(p) ==> 0 <= p.0 < shape[0] && 0 <= p.1 < shape[1],
            padmap.extent() == (shape[0] + 2, shape[1] + 2),
            forall|p: Point| padmap@.contains_key(p) <==> map@.contains_key((p.0 - 1, p.1 - 1)) && p.0 - 1 < x,
            forall|p: Point| padmap@.contains_key(p) ==> padmap@[p] == map@[(p.0 - 1, p.1 - 1)],
        decreases shape[0] - x,
    {
        let mut y: usize = 0;
        while y < shape[1]
            invariant
                x < shape[0],
                y <= shape[1],
                (shape[0] as int, shape[1] as int) == map.extent(),
                shape[0] + 2 <= usize::MAX,
                shape[1] + 2 <= usize::MAX,
                forall|p: Point| map@.contains_key(p) ==> 0 <= p.0 < shape[0] && 0 <= p.1 < shape[1],
                padmap.extent() == (shape[0] + 2, shape[1] + 2),
                forall|p: Point|
                    padmap@.contains_key(p) <==> map@.contains_key((p.0 - 1, p.1 - 1)) && (p.0 - 1 < x || (p.0 - 1 == x
                        && p.1 - 1 < y)),
                forall|p: Point| padmap@.contains_key(p) ==> padmap@[p] == map@[(p.0 - 1, p.1 - 1)],
            decreases shape[1] - y,
        {
            let tile = tile_at(map, &[x, y]);
            let ghost before = padmap@;
            set_tile(&mut padmap, &[x + 1, y + 1], tile);
            proof {
                let q: Point = (x + 1, y + 1);
                assert(!before.contains_key(q));
                assert forall|p: Point|
                    padmap@.contains_key(p) <==> map@.contains_key((p.0 - 1, p.1 - 1)) && (p.0 - 1 < x || (p.0 - 1 == x
                        && p.1 - 1 < y + 1)) by {
                    if p == q {
                        assert((p.0 - 1, p.1 - 1) == (x as int, y as int));
                    } else {
                        assert(padmap@.contains_key(p) == before.contains_key(p));
                        if p.0 - 1 == x && p.1 - 1 == y {
                            assert(p == q);
                        }
                    }
                }
                assert forall|p: Point| padmap@.contains_key(p) implies padmap@[p] == map@[(p.0 - 1, p.1 - 1)] by {
                    if p == q {
                        assert((p.0 - 1, p.1 - 1) == (x as int, y as int));
                    } else {
                        assert(before.contains_key(p));
                    }
                }
            }
            y = y + 1;
        }
        x = x + 1;
    }
    padmap
}

} // verus!
