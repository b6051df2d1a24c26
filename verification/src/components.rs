//! The vocabulary of the library: tiles, coordinates and the sparse board.
use vstd::prelude::*;

verus! {

/// The label of a tile; two tiles may be paired when their labels agree.
pub type Tile = u8;

/// A row or a column of the board.
pub type CoordElement = usize;

/// A cell of the board, as (row, column).
pub type Coord = [CoordElement; 2];

/// A number of rows or columns to step.
pub type CoordDeltaElement = i32;

/// A step from one cell to another, as (rows, columns).
pub type CoordDelta = [CoordDeltaElement; 2];

/// A straight run of cells, given by its two ends.
pub type Grid = [Coord; 2];

/// A path, given by its two ends and the bends between them.
pub type Nodes = Vec<Coord>;

/// A cell of the unbounded plane, as (row, column).
pub type Point = (int, int);

/// The cell that a coordinate names.
pub open spec fn pt(c: Coord) -> Point {
    (c[0] as int, c[1] as int)
}

/// The extent that a pair of numbers names, as (rows, columns).
pub open spec fn ext(size: [usize; 2]) -> Point {
    (size[0] as int, size[1] as int)
}

/// The step that a delta names.
pub open spec fn dir(delta: CoordDelta) -> Point {
    (delta[0] as int, delta[1] as int)
}

/// The two ends of a run.
pub open spec fn seg(g: Grid) -> (Point, Point) {
    (pt(g[0]), pt(g[1]))
}

/// The cell that the coordinate names, where there is one.
pub open spec fn opt_pt(c: Option<Coord>) -> Option<Point> {
    match c {
        Some(c) => Some(pt(c)),
        None => None,
    }
}

/// The two ends of the run, where there is one.
pub open spec fn opt_seg(g: Option<Grid>) -> Option<(Point, Point)> {
    match g {
        Some(g) => Some(seg(g)),
        None => None,
    }
}

/// The ends of the two runs, where there are two.
pub open spec fn opt_seg_pair(g: Option<[Grid; 2]>) -> Option<((Point, Point), (Point, Point))> {
    match g {
        Some(g) => Some((seg(g[0]), seg(g[1]))),
        None => None,
    }
}

/// The points of a path.
pub open spec fn path_of(nodes: Seq<Coord>) -> Seq<Point> {
    Seq::new(nodes.len(), |i: int| pt(nodes[i]))
}

/// The points of the path, where there is one.
pub open spec fn opt_path(nodes: Option<Nodes>) -> Option<Seq<Point>> {
    match nodes {
        Some(nodes) => Some(path_of(nodes@)),
        None => None,
    }
}

/// No cell is listed twice.
pub open spec fn distinct_cells(entries: Seq<(Point, Tile)>) -> bool {
    forall|i: int, j: int| 0 <= i < j < entries.len() ==> entries[i].0 != entries[j].0
}

/// Some entry of the list places a tile on `p`.
pub open spec fn lists(entries: Seq<(Point, Tile)>, p: Point) -> bool {
    exists|i: int| 0 <= i < entries.len() && #[trigger] entries[i].0 == p
}

/// The place of `p` in the list.
pub open spec fn index_of(entries: Seq<(Point, Tile)>, p: Point) -> int {
    choose|i: int| 0 <= i < entries.len() && #[trigger] entries[i].0 == p
}

/// The occupied cells that a list of placed tiles describes.
pub open spec fn cells_of(entries: Seq<(Point, Tile)>) -> Map<Point, Tile> {
    Map::new(|p: Point| lists(entries, p), |p: Point| entries[index_of(entries, p)].1)
}

/// The list with a tile placed on `p`: in the place of the tile that lay there, or at the end.
pub open spec fn with_tile(entries: Seq<(Point, Tile)>, p: Point, t: Tile) -> Seq<(Point, Tile)> {
    if lists(entries, p) {
        entries.update(index_of(entries, p), (p, t))
    } else {
        entries.push((p, t))
    }
}

/// The list without the tile on `p`.
pub open spec fn without_tile(entries: Seq<(Point, Tile)>, p: Point) -> Seq<(Point, Tile)> {
    if lists(entries, p) {
        entries.remove(index_of(entries, p))
    } else {
        entries
    }
}

/// The list that placing the tiles of `placed` one after the other, from index 0 up to `n`, onto
/// `entries` gives.
pub open spec fn with_tiles(entries: Seq<(Point, Tile)>, placed: Seq<(Point, Tile)>, n: nat) -> Seq<(Point, Tile)>
    decreases n,
{
    if n == 0 || n > placed.len() {
        entries
    } else {
        with_tile(with_tiles(entries, placed, (n - 1) as nat), placed[n - 1].0, placed[n - 1].1)
    }
}

/// In a list without repeats, an entry is found at its own place, and the cells of the list
/// are the cells of its entries.
pub proof fn lemma_cells_of(entries: Seq<(Point, Tile)>)
    requires
        distinct_cells(entries),
    ensures
        forall|i: int| 0 <= i < entries.len() ==> index_of(entries, #[trigger] entries[i].0) == i,
        forall|i: int| 0 <= i < entries.len() ==> cells_of(entries).contains_key(#[trigger] entries[i].0),
        forall|i: int| 0 <= i < entries.len() ==> cells_of(entries)[#[trigger] entries[i].0] == entries[i].1,
        forall|p: Point| cells_of(entries).contains_key(p) <==> lists(entries, p),
        forall|p: Point| lists(entries, p) ==> 0 <= index_of(entries, p) < entries.len()
            && entries[index_of(entries, p)].0 == p,
{
    assert forall|i: int| 0 <= i < entries.len() implies index_of(entries, #[trigger] entries[i].0) == i by {
        let k = index_of(entries, entries[i].0);
        assert(0 <= k < entries.len() && entries[k].0 == entries[i].0);
    }
}

/// A list without repeats describes as many occupied cells as it has entries.
pub proof fn lemma_cells_count(entries: Seq<(Point, Tile)>)
    requires
        distinct_cells(entries),
    ensures
        cells_of(entries).dom().finite(),
        cells_of(entries).dom().len() == entries.len(),
{
    let keys = Seq::new(entries.len(), |i: int| entries[i].0);
    assert(keys.no_duplicates());
    keys.unique_seq_to_set();
    vstd::seq_lib::seq_to_set_is_finite(keys);
    assert forall|p: Point| cells_of(entries).dom().contains(p) <==> keys.to_set().contains(p) by {
        if lists(entries, p) {
            let i = index_of(entries, p);
            assert(keys[i] == p);
        }
        if keys.contains(p) {
            let i = choose|i: int| 0 <= i < keys.len() && keys[i] == p;
            assert(entries[i].0 == p);
        }
    }
    assert(cells_of(entries).dom() =~= keys.to_set());
}

/// Placing a tile keeps the list free of repeats and puts the tile on its cell.
pub proof fn lemma_with_tile(entries: Seq<(Point, Tile)>, p: Point, t: Tile)
    requires
        distinct_cells(entries),
    ensures
        distinct_cells(with_tile(entries, p, t)),
        cells_of(with_tile(entries, p, t)) == cells_of(entries).insert(p, t),
{
    lemma_cells_of(entries);
    let after = with_tile(entries, p, t);
    if lists(entries, p) {
        let k = index_of(entries, p);
        assert forall|i: int| 0 <= i < after.len() implies #[trigger] after[i].0 == entries[i].0 by {}
    } else {
        assert forall|i: int| 0 <= i < entries.len() implies #[trigger] after[i] == entries[i] by {}
    }
    assert(distinct_cells(after));
    lemma_cells_of(after);
    let want = cells_of(entries).insert(p, t);
    assert forall|q: Point| cells_of(after).contains_key(q) <==> want.contains_key(q) by {
        if lists(after, q) {
            let i = index_of(after, q);
            if q != p {
                assert(entries[i].0 == q);
            }
        }
        if q != p && lists(entries, q) {
            let i = index_of(entries, q);
            assert(after[i].0 == q);
        }
        if q == p {
            if lists(entries, p) {
                assert(after[index_of(entries, p)].0 == p);
            } else {
                assert(after[entries.len() as int].0 == p);
            }
        }
    }
    assert forall|q: Point| cells_of(after).contains_key(q) implies cells_of(after)[q] == want[q] by {
        let i = index_of(after, q);
        if q != p {
            assert(entries[i].0 == q);
            assert(index_of(entries, q) == i);
        }
    }
    assert(cells_of(after) =~= want);
}

/// Taking a tile off keeps the list free of repeats and frees its cell.
pub proof fn lemma_without_tile(entries: Seq<(Point, Tile)>, p: Point)
    requires
        distinct_cells(entries),
    ensures
        distinct_cells(without_tile(entries, p)),
        cells_of(without_tile(entries, p)) == cells_of(entries).remove(p),
{
    lemma_cells_of(entries);
    let after = without_tile(entries, p);
    let want = cells_of(entries).remove(p);
    if lists(entries, p) {
        let k = index_of(entries, p);
        assert forall|i: int| 0 <= i < after.len() implies #[trigger] after[i] == entries[if i < k { i } else { i + 1 }] by {}
        assert(distinct_cells(after)) by {
            assert forall|i: int, j: int| 0 <= i < j < after.len() implies after[i].0 != after[j].0 by {
                let a = if i < k { i } else { i + 1 };
                let b = if j < k { j } else { j + 1 };
                assert(after[i] == entries[a] && after[j] == entries[b]);
            }
        }
        lemma_cells_of(after);
        assert forall|q: Point| cells_of(after).contains_key(q) <==> want.contains_key(q) by {
            if lists(after, q) {
                let i = index_of(after, q);
                let a = if i < k { i } else { i + 1 };
                assert(entries[a].0 == q);
            }
            if q != p && lists(entries, q) {
                let a = index_of(entries, q);
                let i = if a < k { a } else { a - 1 };
                assert(after[i].0 == q);
            }
        }
        assert forall|q: Point| cells_of(after).contains_key(q) implies cells_of(after)[q] == want[q] by {
            let i = index_of(after, q);
            let a = if i < k { i } else { i + 1 };
            assert(entries[a].0 == q);
            assert(index_of(entries, q) == a);
        }
    }
    assert(cells_of(after) =~= want);
}

/// The cells and labels of a list of tiles.
pub open spec fn placed(tiles: Seq<(Coord, Tile)>) -> Seq<(Point, Tile)> {
    Seq::new(tiles.len(), |i: int| (pt(tiles[i].0), tiles[i].1))
}

/// A sparse board: the tiles that were placed, each on a cell of its own, in the order in which
/// their cells were first used.
///
/// `==` compares the tiles in the order in which they were placed: two boards with the same
/// tiles placed in another order are not `==`. `same_tiles` compares two boards cell by cell.
#[derive(Debug, PartialEq, Eq)]
pub struct TileMap {
    entries: Vec<(Coord, Tile)>,
}

impl View for TileMap {
    type V = Map<Point, Tile>;

    /// The occupied cells and their labels.
    open spec fn view(&self) -> Map<Point, Tile> {
        cells_of(self.entries())
    }
}

impl TileMap {
    /// The placed tiles, in order.
    pub closed spec fn entries(&self) -> Seq<(Point, Tile)> {
        placed(self.entries@)
    }

    /// No cell holds two tiles.
    #[verifier::type_invariant]
    pub open spec fn wf(&self) -> bool {
        distinct_cells(self.entries())
    }

    /// The empty board.
    pub fn new() -> (map: Self)
        ensures
            map.entries() == Seq::<(Point, Tile)>::empty(),
            map@ == Map::<Point, Tile>::empty(),
    {
        let map = TileMap { entries: Vec::new() };
        proof {
            assert(map.entries() =~= Seq::<(Point, Tile)>::empty());
            assert(map@ =~= Map::<Point, Tile>::empty());
        }
        map
    }

    /// The number of tiles on the board.
    pub fn len(&self) -> (n: usize)
        ensures
            n == self.entries().len(),
            self@.dom().finite(),
            n == self@.dom().len(),
    {
        proof {
            use_type_invariant(self);
            lemma_cells_count(self.entries());
        }
        self.entries.len()
    }

    /// Whether the board holds no tile.
    pub fn is_empty(&self) -> (r: bool)
        ensures
            r == (self.entries().len() == 0),
            r == (self@.dom().len() == 0),
    {
        proof {
            use_type_invariant(self);
            lemma_cells_count(self.entries());
        }
        self.entries.len() == 0
    }

    /// A copy of the list of entries.
    fn copy_entries(&self) -> (entries: Vec<(Coord, Tile)>)
        ensures
            entries@ == self.entries@,
    {
        let mut entries: Vec<(Coord, Tile)> = Vec::new();
        let mut i: usize = 0;
        while i < self.entries.len()
            invariant
                i <= self.entries@.len(),
                entries@ == self.entries@.subrange(0, i as int),
            decreases self.entries@.len() - i,
        {
            entries.push(self.entries[i]);
            assert(entries@ =~= self.entries@.subrange(0, i + 1));
            i = i + 1;
        }
        assert(entries@ =~= self.entries@);
        entries
    }

    /// The place of the tile on `coord` in the list of entries.
    fn position(&self, coord: &Coord) -> (r: Option<usize>)
        ensures
            r is Some <==> lists(self.entries(), pt(*coord)),
            r matches Some(i) ==> i == index_of(self.entries(), pt(*coord)) && i < self.entries().len(),
    {
        proof {
            use_type_invariant(self);
            lemma_cells_of(self.entries());
        }
        let mut i: usize = 0;
        while i < self.entries.len()
            invariant
                i <= self.entries@.len(),
                forall|j: int| 0 <= j < i ==> (#[trigger] self.entries()[j]).0 != pt(*coord),
            decreases self.entries@.len() - i,
        {
            let c = self.entries[i].0;
            if c[0] == coord[0] && c[1] == coord[1] {
                proof {
                    use_type_invariant(self);
                    lemma_cells_of(self.entries());
                    assert(self.entries()[i as int].0 == pt(*coord));
                }
                return Some(i);
            }
            i = i + 1;
        }
        None
    }

    /// The label of the tile on `coord`, if there is one.
    pub fn get(&self, coord: &Coord) -> (r: Option<Tile>)
        ensures
            r == (if self@.contains_key(pt(*coord)) {
                Some(self@[pt(*coord)])
            } else {
                None::<Tile>
            }),
    {
        proof {
            use_type_invariant(self);
            lemma_cells_of(self.entries());
        }
        match self.position(coord) {
            Some(i) => Some(self.entries[i].1),
            None => None,
        }
    }

    /// Whether a tile lies on `coord`.
    pub fn contains_key(&self, coord: &Coord) -> (r: bool)
        ensures
            r == self@.contains_key(pt(*coord)),
    {
        proof {
            use_type_invariant(self);
            lemma_cells_of(self.entries());
        }
        self.position(coord).is_some()
    }

    /// Places a tile on `coord` and returns the label of the tile that lay there.
    pub fn insert(&mut self, coord: Coord, tile: Tile) -> (r: Option<Tile>)
        ensures
            final(self).entries() == with_tile(old(self).entries(), pt(coord), tile),
            final(self)@ == old(self)@.insert(pt(coord), tile),
            r == (if old(self)@.contains_key(pt(coord)) {
                Some(old(self)@[pt(coord)])
            } else {
                None::<Tile>
            }),
    {
        proof {
            use_type_invariant(&*self);
            lemma_cells_of(self.entries());
            lemma_with_tile(self.entries(), pt(coord), tile);
        }
        match self.position(&coord) {
            Some(i) => {
                let before = self.entries[i].1;
                let mut entries = self.copy_entries();
                entries.set(i, (coord, tile));
                assert(placed(entries@) =~= with_tile(old(self).entries(), pt(coord), tile));
                self.entries = entries;
                Some(before)
            },
            None => {
                let mut entries = self.copy_entries();
                entries.push((coord, tile));
                assert(placed(entries@) =~= with_tile(old(self).entries(), pt(coord), tile));
                self.entries = entries;
                None
            },
        }
    }

    /// Takes the tile on `coord` off the board and returns its label.
    pub fn remove(&mut self, coord: &Coord) -> (r: Option<Tile>)
        ensures
            final(self).entries() == without_tile(old(self).entries(), pt(*coord)),
            final(self)@ == old(self)@.remove(pt(*coord)),
            r == (if old(self)@.contains_key(pt(*coord)) {
                Some(old(self)@[pt(*coord)])
            } else {
                None::<Tile>
            }),
    {
        proof {
            use_type_invariant(&*self);
            lemma_cells_of(self.entries());
            lemma_without_tile(self.entries(), pt(*coord));
        }
        match self.position(coord) {
            Some(i) => {
                let mut entries = self.copy_entries();
                let gone = entries.remove(i);
                assert(placed(entries@) =~= without_tile(old(self).entries(), pt(*coord)));
                self.entries = entries;
                Some(gone.1)
            },
            None => None,
        }
    }

    /// Whether every tile of this board lies on the other board too, with the same label.
    fn covered_by(&self, other: &TileMap) -> (r: bool)
        ensures
            r == (forall|p: Point| #[trigger] self@.contains_key(p) ==> other@.contains_key(p) && other@[p] == self@[p]),
    {
        proof {
            use_type_invariant(self);
            lemma_cells_of(self.entries());
        }
        let mut i: usize = 0;
        while i < self.entries.len()
            invariant
                i <= self.entries@.len(),
                distinct_cells(self.entries()),
                forall|j: int|
                    0 <= j < i ==> other@.contains_key((#[trigger] self.entries()[j]).0) && other@[self.entries()[j].0]
                        == self.entries()[j].1,
            decreases self.entries@.len() - i,
        {
            let (coord, tile) = self.entries[i];
            proof {
                lemma_cells_of(self.entries());
                assert(self.entries()[i as int] == (pt(coord), tile));
                assert(self.entries()[i as int].0 == pt(coord));
                assert(self@.contains_key(pt(coord)) && self@[pt(coord)] == tile);
            }
            match other.get(&coord) {
                Some(found) => {
                    if found != tile {
                        assert(self@.contains_key(pt(coord)) && self@[pt(coord)] == tile);
                        return false;
                    }
                },
                None => {
                    assert(self@.contains_key(pt(coord)));
                    return false;
                },
            }
            i = i + 1;
        }
        proof {
            lemma_cells_of(self.entries());
            assert forall|p: Point| #[trigger] self@.contains_key(p) implies other@.contains_key(p) && other@[p] == self@[p] by {
                let j = index_of(self.entries(), p);
                assert(self.entries()[j].0 == p);
            }
        }
        true
    }

    /// Whether the two boards hold the same tiles on the same cells, in whatever order they
    /// were placed.
    pub fn same_tiles(&self, other: &TileMap) -> (r: bool)
        ensures
            r == (self@ == other@),
    {
        let r = self.covered_by(other) && other.covered_by(self);
        proof {
            if r {
                assert forall|p: Point| self@.contains_key(p) <==> other@.contains_key(p) by {}
                assert(self@ =~= other@);
            }
        }
        r
    }

    /// The tile placed `i`-th, with its cell.
    pub fn entry(&self, i: usize) -> (e: (Coord, Tile))
        requires
            i < self.entries().len(),
        ensures
            (pt(e.0), e.1) == self.entries()[i as int],
    {
        self.entries[i]
    }

    /// The board that placing the given tiles in turn on an empty board gives; where two of them
    /// name one cell, the later one lies there.
    pub fn from_entries(entries: Vec<(Coord, Tile)>) -> (map: Self)
        ensures
            map.entries() == with_tiles(
                Seq::<(Point, Tile)>::empty(),
                placed(entries@),
                entries@.len(),
            ),
    {
        let mut map = TileMap::new();
        let ghost tiles = placed(entries@);
        let mut i: usize = 0;
        while i < entries.len()
            invariant
                i <= entries@.len(),
                tiles == placed(entries@),
                map.entries() == with_tiles(Seq::<(Point, Tile)>::empty(), tiles, i as nat),
            decreases entries@.len() - i,
        {
            let e = entries[i];
            map.insert(e.0, e.1);
            i = i + 1;
        }
        map
    }

    /// The placed tiles with their cells, in order.
    pub fn to_vec(&self) -> (v: Vec<(Coord, Tile)>)
        ensures
            v@.len() == self.entries().len(),
            forall|i: int| 0 <= i < v@.len() ==> (pt(v@[i].0), v@[i].1) == #[trigger] self.entries()[i],
    {
        let mut v: Vec<(Coord, Tile)> = Vec::new();
        let mut i: usize = 0;
        while i < self.entries.len()
            invariant
                i <= self.entries@.len(),
                v@.len() == i,
                forall|j: int| 0 <= j < i ==> (pt(v@[j].0), v@[j].1) == #[trigger] self.entries()[j],
            decreases self.entries@.len() - i,
        {
            v.push(self.entries[i]);
            i = i + 1;
        }
        v
    }
}

impl Clone for TileMap {
    /// A board with the same tiles in the same order.
    fn clone(&self) -> (map: Self)
        ensures
            map.entries() == self.entries(),
            map@ == self@,
    {
        proof {
            use_type_invariant(self);
        }
        let entries = self.copy_entries();
        let map = TileMap { entries };
        assert(map.entries() =~= self.entries());
        map
    }
}

} // verus!
