//! Open runs and paths on a board: what it means for two cells to be joined.
use vstd::prelude::*;
use crate::components::{Point, Tile};

verus! {

/// Whether `p` lies inside a board of the given extent.
pub open spec fn inside(size: Point, p: Point) -> bool {
    0 <= p.0 < size.0 && 0 <= p.1 < size.1
}

/// Whether `p` lies inside a board of the given extent and holds no tile.
pub open spec fn free(cells: Map<Point, Tile>, size: Point, p: Point) -> bool {
    0 <= p.0 < size.0 && 0 <= p.1 < size.1 && !cells.contains_key(p)
}

/// The cell one step from `p`.
pub open spec fn step(p: Point, d: Point) -> Point {
    (p.0 + d.0, p.1 + d.1)
}

/// Whether `d` is a step to one of the four neighbours.
pub open spec fn unit(d: Point) -> bool {
    (d.0 == 0 && (d.1 == 1 || d.1 == -1)) || (d.1 == 0 && (d.0 == 1 || d.0 == -1))
}

/// The number of steps that a walk from `p` can take before it leaves the board.
pub open spec fn room(size: Point, p: Point, d: Point) -> int {
    if d.0 == 1 {
        size.0 - p.0
    } else if d.0 == -1 {
        p.0 + 1
    } else if d.1 == 1 {
        size.1 - p.1
    } else {
        p.1 + 1
    }
}

/// The cell that a ray cast from `p` reaches: the last free cell before the edge of the board
/// or a tile, and `p` itself where the first step is blocked.
pub open spec fn ray_end(cells: Map<Point, Tile>, size: Point, p: Point, d: Point) -> Point
    decreases room(size, p, d),
{
    if unit(d) && free(cells, size, step(p, d)) {
        ray_end(cells, size, step(p, d), d)
    } else {
        p
    }
}

/// The run that a ray cast from `p` covers, from `p` to its end; the run is `p` alone where
/// the first step is blocked.
pub open spec fn ray(cells: Map<Point, Tile>, size: Point, p: Point, d: Point) -> (Point, Point) {
    (p, ray_end(cells, size, p, d))
}

/// The runs that two cells cast, each in its own direction.
pub open spec fn ray_pair(
    cells: Map<Point, Tile>,
    size: Point,
    first: Point,
    second: Point,
    d1: Point,
    d2: Point,
) -> ((Point, Point), (Point, Point)) {
    (ray(cells, size, first, d1), ray(cells, size, second, d2))
}

/// The cell one step from `p`, where it lies on the board.
pub open spec fn moved(p: Point, d: Point, size: Point) -> Option<Point> {
    let q = step(p, d);
    if 0 <= q.0 < size.0 && 0 <= q.1 < size.1 {
        Some(q)
    } else {
        None
    }
}

/// The two ends of the run lie in one row.
pub open spec fn in_row(g: (Point, Point)) -> bool {
    g.0.0 == g.1.0
}

/// The two ends of the run lie in one column.
pub open spec fn in_col(g: (Point, Point)) -> bool {
    g.0.1 == g.1.1
}

/// The rows that a run spans, lowest first.
pub open spec fn rows_of(g: (Point, Point)) -> (int, int) {
    (least(g.0.0, g.1.0), most(g.0.0, g.1.0))
}

/// The columns that a run spans, lowest first.
pub open spec fn cols_of(g: (Point, Point)) -> (int, int) {
    (least(g.0.1, g.1.1), most(g.0.1, g.1.1))
}

/// Whether `x` lies in the closed range.
pub open spec fn within(x: int, range: (int, int)) -> bool {
    range.0 <= x <= range.1
}

/// The cell in which a run along a row and a run along a column cross, taken in either order.
pub open spec fn crossing(g1: (Point, Point), g2: (Point, Point)) -> Option<Point> {
    if in_row(g1) && in_col(g2) {
        if within(g1.0.0, rows_of(g2)) && within(g2.0.1, cols_of(g1)) {
            Some((g1.0.0, g2.0.1))
        } else {
            None
        }
    } else if in_col(g1) && in_row(g2) {
        if within(g2.0.0, rows_of(g1)) && within(g1.0.1, cols_of(g2)) {
            Some((g2.0.0, g1.0.1))
        } else {
            None
        }
    } else {
        None
    }
}

/// What two closed ranges share; touching ranges share their common end.
pub open spec fn overlap(r1: (int, int), r2: (int, int)) -> Option<(int, int)> {
    let lo = most(r1.0, r2.0);
    let hi = least(r1.1, r2.1);
    if hi < lo {
        None
    } else {
        Some((lo, hi))
    }
}

/// The two cells are neighbours in a row or a column.
pub open spec fn adjacent(a: Point, b: Point) -> bool {
    ||| a.0 == b.0 && (a.1 == b.1 + 1 || a.1 + 1 == b.1)
    ||| a.1 == b.1 && (a.0 == b.0 + 1 || a.0 + 1 == b.0)
}

/// No tile lies on row `r` in the columns from `c_lo` up to, not including, `c_hi`.
pub open spec fn row_clear(cells: Map<Point, Tile>, r: int, c_lo: int, c_hi: int) -> bool {
    forall|c: int| c_lo <= c < c_hi ==> !cells.contains_key((r, c))
}

/// No tile lies on column `c` in the rows from `r_lo` up to, not including, `r_hi`.
pub open spec fn col_clear(cells: Map<Point, Tile>, c: int, r_lo: int, r_hi: int) -> bool {
    forall|r: int| r_lo <= r < r_hi ==> !cells.contains_key((r, c))
}

/// Every cell of row `r` in the columns from `c_lo` up to, not including, `c_hi` is free.
pub open spec fn row_free(cells: Map<Point, Tile>, size: Point, r: int, c_lo: int, c_hi: int) -> bool {
    forall|c: int|
        #![trigger cells.contains_key((r, c))]
        #![trigger free(cells, size, (r, c))]
        c_lo <= c < c_hi ==> free(cells, size, (r, c))
}

/// Every cell of column `c` in the rows from `r_lo` up to, not including, `r_hi` is free.
pub open spec fn col_free(cells: Map<Point, Tile>, size: Point, c: int, r_lo: int, r_hi: int) -> bool {
    forall|r: int|
        #![trigger cells.contains_key((r, c))]
        #![trigger free(cells, size, (r, c))]
        r_lo <= r < r_hi ==> free(cells, size, (r, c))
}

/// The first row from `lo` to `hi` on which no tile lies in the columns from `c_lo` up to, not
/// including, `c_hi`.
pub open spec fn first_clear_row(cells: Map<Point, Tile>, lo: int, hi: int, c_lo: int, c_hi: int) -> Option<int>
    decreases hi - lo + 1,
{
    if lo > hi {
        None
    } else if row_clear(cells, lo, c_lo, c_hi) {
        Some(lo)
    } else {
        first_clear_row(cells, lo + 1, hi, c_lo, c_hi)
    }
}

/// The first column from `lo` to `hi` on which no tile lies in the rows from `r_lo` up to, not
/// including, `r_hi`.
pub open spec fn first_clear_col(cells: Map<Point, Tile>, lo: int, hi: int, r_lo: int, r_hi: int) -> Option<int>
    decreases hi - lo + 1,
{
    if lo > hi {
        None
    } else if col_clear(cells, lo, r_lo, r_hi) {
        Some(lo)
    } else {
        first_clear_col(cells, lo + 1, hi, r_lo, r_hi)
    }
}

/// The bar along the first clear row between the columns `c1` and `c2`, ends included.
pub open spec fn row_bar(cells: Map<Point, Tile>, lo: int, hi: int, c1: int, c2: int) -> Option<(Point, Point)> {
    match first_clear_row(cells, lo, hi, least(c1, c2), most(c1, c2) + 1) {
        Some(r) => Some(((r, c1), (r, c2))),
        None => None,
    }
}

/// The bar along the first clear column between the rows `r1` and `r2`, ends included.
pub open spec fn col_bar(cells: Map<Point, Tile>, lo: int, hi: int, r1: int, r2: int) -> Option<(Point, Point)> {
    match first_clear_col(cells, lo, hi, least(r1, r2), most(r1, r2) + 1) {
        Some(c) => Some(((r1, c), (r2, c))),
        None => None,
    }
}

/// The smaller of two numbers.
pub open spec fn least(a: int, b: int) -> int {
    if a <= b {
        a
    } else {
        b
    }
}

/// The greater of two numbers.
pub open spec fn most(a: int, b: int) -> int {
    if a >= b {
        a
    } else {
        b
    }
}

/// The two cells share a row or a column, and no tile lies strictly between them.
pub open spec fn straight(cells: Map<Point, Tile>, a: Point, b: Point) -> bool {
    ||| a.0 == b.0 && row_clear(cells, a.0, least(a.1, b.1) + 1, most(a.1, b.1))
    ||| a.1 == b.1 && col_clear(cells, a.1, least(a.0, b.0) + 1, most(a.0, b.0))
}

/// A straight run between two different cells that crosses no tile.
pub open spec fn segment_open(cells: Map<Point, Tile>, a: Point, b: Point) -> bool {
    a != b && straight(cells, a, b)
}

/// A path of two to four points: consecutive points are joined by open segments, and every
/// bend is a free cell of the board.
pub open spec fn path_open(cells: Map<Point, Tile>, size: Point, path: Seq<Point>) -> bool {
    &&& 2 <= path.len() <= 4
    &&& forall|i: int| 0 <= i < path.len() - 1 ==> segment_open(cells, #[trigger] path[i], path[i + 1])
    &&& forall|i: int| 0 < i < path.len() - 1 ==> free(cells, size, #[trigger] path[i])
}

/// The path is open and leads from `a` to `b`.
pub open spec fn joins(cells: Map<Point, Tile>, size: Point, a: Point, b: Point, path: Seq<Point>) -> bool {
    path_open(cells, size, path) && path[0] == a && path[path.len() - 1] == b
}

/// Some open path with at most two bends leads from `a` to `b`.
pub open spec fn connectable(cells: Map<Point, Tile>, size: Point, a: Point, b: Point) -> bool {
    exists|path: Seq<Point>| joins(cells, size, a, b, path)
}

/// What a ray covers: it stays on its line, every cell that it passes is free, and the cell
/// behind its end is not.
pub proof fn lemma_ray_end(cells: Map<Point, Tile>, size: Point, p: Point, d: Point)
    requires
        unit(d),
    ensures
        ({
            let e = ray_end(cells, size, p, d);
            &&& !free(cells, size, step(e, d))
            &&& d.0 == -1 ==> e.1 == p.1 && e.0 <= p.0 && col_free(cells, size, p.1, e.0, p.0)
            &&& d.0 == 1 ==> e.1 == p.1 && e.0 >= p.0 && col_free(cells, size, p.1, p.0 + 1, e.0 + 1)
            &&& d.1 == -1 ==> e.0 == p.0 && e.1 <= p.1 && row_free(cells, size, p.0, e.1, p.1)
            &&& d.1 == 1 ==> e.0 == p.0 && e.1 >= p.1 && row_free(cells, size, p.0, p.1 + 1, e.1 + 1)
        }),
    decreases room(size, p, d),
{
    if free(cells, size, step(p, d)) {
        let n = step(p, d);
        let e = ray_end(cells, size, p, d);
        lemma_ray_end(cells, size, n, d);
        if d.0 == -1 {
            assert forall|r: int| e.0 <= r < p.0 implies #[trigger] free(cells, size, (r, p.1)) by {
                if r == p.0 - 1 {
                    assert((r, p.1) == n);
                } else {
                    assert(free(cells, size, (r, n.1)));
                }
            }
        } else if d.0 == 1 {
            assert forall|r: int| p.0 + 1 <= r < e.0 + 1 implies #[trigger] free(cells, size, (r, p.1)) by {
                if r == p.0 + 1 {
                    assert((r, p.1) == n);
                } else {
                    assert(free(cells, size, (r, n.1)));
                }
            }
        } else if d.1 == -1 {
            assert forall|c: int| e.1 <= c < p.1 implies #[trigger] free(cells, size, (p.0, c)) by {
                if c == p.1 - 1 {
                    assert((p.0, c) == n);
                } else {
                    assert(free(cells, size, (n.0, c)));
                }
            }
        } else {
            assert forall|c: int| p.1 + 1 <= c < e.1 + 1 implies #[trigger] free(cells, size, (p.0, c)) by {
                if c == p.1 + 1 {
                    assert((p.0, c) == n);
                } else {
                    assert(free(cells, size, (n.0, c)));
                }
            }
        }
    }
}

/// A ray reaches at least as far as any run of free cells that starts next to its origin.
pub proof fn lemma_ray_covers(cells: Map<Point, Tile>, size: Point, p: Point, d: Point, q: Point)
    requires
        unit(d),
        d.0 == -1 ==> q.1 == p.1 && q.0 <= p.0 && col_free(cells, size, p.1, q.0, p.0),
        d.0 == 1 ==> q.1 == p.1 && q.0 >= p.0 && col_free(cells, size, p.1, p.0 + 1, q.0 + 1),
        d.1 == -1 ==> q.0 == p.0 && q.1 <= p.1 && row_free(cells, size, p.0, q.1, p.1),
        d.1 == 1 ==> q.0 == p.0 && q.1 >= p.1 && row_free(cells, size, p.0, p.1 + 1, q.1 + 1),
    ensures
        ({
            let e = ray_end(cells, size, p, d);
            &&& d.0 == -1 ==> e.0 <= q.0
            &&& d.0 == 1 ==> e.0 >= q.0
            &&& d.1 == -1 ==> e.1 <= q.1
            &&& d.1 == 1 ==> e.1 >= q.1
        }),
{
    lemma_ray_end(cells, size, p, d);
    let e = ray_end(cells, size, p, d);
    let n = step(e, d);
    if d.0 == -1 && e.0 > q.0 {
        assert(!cells.contains_key((n.0, p.1)));
    }
    if d.0 == 1 && e.0 < q.0 {
        assert(!cells.contains_key((n.0, p.1)));
    }
    if d.1 == -1 && e.1 > q.1 {
        assert(!cells.contains_key((p.0, n.1)));
    }
    if d.1 == 1 && e.1 < q.1 {
        assert(!cells.contains_key((p.0, n.1)));
    }
}

/// The first clear row is clear, lies in the range, and no row before it is clear; where there
/// is none, no row of the range is clear.
pub proof fn lemma_first_clear_row(cells: Map<Point, Tile>, lo: int, hi: int, c_lo: int, c_hi: int)
    ensures
        match first_clear_row(cells, lo, hi, c_lo, c_hi) {
            Some(r) => lo <= r <= hi && row_clear(cells, r, c_lo, c_hi) && forall|x: int|
                lo <= x < r ==> !row_clear(cells, x, c_lo, c_hi),
            None => forall|x: int| lo <= x <= hi ==> !row_clear(cells, x, c_lo, c_hi),
        },
    decreases hi - lo + 1,
{
    if lo <= hi && !row_clear(cells, lo, c_lo, c_hi) {
        lemma_first_clear_row(cells, lo + 1, hi, c_lo, c_hi);
    }
}

/// The first clear column is clear, lies in the range, and no column before it is clear; where
/// there is none, no column of the range is clear.
pub proof fn lemma_first_clear_col(cells: Map<Point, Tile>, lo: int, hi: int, r_lo: int, r_hi: int)
    ensures
        match first_clear_col(cells, lo, hi, r_lo, r_hi) {
            Some(c) => lo <= c <= hi && col_clear(cells, c, r_lo, r_hi) && forall|x: int|
                lo <= x < c ==> !col_clear(cells, x, r_lo, r_hi),
            None => forall|x: int| lo <= x <= hi ==> !col_clear(cells, x, r_lo, r_hi),
        },
    decreases hi - lo + 1,
{
    if lo <= hi && !col_clear(cells, lo, r_lo, r_hi) {
        lemma_first_clear_col(cells, lo + 1, hi, r_lo, r_hi);
    }
}

/// Two open segments on one line, with a free cell between them, make one open segment,
/// unless they lead back to where they began.
pub proof fn lemma_merge(cells: Map<Point, Tile>, size: Point, u: Point, v: Point, w: Point)
    requires
        segment_open(cells, u, v),
        segment_open(cells, v, w),
        free(cells, size, v),
        (u.0 == v.0 && v.0 == w.0) || (u.1 == v.1 && v.1 == w.1),
        u != w,
    ensures
        segment_open(cells, u, w),
{
    if u.0 == v.0 && v.0 == w.0 {
        assert forall|c: int| least(u.1, w.1) + 1 <= c < most(u.1, w.1) implies !cells.contains_key((u.0, c)) by {
            if c == v.1 {
            } else if least(u.1, v.1) < c < most(u.1, v.1) {
            } else {
                assert(least(v.1, w.1) < c < most(v.1, w.1));
            }
        }
    } else {
        assert forall|r: int| least(u.0, w.0) + 1 <= r < most(u.0, w.0) implies !cells.contains_key((r, u.1)) by {
            if r == v.0 {
            } else if least(u.0, v.0) < r < most(u.0, v.0) {
            } else {
                assert(least(v.0, w.0) < r < most(v.0, w.0));
            }
        }
    }
}

/// Whether `q` lies on the run that the ray from `p` covers.
pub open spec fn on_ray(cells: Map<Point, Tile>, size: Point, p: Point, d: Point, q: Point) -> bool {
    let e = ray_end(cells, size, p, d);
    if d.1 == 0 {
        q.1 == p.1 && within(q.0, rows_of((p, e))) && (d.0 == 1 ==> q.0 >= p.0) && (d.0 == -1 ==> q.0 <= p.0)
    } else {
        q.0 == p.0 && within(q.1, cols_of((p, e))) && (d.1 == 1 ==> q.1 >= p.1) && (d.1 == -1 ==> q.1 <= p.1)
    }
}

/// A cell on the run of a ray, other than its origin, is free, and nothing lies between the
/// origin and the cell.
pub proof fn lemma_on_ray(cells: Map<Point, Tile>, size: Point, p: Point, d: Point, q: Point)
    requires
        unit(d),
        q != p,
        on_ray(cells, size, p, d, q),
    ensures
        free(cells, size, q),
        segment_open(cells, p, q),
        segment_open(cells, q, p),
{
    lemma_ray_end(cells, size, p, d);
    assert(q == (q.0, q.1));
    assert(!cells.contains_key((q.0, q.1)));
}

/// A cell that is free, with nothing but free cells between it and `p`, lies on the ray that
/// `p` casts towards it.
pub proof fn lemma_reaches(cells: Map<Point, Tile>, size: Point, p: Point, d: Point, q: Point)
    requires
        unit(d),
        q != p,
        0 <= p.0 < size.0,
        0 <= p.1 < size.1,
        free(cells, size, q),
        segment_open(cells, p, q),
        d.0 == -1 ==> q.1 == p.1 && q.0 < p.0,
        d.0 == 1 ==> q.1 == p.1 && q.0 > p.0,
        d.1 == -1 ==> q.0 == p.0 && q.1 < p.1,
        d.1 == 1 ==> q.0 == p.0 && q.1 > p.1,
    ensures
        on_ray(cells, size, p, d, q),
        ray_end(cells, size, p, d) != p,
{
    if d.0 == -1 {
        assert(col_free(cells, size, p.1, q.0, p.0)) by {
            assert forall|r: int| q.0 <= r < p.0 implies #[trigger] free(cells, size, (r, p.1)) by {
                if r != q.0 {
                    assert(least(p.0, q.0) + 1 <= r < most(p.0, q.0));
                }
            }
        }
    } else if d.0 == 1 {
        assert(col_free(cells, size, p.1, p.0 + 1, q.0 + 1)) by {
            assert forall|r: int| p.0 + 1 <= r < q.0 + 1 implies #[trigger] free(cells, size, (r, p.1)) by {
                if r != q.0 {
                    assert(least(p.0, q.0) + 1 <= r < most(p.0, q.0));
                }
            }
        }
    } else if d.1 == -1 {
        assert(row_free(cells, size, p.0, q.1, p.1)) by {
            assert forall|c: int| q.1 <= c < p.1 implies #[trigger] free(cells, size, (p.0, c)) by {
                if c != q.1 {
                    assert(least(p.1, q.1) + 1 <= c < most(p.1, q.1));
                }
            }
        }
    } else {
        assert(row_free(cells, size, p.0, p.1 + 1, q.1 + 1)) by {
            assert forall|c: int| p.1 + 1 <= c < q.1 + 1 implies #[trigger] free(cells, size, (p.0, c)) by {
                if c != q.1 {
                    assert(least(p.1, q.1) + 1 <= c < most(p.1, q.1));
                }
            }
        }
    }
    lemma_ray_covers(cells, size, p, d, q);
    lemma_ray_end(cells, size, p, d);
}

} // verus!
