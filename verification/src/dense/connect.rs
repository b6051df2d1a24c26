//! The connectivity test on a dense board: whether, and along which path, two cells can be
//! joined with at most two bends.
use vstd::prelude::*;
use crate::components::{
    dir, opt_pt, opt_seg, opt_seg_pair, pt, seg, Coord, CoordElement, Grid, Point, Tile,
};
use crate::dense::components::{shape_of, tile_at, Nodes, TileMap, TypedCoord};
use crate::geometry::{
    adjacent, col_free, cols_of, connectable, crossing, free, in_col, in_row, inside, joins, least,
    lemma_merge, lemma_on_ray, lemma_ray_covers, lemma_ray_end, lemma_reaches, most, on_ray,
    overlap, ray, ray_end, room, row_free, rows_of, segment_open, step, straight, unit,
};

verus! {

/// The four slots of a path of up to four points.
pub open spec fn slots(path: Seq<Point>) -> Seq<Option<Point>> {
    Seq::new(4, |i: int| if i < path.len() { Some(path[i]) } else { None })
}

/// What the four slots hold, as points.
pub open spec fn slot_view(nodes: Nodes) -> Seq<Option<Point>> {
    Seq::new(4, |i: int| opt_pt(nodes[i]))
}

/// What the four slots hold, where there is a path.
pub open spec fn opt_slots(nodes: Option<Nodes>) -> Option<Seq<Option<Point>>> {
    match nodes {
        Some(nodes) => Some(slot_view(nodes)),
        None => None,
    }
}

/// The four slots of the path, where there is one.
pub open spec fn path_slots(path: Option<Seq<Point>>) -> Option<Seq<Option<Point>>> {
    match path {
        Some(path) => Some(slots(path)),
        None => None,
    }
}

/// The two steps that a pair of deltas names.
pub open spec fn dirs(directions: Option<[TypedCoord; 2]>) -> Option<(Point, Point)> {
    match directions {
        Some(d) => Some((dir(d[0]), dir(d[1]))),
        None => None,
    }
}

/// The cell one step from `p`, where it is a free cell of the board.
pub open spec fn moved_free(cells: Map<Point, Tile>, size: Point, p: Point, d: Point) -> Option<Point> {
    if free(cells, size, step(p, d)) {
        Some(step(p, d))
    } else {
        None
    }
}

/// The runs that two cells cast, each in its own direction.
pub open spec fn runs(
    cells: Map<Point, Tile>,
    size: Point,
    a: Point,
    b: Point,
    d: Option<(Point, Point)>,
) -> Option<((Point, Point), (Point, Point))> {
    match d {
        Some((d1, d2)) => Some((ray(cells, size, a, d1), ray(cells, size, b, d2))),
        None => None,
    }
}

/// The first row from `lo` to `hi` on which a ray cast from the column `c_lo` towards higher
/// columns reaches the column `c_hi`.
pub open spec fn first_open_row(
    cells: Map<Point, Tile>,
    size: Point,
    lo: int,
    hi: int,
    c_lo: int,
    c_hi: int,
) -> Option<int>
    decreases hi - lo + 1,
{
    if lo > hi {
        None
    } else if ray_end(cells, size, (lo, c_lo), (0, 1)).1 >= c_hi {
        Some(lo)
    } else {
        first_open_row(cells, size, lo + 1, hi, c_lo, c_hi)
    }
}

/// The first column from `lo` to `hi` on which a ray cast from the row `r_lo` towards higher
/// rows reaches the row `r_hi`.
pub open spec fn first_open_col(
    cells: Map<Point, Tile>,
    size: Point,
    lo: int,
    hi: int,
    r_lo: int,
    r_hi: int,
) -> Option<int>
    decreases hi - lo + 1,
{
    if lo > hi {
        None
    } else if ray_end(cells, size, (r_lo, lo), (1, 0)).0 >= r_hi {
        Some(lo)
    } else {
        first_open_col(cells, size, lo + 1, hi, r_lo, r_hi)
    }
}

/// The bar along the first open row of the range, from the lower of the two columns to the
/// higher.
pub open spec fn x_bar(cells: Map<Point, Tile>, size: Point, rows: (int, int), c1: int, c2: int) -> Option<
    (Point, Point),
> {
    match first_open_row(cells, size, rows.0, rows.1, least(c1, c2), most(c1, c2)) {
        Some(r) => Some(((r, least(c1, c2)), (r, most(c1, c2)))),
        None => None,
    }
}

/// The bar along the first open column of the range, from the lower of the two rows to the
/// higher.
pub open spec fn y_bar(cells: Map<Point, Tile>, size: Point, cols: (int, int), r1: int, r2: int) -> Option<
    (Point, Point),
> {
    match first_open_col(cells, size, cols.0, cols.1, least(r1, r2), most(r1, r2)) {
        Some(c) => Some(((least(r1, r2), c), (most(r1, r2), c))),
        None => None,
    }
}

/// Two runs lie on one row, or on one column, and touch or overlap.
pub open spec fn single_line(g1: (Point, Point), g2: (Point, Point)) -> bool {
    ||| in_row(g1) && g1.1.0 == g2.0.0 && in_row(g2) && most(g1.0.1, g1.1.1) >= least(g2.0.1, g2.1.1) && most(
        g2.0.1,
        g2.1.1,
    ) >= least(g1.0.1, g1.1.1)
    ||| in_col(g1) && g1.1.1 == g2.0.1 && in_col(g2) && most(g1.0.0, g1.1.0) >= least(g2.0.0, g2.1.0) && most(
        g2.0.0,
        g2.1.0,
    ) >= least(g1.0.0, g1.1.0)
}

/// The rows that two runs along columns share.
pub open spec fn overlapped_rows(g1: (Point, Point), g2: (Point, Point)) -> Option<(int, int)> {
    if !in_col(g1) || !in_col(g2) {
        None
    } else {
        overlap(rows_of(g1), rows_of(g2))
    }
}

/// The columns that two runs along rows share.
pub open spec fn overlapped_cols(g1: (Point, Point), g2: (Point, Point)) -> Option<(int, int)> {
    if !in_row(g1) || !in_row(g2) {
        None
    } else {
        overlap(cols_of(g1), cols_of(g2))
    }
}

/// The path with one bend that two runs give: from the origin of the first over the cell in
/// which they cross to the origin of the second.
pub open spec fn double_line(g1: (Point, Point), g2: (Point, Point)) -> Option<Seq<Point>> {
    match crossing(g1, g2) {
        Some(c) => Some(seq![g1.0, c, g2.0]),
        None => None,
    }
}

/// The path with two bends that two parallel runs give: a bar joins the runs, and the path
/// starts from the origin on whose line the bar begins.
pub open spec fn triple_line(cells: Map<Point, Tile>, size: Point, g1: (Point, Point), g2: (Point, Point)) -> Option<
    Seq<Point>,
> {
    match overlapped_rows(g1, g2) {
        Some(rows) => match x_bar(cells, size, rows, g1.0.1, g2.0.1) {
            Some(bar) => if bar.0.1 == g1.0.1 {
                Some(seq![g1.0, bar.0, bar.1, g2.0])
            } else if bar.0.1 == g2.0.1 {
                Some(seq![g2.0, bar.0, bar.1, g1.0])
            } else {
                None
            },
            None => None,
        },
        None => match overlapped_cols(g1, g2) {
            Some(cols) => match y_bar(cells, size, cols, g1.0.0, g2.0.0) {
                Some(bar) => if bar.0.0 == g1.0.0 {
                    Some(seq![g1.0, bar.0, bar.1, g2.0])
                } else if bar.0.0 == g2.0.0 {
                    Some(seq![g2.0, bar.0, bar.1, g1.0])
                } else {
                    None
                },
                None => None,
            },
            None => None,
        },
    }
}

/// The steps along the rows that lead two cells towards each other; none where they share a
/// row.
pub open spec fn faced_rows(a: Point, b: Point) -> Option<(Point, Point)> {
    if a.0 > b.0 {
        Some(((-1, 0), (1, 0)))
    } else if a.0 < b.0 {
        Some(((1, 0), (-1, 0)))
    } else {
        None
    }
}

/// The steps along the columns that lead two cells towards each other; none where they share
/// a column.
pub open spec fn faced_cols(a: Point, b: Point) -> Option<(Point, Point)> {
    if a.1 > b.1 {
        Some(((0, -1), (0, 1)))
    } else if a.1 < b.1 {
        Some(((0, 1), (0, -1)))
    } else {
        None
    }
}

/// The steps of the two paths with one bend: the first cell along the rows and the second
/// along the columns, then the other way round; none where the cells share a line.
pub open spec fn l_dirs(a: Point, b: Point) -> (Option<(Point, Point)>, Option<(Point, Point)>) {
    match (faced_rows(a, b), faced_cols(a, b)) {
        (Some(x), Some(y)) => (Some((x.0, y.1)), Some((y.0, x.1))),
        _ => (None, None),
    }
}

/// The first of two results that is there.
pub open spec fn first_some<T>(x: Option<T>, y: Option<T>) -> Option<T> {
    match x {
        Some(_) => x,
        None => y,
    }
}

/// The path with two bends that the runs give, where there are runs.
pub open spec fn triple_of(
    cells: Map<Point, Tile>,
    size: Point,
    g: Option<((Point, Point), (Point, Point))>,
) -> Option<Seq<Point>> {
    match g {
        Some((g1, g2)) => triple_line(cells, size, g1, g2),
        None => None,
    }
}

/// The path with one bend that the runs give, where there are runs.
pub open spec fn double_of(g: Option<((Point, Point), (Point, Point))>) -> Option<Seq<Point>> {
    match g {
        Some((g1, g2)) => double_line(g1, g2),
        None => None,
    }
}

/// Whether the runs lie on one line and meet.
pub open spec fn single_of(g: Option<((Point, Point), (Point, Point))>) -> bool {
    match g {
        Some((g1, g2)) => single_line(g1, g2),
        None => false,
    }
}

/// The path with one bend between two cells.
pub open spec fn bent_once(cells: Map<Point, Tile>, size: Point, a: Point, b: Point) -> Option<Seq<Point>> {
    let l = l_dirs(a, b);
    first_some(double_of(runs(cells, size, a, b, l.0)), double_of(runs(cells, size, a, b, l.1)))
}

/// The path with two bends between two cells. The runs are tried in this order: towards each
/// other along the rows, towards each other along the columns, both down, both up, both
/// right, both left.
pub open spec fn bent_twice(cells: Map<Point, Tile>, size: Point, a: Point, b: Point) -> Option<Seq<Point>> {
    first_some(
        triple_of(cells, size, runs(cells, size, a, b, faced_rows(a, b))),
        first_some(
            triple_of(cells, size, runs(cells, size, a, b, faced_cols(a, b))),
            first_some(
                triple_of(cells, size, runs(cells, size, a, b, Some(((1, 0), (1, 0))))),
                first_some(
                    triple_of(cells, size, runs(cells, size, a, b, Some(((-1, 0), (-1, 0))))),
                    first_some(
                        triple_of(cells, size, runs(cells, size, a, b, Some(((0, 1), (0, 1))))),
                        triple_of(cells, size, runs(cells, size, a, b, Some(((0, -1), (0, -1))))),
                    ),
                ),
            ),
        ),
    )
}

/// Whether a straight line joins two cells: they are neighbours, or the rays that they cast
/// towards each other meet.
pub open spec fn in_sight(cells: Map<Point, Tile>, size: Point, a: Point, b: Point) -> bool {
    adjacent(a, b) || single_of(runs(cells, size, a, b, faced_rows(a, b))) || single_of(
        runs(cells, size, a, b, faced_cols(a, b)),
    )
}

/// The path that joins two cells: the straight one if there is one, else the one with one
/// bend, else the one with two.
pub open spec fn connection(cells: Map<Point, Tile>, size: Point, a: Point, b: Point) -> Option<Seq<Point>> {
    if in_sight(cells, size, a, b) {
        Some(seq![a, b])
    } else {
        first_some(bent_once(cells, size, a, b), bent_twice(cells, size, a, b))
    }
}

/// The cell one step from `coord`, where it is a free cell of the board.
pub fn move_coord(map: &TileMap, coord: &Coord, delta: &TypedCoord) -> (r: Option<Coord>)
    ensures
        opt_pt(r) == moved_free(map@, map.extent(), pt(*coord), dir(*delta)),
{
    let shape = shape_of(map);
    let row: i128 = coord[0] as i128 + delta[0] as i128;
    let col: i128 = coord[1] as i128 + delta[1] as i128;
    if row < 0 || col < 0 {
        None
    } else if row >= shape[0] as i128 || col >= shape[1] as i128 {
        None
    } else {
        let moved: Coord = [row as CoordElement, col as CoordElement];
        if tile_at(map, &moved).is_none() {
            Some(moved)
        } else {
            None
        }
    }
}

/// The run that a ray cast from `coord` covers: it ends on the last free cell before a tile or
/// the edge of the board, and on `coord` itself where the first step is blocked.
pub fn get_grid(map: &TileMap, coord: &Coord, delta: &TypedCoord) -> (r: Option<Grid>)
    requires
        unit(dir(*delta)),
    ensures
        opt_seg(r) == Some(ray(map@, map.extent(), pt(*coord), dir(*delta))),
{
    let mut cursor: Coord = *coord;
    let mut open = true;
    while open
        invariant
            unit(dir(*delta)),
            ray_end(map@, map.extent(), pt(cursor), dir(*delta)) == ray_end(
                map@,
                map.extent(),
                pt(*coord),
                dir(*delta),
            ),
            !open ==> !free(map@, map.extent(), step(pt(cursor), dir(*delta))),
        decreases
                (if open {
                    1 + most(room(map.extent(), pt(cursor), dir(*delta)), 0)
                } else {
                    0
                }),
    {
        match move_coord(map, &cursor, delta) {
            Some(next) => {
                cursor = next;
            },
            None => {
                open = false;
            },
        }
    }
    Some([*coord, cursor])
}

/// The cell in which a run along a row and a run along a column cross.
pub fn get_intersection(grid1: &Grid, grid2: &Grid) -> (r: Option<Coord>)
    ensures
        opt_pt(r) == crossing(seg(*grid1), seg(*grid2)),
{
    let x11: usize = grid1[0][0];
    let y11: usize = grid1[0][1];
    let x12: usize = grid1[1][0];
    let y12: usize = grid1[1][1];
    let x21: usize = grid2[0][0];
    let y21: usize = grid2[0][1];
    let x22: usize = grid2[1][0];
    let y22: usize = grid2[1][1];
    if x11 == x12 && y21 == y22 {
        if higher(x21, x22) >= x11 && lower(x21, x22) <= x11 && higher(y11, y12) >= y21 && lower(y11, y12) <= y21 {
            Some([x11, y21])
        } else {
            None
        }
    } else if y11 == y12 && x21 == x22 {
        if higher(y21, y22) >= y11 && lower(y21, y22) <= y11 && higher(x11, x12) >= x21 && lower(x11, x12) <= x21 {
            Some([x21, y11])
        } else {
            None
        }
    } else {
        None
    }
}

/// The greater of two numbers.
pub fn higher(a: usize, b: usize) -> (r: usize)
    ensures
        r == most(a as int, b as int),
{
    if a >= b {
        a
    } else {
        b
    }
}

/// The smaller of two numbers.
pub fn lower(a: usize, b: usize) -> (r: usize)
    ensures
        r == least(a as int, b as int),
{
    if a <= b {
        a
    } else {
        b
    }
}

/// The bar along the first row of `xrange` on which the columns between the two of `yrange`
/// are free, from the lower column to the higher.
pub fn explore_x_connection(map: &TileMap, xrange: &[CoordElement; 2], yrange: &[CoordElement; 2]) -> (r: Option<Grid>)
    ensures
        opt_seg(r) == x_bar(
            map@,
            map.extent(),
            (xrange[0] as int, xrange[1] as int),
            yrange[0] as int,
            yrange[1] as int,
        ),
{
    let ymax = higher(yrange[0], yrange[1]);
    let ymin = lower(yrange[0], yrange[1]);
    if xrange[0] > xrange[1] {
        return None;
    }
    let mut x: usize = xrange[0];
    loop
        invariant
            xrange[0] <= x <= xrange[1],
            ymax == most(yrange[0] as int, yrange[1] as int),
            ymin == least(yrange[0] as int, yrange[1] as int),
            first_open_row(map@, map.extent(), x as int, xrange[1] as int, ymin as int, ymax as int)
                == first_open_row(
                map@,
                map.extent(),
                xrange[0] as int,
                xrange[1] as int,
                ymin as int,
                ymax as int,
            ),
        decreases xrange[1] - x,
    {
        let right: TypedCoord = [0, 1];
        match get_grid(map, &[x, ymin], &right) {
            Some(grid) => {
                if grid[1][1] >= ymax {
                    return Some([[x, ymin], [x, ymax]]);
                }
            },
            None => {},
        }
        if x == xrange[1] {
            assert(first_open_row(map@, map.extent(), x + 1, xrange[1] as int, ymin as int, ymax as int) is None);
            return None;
        }
        x = x + 1;
    }
}

/// The bar along the first column of `yrange` on which the rows between the two of `xrange`
/// are free, from the lower row to the higher.
pub fn explore_y_connection(map: &TileMap, yrange: &[CoordElement; 2], xrange: &[CoordElement; 2]) -> (r: Option<Grid>)
    ensures
        opt_seg(r) == y_bar(
            map@,
            map.extent(),
            (yrange[0] as int, yrange[1] as int),
            xrange[0] as int,
            xrange[1] as int,
        ),
{
    let xmax = higher(xrange[0], xrange[1]);
    let xmin = lower(xrange[0], xrange[1]);
    if yrange[0] > yrange[1] {
        return None;
    }
    let mut y: usize = yrange[0];
    loop
        invariant
            yrange[0] <= y <= yrange[1],
            xmax == most(xrange[0] as int, xrange[1] as int),
            xmin == least(xrange[0] as int, xrange[1] as int),
            first_open_col(map@, map.extent(), y as int, yrange[1] as int, xmin as int, xmax as int)
                == first_open_col(
                map@,
                map.extent(),
                yrange[0] as int,
                yrange[1] as int,
                xmin as int,
                xmax as int,
            ),
        decreases yrange[1] - y,
    {
        let down: TypedCoord = [1, 0];
        match get_grid(map, &[xmin, y], &down) {
            Some(grid) => {
                if grid[1][0] >= xmax {
                    return Some([[xmin, y], [xmax, y]]);
                }
            },
            None => {},
        }
        if y == yrange[1] {
            assert(first_open_col(map@, map.extent(), y + 1, yrange[1] as int, xmin as int, xmax as int) is None);
            return None;
        }
        y = y + 1;
    }
}

/// Whether the two cells are neighbours in a row or a column.
pub fn is_tile_touched(coord1: &Coord, coord2: &Coord) -> (r: bool)
    ensures
        r == adjacent(pt(*coord1), pt(*coord2)),
{
    let x1: usize = coord1[0];
    let y1: usize = coord1[1];
    let x2: usize = coord2[0];
    let y2: usize = coord2[1];
    (x1 == x2 && ((y1 > y2 && y1 - y2 == 1) || (y2 > y1 && y2 - y1 == 1))) || (y1 == y2 && ((x1 > x2 && x1 - x2
        == 1) || (x2 > x1 && x2 - x1 == 1)))
}

/// Whether the two runs lie on one row, or on one column, and touch or overlap.
pub fn is_connected_with_single_line(grid1: &Grid, grid2: &Grid) -> (r: bool)
    ensures
        r == single_line(seg(*grid1), seg(*grid2)),
{
    let x11: usize = grid1[0][0];
    let y11: usize = grid1[0][1];
    let x12: usize = grid1[1][0];
    let y12: usize = grid1[1][1];
    let x21: usize = grid2[0][0];
    let y21: usize = grid2[0][1];
    let x22: usize = grid2[1][0];
    let y22: usize = grid2[1][1];
    (x11 == x12 && x12 == x21 && x21 == x22 && higher(y11, y12) >= lower(y21, y22) && higher(y21, y22) >= lower(
        y11,
        y12,
    )) || (y11 == y12 && y12 == y21 && y21 == y22 && higher(x11, x12) >= lower(x21, x22) && higher(x21, x22)
        >= lower(x11, x12))
}

/// The path with one bend that two runs give: from the origin of the first over the cell in
/// which they cross to the origin of the second.
pub fn get_double_line_connection(grid1: &Grid, grid2: &Grid) -> (r: Option<Nodes>)
    ensures
        opt_slots(r) == path_slots(double_line(seg(*grid1), seg(*grid2))),
{
    match get_intersection(grid1, grid2) {
        Some(c) => {
            let nodes: Nodes = [Some(grid1[0]), Some(c), Some(grid2[0]), None];
            assert(slot_view(nodes) =~= slots(seq![pt(grid1[0]), pt(c), pt(grid2[0])]));
            Some(nodes)
        },
        None => None,
    }
}

/// The rows that two runs along columns share.
pub fn get_overlapped_x_range(grid1: &Grid, grid2: &Grid) -> (r: Option<[CoordElement; 2]>)
    ensures
        opt_pt(r) == overlapped_rows(seg(*grid1), seg(*grid2)),
{
    if grid1[0][1] != grid1[1][1] || grid2[0][1] != grid2[1][1] {
        return None;
    }
    let xmax = lower(higher(grid1[0][0], grid1[1][0]), higher(grid2[0][0], grid2[1][0]));
    let xmin = higher(lower(grid1[0][0], grid1[1][0]), lower(grid2[0][0], grid2[1][0]));
    if xmax >= xmin {
        Some([xmin, xmax])
    } else {
        None
    }
}

/// The columns that two runs along rows share.
pub fn get_overlapped_y_range(grid1: &Grid, grid2: &Grid) -> (r: Option<[CoordElement; 2]>)
    ensures
        opt_pt(r) == overlapped_cols(seg(*grid1), seg(*grid2)),
{
    if grid1[0][0] != grid1[1][0] || grid2[0][0] != grid2[1][0] {
        return None;
    }
    let ymax = lower(higher(grid1[0][1], grid1[1][1]), higher(grid2[0][1], grid2[1][1]));
    let ymin = higher(lower(grid1[0][1], grid1[1][1]), lower(grid2[0][1], grid2[1][1]));
    if ymax >= ymin {
        Some([ymin, ymax])
    } else {
        None
    }
}

/// The path with two bends that two parallel runs give: a bar joins the runs, and the path
/// starts from the origin on whose line the bar begins.
pub fn get_triple_line_connection(map: &TileMap, grid1: &Grid, grid2: &Grid) -> (r: Option<Nodes>)
    ensures
        opt_slots(r) == path_slots(triple_line(map@, map.extent(), seg(*grid1), seg(*grid2))),
{
    match get_overlapped_x_range(grid1, grid2) {
        Some(xrange) => {
            return match explore_x_connection(map, &xrange, &[grid1[0][1], grid2[0][1]]) {
                Some(grid) => {
                    if grid[0][1] == grid1[0][1] {
                        let nodes: Nodes = [Some(grid1[0]), Some(grid[0]), Some(grid[1]), Some(grid2[0])];
                        assert(slot_view(nodes) =~= slots(seq![pt(grid1[0]), pt(grid[0]), pt(grid[1]), pt(grid2[0])]));
                        Some(nodes)
                    } else if grid[0][1] == grid2[0][1] {
                        let nodes: Nodes = [Some(grid2[0]), Some(grid[0]), Some(grid[1]), Some(grid1[0])];
                        assert(slot_view(nodes) =~= slots(seq![pt(grid2[0]), pt(grid[0]), pt(grid[1]), pt(grid1[0])]));
                        Some(nodes)
                    } else {
                        None
                    }
                },
                None => None,
            };
        },
        None => {},
    }
    match get_overlapped_y_range(grid1, grid2) {
        Some(yrange) => {
            match explore_y_connection(map, &yrange, &[grid1[0][0], grid2[0][0]]) {
                Some(grid) => {
                    if grid[0][0] == grid1[0][0] {
                        let nodes: Nodes = [Some(grid1[0]), Some(grid[0]), Some(grid[1]), Some(grid2[0])];
                        assert(slot_view(nodes) =~= slots(seq![pt(grid1[0]), pt(grid[0]), pt(grid[1]), pt(grid2[0])]));
                        Some(nodes)
                    } else if grid[0][0] == grid2[0][0] {
                        let nodes: Nodes = [Some(grid2[0]), Some(grid[0]), Some(grid[1]), Some(grid1[0])];
                        assert(slot_view(nodes) =~= slots(seq![pt(grid2[0]), pt(grid[0]), pt(grid[1]), pt(grid1[0])]));
                        Some(nodes)
                    } else {
                        None
                    }
                },
                None => None,
            }
        },
        None => None,
    }
}

/// Whether the two deltas, where there are deltas, are steps to a neighbour.
pub open spec fn unit_pair(directions: Option<[TypedCoord; 2]>) -> bool {
    match directions {
        Some(d) => unit(dir(d[0])) && unit(dir(d[1])),
        None => true,
    }
}

/// The runs that two cells cast, each in its own direction; none where no directions are
/// given.
pub fn get_grid_pair(
    map: &TileMap,
    coord1: &Coord,
    coord2: &Coord,
    directions: Option<[TypedCoord; 2]>,
) -> (r: Option<[Grid; 2]>)
    requires
        unit_pair(directions),
    ensures
        opt_seg_pair(r) == runs(map@, map.extent(), pt(*coord1), pt(*coord2), dirs(directions)),
{
    match directions {
        Some(d) => {
            let grid1 = get_grid(map, coord1, &d[0]);
            let grid2 = get_grid(map, coord2, &d[1]);
            match (grid1, grid2) {
                (Some(g1), Some(g2)) => Some([g1, g2]),
                _ => None,
            }
        },
        None => None,
    }
}

/// The runs that two cells cast towards each other along the rows; none where they share a
/// row.
pub fn get_faced_x_grid_pair(map: &TileMap, coord1: &Coord, coord2: &Coord) -> (r: Option<[Grid; 2]>)
    ensures
        opt_seg_pair(r) == runs(
            map@,
            map.extent(),
            pt(*coord1),
            pt(*coord2),
            faced_rows(pt(*coord1), pt(*coord2)),
        ),
{
    let directions: Option<[TypedCoord; 2]> = if coord1[0] > coord2[0] {
        Some([[-1, 0], [1, 0]])
    } else if coord1[0] < coord2[0] {
        Some([[1, 0], [-1, 0]])
    } else {
        None
    };
    get_grid_pair(map, coord1, coord2, directions)
}

/// The runs that two cells cast towards each other along the columns; none where they share
/// a column.
pub fn get_faced_y_grid_pair(map: &TileMap, coord1: &Coord, coord2: &Coord) -> (r: Option<[Grid; 2]>)
    ensures
        opt_seg_pair(r) == runs(
            map@,
            map.extent(),
            pt(*coord1),
            pt(*coord2),
            faced_cols(pt(*coord1), pt(*coord2)),
        ),
{
    let directions: Option<[TypedCoord; 2]> = if coord1[1] > coord2[1] {
        Some([[0, -1], [0, 1]])
    } else if coord1[1] < coord2[1] {
        Some([[0, 1], [0, -1]])
    } else {
        None
    };
    get_grid_pair(map, coord1, coord2, directions)
}

/// The runs of the two paths with one bend: the first cell along the rows and the second
/// along the columns, then the other way round; none where the cells share a line.
pub fn get_l_grid_pair(map: &TileMap, coord1: &Coord, coord2: &Coord) -> (r: [Option<[Grid; 2]>; 2])
    ensures
        opt_seg_pair(r[0]) == runs(
            map@,
            map.extent(),
            pt(*coord1),
            pt(*coord2),
            l_dirs(pt(*coord1), pt(*coord2)).0,
        ),
        opt_seg_pair(r[1]) == runs(
            map@,
            map.extent(),
            pt(*coord1),
            pt(*coord2),
            l_dirs(pt(*coord1), pt(*coord2)).1,
        ),
{
    let xs: Option<[i32; 2]> = if coord1[0] > coord2[0] {
        Some([-1, 1])
    } else if coord1[0] < coord2[0] {
        Some([1, -1])
    } else {
        None
    };
    let ys: Option<[i32; 2]> = if coord1[1] > coord2[1] {
        Some([-1, 1])
    } else if coord1[1] < coord2[1] {
        Some([1, -1])
    } else {
        None
    };
    let directions: [Option<[TypedCoord; 2]>; 2] = match (xs, ys) {
        (Some(x), Some(y)) => [Some([[x[0], 0], [0, y[1]]]), Some([[0, y[0]], [x[1], 0]])],
        _ => [None, None],
    };
    [get_grid_pair(map, coord1, coord2, directions[0]), get_grid_pair(map, coord1, coord2, directions[1])]
}

/// The runs that two cells cast side by side: both down, both up, both right, both left.
pub fn get_parallel_grid_pair(map: &TileMap, coord1: &Coord, coord2: &Coord) -> (r: [Option<[Grid; 2]>; 4])
    ensures
        opt_seg_pair(r[0]) == runs(map@, map.extent(), pt(*coord1), pt(*coord2), Some(((1int, 0int), (1int, 0int)))),
        opt_seg_pair(r[1]) == runs(map@, map.extent(), pt(*coord1), pt(*coord2), Some(((-1int, 0int), (-1int, 0int)))),
        opt_seg_pair(r[2]) == runs(map@, map.extent(), pt(*coord1), pt(*coord2), Some(((0int, 1int), (0int, 1int)))),
        opt_seg_pair(r[3]) == runs(map@, map.extent(), pt(*coord1), pt(*coord2), Some(((0int, -1int), (0int, -1int)))),
{
    [
        get_grid_pair(map, coord1, coord2, Some([[1, 0], [1, 0]])),
        get_grid_pair(map, coord1, coord2, Some([[-1, 0], [-1, 0]])),
        get_grid_pair(map, coord1, coord2, Some([[0, 1], [0, 1]])),
        get_grid_pair(map, coord1, coord2, Some([[0, -1], [0, -1]])),
    ]
}

/// The path with two bends that the runs give, where there are runs.
fn triple_line_of(map: &TileMap, grids: &Option<[Grid; 2]>) -> (r: Option<Nodes>)
    ensures
        opt_slots(r) == path_slots(triple_of(map@, map.extent(), opt_seg_pair(*grids))),
{
    match grids {
        Some(g) => get_triple_line_connection(map, &g[0], &g[1]),
        None => None,
    }
}

/// The path with one bend that the runs give, where there are runs.
fn double_line_of(grids: &Option<[Grid; 2]>) -> (r: Option<Nodes>)
    ensures
        opt_slots(r) == path_slots(double_of(opt_seg_pair(*grids))),
{
    match grids {
        Some(g) => get_double_line_connection(&g[0], &g[1]),
        None => None,
    }
}

/// Whether the runs lie on one line and meet.
fn single_line_of(grids: &Option<[Grid; 2]>) -> (r: bool)
    ensures
        r == single_of(opt_seg_pair(*grids)),
{
    match grids {
        Some(g) => is_connected_with_single_line(&g[0], &g[1]),
        None => false,
    }
}

/// The path that joins two cells: the straight one if there is one, else the one with one
/// bend, else the one with two.
pub fn find_connection(map: &TileMap, coord1: &Coord, coord2: &Coord) -> (r: Option<Nodes>)
    ensures
        opt_slots(r) == path_slots(connection(map@, map.extent(), pt(*coord1), pt(*coord2))),
        map@.contains_key(pt(*coord1)) && map@.contains_key(pt(*coord2)) && pt(*coord1) != pt(*coord2) ==> (
        connection(map@, map.extent(), pt(*coord1), pt(*coord2)) matches Some(path) ==> joins_pair(
            map@,
            map.extent(),
            pt(*coord1),
            pt(*coord2),
            path,
        )),
        inside(map.extent(), pt(*coord1)) && inside(map.extent(), pt(*coord2)) && pt(*coord1) != pt(*coord2) ==> (r is None
            ==> !connectable(map@, map.extent(), pt(*coord1), pt(*coord2))),
{
    proof {
        let (a, b) = (pt(*coord1), pt(*coord2));
        let size = map.extent();
        if a != b && inside(size, a) && inside(size, b) {
            if map@.contains_key(a) && map@.contains_key(b) {
                lemma_connection_is_open(map@, size, a, b);
            }
            if connectable(map@, size, a, b) {
                lemma_connection_is_found(map@, size, a, b);
            }
        }
    }
    let shape = shape_of(map);
    let straight: Nodes = [Some(*coord1), Some(*coord2), None, None];
    assert(slot_view(straight) =~= slots(seq![pt(*coord1), pt(*coord2)]));
    if is_tile_touched(coord1, coord2) {
        return Some(straight);
    }
    let grids1 = get_faced_x_grid_pair(map, coord1, coord2);
    let grids2 = get_faced_y_grid_pair(map, coord1, coord2);
    if single_line_of(&grids1) || single_line_of(&grids2) {
        return Some(straight);
    }
    let bent = get_l_grid_pair(map, coord1, coord2);
    let first = double_line_of(&bent[0]);
    if first.is_some() {
        return first;
    }
    let second = double_line_of(&bent[1]);
    if second.is_some() {
        return second;
    }
    let side = get_parallel_grid_pair(map, coord1, coord2);
    let mut found = triple_line_of(map, &grids1);
    if found.is_none() {
        found = triple_line_of(map, &grids2);
    }
    if found.is_none() {
        found = triple_line_of(map, &side[0]);
    }
    if found.is_none() {
        found = triple_line_of(map, &side[1]);
    }
    if found.is_none() {
        found = triple_line_of(map, &side[2]);
    }
    if found.is_none() {
        found = triple_line_of(map, &side[3]);
    }
    found
}

/// The path leads from one of the two cells to the other, and it is open.
pub open spec fn joins_pair(cells: Map<Point, Tile>, size: Point, a: Point, b: Point, path: Seq<Point>) -> bool {
    joins(cells, size, a, b, path) || joins(cells, size, b, a, path)
}

/// A ray towards higher columns reaches the column `c_hi` exactly where every cell up to there
/// is free.
proof fn lemma_reaches_right(cells: Map<Point, Tile>, size: Point, r: int, c_lo: int, c_hi: int)
    requires
        c_lo <= c_hi,
    ensures
        ray_end(cells, size, (r, c_lo), (0, 1)).1 >= c_hi <==> row_free(cells, size, r, c_lo + 1, c_hi + 1),
{
    let d: Point = (0, 1);
    lemma_ray_end(cells, size, (r, c_lo), d);
    if row_free(cells, size, r, c_lo + 1, c_hi + 1) {
        lemma_ray_covers(cells, size, (r, c_lo), d, (r, c_hi));
    }
}

/// A ray towards higher rows reaches the row `r_hi` exactly where every cell up to there is
/// free.
proof fn lemma_reaches_down(cells: Map<Point, Tile>, size: Point, c: int, r_lo: int, r_hi: int)
    requires
        r_lo <= r_hi,
    ensures
        ray_end(cells, size, (r_lo, c), (1, 0)).0 >= r_hi <==> col_free(cells, size, c, r_lo + 1, r_hi + 1),
{
    let d: Point = (1, 0);
    lemma_ray_end(cells, size, (r_lo, c), d);
    if col_free(cells, size, c, r_lo + 1, r_hi + 1) {
        lemma_ray_covers(cells, size, (r_lo, c), d, (r_hi, c));
    }
}

/// Every cell of the row `r` behind the column `c_lo` and up to the column `c_hi` is free.
pub open spec fn open_row(cells: Map<Point, Tile>, size: Point, r: int, c_lo: int, c_hi: int) -> bool {
    row_free(cells, size, r, c_lo + 1, c_hi + 1)
}

/// Every cell of the column `c` behind the row `r_lo` and up to the row `r_hi` is free.
pub open spec fn open_col(cells: Map<Point, Tile>, size: Point, c: int, r_lo: int, r_hi: int) -> bool {
    col_free(cells, size, c, r_lo + 1, r_hi + 1)
}

/// The first open row lies in the range, the cells of its bar are free, and no row before it
/// is open; where there is none, no row of the range is open.
proof fn lemma_first_open_row(cells: Map<Point, Tile>, size: Point, lo: int, hi: int, c_lo: int, c_hi: int)
    requires
        c_lo <= c_hi,
    ensures
        match first_open_row(cells, size, lo, hi, c_lo, c_hi) {
            Some(r) => lo <= r <= hi && row_free(cells, size, r, c_lo + 1, c_hi + 1),
            None => forall|x: int| lo <= x <= hi ==> !#[trigger] open_row(cells, size, x, c_lo, c_hi),
        },
    decreases hi - lo + 1,
{
    if lo <= hi {
        lemma_reaches_right(cells, size, lo, c_lo, c_hi);
        lemma_first_open_row(cells, size, lo + 1, hi, c_lo, c_hi);
    }
}

/// The first open column lies in the range, the cells of its bar are free, and no column
/// before it is open; where there is none, no column of the range is open.
proof fn lemma_first_open_col(cells: Map<Point, Tile>, size: Point, lo: int, hi: int, r_lo: int, r_hi: int)
    requires
        r_lo <= r_hi,
    ensures
        match first_open_col(cells, size, lo, hi, r_lo, r_hi) {
            Some(c) => lo <= c <= hi && col_free(cells, size, c, r_lo + 1, r_hi + 1),
            None => forall|x: int| lo <= x <= hi ==> !#[trigger] open_col(cells, size, x, r_lo, r_hi),
        },
    decreases hi - lo + 1,
{
    if lo <= hi {
        lemma_reaches_down(cells, size, lo, r_lo, r_hi);
        lemma_first_open_col(cells, size, lo + 1, hi, r_lo, r_hi);
    }
}

/// Where a straight open run joins two cells of the board, they are in sight of each other.
proof fn lemma_sight_found(cells: Map<Point, Tile>, size: Point, a: Point, b: Point)
    requires
        inside(size, a),
        inside(size, b),
        segment_open(cells, a, b),
    ensures
        in_sight(cells, size, a, b),
{
    if !adjacent(a, b) {
        if a.1 == b.1 {
            let d = faced_rows(a, b)->0;
            let p: Point = (b.0 - d.0.0, a.1);
            let q: Point = (a.0 - d.1.0, a.1);
            assert(free(cells, size, p) && free(cells, size, q)) by {
                assert(least(a.0, b.0) + 1 <= p.0 < most(a.0, b.0));
                assert(least(a.0, b.0) + 1 <= q.0 < most(a.0, b.0));
            }
            lemma_reaches(cells, size, a, d.0, p);
            lemma_reaches(cells, size, b, d.1, q);
            lemma_ray_end(cells, size, a, d.0);
            lemma_ray_end(cells, size, b, d.1);
            assert(single_line(ray(cells, size, a, d.0), ray(cells, size, b, d.1)));
        } else {
            let d = faced_cols(a, b)->0;
            let p: Point = (a.0, b.1 - d.0.1);
            let q: Point = (a.0, a.1 - d.1.1);
            assert(free(cells, size, p) && free(cells, size, q)) by {
                assert(least(a.1, b.1) + 1 <= p.1 < most(a.1, b.1));
                assert(least(a.1, b.1) + 1 <= q.1 < most(a.1, b.1));
            }
            lemma_reaches(cells, size, a, d.0, p);
            lemma_reaches(cells, size, b, d.1, q);
            lemma_ray_end(cells, size, a, d.0);
            lemma_ray_end(cells, size, b, d.1);
            assert(single_line(ray(cells, size, a, d.0), ray(cells, size, b, d.1)));
        }
    }
}

/// Where two cells are in sight of each other, the straight run between them is open.
proof fn lemma_sight_is_open(cells: Map<Point, Tile>, size: Point, a: Point, b: Point)
    requires
        a != b,
        in_sight(cells, size, a, b),
    ensures
        segment_open(cells, a, b),
{
    if !adjacent(a, b) {
        if single_of(runs(cells, size, a, b, faced_rows(a, b))) {
            let d = faced_rows(a, b)->0;
            lemma_ray_end(cells, size, a, d.0);
            lemma_ray_end(cells, size, b, d.1);
            let e1 = ray_end(cells, size, a, d.0);
            let e2 = ray_end(cells, size, b, d.1);
            assert forall|r: int| least(a.0, b.0) + 1 <= r < most(a.0, b.0) implies !cells.contains_key((r, a.1)) by {
                if a.0 > b.0 {
                    if r >= e1.0 {
                    } else {
                        assert(r <= e2.0);
                    }
                } else {
                    if r <= e1.0 {
                    } else {
                        assert(r >= e2.0);
                    }
                }
            }
        } else {
            let d = faced_cols(a, b)->0;
            lemma_ray_end(cells, size, a, d.0);
            lemma_ray_end(cells, size, b, d.1);
            let e1 = ray_end(cells, size, a, d.0);
            let e2 = ray_end(cells, size, b, d.1);
            assert forall|c: int| least(a.1, b.1) + 1 <= c < most(a.1, b.1) implies !cells.contains_key((a.0, c)) by {
                if a.1 > b.1 {
                    if c >= e1.1 {
                    } else {
                        assert(c <= e2.1);
                    }
                } else {
                    if c <= e1.1 {
                    } else {
                        assert(c >= e2.1);
                    }
                }
            }
        }
    }
}

/// Where an open path with one bend joins two cells of the board that share no line, a path
/// with one bend is found.
proof fn lemma_bend_found(cells: Map<Point, Tile>, size: Point, a: Point, c: Point, b: Point)
    requires
        inside(size, a),
        inside(size, b),
        a.0 != b.0,
        a.1 != b.1,
        free(cells, size, c),
        segment_open(cells, a, c),
        segment_open(cells, c, b),
    ensures
        bent_once(cells, size, a, b) is Some,
{
    let l = l_dirs(a, b);
    if a.1 == c.1 {
        let d = l.0->0;
        lemma_reaches(cells, size, a, d.0, c);
        lemma_reaches(cells, size, b, d.1, c);
        lemma_ray_end(cells, size, a, d.0);
        lemma_ray_end(cells, size, b, d.1);
        assert(crossing(ray(cells, size, a, d.0), ray(cells, size, b, d.1)) is Some);
    } else {
        let d = l.1->0;
        lemma_reaches(cells, size, a, d.0, c);
        lemma_reaches(cells, size, b, d.1, c);
        lemma_ray_end(cells, size, a, d.0);
        lemma_ray_end(cells, size, b, d.1);
        assert(crossing(ray(cells, size, a, d.0), ray(cells, size, b, d.1)) is Some);
    }
}

/// The path with one bend that two rays give is open.
proof fn lemma_double_of_joins(cells: Map<Point, Tile>, size: Point, a: Point, b: Point, d: Option<(Point, Point)>)
    requires
        a.0 != b.0,
        a.1 != b.1,
        d matches Some(dd) ==> unit(dd.0) && unit(dd.1),
    ensures
        double_of(runs(cells, size, a, b, d)) matches Some(path) ==> joins(cells, size, a, b, path),
{
    if let Some(path) = double_of(runs(cells, size, a, b, d)) {
        let dd = d->0;
        lemma_ray_end(cells, size, a, dd.0);
        lemma_ray_end(cells, size, b, dd.1);
        let c = path[1];
        assert(on_ray(cells, size, a, dd.0, c));
        assert(on_ray(cells, size, b, dd.1, c));
        lemma_on_ray(cells, size, a, dd.0, c);
        lemma_on_ray(cells, size, b, dd.1, c);
        assert(path[0] == a && path[2] == b);
    }
}

/// The path with two bends that two rays give is open, where the two cells hold tiles and
/// neither a straight run nor a path with one bend joins them.
proof fn lemma_triple_of_joins(cells: Map<Point, Tile>, size: Point, a: Point, b: Point, d: (Point, Point))
    requires
        unit(d.0),
        unit(d.1),
        inside(size, a),
        inside(size, b),
        cells.contains_key(a),
        cells.contains_key(b),
        a != b,
        !in_sight(cells, size, a, b),
        bent_once(cells, size, a, b) is None,
    ensures
        triple_of(cells, size, runs(cells, size, a, b, Some(d))) matches Some(path) ==> joins_pair(
            cells,
            size,
            a,
            b,
            path,
        ),
{
    let g1 = ray(cells, size, a, d.0);
    let g2 = ray(cells, size, b, d.1);
    if let Some(path) = triple_line(cells, size, g1, g2) {
        lemma_ray_end(cells, size, a, d.0);
        lemma_ray_end(cells, size, b, d.1);
        let (p, q) = if path[0] == a { (path[1], path[2]) } else { (path[2], path[1]) };
        if overlapped_rows(g1, g2) is Some {
            let rows = overlapped_rows(g1, g2)->0;
            let c_lo = least(a.1, b.1);
            let c_hi = most(a.1, b.1);
            lemma_first_open_row(cells, size, rows.0, rows.1, c_lo, c_hi);
            let x = p.0;
            assert(row_free(cells, size, x, c_lo + 1, c_hi + 1));
            assert(p == (x, a.1) && q == (x, b.1));
            lemma_bar_joins(cells, size, a, b, d, p, q);
        } else {
            let cols = overlapped_cols(g1, g2)->0;
            let r_lo = least(a.0, b.0);
            let r_hi = most(a.0, b.0);
            lemma_first_open_col(cells, size, cols.0, cols.1, r_lo, r_hi);
            let y = p.1;
            assert(col_free(cells, size, y, r_lo + 1, r_hi + 1));
            assert(p == (a.0, y) && q == (b.0, y));
            lemma_bar_joins(cells, size, a, b, d, p, q);
        }
        if path[0] == a {
            assert(path =~= seq![a, p, q, b]);
        } else {
            assert(path =~= seq![b, q, p, a]);
        }
    }
}

/// A bar between the rays of two tiles makes an open path with two bends, where neither a
/// straight run nor a path with one bend joins the tiles.
proof fn lemma_bar_joins(cells: Map<Point, Tile>, size: Point, a: Point, b: Point, d: (Point, Point), p: Point, q: Point)
    requires
        unit(d.0),
        unit(d.1),
        inside(size, a),
        inside(size, b),
        cells.contains_key(a),
        cells.contains_key(b),
        a != b,
        !in_sight(cells, size, a, b),
        bent_once(cells, size, a, b) is None,
        on_ray(cells, size, a, d.0, p),
        on_ray(cells, size, b, d.1, q),
        (p.0 == q.0 && row_free(cells, size, p.0, least(p.1, q.1) + 1, most(p.1, q.1) + 1)) || (p.1 == q.1
            && col_free(cells, size, p.1, least(p.0, q.0) + 1, most(p.0, q.0) + 1)),
    ensures
        joins(cells, size, a, b, seq![a, p, q, b]),
        joins(cells, size, b, a, seq![b, q, p, a]),
{
    // one end of the bar is covered by the run of free cells; the other is free unless it is
    // the origin of its ray
    if p != a {
        lemma_on_ray(cells, size, a, d.0, p);
    }
    if q != b {
        lemma_on_ray(cells, size, b, d.1, q);
    }
    if p == q {
        // both rays reach one cell: the two tiles are in sight of each other
        assert(p != a && q != b) by {
            if p == a {
                lemma_on_ray(cells, size, b, d.1, a);
            }
            if q == b {
                lemma_on_ray(cells, size, a, d.0, b);
            }
        }
        if (a.0 == p.0 && p.0 == b.0) || (a.1 == p.1 && p.1 == b.1) {
            lemma_merge(cells, size, a, p, b);
            lemma_sight_found(cells, size, a, b);
        } else {
            lemma_bend_found(cells, size, a, p, b);
        }
        assert(false);
    }
    assert(straight(cells, p, q) && straight(cells, q, p));
    if p == a {
        // the bar starts at the tile itself: its far end would make a path with one bend
        assert(free(cells, size, q)) by {
            assert(!cells.contains_key((q.0, q.1)));
        }
        if (a.0 == q.0 && q.0 == b.0) || (a.1 == q.1 && q.1 == b.1) {
            lemma_merge(cells, size, a, q, b);
            lemma_sight_found(cells, size, a, b);
        } else {
            lemma_bend_found(cells, size, a, q, b);
        }
        assert(false);
    }
    if q == b {
        assert(free(cells, size, p));
        if (a.0 == p.0 && p.0 == b.0) || (a.1 == p.1 && p.1 == b.1) {
            lemma_merge(cells, size, a, p, b);
            lemma_sight_found(cells, size, a, b);
        } else {
            lemma_bend_found(cells, size, a, p, b);
        }
        assert(false);
    }
    let there = seq![a, p, q, b];
    assert(there[0] == a && there[1] == p && there[2] == q && there[3] == b);
    let back = seq![b, q, p, a];
    assert(back[0] == b && back[1] == q && back[2] == p && back[3] == a);
}

/// Every path that the connectivity test gives for two different tiles of the board is open:
/// it leads from one of the two to the other, its points follow each other along a row or a
/// column, no tile lies on the cells between them, its bends are free cells of the board, and
/// there are at most two of them.
pub proof fn lemma_connection_is_open(cells: Map<Point, Tile>, size: Point, a: Point, b: Point)
    requires
        inside(size, a),
        inside(size, b),
        cells.contains_key(a),
        cells.contains_key(b),
        a != b,
    ensures
        connection(cells, size, a, b) matches Some(path) ==> joins_pair(cells, size, a, b, path),
{
    if in_sight(cells, size, a, b) {
        lemma_sight_is_open(cells, size, a, b);
        let path = seq![a, b];
        assert(path[0] == a && path[1] == b);
    } else if bent_once(cells, size, a, b) is Some {
        let l = l_dirs(a, b);
        lemma_double_of_joins(cells, size, a, b, l.0);
        lemma_double_of_joins(cells, size, a, b, l.1);
    } else {
        if faced_rows(a, b) is Some {
            lemma_triple_of_joins(cells, size, a, b, faced_rows(a, b)->0);
        }
        if faced_cols(a, b) is Some {
            lemma_triple_of_joins(cells, size, a, b, faced_cols(a, b)->0);
        }
        lemma_triple_of_joins(cells, size, a, b, ((1, 0), (1, 0)));
        lemma_triple_of_joins(cells, size, a, b, ((-1, 0), (-1, 0)));
        lemma_triple_of_joins(cells, size, a, b, ((0, 1), (0, 1)));
        lemma_triple_of_joins(cells, size, a, b, ((0, -1), (0, -1)));
    }
}

/// Where an open path with one bend joins two cells of the board, a path is found.
proof fn lemma_found_three(cells: Map<Point, Tile>, size: Point, a: Point, c: Point, b: Point)
    requires
        a != b,
        inside(size, a),
        inside(size, b),
        segment_open(cells, a, c),
        segment_open(cells, c, b),
        free(cells, size, c),
    ensures
        connection(cells, size, a, b) is Some,
{
    if (a.0 == c.0 && c.0 == b.0) || (a.1 == c.1 && c.1 == b.1) {
        lemma_merge(cells, size, a, c, b);
        lemma_sight_found(cells, size, a, b);
    } else {
        lemma_bend_found(cells, size, a, c, b);
    }
}

/// Where a bar of free cells along the row `x` joins the columns of two cells, and both
/// cells reach the bar along their columns, a path with two bends is found.
proof fn lemma_found_row_bar(cells: Map<Point, Tile>, size: Point, a: Point, b: Point, x: int)
    requires
        inside(size, a),
        inside(size, b),
        x != a.0,
        x != b.0,
        a.1 != b.1,
        free(cells, size, (x, a.1)),
        free(cells, size, (x, b.1)),
        segment_open(cells, a, (x, a.1)),
        segment_open(cells, (x, a.1), (x, b.1)),
        segment_open(cells, (x, b.1), b),
    ensures
        bent_twice(cells, size, a, b) is Some,
{
    let p = (x, a.1);
    let q = (x, b.1);
    let c_lo = least(a.1, b.1);
    let c_hi = most(a.1, b.1);
    assert(open_row(cells, size, x, c_lo, c_hi)) by {
        assert forall|c: int| c_lo + 1 <= c < c_hi + 1 implies #[trigger] free(cells, size, (x, c)) by {
            if c != a.1 && c != b.1 {
                assert(least(p.1, q.1) + 1 <= c < most(p.1, q.1));
                assert(!cells.contains_key((x, c)));
            }
        }
    }
    let d1: Point = if x < a.0 { (-1, 0) } else { (1, 0) };
    let d2: Point = if x < b.0 { (-1, 0) } else { (1, 0) };
    lemma_reaches(cells, size, a, d1, p);
    lemma_reaches(cells, size, b, d2, q);
    lemma_ray_end(cells, size, a, d1);
    lemma_ray_end(cells, size, b, d2);
    let g1 = ray(cells, size, a, d1);
    let g2 = ray(cells, size, b, d2);
    let shared = overlapped_rows(g1, g2);
    assert(shared is Some);
    let rows = shared->0;
    assert(rows.0 <= x <= rows.1);
    lemma_first_open_row(cells, size, rows.0, rows.1, c_lo, c_hi);
    assert(triple_line(cells, size, g1, g2) is Some);
    assert(triple_of(cells, size, runs(cells, size, a, b, Some((d1, d2)))) is Some);
    if x < a.0 && x < b.0 {
    } else if x > a.0 && x > b.0 {
    } else {
        assert(faced_rows(a, b) == Some((d1, d2)));
    }
}

/// Where a bar of free cells along the column `y` joins the rows of two cells, and both cells
/// reach the bar along their rows, a path with two bends is found.
proof fn lemma_found_col_bar(cells: Map<Point, Tile>, size: Point, a: Point, b: Point, y: int)
    requires
        inside(size, a),
        inside(size, b),
        y != a.1,
        y != b.1,
        a.0 != b.0,
        free(cells, size, (a.0, y)),
        free(cells, size, (b.0, y)),
        segment_open(cells, a, (a.0, y)),
        segment_open(cells, (a.0, y), (b.0, y)),
        segment_open(cells, (b.0, y), b),
    ensures
        bent_twice(cells, size, a, b) is Some,
{
    let p = (a.0, y);
    let q = (b.0, y);
    let r_lo = least(a.0, b.0);
    let r_hi = most(a.0, b.0);
    assert(open_col(cells, size, y, r_lo, r_hi)) by {
        assert forall|r: int| r_lo + 1 <= r < r_hi + 1 implies #[trigger] free(cells, size, (r, y)) by {
            if r != a.0 && r != b.0 {
                assert(least(p.0, q.0) + 1 <= r < most(p.0, q.0));
                assert(!cells.contains_key((r, y)));
            }
        }
    }
    let d1: Point = if y < a.1 { (0, -1) } else { (0, 1) };
    let d2: Point = if y < b.1 { (0, -1) } else { (0, 1) };
    lemma_reaches(cells, size, a, d1, p);
    lemma_reaches(cells, size, b, d2, q);
    lemma_ray_end(cells, size, a, d1);
    lemma_ray_end(cells, size, b, d2);
    let g1 = ray(cells, size, a, d1);
    let g2 = ray(cells, size, b, d2);
    assert(overlapped_rows(g1, g2) is None);
    let shared = overlapped_cols(g1, g2);
    assert(shared is Some);
    let cols = shared->0;
    assert(cols.0 <= y <= cols.1);
    lemma_first_open_col(cells, size, cols.0, cols.1, r_lo, r_hi);
    assert(triple_line(cells, size, g1, g2) is Some);
    assert(triple_of(cells, size, runs(cells, size, a, b, Some((d1, d2)))) is Some);
    if y < a.1 && y < b.1 {
    } else if y > a.1 && y > b.1 {
    } else {
        assert(faced_cols(a, b) == Some((d1, d2)));
    }
}

/// Where an open path with two bends joins two cells of the board, a path is found.
proof fn lemma_found_four(cells: Map<Point, Tile>, size: Point, a: Point, p: Point, q: Point, b: Point)
    requires
        a != b,
        inside(size, a),
        inside(size, b),
        segment_open(cells, a, p),
        segment_open(cells, p, q),
        segment_open(cells, q, b),
        free(cells, size, p),
        free(cells, size, q),
    ensures
        connection(cells, size, a, b) is Some,
{
    if (a.0 == p.0 && p.0 == q.0) || (a.1 == p.1 && p.1 == q.1) {
        if q != a {
            lemma_merge(cells, size, a, p, q);
            lemma_found_three(cells, size, a, q, b);
        } else {
            lemma_sight_found(cells, size, a, b);
        }
    } else if (p.0 == q.0 && q.0 == b.0) || (p.1 == q.1 && q.1 == b.1) {
        if p != b {
            lemma_merge(cells, size, p, q, b);
            lemma_found_three(cells, size, a, p, b);
        } else {
            lemma_sight_found(cells, size, a, b);
        }
    } else if a.1 == p.1 {
        assert(p == (p.0, a.1) && q == (p.0, b.1));
        lemma_found_row_bar(cells, size, a, b, p.0);
    } else {
        assert(p == (a.0, p.1) && q == (b.0, p.1));
        lemma_found_col_bar(cells, size, a, b, p.1);
    }
}

/// Where any open path with at most two bends joins two different cells of the board, the
/// connectivity test finds a path.
pub proof fn lemma_connection_is_found(cells: Map<Point, Tile>, size: Point, a: Point, b: Point)
    requires
        a != b,
        inside(size, a),
        inside(size, b),
        connectable(cells, size, a, b),
    ensures
        connection(cells, size, a, b) is Some,
{
    let path = choose|path: Seq<Point>| joins(cells, size, a, b, path);
    assert(segment_open(cells, path[0], path[1]));
    if path.len() == 2 {
        lemma_sight_found(cells, size, a, b);
    } else if path.len() == 3 {
        assert(segment_open(cells, path[1], path[2]));
        assert(free(cells, size, path[1]));
        lemma_found_three(cells, size, a, path[1], b);
    } else {
        assert(segment_open(cells, path[1], path[2]));
        assert(segment_open(cells, path[2], path[3]));
        assert(free(cells, size, path[1]));
        assert(free(cells, size, path[2]));
        lemma_found_four(cells, size, a, path[1], path[2], b);
    }
}

} // verus!
