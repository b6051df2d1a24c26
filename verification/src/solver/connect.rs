//! The connectivity test: whether, and along which path, two cells of a sparse board can be
//! joined with at most two bends.
use vstd::prelude::*;
use crate::components::{
    dir, ext, opt_path, opt_pt, opt_seg, opt_seg_pair, path_of, pt, seg, Coord, CoordDelta,
    CoordElement, Grid, Nodes, Point, Tile, TileMap,
};
use crate::geometry::{
    adjacent, col_bar, col_clear, cols_of, connectable, crossing, first_clear_col, first_clear_row,
    free, in_col, in_row, inside, joins, least, lemma_first_clear_col, lemma_first_clear_row,
    lemma_merge, lemma_on_ray, lemma_ray_end, lemma_reaches, most, moved, on_ray, overlap, ray,
    ray_end, ray_pair, room, row_bar, row_clear, rows_of, segment_open, step, straight, unit,
};
use crate::solver::direction::{DOWN, LEFT, RIGHT, UP};

verus! {

/// The first of two results that is there.
pub open spec fn first_of<T>(x: Option<T>, y: Option<T>) -> Option<T> {
    match x {
        Some(_) => x,
        None => y,
    }
}

/// The steps along the rows that lead the first cell towards the second, and back.
pub open spec fn toward_rows(a: Point, b: Point) -> (Point, Point) {
    if a.0 > b.0 {
        ((-1, 0), (1, 0))
    } else {
        ((1, 0), (-1, 0))
    }
}

/// The steps along the columns that lead the first cell towards the second, and back.
pub open spec fn toward_cols(a: Point, b: Point) -> (Point, Point) {
    if a.1 > b.1 {
        ((0, -1), (0, 1))
    } else {
        ((0, 1), (0, -1))
    }
}

/// The path of two points: there is one where the cells share a line and no tile lies between
/// them.
pub open spec fn double_path(cells: Map<Point, Tile>, a: Point, b: Point) -> Option<Seq<Point>> {
    if straight(cells, a, b) {
        Some(seq![a, b])
    } else {
        None
    }
}

/// The cell in which the ray from `a` along `d1` and the ray from `b` along `d2` cross.
pub open spec fn corner_via(
    cells: Map<Point, Tile>,
    size: Point,
    a: Point,
    b: Point,
    d1: Point,
    d2: Point,
) -> Option<Point> {
    let (g1, g2) = ray_pair(cells, size, a, b, d1, d2);
    crossing(g1, g2)
}

/// The bend of the path of three points: first the one in the column of `a`, then the one in
/// its row.
pub open spec fn corner(cells: Map<Point, Tile>, size: Point, a: Point, b: Point) -> Option<Point> {
    let v = toward_rows(a, b);
    let h = toward_cols(a, b);
    first_of(corner_via(cells, size, a, b, v.0, h.1), corner_via(cells, size, a, b, h.0, v.1))
}

/// The path of three points.
pub open spec fn triple_path(cells: Map<Point, Tile>, size: Point, a: Point, b: Point) -> Option<Seq<Point>> {
    match corner(cells, size, a, b) {
        Some(c) => Some(seq![a, c, b]),
        None => None,
    }
}

/// The bar along a row that joins the ray from `a` along `d1` to the ray from `b` along `d2`:
/// the first clear one among the rows that both rays reach.
pub open spec fn bar_in_rows(
    cells: Map<Point, Tile>,
    size: Point,
    a: Point,
    b: Point,
    d1: Point,
    d2: Point,
) -> Option<(Point, Point)> {
    let (g1, g2) = ray_pair(cells, size, a, b, d1, d2);
    match overlap(rows_of(g1), rows_of(g2)) {
        Some(rows) => row_bar(cells, rows.0, rows.1, a.1, b.1),
        None => None,
    }
}

/// The bar along a column that joins the ray from `a` along `d1` to the ray from `b` along
/// `d2`: the first clear one among the columns that both rays reach.
pub open spec fn bar_in_cols(
    cells: Map<Point, Tile>,
    size: Point,
    a: Point,
    b: Point,
    d1: Point,
    d2: Point,
) -> Option<(Point, Point)> {
    let (g1, g2) = ray_pair(cells, size, a, b, d1, d2);
    match overlap(cols_of(g1), cols_of(g2)) {
        Some(cols) => col_bar(cells, cols.0, cols.1, a.0, b.0),
        None => None,
    }
}

/// The bar of the path of four points. The rays are tried in this order: both up, both down,
/// both left, both right, towards each other along the rows, towards each other along the
/// columns.
pub open spec fn bar(cells: Map<Point, Tile>, size: Point, a: Point, b: Point) -> Option<(Point, Point)> {
    let v = toward_rows(a, b);
    let h = toward_cols(a, b);
    first_of(
        bar_in_rows(cells, size, a, b, (-1, 0), (-1, 0)),
        first_of(
            bar_in_rows(cells, size, a, b, (1, 0), (1, 0)),
            first_of(
                bar_in_cols(cells, size, a, b, (0, -1), (0, -1)),
                first_of(
                    bar_in_cols(cells, size, a, b, (0, 1), (0, 1)),
                    first_of(
                        bar_in_rows(cells, size, a, b, v.0, v.1),
                        bar_in_cols(cells, size, a, b, h.0, h.1),
                    ),
                ),
            ),
        ),
    )
}

/// The path of four points.
pub open spec fn quadro_path(cells: Map<Point, Tile>, size: Point, a: Point, b: Point) -> Option<Seq<Point>> {
    match bar(cells, size, a, b) {
        Some((p, q)) => Some(seq![a, p, q, b]),
        None => None,
    }
}

/// The path that joins two cells: the straight one if there is one, else the one with one
/// bend, else the one with two.
pub open spec fn node_connection(cells: Map<Point, Tile>, size: Point, a: Point, b: Point) -> Option<Seq<Point>> {
    first_of(
        double_path(cells, a, b),
        first_of(triple_path(cells, size, a, b), quadro_path(cells, size, a, b)),
    )
}

/// The cell one step from `coord`, where it lies on a board of the given size.
pub fn move_coord(coord: &Coord, delta: &CoordDelta, map_size: &[usize; 2]) -> (r: Option<Coord>)
    ensures
        opt_pt(r) == moved(pt(*coord), dir(*delta), ext(*map_size)),
{
    let row: i128 = coord[0] as i128 + delta[0] as i128;
    let col: i128 = coord[1] as i128 + delta[1] as i128;
    if row < 0 || col < 0 {
        None
    } else if row >= map_size[0] as i128 || col >= map_size[1] as i128 {
        None
    } else {
        Some([row as CoordElement, col as CoordElement])
    }
}

/// The run that a ray cast from `coord` covers: it ends on the last free cell before a tile or
/// the edge of the board, and on `coord` itself where the first step is blocked.
pub fn get_grid(coord: &Coord, delta: &CoordDelta, map: &TileMap, map_size: &[usize; 2]) -> (r: Option<Grid>)
    requires
        unit(dir(*delta)),
    ensures
        opt_seg(r) == Some(ray(map@, ext(*map_size), pt(*coord), dir(*delta))),
{
    let mut cursor: Coord = *coord;
    let mut open = true;
    while open
        invariant
            unit(dir(*delta)),
            ray_end(map@, ext(*map_size), pt(cursor), dir(*delta)) == ray_end(
                map@,
                ext(*map_size),
                pt(*coord),
                dir(*delta),
            ),
            !open ==> !free(map@, ext(*map_size), step(pt(cursor), dir(*delta))),
        decreases
                (if open {
                    1 + most(room(ext(*map_size), pt(cursor), dir(*delta)), 0)
                } else {
                    0
                }),
    {
        match move_coord(&cursor, delta, map_size) {
            Some(next) => {
                if map.contains_key(&next) {
                    open = false;
                } else {
                    cursor = next;
                }
            },
            None => {
                open = false;
            },
        }
    }
    Some([*coord, cursor])
}

/// The runs that two cells cast, each in its own direction.
pub fn get_grid_pair(
    coord1: &Coord,
    coord2: &Coord,
    direction1: &CoordDelta,
    direction2: &CoordDelta,
    map: &TileMap,
    map_size: &[usize; 2],
) -> (r: Option<[Grid; 2]>)
    requires
        unit(dir(*direction1)),
        unit(dir(*direction2)),
    ensures
        opt_seg_pair(r) == Some(
            ray_pair(map@, ext(*map_size), pt(*coord1), pt(*coord2), dir(*direction1), dir(*direction2)),
        ),
{
    let grid1 = get_grid(coord1, direction1, map, map_size);
    let grid2 = get_grid(coord2, direction2, map, map_size);
    match (grid1, grid2) {
        (Some(g1), Some(g2)) => Some([g1, g2]),
        _ => None,
    }
}

/// Whether both ends of the run lie in one row.
pub fn is_horizonal(grid: &Grid) -> (r: bool)
    ensures
        r == in_row(seg(*grid)),
{
    grid[0][0] == grid[1][0]
}

/// Whether both ends of the run lie in one column.
pub fn is_vertical(grid: &Grid) -> (r: bool)
    ensures
        r == in_col(seg(*grid)),
{
    grid[0][1] == grid[1][1]
}

/// The rows that the run spans, lowest first.
pub fn get_grid_xrange(grid: &Grid) -> (r: [CoordElement; 2])
    ensures
        pt(r) == rows_of(seg(*grid)),
{
    let x1: usize = grid[0][0];
    let x2: usize = grid[1][0];
    if x1 < x2 {
        [x1, x2]
    } else {
        [x2, x1]
    }
}

/// The columns that the run spans, lowest first.
pub fn get_grid_yrange(grid: &Grid) -> (r: [CoordElement; 2])
    ensures
        pt(r) == cols_of(seg(*grid)),
{
    let y1: usize = grid[0][1];
    let y2: usize = grid[1][1];
    if y1 < y2 {
        [y1, y2]
    } else {
        [y2, y1]
    }
}

/// The cell in which a run along a row and a run along a column cross.
pub fn get_intersection(grid1: &Grid, grid2: &Grid) -> (r: Option<Coord>)
    ensures
        opt_pt(r) == crossing(seg(*grid1), seg(*grid2)),
{
    if is_horizonal(grid1) && is_vertical(grid2) {
        let x: usize = grid1[0][0];
        let y: usize = grid2[0][1];
        let rows = get_grid_xrange(grid2);
        let cols = get_grid_yrange(grid1);
        if rows[1] < x || rows[0] > x || cols[1] < y || cols[0] > y {
            None
        } else {
            Some([x, y])
        }
    } else if is_vertical(grid1) && is_horizonal(grid2) {
        let x: usize = grid2[0][0];
        let y: usize = grid1[0][1];
        let rows = get_grid_xrange(grid1);
        let cols = get_grid_yrange(grid2);
        if rows[1] < x || rows[0] > x || cols[1] < y || cols[0] > y {
            None
        } else {
            Some([x, y])
        }
    } else {
        None
    }
}

/// Whether no tile lies on row `x` between the columns `y1` and `y2`, the two ends counted or
/// not.
pub fn can_horizontal_connect(
    y1: CoordElement,
    y2: CoordElement,
    x: CoordElement,
    ignore_edge: bool,
    map: &TileMap,
) -> (r: bool)
    ensures
        r == row_clear(
            map@,
            x as int,
            least(y1 as int, y2 as int) + (if ignore_edge { 1int } else { 0int }),
            most(y1 as int, y2 as int) + (if ignore_edge { 0int } else { 1int }),
        ),
{
    let (ymin, ymax) = if y1 < y2 { (y1, y2) } else { (y2, y1) };
    if ignore_edge && ymax - ymin < 2 {
        return true;
    }
    let first: usize = if ignore_edge { ymin + 1 } else { ymin };
    let last: usize = if ignore_edge { ymax - 1 } else { ymax };
    let mut y: usize = first;
    loop
        invariant
            first <= y <= last,
            first == least(y1 as int, y2 as int) + (if ignore_edge { 1int } else { 0int }),
            last + 1 == most(y1 as int, y2 as int) + (if ignore_edge { 0int } else { 1int }),
            row_clear(map@, x as int, first as int, y as int),
        decreases last - y,
    {
        if map.contains_key(&[x, y]) {
            assert(map@.contains_key((x as int, y as int)));
            return false;
        }
        if y == last {
            return true;
        }
        y = y + 1;
    }
}

/// The bar along the first row of `xrange` that is clear between the columns of `yaxis`, ends
/// included.
pub fn explore_horizontal_connection(
    xrange: &[CoordElement; 2],
    yaxis: &[CoordElement; 2],
    map: &TileMap,
) -> (r: Option<Grid>)
    ensures
        opt_seg(r) == row_bar(map@, xrange[0] as int, xrange[1] as int, yaxis[0] as int, yaxis[1] as int),
{
    if xrange[0] > xrange[1] {
        return None;
    }
    let ghost c_lo = least(yaxis[0] as int, yaxis[1] as int);
    let ghost c_hi = most(yaxis[0] as int, yaxis[1] as int) + 1;
    let mut x: usize = xrange[0];
    loop
        invariant
            xrange[0] <= x <= xrange[1],
            c_lo == least(yaxis[0] as int, yaxis[1] as int),
            c_hi == most(yaxis[0] as int, yaxis[1] as int) + 1,
            first_clear_row(map@, x as int, xrange[1] as int, c_lo, c_hi) == first_clear_row(
                map@,
                xrange[0] as int,
                xrange[1] as int,
                c_lo,
                c_hi,
            ),
        decreases xrange[1] - x,
    {
        if can_horizontal_connect(yaxis[0], yaxis[1], x, false, map) {
            return Some([[x, yaxis[0]], [x, yaxis[1]]]);
        }
        if x == xrange[1] {
            assert(first_clear_row(map@, x + 1, xrange[1] as int, c_lo, c_hi) is None);
            return None;
        }
        x = x + 1;
    }
}

/// Whether no tile lies on column `y` between the rows `x1` and `x2`, the two ends counted or
/// not.
pub fn can_vertical_connect(
    x1: CoordElement,
    x2: CoordElement,
    y: CoordElement,
    ignore_edge: bool,
    map: &TileMap,
) -> (r: bool)
    ensures
        r == col_clear(
            map@,
            y as int,
            least(x1 as int, x2 as int) + (if ignore_edge { 1int } else { 0int }),
            most(x1 as int, x2 as int) + (if ignore_edge { 0int } else { 1int }),
        ),
{
    let (xmin, xmax) = if x1 < x2 { (x1, x2) } else { (x2, x1) };
    if ignore_edge && xmax - xmin < 2 {
        return true;
    }
    let first: usize = if ignore_edge { xmin + 1 } else { xmin };
    let last: usize = if ignore_edge { xmax - 1 } else { xmax };
    let mut x: usize = first;
    loop
        invariant
            first <= x <= last,
            first == least(x1 as int, x2 as int) + (if ignore_edge { 1int } else { 0int }),
            last + 1 == most(x1 as int, x2 as int) + (if ignore_edge { 0int } else { 1int }),
            col_clear(map@, y as int, first as int, x as int),
        decreases last - x,
    {
        if map.contains_key(&[x, y]) {
            assert(map@.contains_key((x as int, y as int)));
            return false;
        }
        if x == last {
            return true;
        }
        x = x + 1;
    }
}

/// The bar along the first column of `yrange` that is clear between the rows of `xaxis`, ends
/// included.
pub fn explore_vertical_connection(
    yrange: &[CoordElement; 2],
    xaxis: &[CoordElement; 2],
    map: &TileMap,
) -> (r: Option<Grid>)
    ensures
        opt_seg(r) == col_bar(map@, yrange[0] as int, yrange[1] as int, xaxis[0] as int, xaxis[1] as int),
{
    if yrange[0] > yrange[1] {
        return None;
    }
    let ghost r_lo = least(xaxis[0] as int, xaxis[1] as int);
    let ghost r_hi = most(xaxis[0] as int, xaxis[1] as int) + 1;
    let mut y: usize = yrange[0];
    loop
        invariant
            yrange[0] <= y <= yrange[1],
            r_lo == least(xaxis[0] as int, xaxis[1] as int),
            r_hi == most(xaxis[0] as int, xaxis[1] as int) + 1,
            first_clear_col(map@, y as int, yrange[1] as int, r_lo, r_hi) == first_clear_col(
                map@,
                yrange[0] as int,
                yrange[1] as int,
                r_lo,
                r_hi,
            ),
        decreases yrange[1] - y,
    {
        if can_vertical_connect(xaxis[0], xaxis[1], y, false, map) {
            return Some([[xaxis[0], y], [xaxis[1], y]]);
        }
        if y == yrange[1] {
            assert(first_clear_col(map@, y + 1, yrange[1] as int, r_lo, r_hi) is None);
            return None;
        }
        y = y + 1;
    }
}

/// Whether the two cells are neighbours in a row or a column.
pub fn is_tile_adjacent(coord1: &Coord, coord2: &Coord) -> (r: bool)
    ensures
        r == adjacent(pt(*coord1), pt(*coord2)),
{
    let x1: usize = coord1[0];
    let y1: usize = coord1[1];
    let x2: usize = coord2[0];
    let y2: usize = coord2[1];
    if x1 == x2 {
        (y1 > y2 && y1 - y2 == 1) || (y2 > y1 && y2 - y1 == 1)
    } else if y1 == y2 {
        (x1 > x2 && x1 - x2 == 1) || (x2 > x1 && x2 - x1 == 1)
    } else {
        false
    }
}

/// The rows that two runs share; none where they share no row.
pub fn get_overwrapped_xrange(grid1: &Grid, grid2: &Grid) -> (r: Option<[CoordElement; 2]>)
    ensures
        opt_pt(r) == overlap(rows_of(seg(*grid1)), rows_of(seg(*grid2))),
{
    let rows1 = get_grid_xrange(grid1);
    let rows2 = get_grid_xrange(grid2);
    let xmax: usize = if rows1[1] < rows2[1] { rows1[1] } else { rows2[1] };
    let xmin: usize = if rows1[0] > rows2[0] { rows1[0] } else { rows2[0] };
    if xmax < xmin {
        None
    } else {
        Some([xmin, xmax])
    }
}

/// The columns that two runs share; none where they share no column.
pub fn get_overwrapped_yrange(grid1: &Grid, grid2: &Grid) -> (r: Option<[CoordElement; 2]>)
    ensures
        opt_pt(r) == overlap(cols_of(seg(*grid1)), cols_of(seg(*grid2))),
{
    let cols1 = get_grid_yrange(grid1);
    let cols2 = get_grid_yrange(grid2);
    let ymax: usize = if cols1[1] < cols2[1] { cols1[1] } else { cols2[1] };
    let ymin: usize = if cols1[0] > cols2[0] { cols1[0] } else { cols2[0] };
    if ymax < ymin {
        None
    } else {
        Some([ymin, ymax])
    }
}

/// The path of four points along the bar that `explore_horizontal_connection` finds.
fn bar_path_in_rows(
    coord1: &Coord,
    coord2: &Coord,
    direction1: &CoordDelta,
    direction2: &CoordDelta,
    map: &TileMap,
    map_size: &[usize; 2],
) -> (r: Option<(Coord, Coord)>)
    requires
        unit(dir(*direction1)),
        unit(dir(*direction2)),
    ensures
        match r {
            Some((p, q)) => Some((pt(p), pt(q))),
            None => None,
        } == bar_in_rows(
            map@,
            ext(*map_size),
            pt(*coord1),
            pt(*coord2),
            dir(*direction1),
            dir(*direction2),
        ),
{
    let yaxis: [CoordElement; 2] = [coord1[1], coord2[1]];
    match get_grid_pair(coord1, coord2, direction1, direction2, map, map_size) {
        Some(grids) => match get_overwrapped_xrange(&grids[0], &grids[1]) {
            Some(xrange) => match explore_horizontal_connection(&xrange, &yaxis, map) {
                Some(grid) => Some((grid[0], grid[1])),
                None => None,
            },
            None => None,
        },
        None => None,
    }
}

/// The path of four points along the bar that `explore_vertical_connection` finds.
fn bar_path_in_cols(
    coord1: &Coord,
    coord2: &Coord,
    direction1: &CoordDelta,
    direction2: &CoordDelta,
    map: &TileMap,
    map_size: &[usize; 2],
) -> (r: Option<(Coord, Coord)>)
    requires
        unit(dir(*direction1)),
        unit(dir(*direction2)),
    ensures
        match r {
            Some((p, q)) => Some((pt(p), pt(q))),
            None => None,
        } == bar_in_cols(
            map@,
            ext(*map_size),
            pt(*coord1),
            pt(*coord2),
            dir(*direction1),
            dir(*direction2),
        ),
{
    let xaxis: [CoordElement; 2] = [coord1[0], coord2[0]];
    match get_grid_pair(coord1, coord2, direction1, direction2, map, map_size) {
        Some(grids) => match get_overwrapped_yrange(&grids[0], &grids[1]) {
            Some(yrange) => match explore_vertical_connection(&yrange, &xaxis, map) {
                Some(grid) => Some((grid[0], grid[1])),
                None => None,
            },
            None => None,
        },
        None => None,
    }
}

/// The straight path between two cells, where no tile lies between them.
pub fn try_get_double_node_connection(coord1: &Coord, coord2: &Coord, map: &TileMap) -> (r: Option<Nodes>)
    ensures
        opt_path(r) == double_path(map@, pt(*coord1), pt(*coord2)),
{
    let connected = is_tile_adjacent(coord1, coord2) || (coord1[0] == coord2[0] && can_horizontal_connect(
        coord1[1],
        coord2[1],
        coord1[0],
        true,
        map,
    )) || (coord1[1] == coord2[1] && can_vertical_connect(coord1[0], coord2[0], coord1[1], true, map));
    if connected {
        let nodes: Nodes = vec![*coord1, *coord2];
        assert(path_of(nodes@) =~= seq![pt(*coord1), pt(*coord2)]);
        Some(nodes)
    } else {
        None
    }
}

/// The bend that the two rays give.
fn corner_of(
    coord1: &Coord,
    coord2: &Coord,
    direction1: &CoordDelta,
    direction2: &CoordDelta,
    map: &TileMap,
    map_size: &[usize; 2],
) -> (r: Option<Coord>)
    requires
        unit(dir(*direction1)),
        unit(dir(*direction2)),
    ensures
        opt_pt(r) == corner_via(
            map@,
            ext(*map_size),
            pt(*coord1),
            pt(*coord2),
            dir(*direction1),
            dir(*direction2),
        ),
{
    match get_grid_pair(coord1, coord2, direction1, direction2, map, map_size) {
        Some(grids) => get_intersection(&grids[0], &grids[1]),
        None => None,
    }
}

/// The path with one bend between two cells: each cell casts a ray towards the line of the
/// other, and the bend is where the two rays cross.
pub fn try_get_triple_node_connection(
    coord1: &Coord,
    coord2: &Coord,
    map: &TileMap,
    map_size: &[usize; 2],
) -> (r: Option<Nodes>)
    ensures
        opt_path(r) == triple_path(map@, ext(*map_size), pt(*coord1), pt(*coord2)),
{
    let (v_dir1, v_dir2) = if coord1[0] > coord2[0] { (UP, DOWN) } else { (DOWN, UP) };
    let (h_dir1, h_dir2) = if coord1[1] > coord2[1] { (LEFT, RIGHT) } else { (RIGHT, LEFT) };
    let bend = match corner_of(coord1, coord2, &v_dir1, &h_dir2, map, map_size) {
        Some(c) => Some(c),
        None => corner_of(coord1, coord2, &h_dir1, &v_dir2, map, map_size),
    };
    match bend {
        Some(c) => {
            let nodes: Nodes = vec![*coord1, c, *coord2];
            assert(path_of(nodes@) =~= seq![pt(*coord1), pt(c), pt(*coord2)]);
            Some(nodes)
        },
        None => None,
    }
}

/// The path with two bends between two cells: the cells cast parallel rays, and a clear bar
/// joins the two rays.
pub fn try_get_quadro_node_connection(
    coord1: &Coord,
    coord2: &Coord,
    map: &TileMap,
    map_size: &[usize; 2],
) -> (r: Option<Nodes>)
    ensures
        opt_path(r) == quadro_path(map@, ext(*map_size), pt(*coord1), pt(*coord2)),
{
    let (v_dir1, v_dir2) = if coord1[0] > coord2[0] { (UP, DOWN) } else { (DOWN, UP) };
    let (h_dir1, h_dir2) = if coord1[1] > coord2[1] { (LEFT, RIGHT) } else { (RIGHT, LEFT) };
    let mut found = bar_path_in_rows(coord1, coord2, &UP, &UP, map, map_size);
    if found.is_none() {
        found = bar_path_in_rows(coord1, coord2, &DOWN, &DOWN, map, map_size);
    }
    if found.is_none() {
        found = bar_path_in_cols(coord1, coord2, &LEFT, &LEFT, map, map_size);
    }
    if found.is_none() {
        found = bar_path_in_cols(coord1, coord2, &RIGHT, &RIGHT, map, map_size);
    }
    if found.is_none() {
        found = bar_path_in_rows(coord1, coord2, &v_dir1, &v_dir2, map, map_size);
    }
    if found.is_none() {
        found = bar_path_in_cols(coord1, coord2, &h_dir1, &h_dir2, map, map_size);
    }
    match found {
        Some((p, q)) => {
            let nodes: Nodes = vec![*coord1, p, q, *coord2];
            assert(path_of(nodes@) =~= seq![pt(*coord1), pt(p), pt(q), pt(*coord2)]);
            Some(nodes)
        },
        None => None,
    }
}

/// The path that joins two cells: the straight one if there is one, else the one with one
/// bend, else the one with two.
pub fn try_get_node_connection(
    coord1: &Coord,
    coord2: &Coord,
    map: &TileMap,
    map_size: &[usize; 2],
) -> (r: Option<Nodes>)
    ensures
        opt_path(r) == node_connection(map@, ext(*map_size), pt(*coord1), pt(*coord2)),
        map@.contains_key(pt(*coord1)) && map@.contains_key(pt(*coord2)) && pt(*coord1) != pt(*coord2)
            ==> (r matches Some(nodes) ==> joins(
            map@,
            ext(*map_size),
            pt(*coord1),
            pt(*coord2),
            path_of(nodes@),
        )),
        inside(ext(*map_size), pt(*coord1)) && inside(ext(*map_size), pt(*coord2)) && pt(*coord1) != pt(
            *coord2,
        ) ==> (r is None ==> !connectable(map@, ext(*map_size), pt(*coord1), pt(*coord2))),
{
    proof {
        let (a, b) = (pt(*coord1), pt(*coord2));
        if map@.contains_key(a) && map@.contains_key(b) && a != b {
            lemma_connection_is_open(map@, ext(*map_size), a, b);
        }
        if inside(ext(*map_size), a) && inside(ext(*map_size), b) && a != b && connectable(
            map@,
            ext(*map_size),
            a,
            b,
        ) {
            lemma_connection_is_found(map@, ext(*map_size), a, b);
        }
    }
    let double_node_connection = try_get_double_node_connection(coord1, coord2, map);
    if double_node_connection.is_some() {
        return double_node_connection;
    }
    let triple_node_connection = try_get_triple_node_connection(coord1, coord2, map, map_size);
    if triple_node_connection.is_some() {
        return triple_node_connection;
    }
    try_get_quadro_node_connection(coord1, coord2, map, map_size)
}

/// The bend that two rays give is a free cell, and open segments join it to both cells.
proof fn lemma_corner_via_joins(
    cells: Map<Point, Tile>,
    size: Point,
    a: Point,
    b: Point,
    d1: Point,
    d2: Point,
)
    requires
        unit(d1),
        unit(d2),
        cells.contains_key(a),
        cells.contains_key(b),
        a != b,
    ensures
        corner_via(cells, size, a, b, d1, d2) matches Some(c) ==> free(cells, size, c) && segment_open(
            cells,
            a,
            c,
        ) && segment_open(cells, c, b),
{
    if let Some(c) = corner_via(cells, size, a, b, d1, d2) {
        lemma_ray_end(cells, size, a, d1);
        lemma_ray_end(cells, size, b, d2);
        assert(on_ray(cells, size, a, d1, c));
        assert(on_ray(cells, size, b, d2, c));
        if c == a {
            lemma_on_ray(cells, size, b, d2, a);
        }
        if c == b {
            lemma_on_ray(cells, size, a, d1, b);
        }
        lemma_on_ray(cells, size, a, d1, c);
        lemma_on_ray(cells, size, b, d2, c);
    }
}

/// The bar along a row that joins two rays cast along the columns makes an open path of four
/// points, unless a straight line joins the two cells.
proof fn lemma_bar_in_rows_joins(
    cells: Map<Point, Tile>,
    size: Point,
    a: Point,
    b: Point,
    d1: Point,
    d2: Point,
)
    requires
        unit(d1) && d1.1 == 0,
        unit(d2) && d2.1 == 0,
        cells.contains_key(a),
        cells.contains_key(b),
        a != b,
        !straight(cells, a, b),
    ensures
        bar_in_rows(cells, size, a, b, d1, d2) matches Some(g) ==> joins(
            cells,
            size,
            a,
            b,
            seq![a, g.0, g.1, b],
        ),
{
    if let Some(g) = bar_in_rows(cells, size, a, b, d1, d2) {
        let (p, q) = g;
        let e1 = ray_end(cells, size, a, d1);
        let e2 = ray_end(cells, size, b, d2);
        lemma_ray_end(cells, size, a, d1);
        lemma_ray_end(cells, size, b, d2);
        let rows = overlap(rows_of((a, e1)), rows_of((b, e2)))->0;
        let c_lo = least(a.1, b.1);
        let c_hi = most(a.1, b.1) + 1;
        lemma_first_clear_row(cells, rows.0, rows.1, c_lo, c_hi);
        let x = p.0;
        assert(row_clear(cells, x, c_lo, c_hi));
        assert(!cells.contains_key((x, a.1)));
        assert(!cells.contains_key((x, b.1)));
        assert(on_ray(cells, size, a, d1, p));
        assert(on_ray(cells, size, b, d2, q));
        lemma_on_ray(cells, size, a, d1, p);
        lemma_on_ray(cells, size, b, d2, q);
        if p == q {
            lemma_merge(cells, size, a, p, b);
        }
        assert(segment_open(cells, p, q));
        let path = seq![a, p, q, b];
        assert(path[0] == a && path[1] == p && path[2] == q && path[3] == b);
    }
}

/// The bar along a column that joins two rays cast along the rows makes an open path of four
/// points, unless a straight line joins the two cells.
proof fn lemma_bar_in_cols_joins(
    cells: Map<Point, Tile>,
    size: Point,
    a: Point,
    b: Point,
    d1: Point,
    d2: Point,
)
    requires
        unit(d1) && d1.0 == 0,
        unit(d2) && d2.0 == 0,
        cells.contains_key(a),
        cells.contains_key(b),
        a != b,
        !straight(cells, a, b),
    ensures
        bar_in_cols(cells, size, a, b, d1, d2) matches Some(g) ==> joins(
            cells,
            size,
            a,
            b,
            seq![a, g.0, g.1, b],
        ),
{
    if let Some(g) = bar_in_cols(cells, size, a, b, d1, d2) {
        let (p, q) = g;
        let e1 = ray_end(cells, size, a, d1);
        let e2 = ray_end(cells, size, b, d2);
        lemma_ray_end(cells, size, a, d1);
        lemma_ray_end(cells, size, b, d2);
        let cols = overlap(cols_of((a, e1)), cols_of((b, e2)))->0;
        let r_lo = least(a.0, b.0);
        let r_hi = most(a.0, b.0) + 1;
        lemma_first_clear_col(cells, cols.0, cols.1, r_lo, r_hi);
        let y = p.1;
        assert(col_clear(cells, y, r_lo, r_hi));
        assert(!cells.contains_key((a.0, y)));
        assert(!cells.contains_key((b.0, y)));
        assert(on_ray(cells, size, a, d1, p));
        assert(on_ray(cells, size, b, d2, q));
        lemma_on_ray(cells, size, a, d1, p);
        lemma_on_ray(cells, size, b, d2, q);
        if p == q {
            lemma_merge(cells, size, a, p, b);
        }
        assert(segment_open(cells, p, q));
        let path = seq![a, p, q, b];
        assert(path[0] == a && path[1] == p && path[2] == q && path[3] == b);
    }
}

/// Every path that the connectivity test gives for two different tiles is open: its points
/// follow each other along a row or a column, no tile lies on the cells between them, its
/// bends are free cells of the board, and there are at most two of them.
pub proof fn lemma_connection_is_open(cells: Map<Point, Tile>, size: Point, a: Point, b: Point)
    requires
        cells.contains_key(a),
        cells.contains_key(b),
        a != b,
    ensures
        node_connection(cells, size, a, b) matches Some(path) ==> joins(cells, size, a, b, path),
{
    let v = toward_rows(a, b);
    let h = toward_cols(a, b);
    if straight(cells, a, b) {
        let path = seq![a, b];
        assert(path[0] == a && path[1] == b);
    } else if let Some(c) = corner(cells, size, a, b) {
        lemma_corner_via_joins(cells, size, a, b, v.0, h.1);
        lemma_corner_via_joins(cells, size, a, b, h.0, v.1);
        let path = seq![a, c, b];
        assert(path[0] == a && path[1] == c && path[2] == b);
    } else {
        lemma_bar_in_rows_joins(cells, size, a, b, (-1, 0), (-1, 0));
        lemma_bar_in_rows_joins(cells, size, a, b, (1, 0), (1, 0));
        lemma_bar_in_cols_joins(cells, size, a, b, (0, -1), (0, -1));
        lemma_bar_in_cols_joins(cells, size, a, b, (0, 1), (0, 1));
        lemma_bar_in_rows_joins(cells, size, a, b, v.0, v.1);
        lemma_bar_in_cols_joins(cells, size, a, b, h.0, h.1);
    }
}

/// Where an open path with one bend joins two cells of the board, the connectivity test
/// finds a path.
proof fn lemma_found_three(cells: Map<Point, Tile>, size: Point, a: Point, c: Point, b: Point)
    requires
        a != b,
        inside(size, a),
        inside(size, b),
        segment_open(cells, a, c),
        segment_open(cells, c, b),
        free(cells, size, c),
    ensures
        node_connection(cells, size, a, b) is Some,
{
    let v = toward_rows(a, b);
    let h = toward_cols(a, b);
    if (a.0 == c.0 && c.0 == b.0) || (a.1 == c.1 && c.1 == b.1) {
        lemma_merge(cells, size, a, c, b);
    } else if a.1 == c.1 {
        lemma_reaches(cells, size, a, v.0, c);
        lemma_reaches(cells, size, b, h.1, c);
        lemma_ray_end(cells, size, a, v.0);
        lemma_ray_end(cells, size, b, h.1);
        assert(corner_via(cells, size, a, b, v.0, h.1) is Some);
    } else {
        lemma_reaches(cells, size, a, h.0, c);
        lemma_reaches(cells, size, b, v.1, c);
        lemma_ray_end(cells, size, a, h.0);
        lemma_ray_end(cells, size, b, v.1);
        assert(corner_via(cells, size, a, b, h.0, v.1) is Some);
    }
}

/// Where a clear bar along row `x` joins the columns of two cells, and both cells reach the
/// bar along their columns, some bar along a row is found.
proof fn lemma_found_row_bar(cells: Map<Point, Tile>, size: Point, a: Point, b: Point, x: int)
    requires
        inside(size, a),
        inside(size, b),
        x != a.0,
        x != b.0,
        a.1 != b.1,
        free(cells, size, (x, a.1)),
        free(cells, size, (x, b.1)),
        segment_open(cells, a, (x, a.1)),
        segment_open(cells, (x, a.1), (x, b.1)),
        segment_open(cells, (x, b.1), b),
    ensures
        bar(cells, size, a, b) is Some,
{
    let p = (x, a.1);
    let q = (x, b.1);
    let v = toward_rows(a, b);
    let c_lo = least(a.1, b.1);
    let c_hi = most(a.1, b.1) + 1;
    assert(row_clear(cells, x, c_lo, c_hi)) by {
        assert forall|c: int| c_lo <= c < c_hi implies !cells.contains_key((x, c)) by {
            if c != a.1 && c != b.1 {
                assert(least(p.1, q.1) + 1 <= c < most(p.1, q.1));
            }
        }
    }
    let d1: Point = if x < a.0 { (-1, 0) } else { (1, 0) };
    let d2: Point = if x < b.0 { (-1, 0) } else { (1, 0) };
    lemma_reaches(cells, size, a, d1, p);
    lemma_reaches(cells, size, b, d2, q);
    let e1 = ray_end(cells, size, a, d1);
    let e2 = ray_end(cells, size, b, d2);
    let shared = overlap(rows_of((a, e1)), rows_of((b, e2)));
    assert(shared is Some);
    let rows = shared->0;
    assert(rows.0 <= x <= rows.1);
    lemma_first_clear_row(cells, rows.0, rows.1, c_lo, c_hi);
    assert(bar_in_rows(cells, size, a, b, d1, d2) is Some);
    if x < a.0 && x < b.0 {
    } else if x > a.0 && x > b.0 {
    } else {
        assert(d1 == v.0 && d2 == v.1);
    }
}

/// Where a clear bar along column `y` joins the rows of two cells, and both cells reach the
/// bar along their rows, some bar is found.
proof fn lemma_found_col_bar(cells: Map<Point, Tile>, size: Point, a: Point, b: Point, y: int)
    requires
        inside(size, a),
        inside(size, b),
        y != a.1,
        y != b.1,
        a.0 != b.0,
        free(cells, size, (a.0, y)),
        free(cells, size, (b.0, y)),
        segment_open(cells, a, (a.0, y)),
        segment_open(cells, (a.0, y), (b.0, y)),
        segment_open(cells, (b.0, y), b),
    ensures
        bar(cells, size, a, b) is Some,
{
    let p = (a.0, y);
    let q = (b.0, y);
    let h = toward_cols(a, b);
    let r_lo = least(a.0, b.0);
    let r_hi = most(a.0, b.0) + 1;
    assert(col_clear(cells, y, r_lo, r_hi)) by {
        assert forall|r: int| r_lo <= r < r_hi implies !cells.contains_key((r, y)) by {
            if r != a.0 && r != b.0 {
                assert(least(p.0, q.0) + 1 <= r < most(p.0, q.0));
            }
        }
    }
    let d1: Point = if y < a.1 { (0, -1) } else { (0, 1) };
    let d2: Point = if y < b.1 { (0, -1) } else { (0, 1) };
    lemma_reaches(cells, size, a, d1, p);
    lemma_reaches(cells, size, b, d2, q);
    let e1 = ray_end(cells, size, a, d1);
    let e2 = ray_end(cells, size, b, d2);
    let shared = overlap(cols_of((a, e1)), cols_of((b, e2)));
    assert(shared is Some);
    let cols = shared->0;
    assert(cols.0 <= y <= cols.1);
    lemma_first_clear_col(cells, cols.0, cols.1, r_lo, r_hi);
    assert(bar_in_cols(cells, size, a, b, d1, d2) is Some);
    if y < a.1 && y < b.1 {
    } else if y > a.1 && y > b.1 {
    } else {
        assert(d1 == h.0 && d2 == h.1);
    }
}

/// Where an open path with two bends joins two cells of the board, the connectivity test
/// finds a path.
proof fn lemma_found_four(cells: Map<Point, Tile>, size: Point, a: Point, p: Point, q: Point, b: Point)
    requires
        a != b,
        inside(size, a),
        inside(size, b),
        segment_open(cells, a, p),
        segment_open(cells, p, q),
        segment_open(cells, q, b),
        free(cells, size, p),
        free(cells, size, q),
    ensures
        node_connection(cells, size, a, b) is Some,
{
    if (a.0 == p.0 && p.0 == q.0) || (a.1 == p.1 && p.1 == q.1) {
        if q != a {
            lemma_merge(cells, size, a, p, q);
            lemma_found_three(cells, size, a, q, b);
        }
    } else if (p.0 == q.0 && q.0 == b.0) || (p.1 == q.1 && q.1 == b.1) {
        if p != b {
            lemma_merge(cells, size, p, q, b);
            lemma_found_three(cells, size, a, p, b);
        }
    } else if a.1 == p.1 {
        assert(p == (p.0, a.1) && q == (p.0, b.1));
        lemma_found_row_bar(cells, size, a, b, p.0);
    } else {
        assert(p == (a.0, p.1) && q == (b.0, p.1));
        lemma_found_col_bar(cells, size, a, b, p.1);
    }
}

/// Where any open path with at most two bends joins two different cells of the board, the
/// connectivity test finds a path.
pub proof fn lemma_connection_is_found(cells: Map<Point, Tile>, size: Point, a: Point, b: Point)
    requires
        a != b,
        inside(size, a),
        inside(size, b),
        connectable(cells, size, a, b),
    ensures
        node_connection(cells, size, a, b) is Some,
{
    let path = choose|path: Seq<Point>| joins(cells, size, a, b, path);
    assert(segment_open(cells, path[0], path[1]));
    if path.len() == 3 {
        assert(segment_open(cells, path[1], path[2]));
        assert(free(cells, size, path[1]));
        lemma_found_three(cells, size, a, path[1], b);
    } else if path.len() == 4 {
        assert(segment_open(cells, path[1], path[2]));
        assert(segment_open(cells, path[2], path[3]));
        assert(free(cells, size, path[1]));
        assert(free(cells, size, path[2]));
        lemma_found_four(cells, size, a, path[1], path[2], b);
    }
}

} // verus!
