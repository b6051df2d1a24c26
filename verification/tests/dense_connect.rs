use sichuan_solver::components::{Coord, CoordElement, Grid};
use sichuan_solver::dense::components::{Nodes, TileMap};
use sichuan_solver::dense::connect::{
    explore_x_connection, explore_y_connection, find_connection, get_double_line_connection,
    get_faced_x_grid_pair, get_faced_y_grid_pair, get_grid, get_intersection, get_l_grid_pair,
    get_overlapped_x_range, get_overlapped_y_range, get_parallel_grid_pair,
    get_triple_line_connection, is_connected_with_single_line, is_tile_touched, move_coord,
};

#[test]
fn test_move_coord() {
    let map: TileMap = TileMap::from_rows(&vec![
        vec![None, Some(0), None, Some(0)],
        vec![Some(0), None, None, None],
        vec![None, None, Some(0), None],
    ]);
    /* tile map:
     * x 0 x 0
     * 0 x x x
     * x x 0 x
     */

    assert_eq!(move_coord(&map, &[1, 1], &[1, 0]), Some([2, 1]));
    assert_eq!(move_coord(&map, &[1, 1], &[0, 1]), Some([1, 2]));
    assert_eq!(move_coord(&map, &[2, 1], &[-1, 0]), Some([1, 1]));
    assert_eq!(move_coord(&map, &[2, 1], &[0, -1]), Some([2, 0]));
    assert_eq!(move_coord(&map, &[0, 0], &[1, 0]), None);
    assert_eq!(move_coord(&map, &[0, 0], &[0, 1]), None);
    assert_eq!(move_coord(&map, &[1, 1], &[-1, 0]), None);
    assert_eq!(move_coord(&map, &[1, 1], &[0, -1]), None);
    assert_eq!(move_coord(&map, &[0, 0], &[-1, 0]), None);
    assert_eq!(move_coord(&map, &[0, 0], &[0, -1]), None);
    assert_eq!(move_coord(&map, &[2, 3], &[1, 0]), None);
    assert_eq!(move_coord(&map, &[2, 3], &[0, 1]), None);
}

#[test]
fn test_get_grid() {
    let map: TileMap = TileMap::from_rows(&vec![
        vec![None, Some(0), None, Some(0)],
        vec![Some(0), None, None, None],
        vec![None, None, None, Some(0)],
    ]);
    /* tile map:
     * x 0 x 0
     * 0 x x x
     * x x x 0
     */

    assert_eq!(get_grid(&map, &[0, 1], &[0, 1]), Some([[0, 1], [0, 2]]));
    assert_eq!(get_grid(&map, &[0, 3], &[0, -1]), Some([[0, 3], [0, 2]]));
    assert_eq!(get_grid(&map, &[0, 3], &[1, 0]), Some([[0, 3], [1, 3]]));
    assert_eq!(get_grid(&map, &[2, 3], &[-1, 0]), Some([[2, 3], [1, 3]]));
    assert_eq!(get_grid(&map, &[1, 0], &[0, 1]), Some([[1, 0], [1, 3]]));
    assert_eq!(get_grid(&map, &[2, 3], &[0, -1]), Some([[2, 3], [2, 0]]));
    assert_eq!(get_grid(&map, &[1, 0], &[1, 0]), Some([[1, 0], [2, 0]]));
    assert_eq!(get_grid(&map, &[1, 0], &[-1, 0]), Some([[1, 0], [0, 0]]));
}

#[test]
fn test_get_intersection() {
    let check_all = |grid1: Grid, grid2: Grid, expected: Option<Coord>| {
        for [g1, g2] in [[grid1, grid2], [grid2, grid1]] {
            for ga in [g1, [g1[1], g1[0]]] {
                for gb in [g2, [g2[1], g2[0]]] {
                    assert_eq!(get_intersection(&ga, &gb), expected);
                }
            }
        }
    };

    check_all([[0, 0], [0, 1]], [[0, 0], [1, 0]], Some([0, 0]));
    check_all([[1, 1], [0, 1]], [[1, 1], [1, 0]], Some([1, 1]));
    check_all([[0, 0], [0, 2]], [[0, 1], [1, 1]], Some([0, 1]));
    check_all([[1, 0], [1, 2]], [[0, 1], [1, 1]], Some([1, 1]));
    check_all([[0, 0], [0, 1]], [[0, 2], [1, 2]], None);
    check_all([[2, 2], [2, 1]], [[0, 0], [2, 0]], None);
    check_all([[0, 0], [0, 2]], [[1, 1], [2, 1]], None);
    check_all([[2, 0], [2, 2]], [[0, 1], [1, 1]], None);
    check_all([[1, 0], [1, 1]], [[0, 0], [2, 0]], Some([1, 0]));
    check_all([[1, 0], [1, 1]], [[0, 1], [2, 1]], Some([1, 1]));
    check_all([[1, 0], [1, 2]], [[0, 1], [2, 1]], Some([1, 1]));
    check_all([[0, 0], [0, 2]], [[0, 1], [0, 3]], None);
    check_all([[0, 0], [0, 2]], [[1, 1], [1, 3]], None);
    check_all([[0, 0], [2, 0]], [[1, 0], [3, 0]], None);
    check_all([[0, 0], [2, 0]], [[1, 1], [3, 1]], None);
}

#[test]
fn test_explore_x_connection() {
    let map1: TileMap = TileMap::from_rows(&vec![
        vec![None, None, None],
        vec![None, Some(0), None],
        vec![None, None, None],
        vec![None, Some(0), None],
    ]);
    /* tile map:
     * | x x
     * | 0 |
     * | x |
     * | 0 |
     */
    assert_eq!(
        explore_x_connection(&map1, &[1, 3], &[0, 2]),
        Some([[2, 0], [2, 2]])
    );
    assert_eq!(explore_x_connection(&map1, &[1, 1], &[0, 2]), None);

    let map2: TileMap = TileMap::from_rows(&vec![
        vec![None, None, None],
        vec![None, Some(0), None],
        vec![None, Some(0), None],
        vec![None, Some(0), None],
    ]);
    assert_eq!(explore_x_connection(&map2, &[1, 3], &[0, 2]), None);
}

#[test]
fn test_explore_y_connection() {
    let map1: TileMap = TileMap::from_rows(&vec![
        vec![None, None, None, None],
        vec![None, Some(0), None, Some(0)],
        vec![None, None, None, None],
    ]);
    /* tile map:
     * -------
     * x 0 x 0
     * x -----
     */
    assert_eq!(
        explore_y_connection(&map1, &[1, 3], &[0, 2]),
        Some([[0, 2], [2, 2]])
    );
    assert_eq!(explore_y_connection(&map1, &[1, 1], &[0, 2]), None);

    let map2: TileMap = TileMap::from_rows(&vec![
        vec![None, None, None, None],
        vec![None, Some(0), Some(0), Some(0)],
        vec![None, None, None, None],
    ]);
    assert_eq!(explore_y_connection(&map2, &[1, 3], &[0, 2]), None);
}

#[test]
fn test_is_tile_touched() {
    assert!(is_tile_touched(&[0, 0], &[1, 0]));
    assert!(is_tile_touched(&[1, 0], &[0, 0]));
    assert!(is_tile_touched(&[1, 1], &[1, 0]));
    assert!(is_tile_touched(&[1, 0], &[1, 1]));
    assert!(!is_tile_touched(&[0, 0], &[1, 1]));
    assert!(!is_tile_touched(&[0, 0], &[0, 2]));
    assert!(!is_tile_touched(&[0, 2], &[0, 0]));
    assert!(!is_tile_touched(&[0, 0], &[2, 0]));
    assert!(!is_tile_touched(&[2, 0], &[0, 0]));
}

#[test]
fn test_is_connect_with_single_line() {
    assert!(is_connected_with_single_line(
        &[[0, 0], [0, 2]],
        &[[0, 1], [0, 3]]
    ));
    assert!(is_connected_with_single_line(
        &[[0, 0], [0, 2]],
        &[[0, 2], [0, 3]]
    ));
    assert!(!is_connected_with_single_line(
        &[[0, 0], [0, 2]],
        &[[1, 1], [1, 3]]
    ));
    assert!(!is_connected_with_single_line(
        &[[0, 0], [0, 1]],
        &[[0, 2], [0, 3]]
    ));
    assert!(is_connected_with_single_line(
        &[[0, 0], [2, 0]],
        &[[1, 0], [3, 0]]
    ));
    assert!(is_connected_with_single_line(
        &[[0, 0], [2, 0]],
        &[[2, 0], [3, 0]]
    ));
    assert!(!is_connected_with_single_line(
        &[[0, 0], [2, 0]],
        &[[1, 1], [3, 1]]
    ));
    assert!(!is_connected_with_single_line(
        &[[0, 0], [1, 0]],
        &[[2, 0], [3, 0]]
    ));
    assert!(!is_connected_with_single_line(
        &[[0, 0], [1, 0]],
        &[[0, 0], [0, 1]]
    ));
    assert!(!is_connected_with_single_line(
        &[[0, 0], [2, 0]],
        &[[1, 0], [1, 1]]
    ));
    assert!(!is_connected_with_single_line(
        &[[0, 1], [1, 1]],
        &[[0, 0], [1, 2]]
    ));
    assert!(!is_connected_with_single_line(
        &[[0, 1], [0, 2]],
        &[[0, 0], [1, 0]]
    ));
}

#[test]
fn test_get_double_line_connection() {
    let to_path =
        |&c1: &Coord, &c2: &Coord, &c3: &Coord| Some([Some(c1), Some(c2), Some(c3), None]);

    let test_connection = |&ga: &Grid, &gb: &Grid, &intersection: &Option<Coord>| {
        let actual = get_double_line_connection(&ga, &gb);
        match intersection {
            Some(coord) => assert_eq!(actual, to_path(&ga[0], &coord, &gb[0])),
            None => assert_eq!(actual, None),
        }
    };

    let check_all = |grid1: Grid, grid2: Grid, expected: Option<Coord>| {
        for [g1, g2] in [[grid1, grid2], [grid2, grid1]] {
            for ga in [g1, [g1[1], g1[0]]] {
                for gb in [g2, [g2[1], g2[0]]] {
                    test_connection(&ga, &gb, &expected);
                }
            }
        }
    };

    check_all([[0, 0], [0, 1]], [[0, 0], [1, 0]], Some([0, 0]));
    check_all([[1, 1], [0, 1]], [[1, 1], [1, 0]], Some([1, 1]));
    check_all([[0, 0], [0, 2]], [[0, 1], [1, 1]], Some([0, 1]));
    check_all([[1, 0], [1, 2]], [[0, 1], [1, 1]], Some([1, 1]));
    check_all([[0, 0], [0, 1]], [[0, 2], [1, 2]], None);
    check_all([[2, 2], [2, 1]], [[0, 0], [2, 0]], None);
    check_all([[0, 0], [0, 2]], [[1, 1], [2, 1]], None);
    check_all([[2, 0], [2, 2]], [[0, 1], [1, 1]], None);
    check_all([[1, 0], [1, 1]], [[0, 0], [2, 0]], Some([1, 0]));
    check_all([[1, 0], [1, 1]], [[0, 1], [2, 1]], Some([1, 1]));
    check_all([[1, 0], [1, 2]], [[0, 1], [2, 1]], Some([1, 1]));
    check_all([[0, 0], [0, 2]], [[0, 1], [0, 3]], None);
    check_all([[0, 0], [0, 2]], [[1, 1], [1, 3]], None);
    check_all([[0, 0], [2, 0]], [[1, 0], [3, 0]], None);
    check_all([[0, 0], [2, 0]], [[1, 1], [3, 1]], None);
}

#[test]
fn test_get_overlapped_x_range() {
    let check_all = |grid1: Grid, grid2: Grid, expected: Option<[CoordElement; 2]>| {
        for (g1, g2) in [(grid1, grid2), (grid2, grid1)] {
            for ga in [g1, [g1[1], g1[0]]] {
                for gb in [g2, [g2[1], g2[0]]] {
                    assert_eq!(get_overlapped_x_range(&ga, &gb), expected);
                }
            }
        }
    };

    check_all([[0, 0], [1, 0]], [[1, 0], [2, 0]], Some([1, 1]));
    check_all([[0, 0], [2, 0]], [[1, 0], [2, 0]], Some([1, 2]));
    check_all([[0, 0], [2, 0]], [[1, 0], [3, 0]], Some([1, 2]));
    check_all([[0, 0], [1, 0]], [[2, 0], [3, 0]], None);
    check_all([[0, 0], [0, 1]], [[1, 0], [2, 0]], None);
    check_all([[0, 0], [0, 1]], [[0, 1], [0, 2]], None);
    check_all([[0, 0], [0, 2]], [[0, 1], [0, 2]], None);
    check_all([[0, 0], [0, 2]], [[0, 1], [0, 3]], None);
    check_all([[0, 0], [0, 1]], [[0, 2], [0, 3]], None);
}

#[test]
fn test_get_overlapped_y_range() {
    let check_all = |grid1: Grid, grid2: Grid, expected: Option<[CoordElement; 2]>| {
        for (g1, g2) in [(grid1, grid2), (grid2, grid1)] {
            for ga in [g1, [g1[1], g1[0]]] {
                for gb in [g2, [g2[1], g2[0]]] {
                    assert_eq!(get_overlapped_y_range(&ga, &gb), expected);
                }
            }
        }
    };

    check_all([[0, 0], [1, 0]], [[1, 0], [2, 0]], None);
    check_all([[0, 0], [2, 0]], [[1, 0], [2, 0]], None);
    check_all([[0, 0], [2, 0]], [[1, 0], [3, 0]], None);
    check_all([[0, 0], [1, 0]], [[2, 0], [3, 0]], None);
    check_all([[0, 0], [0, 1]], [[1, 0], [2, 0]], None);
    check_all([[0, 0], [0, 1]], [[0, 1], [0, 2]], Some([1, 1]));
    check_all([[0, 0], [0, 2]], [[0, 1], [0, 2]], Some([1, 2]));
    check_all([[0, 0], [0, 2]], [[0, 1], [0, 3]], Some([1, 2]));
    check_all([[0, 0], [0, 1]], [[0, 2], [0, 3]], None);
}

#[test]
fn test_get_triple_line_connection() {
    let to_path = |coords: Option<[Coord; 4]>| -> Option<Nodes> {
        match coords {
            Some([c1, c2, c3, c4]) => Some([Some(c1), Some(c2), Some(c3), Some(c4)]),
            None => None,
        }
    };

    let check_all = |map: &TileMap, grid1: Grid, grid2: Grid, expected: Option<Nodes>| {
        for (g1, g2) in [(grid1, grid2), (grid2, grid1)] {
            let actual = get_triple_line_connection(map, &g1, &g2);
            assert_eq!(actual, expected);
        }
    };
    let map: TileMap = TileMap::from_rows(&vec![
        vec![None, None, None, None],
        vec![None, None, Some(0), None],
        vec![None, None, None, None],
        vec![None, None, Some(0), None],
    ]);
    /*
     * x x x x
     * x x 0 x
     * x x x x
     * x x 0 x
     */
    check_all(
        &map,
        [[0, 0], [0, 1]],
        [[1, 2], [1, 1]],
        to_path(Some([[0, 0], [0, 1], [1, 1], [1, 2]])),
    );
    check_all(
        &map,
        [[0, 2], [0, 1]],
        [[1, 0], [1, 1]],
        to_path(Some([[0, 2], [0, 1], [1, 1], [1, 0]])),
    );
    check_all(
        &map,
        [[0, 0], [1, 0]],
        [[2, 1], [1, 1]],
        to_path(Some([[0, 0], [1, 0], [1, 1], [2, 1]])),
    );
    check_all(
        &map,
        [[0, 2], [0, 1]],
        [[1, 0], [1, 1]],
        to_path(Some([[0, 2], [0, 1], [1, 1], [1, 0]])),
    );
    check_all(
        &map,
        [[0, 0], [0, 2]],
        [[2, 3], [2, 1]],
        to_path(Some([[0, 0], [0, 1], [2, 1], [2, 3]])),
    );
    check_all(
        &map,
        [[0, 3], [0, 1]],
        [[1, 0], [1, 2]],
        to_path(Some([[0, 3], [0, 1], [1, 1], [1, 0]])),
    );
    check_all(
        &map,
        [[0, 0], [2, 0]],
        [[3, 1], [1, 1]],
        to_path(Some([[0, 0], [1, 0], [1, 1], [3, 1]])),
    );
    check_all(
        &map,
        [[3, 0], [1, 0]],
        [[0, 1], [2, 1]],
        to_path(Some([[3, 0], [1, 0], [1, 1], [0, 1]])),
    );
    check_all(&map, [[0, 1], [0, 2]], [[2, 3], [2, 2]], to_path(None));
    check_all(&map, [[0, 3], [0, 2]], [[2, 1], [2, 2]], to_path(None));
    check_all(&map, [[0, 1], [1, 1]], [[2, 3], [1, 3]], to_path(None));
    check_all(&map, [[2, 1], [1, 1]], [[0, 3], [1, 3]], to_path(None));
    check_all(
        &map,
        [[1, 1], [2, 1]],
        [[1, 3], [2, 3]],
        to_path(Some([[1, 1], [2, 1], [2, 3], [1, 3]])),
    );
    check_all(
        &map,
        [[1, 1], [3, 1]],
        [[0, 3], [3, 3]],
        to_path(Some([[1, 1], [2, 1], [2, 3], [0, 3]])),
    );
    check_all(&map, [[1, 0], [1, 1]], [[2, 3], [3, 3]], None);
    check_all(&map, [[0, 1], [1, 1]], [[1, 3], [3, 3]], None);
    check_all(
        &map,
        [[3, 1], [2, 1]],
        [[3, 3], [2, 3]],
        to_path(Some([[3, 1], [2, 1], [2, 3], [3, 3]])),
    );
    check_all(
        &map,
        [[3, 1], [1, 1]],
        [[3, 3], [0, 3]],
        to_path(Some([[3, 1], [2, 1], [2, 3], [3, 3]])),
    );
    check_all(&map, [[3, 1], [2, 1]], [[1, 3], [0, 3]], None);
    check_all(&map, [[3, 1], [1, 1]], [[1, 3], [0, 3]], None);
    check_all(
        &map,
        [[0, 2], [0, 3]],
        [[2, 2], [2, 3]],
        to_path(Some([[0, 2], [0, 3], [2, 3], [2, 2]])),
    );
    check_all(
        &map,
        [[0, 1], [0, 3]],
        [[2, 2], [2, 3]],
        to_path(Some([[0, 1], [0, 3], [2, 3], [2, 2]])),
    );
    check_all(&map, [[0, 0], [0, 1]], [[2, 2], [2, 3]], None);
    check_all(&map, [[0, 0], [0, 2]], [[2, 2], [2, 3]], None);
    check_all(
        &map,
        [[0, 2], [0, 1]],
        [[2, 2], [2, 1]],
        to_path(Some([[0, 2], [0, 1], [2, 1], [2, 2]])),
    );
    check_all(
        &map,
        [[0, 3], [0, 0]],
        [[2, 2], [2, 1]],
        to_path(Some([[0, 3], [0, 1], [2, 1], [2, 2]])),
    );
    check_all(&map, [[0, 3], [0, 2]], [[2, 1], [2, 0]], None);
    check_all(&map, [[0, 3], [0, 2]], [[2, 2], [2, 0]], None);
}

#[test]
fn test_get_faced_x_grid_pair() {
    let map: TileMap = TileMap::from_rows(&vec![
        vec![None, Some(0), None, Some(1)],
        vec![None, None, None, None],
        vec![None, Some(0), Some(1), None],
        vec![None, None, None, None],
    ]);
    /*
     * x 0 x 1
     * x x x x
     * x 0 1 x
     * x x x x
     */
    let check_all = |coord1: Coord, coord2: Coord, expected: Option<[Grid; 2]>| {
        if let Some(grids) = expected {
            for (c1, c2, ex) in [
                (coord1, coord2, grids),
                (coord2, coord1, [grids[1], grids[0]]),
            ] {
                assert_eq!(get_faced_x_grid_pair(&map, &c1, &c2), Some(ex));
            }
        }
    };
    check_all([0, 0], [3, 0], Some([[[0, 0], [3, 0]], [[3, 0], [0, 0]]]));
    check_all([0, 0], [3, 3], Some([[[0, 0], [3, 0]], [[3, 3], [1, 3]]]));
    check_all([0, 0], [1, 2], Some([[[0, 0], [3, 0]], [[1, 2], [0, 2]]]));
    check_all([0, 0], [0, 2], None);
    check_all([0, 0], [3, 2], None);
}

#[test]
fn test_get_faced_y_grid_pair() {
    let map: TileMap = TileMap::from_rows(&vec![
        vec![None, Some(0), None, Some(1)],
        vec![None, None, None, None],
        vec![None, Some(0), Some(1), None],
        vec![None, None, None, None],
    ]);
    /*
     * x 0 x 1
     * x x x x
     * x 0 1 x
     * x x x x
     */
    let check_all = |coord1: Coord, coord2: Coord, expected: Option<[Grid; 2]>| {
        if let Some(grids) = expected {
            for (c1, c2, ex) in [
                (coord1, coord2, grids),
                (coord2, coord1, [grids[1], grids[0]]),
            ] {
                assert_eq!(get_faced_y_grid_pair(&map, &c1, &c2), Some(ex));
            }
        }
    };
    check_all([1, 0], [1, 3], Some([[[1, 0], [1, 3]], [[1, 3], [1, 0]]]));
    check_all([1, 0], [3, 3], Some([[[1, 0], [1, 3]], [[3, 3], [3, 0]]]));
    check_all([1, 1], [3, 2], Some([[[1, 1], [1, 3]], [[3, 2], [3, 0]]]));
    check_all([0, 0], [1, 2], None);
    check_all([1, 2], [3, 2], None);
}

#[test]
fn test_get_l_grid_pair() {
    let map: TileMap = TileMap::from_rows(&vec![
        vec![None, None, Some(0), None],
        vec![None, None, None, None],
        vec![None, Some(0), None, None],
        vec![None, None, None, None],
    ]);
    /*
     * x x 0 x
     * x x x x
     * x 0 x x
     * x x x x
     */
    let check_all = |coord1: Coord, coord2: Coord, expected: [Option<[Grid; 2]>; 2]| {
        let actual1 = get_l_grid_pair(&map, &coord1, &coord2);
        let actual2 = get_l_grid_pair(&map, &coord2, &coord1);
        let expected2 = match expected {
            [Some([g11, g21]), Some([g12, g22])] => [Some([g22, g12]), Some([g21, g11])],
            _ => [None, None],
        };
        assert_eq!(actual1, expected);
        assert_eq!(actual2, expected2);
    };

    check_all(
        [1, 0],
        [3, 2],
        [
            Some([[[1, 0], [3, 0]], [[3, 2], [3, 0]]]),
            Some([[[1, 0], [1, 3]], [[3, 2], [1, 2]]]),
        ],
    );
    check_all(
        [1, 2],
        [3, 0],
        [
            Some([[[1, 2], [3, 2]], [[3, 0], [3, 3]]]),
            Some([[[1, 2], [1, 0]], [[3, 0], [0, 0]]]),
        ],
    );
    check_all([0, 0], [1, 0], [None, None]);
    check_all([0, 0], [0, 1], [None, None]);
}

#[test]
fn test_get_parallel_grid_pair() {
    let map: TileMap = TileMap::from_rows(&vec![
        vec![None, None, None, None],
        vec![None, None, None, None],
        vec![None, None, None, None],
        vec![None, None, None, None],
    ]);

    let check_all = |coord1: Coord, coord2: Coord, expected: [Option<[Grid; 2]>; 4]| {
        let actual1 = get_parallel_grid_pair(&map, &coord1, &coord2);
        let actual2 = get_parallel_grid_pair(&map, &coord2, &coord1);
        let expected2 = expected.map(|g: Option<[Grid; 2]>| match g {
            Some([g1, g2]) => Some([g2, g1]),
            _ => None,
        });
        assert_eq!(actual1, expected);
        assert_eq!(actual2, expected2);
    };

    check_all(
        [1, 1],
        [2, 2],
        [
            Some([[[1, 1], [3, 1]], [[2, 2], [3, 2]]]),
            Some([[[1, 1], [0, 1]], [[2, 2], [0, 2]]]),
            Some([[[1, 1], [1, 3]], [[2, 2], [2, 3]]]),
            Some([[[1, 1], [1, 0]], [[2, 2], [2, 0]]]),
        ],
    );

    check_all(
        [1, 2],
        [2, 1],
        [
            Some([[[1, 2], [3, 2]], [[2, 1], [3, 1]]]),
            Some([[[1, 2], [0, 2]], [[2, 1], [0, 1]]]),
            Some([[[1, 2], [1, 3]], [[2, 1], [2, 3]]]),
            Some([[[1, 2], [1, 0]], [[2, 1], [2, 0]]]),
        ],
    );
}

#[test]
fn test_find_connection() {
    let map: TileMap = TileMap::from_rows(&vec![
        vec![None, None, None, None],
        vec![None, Some(0), Some(0), None],
        vec![None, Some(1), None, None],
        vec![None, None, None, Some(1)],
    ]);

    let check_all = |coord1: Coord, coord2: Coord, expected: Option<Nodes>| {
        let actual1 = find_connection(&map, &coord1, &coord2);
        let actual2 = find_connection(&map, &coord2, &coord1);
        let expected2 = match expected {
            Some([Some(c1), Some(c2), None, None]) => Some([Some(c2), Some(c1), None, None]),
            Some([Some(c1), Some(c2), Some(c3), None]) => {
                Some([Some(c3), Some(c2), Some(c1), None])
            }
            Some([Some(c1), Some(c2), Some(c3), Some(c4)]) => {
                Some([Some(c4), Some(c3), Some(c2), Some(c1)])
            }
            _ => None,
        };
        assert_eq!(actual1, expected);
        assert_eq!(actual2, expected2);
    };

    check_all(
        [1, 1],
        [1, 2],
        Some([Some([1, 1]), Some([1, 2]), None, None]),
    );
    check_all(
        [0, 0],
        [0, 3],
        Some([Some([0, 0]), Some([0, 3]), None, None]),
    );
    check_all(
        [0, 0],
        [3, 0],
        Some([Some([0, 0]), Some([3, 0]), None, None]),
    );
    assert_eq!(
        find_connection(&map, &[0, 0], &[1, 1]),
        Some([Some([0, 0]), Some([1, 0]), Some([1, 1]), None])
    );
    assert_eq!(
        find_connection(&map, &[1, 1], &[0, 0]),
        Some([Some([1, 1]), Some([0, 1]), Some([0, 0]), None])
    );
    assert_eq!(
        find_connection(&map, &[0, 1], &[1, 0]),
        Some([Some([0, 1]), Some([0, 0]), Some([1, 0]), None])
    );
    assert_eq!(
        find_connection(&map, &[1, 0], &[0, 1]),
        Some([Some([1, 0]), Some([0, 0]), Some([0, 1]), None])
    );
    assert_eq!(
        find_connection(&map, &[3, 0], &[2, 3]),
        Some([Some([2, 3]), Some([2, 2]), Some([3, 2]), Some([3, 0])]),
    );
    assert_eq!(
        find_connection(&map, &[2, 3], &[3, 0]),
        Some([Some([2, 3]), Some([2, 2]), Some([3, 2]), Some([3, 0])]),
    );
    assert_eq!(
        find_connection(&map, &[1, 0], &[1, 3]),
        Some([Some([1, 0]), Some([0, 0]), Some([0, 3]), Some([1, 3])]),
    );
    assert_eq!(
        find_connection(&map, &[1, 3], &[1, 0]),
        Some([Some([1, 0]), Some([0, 0]), Some([0, 3]), Some([1, 3])]),
    );
    assert_eq!(
        find_connection(&map, &[1, 3], &[1, 0]),
        Some([Some([1, 0]), Some([0, 0]), Some([0, 3]), Some([1, 3])]),
    );
    assert_eq!(
        find_connection(&map, &[1, 0], &[2, 2]),
        Some([Some([1, 0]), Some([3, 0]), Some([3, 2]), Some([2, 2])]),
    );
    assert_eq!(
        find_connection(&map, &[2, 2], &[1, 0]),
        Some([Some([1, 0]), Some([3, 0]), Some([3, 2]), Some([2, 2])]),
    );
    assert_eq!(
        find_connection(&map, &[0, 1], &[3, 2]),
        Some([Some([0, 1]), Some([0, 0]), Some([3, 0]), Some([3, 2])]),
    );
    assert_eq!(
        find_connection(&map, &[3, 2], &[0, 1]),
        Some([Some([0, 1]), Some([0, 0]), Some([3, 0]), Some([3, 2])]),
    );
    assert_eq!(
        find_connection(&map, &[0, 1], &[2, 2]),
        Some([Some([0, 1]), Some([0, 3]), Some([2, 3]), Some([2, 2])]),
    );
    assert_eq!(
        find_connection(&map, &[2, 2], &[0, 1]),
        Some([Some([0, 1]), Some([0, 3]), Some([2, 3]), Some([2, 2])]),
    );
    assert_eq!(
        find_connection(&map, &[1, 3], &[3, 2]),
        Some([Some([3, 2]), Some([2, 2]), Some([2, 3]), Some([1, 3])]),
    );
    assert_eq!(
        find_connection(&map, &[3, 2], &[1, 3]),
        Some([Some([3, 2]), Some([2, 2]), Some([2, 3]), Some([1, 3])]),
    );
}
