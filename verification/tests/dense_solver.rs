use std::collections::HashSet;

use sichuan_solver::dense::components::TileMap;
use sichuan_solver::dense::solver::{
    collect_connection_single_pair_tiles, collect_connection_single_pair_tiles_loop,
    create_tile_connection_lookup_table, create_tile_lookup_table, get_pair_indices,
    remove_connected_tiles, ConnectionInfo, SichuanSolver, SichuanSolverRollbackReason,
    SichuanSolverStatus,
};

#[test]
fn test_create_tile_lookup_table() {
    let map: TileMap = TileMap::from_rows(&vec![
        vec![Some(0), Some(0), Some(1), Some(2)],
        vec![Some(3), Some(0), Some(0), Some(1)],
        vec![Some(2), Some(1), Some(1), Some(3)],
    ]);

    let lut = create_tile_lookup_table(&map);
    assert_eq!(lut.get(&0), Some(&vec![[0, 0], [0, 1], [1, 1], [1, 2]]));
    assert_eq!(lut.get(&1), Some(&vec![[0, 2], [1, 3], [2, 1], [2, 2]]));
    assert_eq!(lut.get(&2), Some(&vec![[0, 3], [2, 0]]));
    assert_eq!(lut.get(&3), Some(&vec![[1, 0], [2, 3]]));
    assert_eq!(lut.get(&4), None);
    assert_eq!(lut.len(), 4);
}

#[test]
fn test_collect_connection_single_pair_tiles() {
    let map: TileMap = TileMap::from_rows(&vec![
        vec![Some(0), Some(0), Some(1), Some(2)],
        vec![Some(3), Some(1), None, Some(2)],
        vec![None, None, Some(0), Some(4)],
        vec![Some(0), Some(3), None, None],
        vec![Some(4), Some(0), Some(0), None],
    ]);
    /*
     * 0 0 1 2
     * 3 1 - 2
     * - - 0 4
     * 0 3 - -
     * 4 0 0 -
     */
    let mut connections = collect_connection_single_pair_tiles(&map);
    connections.sort_by(|a, b| a.tile.cmp(&b.tile));
    assert_eq!(
        connections[0],
        ConnectionInfo {
            tile: 1,
            pair: [[0, 2], [1, 1]],
            nodes: [Some([0, 2]), Some([1, 2]), Some([1, 1]), None],
        }
    );
    assert_eq!(
        connections[1],
        ConnectionInfo {
            tile: 2,
            pair: [[0, 3], [1, 3]],
            nodes: [Some([0, 3]), Some([1, 3]), None, None],
        }
    );
    assert_eq!(
        connections[2],
        ConnectionInfo {
            tile: 3,
            pair: [[1, 0], [3, 1]],
            nodes: [Some([1, 0]), Some([2, 0]), Some([2, 1]), Some([3, 1])],
        }
    );
    assert_eq!(connections.len(), 3);
}

#[test]
fn test_remove_connected_tiles() {
    let map: TileMap = TileMap::from_rows(&vec![
        vec![Some(0), Some(0), Some(1), Some(2)],
        vec![Some(3), Some(1), Some(4), Some(2)],
        vec![Some(4), Some(5), Some(5), Some(0)],
        vec![Some(0), Some(3), Some(0), Some(0)],
    ]);
    /*
     * 0 0 1 2
     * 3 1 4 2
     * 4 5 5 0
     * 0 3 0 0
     */
    let map2: TileMap = TileMap::from_rows(&vec![
        vec![Some(0), Some(0), Some(1), None],
        vec![Some(3), Some(1), Some(4), None],
        vec![Some(4), None, None, Some(0)],
        vec![Some(0), Some(3), Some(0), Some(0)],
    ]);
    /*
     * 0 0 1 -
     * 3 1 4 -
     * 4 - - 0
     * 0 3 0 0
     */
    let connections = collect_connection_single_pair_tiles(&map);
    assert_eq!(remove_connected_tiles(&map, &connections), map2);
}

#[test]
fn test_collect_connection_single_pair_tiles_loop() {
    let map: TileMap = TileMap::from_rows(&vec![
        vec![Some(0), Some(0), Some(1), Some(2)],
        vec![Some(3), Some(1), Some(4), Some(2)],
        vec![Some(4), Some(5), Some(5), Some(0)],
        vec![Some(0), Some(3), Some(0), Some(0)],
    ]);
    /*
     * 0 0 1 2
     * 3 1 4 2
     * 4 5 5 0
     * 0 3 0 0
     */
    let mut connections = collect_connection_single_pair_tiles_loop(&map);
    connections.sort_by(|a, b| a.tile.cmp(&b.tile));
    assert_eq!(connections.len(), 5);
    assert_eq!(
        connections[0],
        ConnectionInfo {
            tile: 1,
            pair: [[0, 2], [1, 1]],
            nodes: [Some([0, 2]), Some([1, 2]), Some([1, 1]), None],
        }
    );
    assert_eq!(
        connections[1],
        ConnectionInfo {
            tile: 2,
            pair: [[0, 3], [1, 3]],
            nodes: [Some([0, 3]), Some([1, 3]), None, None],
        }
    );
    assert_eq!(
        connections[2],
        ConnectionInfo {
            tile: 3,
            pair: [[1, 0], [3, 1]],
            nodes: [Some([1, 0]), Some([2, 0]), Some([2, 1]), Some([3, 1])],
        }
    );
    assert_eq!(
        connections[3],
        ConnectionInfo {
            tile: 4,
            pair: [[1, 2], [2, 0]],
            nodes: [Some([1, 2]), Some([2, 2]), Some([2, 0]), None],
        }
    );
    assert_eq!(
        connections[4],
        ConnectionInfo {
            tile: 5,
            pair: [[2, 1], [2, 2]],
            nodes: [Some([2, 1]), Some([2, 2]), None, None],
        }
    );
}

#[test]
fn test_get_pair_indices() {
    assert_eq!(get_pair_indices(2), [[0, 1]]);
    assert_eq!(
        get_pair_indices(4),
        [[0, 1], [0, 2], [0, 3], [1, 2], [1, 3], [2, 3]]
    );
    assert_eq!(
        get_pair_indices(6),
        [
            [0, 1],
            [0, 2],
            [0, 3],
            [0, 4],
            [0, 5],
            [1, 2],
            [1, 3],
            [1, 4],
            [1, 5],
            [2, 3],
            [2, 4],
            [2, 5],
            [3, 4],
            [3, 5],
            [4, 5]
        ]
    );
}

#[test]
fn test_create_tile_connection_lookup_table() {
    let map: TileMap = TileMap::from_rows(&vec![
        vec![Some(0), Some(0), Some(1), Some(2)],
        vec![Some(3), Some(1), Some(4), Some(2)],
        vec![Some(4), Some(5), Some(5), Some(0)],
        vec![Some(0), Some(3), Some(0), Some(0)],
    ]);
    /*
     * 0 0 1 2
     * 3 1 4 2
     * 4 5 5 0
     * 0 3 0 0
     */
    let maplut = create_tile_lookup_table(&map);
    let lut = create_tile_connection_lookup_table(&map, &maplut);
    assert_eq!(lut.len(), 6);
    assert_eq!(
        lut.get(&0),
        Some(&vec![
            ConnectionInfo {
                tile: 0,
                pair: [[0, 0], [0, 1]],
                nodes: [Some([0, 0]), Some([0, 1]), None, None],
            },
            ConnectionInfo {
                tile: 0,
                pair: [[2, 3], [3, 3]],
                nodes: [Some([2, 3]), Some([3, 3]), None, None],
            },
            ConnectionInfo {
                tile: 0,
                pair: [[3, 2], [3, 3]],
                nodes: [Some([3, 2]), Some([3, 3]), None, None],
            },
        ])
    );
    assert_eq!(lut.get(&1), Some(&vec![]));
    assert_eq!(
        lut.get(&2),
        Some(&vec![ConnectionInfo {
            tile: 2,
            pair: [[0, 3], [1, 3]],
            nodes: [Some([0, 3]), Some([1, 3]), None, None],
        }])
    );
    assert_eq!(lut.get(&3), Some(&vec![]));
    assert_eq!(lut.get(&4), Some(&vec![]));
    assert_eq!(
        lut.get(&5),
        Some(&vec![ConnectionInfo {
            tile: 5,
            pair: [[2, 1], [2, 2]],
            nodes: [Some([2, 1]), Some([2, 2]), None, None],
        }])
    );
}






#[test]
fn test_sichuan_solver_set_available_connections() {
    let map: TileMap = TileMap::from_rows(&vec![
        vec![Some(0), Some(0), Some(1), Some(0)],
        vec![Some(0), Some(1), Some(1), Some(2)],
        vec![Some(1), Some(2), Some(2), Some(3)],
        vec![Some(3), Some(2), Some(3), Some(3)],
    ]);
    /*
     * 0 0 1 0
     * 0 1 1 2
     * 1 2 2 3
     * 3 2 3 3
     */
    let mut solver = SichuanSolver::new(&map);
    solver.logically_interpolate_connection();
    solver.set_available_connections();

    let expected: HashSet<&ConnectionInfo> = [
        ConnectionInfo {
            pair: [[0, 0], [0, 1]],
            tile: 0,
            nodes: [Some([0, 0]), Some([0, 1]), None, None],
        },
        ConnectionInfo {
            pair: [[0, 0], [1, 0]],
            tile: 0,
            nodes: [Some([0, 0]), Some([1, 0]), None, None],
        },
        ConnectionInfo {
            pair: [[0, 2], [1, 2]],
            tile: 1,
            nodes: [Some([0, 2]), Some([1, 2]), None, None],
        },
        ConnectionInfo {
            pair: [[1, 1], [1, 2]],
            tile: 1,
            nodes: [Some([1, 1]), Some([1, 2]), None, None],
        },
        ConnectionInfo {
            pair: [[2, 1], [2, 2]],
            tile: 2,
            nodes: [Some([2, 1]), Some([2, 2]), None, None],
        },
        ConnectionInfo {
            pair: [[2, 1], [3, 1]],
            tile: 2,
            nodes: [Some([2, 1]), Some([3, 1]), None, None],
        },
        ConnectionInfo {
            pair: [[2, 3], [3, 3]],
            tile: 3,
            nodes: [Some([2, 3]), Some([3, 3]), None, None],
        },
        ConnectionInfo {
            pair: [[3, 2], [3, 3]],
            tile: 3,
            nodes: [Some([3, 2]), Some([3, 3]), None, None],
        },
    ]
    .iter()
    .collect();

    let connections = solver.available_connections().last().cloned().unwrap();
    let actual: HashSet<&ConnectionInfo> = connections.iter().collect();
    assert_eq!(actual, expected);

    assert_eq!(solver.current(), map);
    assert_eq!(solver.map_log().len(), 1);
    assert_eq!(solver.confirmed_connections(), vec![vec![]]);
    assert_eq!(solver.assumed_connections(), vec![]);
    assert_eq!(solver.index_log(), vec![]);
}


#[test]
fn test_sichuan_solver_validate_current_map() {
    let map: TileMap = TileMap::from_rows(&vec![
        vec![Some(0), Some(0), Some(1), Some(0)],
        vec![Some(0), Some(1), Some(1), Some(2)],
        vec![Some(3), Some(2), Some(2), Some(3)],
        vec![Some(3), Some(2), Some(3), Some(1)],
    ]);
    /*
     * 0 0 1 0
     * 0 1 1 2
     * 3 2 2 3
     * 3 2 3 1
     */
    let mut solver = SichuanSolver::new(&map);
    solver.logically_interpolate_connection();
    solver.set_available_connections();
    solver.assume_connection();
    solver.logically_interpolate_connection();
    solver.set_available_connections();
    assert_eq!(solver.is_completed(), false);
    assert_eq!(solver.validate_current_map(), None);

    let map2: TileMap = TileMap::from_rows(&vec![
        vec![None, None, None, None],
        vec![Some(0), Some(0), Some(0), Some(1)],
        vec![None, None, Some(1), Some(0)],
    ]);
    /*
     * x x x x
     * 0 0 0 1
     * x x 1 0
     */
    let mut solver2 = SichuanSolver::new(&map2);
    solver2.logically_interpolate_connection();
    solver2.set_available_connections();
    solver2.assume_connection();
    solver2.logically_interpolate_connection();
    solver2.set_available_connections();
    assert_eq!(solver2.is_completed(), false);
    assert_eq!(
        solver2.validate_current_map(),
        Some(SichuanSolverRollbackReason::ValidationFailed)
    );
}



#[test]
fn test_sichuan_solver_solve() {
    let map: TileMap = TileMap::from_rows(&vec![
        vec![Some(0), Some(1), None, Some(0)],
        vec![Some(1), Some(1), Some(2), Some(4)],
        vec![Some(2), Some(3), Some(0), Some(3)],
        vec![None, Some(0), Some(1), Some(4)],
    ]);
    /*
     * 0 1 x 0
     * 1 1 2 4
     * 2 3 0 3
     * x 0 1 4
     */

    let mut solver = SichuanSolver::new(&map);
    let result = solver.solve();
    assert_eq!(result.unwrap().len(), 7);
    assert_eq!(solver.current(), TileMap::empty(4, 4));
}
