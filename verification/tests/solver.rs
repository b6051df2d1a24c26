use std::collections::HashSet;

use sichuan_solver::components::{Coord, Nodes, TileMap};
use sichuan_solver::solver::lut::tile_map_to_coord_collection;
use sichuan_solver::solver::solver::{
    get_ordered_available_connections, get_single_pair_tiles, get_trivial_connections, remove_tiles,
    SichuanSolver, SichuanSolverSnapshot,
};

#[test]
fn test_remove_tiles() {
    let map: TileMap = TileMap::from_entries(vec![
        ([0, 0], 0),
        ([0, 1], 1),
        ([1, 1], 0),
        ([1, 2], 2),
        ([2, 1], 1),
        ([2, 2], 2),
    ]);

    let expected1: TileMap = TileMap::from_entries(vec![([0, 1], 1), ([1, 2], 2), ([2, 1], 1), ([2, 2], 2)]);
    assert_eq!(
        remove_tiles(&map, &vec![vec![[0, 0], [0, 1], [1, 1]]]),
        expected1
    );

    let expected2: TileMap = TileMap::from_entries(vec![([0, 0], 0), ([1, 1], 0), ([1, 2], 2), ([2, 2], 2)]);
    assert_eq!(remove_tiles(&map, &vec![vec![[0, 1], [2, 1]]]), expected2);

    let expected3: TileMap = TileMap::from_entries(vec![([0, 0], 0), ([0, 1], 1), ([1, 1], 0), ([2, 1], 1)]);
    assert_eq!(remove_tiles(&map, &vec![vec![[1, 2], [2, 2]]]), expected3);
}

#[test]
fn test_get_single_pair_tiles() {
    let map: TileMap = TileMap::from_entries(vec![
        ([0, 0], 0),
        ([0, 1], 1),
        ([1, 1], 0),
        ([1, 2], 0),
        ([2, 1], 1),
        ([2, 2], 0),
    ]);
    let lut = tile_map_to_coord_collection(&map);
    let coords: Vec<HashSet<Coord>> = get_single_pair_tiles(&lut)
        .iter()
        .map(|pair| HashSet::from(pair.clone()))
        .collect();
    let expected = vec![HashSet::from([[0, 1], [2, 1]])];

    assert_eq!(coords, expected);
}

#[test]
fn test_get_trivial_connections() {
    let reverse = |nodes: &Nodes| {
        let mut reversed = nodes.clone();
        reversed.reverse();
        reversed
    };

    /*
     * 0 x 0 1
     * 1 2 x 1
     * 2 x 3 2
     * 3 x 2 1
     *
     */
    let map: TileMap = TileMap::from_entries(vec![
        ([0, 0], 0),
        ([0, 2], 0),
        ([0, 3], 1),
        ([1, 0], 1),
        ([1, 1], 2),
        ([1, 3], 1),
        ([2, 0], 2),
        ([2, 2], 3),
        ([2, 3], 2),
        ([3, 0], 3),
        ([3, 2], 2),
        ([3, 3], 1),
    ]);
    let map_size = [4, 4];
    let conns = get_trivial_connections(&map, &map_size);
    let expected0: Nodes = vec![[0, 0], [0, 2]];
    let expected3: Nodes = vec![[2, 2], [2, 1], [3, 1], [3, 0]];

    assert_eq!(conns.len(), 2);

    for conn in conns {
        match conn.first().unwrap() {
            &actual if actual == expected0[0] => assert_eq!(conn, expected0),
            &actual if actual == expected0[1] => assert_eq!(conn, reverse(&expected0)),
            &actual if actual == expected3[0] => assert_eq!(conn, expected3),
            &actual if actual == expected3[3] => assert_eq!(conn, reverse(&expected3)),
            _ => panic!(),
        }
    }
}

#[test]
fn test_get_ordered_available_connections() {
    /*
     * 0 x 0 1
     * 1 2 2 x
     * 0 2 2 3
     * 0 x x 3
     *
     * 0: 4 tiles, 2 connections
     * 1: 2 tiles, 0 connections
     * 2: 4 tiles, 4 connections
     * 3: 2 tiles, 1 connections
     *
     * The connections of all labels follow each other by the cells that they join.
     */
    let map: TileMap = TileMap::from_entries(vec![
        ([0, 0], 0),
        ([0, 2], 0),
        ([0, 3], 1),
        ([1, 0], 1),
        ([1, 1], 2),
        ([1, 2], 2),
        ([2, 0], 0),
        ([2, 1], 2),
        ([2, 2], 2),
        ([2, 3], 3),
        ([3, 0], 0),
        ([3, 3], 3),
    ]);
    let map_size = [4, 4];

    let actual = get_ordered_available_connections(&map, &map_size);
    let expected = vec![
        [[0, 0], [0, 2]],
        [[1, 1], [1, 2]],
        [[1, 1], [2, 1]],
        [[1, 2], [2, 2]],
        [[2, 0], [3, 0]],
        [[2, 1], [2, 2]],
        [[2, 3], [3, 3]],
    ];
    assert_eq!(actual, expected);
}

#[test]
fn test_snapshot() {
    /*
     * 0 x 0 1
     * 1 2 2 x
     * 0 2 2 3
     * 0 x x 3
     *
     * 0: 4 tiles, 2 connections
     * 1: 2 tiles, 0 connections
     * 2: 4 tiles, 4 connections
     * 3: 2 tiles, 1 connections
     *
     * The connections of all labels follow each other by the cells that they join.
     */
    let map: TileMap = TileMap::from_entries(vec![
        ([0, 0], 0),
        ([0, 2], 0),
        ([0, 3], 1),
        ([1, 0], 1),
        ([1, 1], 2),
        ([1, 2], 2),
        ([2, 0], 0),
        ([2, 1], 2),
        ([2, 2], 2),
        ([2, 3], 3),
        ([3, 0], 0),
        ([3, 3], 3),
    ]);
    let map_size = [4, 4];

    let map = remove_tiles(&map, &get_trivial_connections(&map, &map_size));
    let mut snapshot = SichuanSolverSnapshot::try_new(&map, &map_size).unwrap();
    assert_eq!(
        snapshot.connections(),
        vec![
            [[0, 0], [0, 2]],
            [[1, 1], [1, 2]],
            [[1, 1], [2, 1]],
            [[1, 2], [2, 2]],
            [[2, 0], [3, 0]],
            [[2, 1], [2, 2]],
        ]
    );
    snapshot.resolve();

    assert_eq!(
        snapshot.nodes(),
        vec![
            vec![[0, 0], [0, 2]],
            vec![[0, 3], [0, 0], [1, 0]],
            vec![[2, 0], [3, 0]],
        ]
    );

    assert_eq!(snapshot.next(), Ok(()));
    snapshot.resolve();
    assert_eq!(
        snapshot.nodes(),
        vec![
            vec![[1, 1], [1, 2]],
            vec![[0, 3], [1, 3], [1, 0]],
            vec![[2, 1], [2, 2]],
        ]
    );

    assert_eq!(snapshot.next(), Ok(()));
    snapshot.resolve();
    assert_eq!(
        snapshot.nodes(),
        vec![
            vec![[1, 1], [2, 1]],
            vec![[1, 2], [2, 2]],
            vec![[0, 3], [1, 3], [1, 0]],
        ]
    );

    assert_eq!(snapshot.next(), Ok(()));
    snapshot.resolve();
    assert_eq!(
        snapshot.nodes(),
        vec![
            vec![[1, 2], [2, 2]],
            vec![[1, 1], [2, 1]],
            vec![[0, 3], [1, 3], [1, 0]],
        ]
    );

    assert_eq!(snapshot.next(), Ok(()));
    snapshot.resolve();
    assert_eq!(
        snapshot.nodes(),
        vec![
            vec![[2, 0], [3, 0]],
            vec![[0, 0], [0, 2]],
            vec![[0, 3], [3, 3], [3, 0], [1, 0]],
        ]
    );

    assert_eq!(snapshot.next(), Ok(()));
    snapshot.resolve();
    assert_eq!(
        snapshot.nodes(),
        vec![
            vec![[2, 1], [2, 2]],
            vec![[1, 1], [1, 2]],
            vec![[0, 3], [1, 3], [1, 0]],
        ]
    );

    assert_eq!(snapshot.next(), Err(()));
}

#[test]
fn test_sichuan_solver() {
    /*
     * 0 x 0 1
     * 1 2 2 x
     * 0 2 2 3
     * 0 x x 3
     */
    let map: TileMap = TileMap::from_entries(vec![
        ([0, 0], 0),
        ([0, 2], 0),
        ([0, 3], 1),
        ([1, 0], 1),
        ([1, 1], 2),
        ([1, 2], 2),
        ([2, 0], 0),
        ([2, 1], 2),
        ([2, 2], 2),
        ([2, 3], 3),
        ([3, 0], 0),
        ([3, 3], 3),
    ]);
    let mut solver = SichuanSolver::new(&map);

    assert_eq!(solver.solve(), Ok(()));

    assert_eq!(
        solver.result(),
        vec![
            vec![[3, 4], [4, 4]],
            vec![[1, 1], [1, 3]],
            vec![[1, 4], [1, 1], [2, 1]],
            vec![[3, 1], [4, 1]],
            vec![[2, 2], [2, 3]],
            vec![[3, 2], [3, 3]],
        ]
    );
}
