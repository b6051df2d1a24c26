use std::collections::HashSet;

use sichuan_solver::components::Coord;
use sichuan_solver::dense::components::TileMap;
use sichuan_solver::dense::matching::{
    collect_completed_connections, count_unique_coords_in_connections, get_completed_connections,
};
use sichuan_solver::dense::solver::ConnectionInfo;

#[test]
fn test_count_unique_coords_in_connections() {
    let build_connections = |pairs: &[[Coord; 2]]| -> Vec<ConnectionInfo> {
        pairs
            .iter()
            .map(|pair| ConnectionInfo {
                tile: 0,
                pair: pair.clone(),
                nodes: [None, None, None, None],
            })
            .collect()
    };

    let coords1 = [[[0, 0], [0, 1]], [[0, 2], [0, 3]]];
    let coords2 = [[[0, 0], [0, 1]], [[0, 0], [0, 2]]];
    let coords3 = [
        [[0, 0], [0, 1]],
        [[0, 1], [0, 2]],
        [[0, 2], [0, 3]],
        [[0, 1], [0, 3]],
    ];

    assert_eq!(
        count_unique_coords_in_connections(&build_connections(&coords1)),
        4
    );
    assert_eq!(
        count_unique_coords_in_connections(&build_connections(&coords2)),
        3
    );
    assert_eq!(
        count_unique_coords_in_connections(&build_connections(&coords3)),
        4
    );
}

#[test]
fn test_get_completed_connections() {
    let build_connections = |pairs: &[[Coord; 2]]| -> Vec<ConnectionInfo> {
        pairs
            .iter()
            .map(|pair| ConnectionInfo {
                tile: 0,
                pair: pair.clone(),
                nodes: [None, None, None, None],
            })
            .collect()
    };

    let conn1 = build_connections(&[[[0, 0], [0, 1]], [[0, 2], [0, 3]]]);
    assert_eq!(get_completed_connections(&conn1, 4), Some(conn1.clone()));
    assert_eq!(get_completed_connections(&conn1, 6), None);

    let conn2 = build_connections(&[[[0, 0], [0, 1]], [[0, 0], [0, 2]], [[0, 0], [0, 3]]]);
    assert_eq!(get_completed_connections(&conn2, 4), None);

    let conn3 = build_connections(&[[[0, 0], [0, 1]], [[0, 0], [0, 2]], [[0, 1], [0, 3]]]);
    let expected3 = build_connections(&[[[0, 0], [0, 2]], [[0, 1], [0, 3]]]);
    assert_eq!(get_completed_connections(&conn3, 4), Some(expected3));
}

#[test]
fn test_collect_completed_connections() {
    let map: TileMap = TileMap::from_rows(&vec![
        vec![Some(0), Some(0), Some(0), Some(0)],
        vec![Some(1), Some(1), Some(2), Some(3)],
        vec![Some(2), Some(1), Some(1), Some(4)],
        vec![Some(4), Some(3), Some(4), Some(4)],
    ]);
    /*
     * 0 0 0 0
     * 1 1 2 3
     * 2 1 1 4
     * 4 3 4 4
     */

    let expected: HashSet<&ConnectionInfo> = [
        ConnectionInfo {
            pair: [[0, 0], [0, 1]],
            tile: 0,
            nodes: [Some([0, 0]), Some([0, 1]), None, None],
        },
        ConnectionInfo {
            pair: [[0, 2], [0, 3]],
            tile: 0,
            nodes: [Some([0, 2]), Some([0, 3]), None, None],
        },
        ConnectionInfo {
            pair: [[1, 0], [1, 1]],
            tile: 1,
            nodes: [Some([1, 0]), Some([1, 1]), None, None],
        },
        ConnectionInfo {
            pair: [[2, 1], [2, 2]],
            tile: 1,
            nodes: [Some([2, 1]), Some([2, 2]), None, None],
        },
    ]
    .iter()
    .collect();
    let result = collect_completed_connections(&map);
    let actual: HashSet<&ConnectionInfo> = result.iter().collect();
    assert_eq!(actual, expected);
}


#[test]
fn a_pairing_that_cannot_be_completed_is_given_up() {
    let info = |pair: [Coord; 2]| ConnectionInfo { tile: 0, pair, nodes: [None, None, None, None] };
    assert_eq!(get_completed_connections(&vec![], 0), None);
    assert_eq!(get_completed_connections(&vec![], 2), None);
    let chain = vec![info([[0, 0], [0, 1]]), info([[0, 1], [0, 2]]), info([[0, 2], [0, 3]])];
    assert_eq!(
        get_completed_connections(&chain, 4),
        Some(vec![info([[0, 0], [0, 1]]), info([[0, 2], [0, 3]])])
    );
    assert_eq!(get_completed_connections(&chain, 3), None);
    assert_eq!(count_unique_coords_in_connections(&vec![]), 0);
}
