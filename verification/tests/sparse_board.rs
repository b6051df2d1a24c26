use sichuan_solver::components::{Coord, Nodes, TileMap};
use sichuan_solver::order::{key_less, sorted_order};
use sichuan_solver::solver::connect::{
    can_horizontal_connect, can_vertical_connect, get_grid_pair, try_get_node_connection,
};
use sichuan_solver::solver::direction::{DOWN, LEFT, RIGHT, UP};
use sichuan_solver::solver::lut::create_coord_pair;
use sichuan_solver::solver::solver::{
    connect_label, connect_pairs, coord_less, copy_nodes, copy_paths, forced_by,
    get_ordered_available_connections, get_trivial_connections, propagate, remove_tiles, sort_pairs,
    sort_paths, SichuanSolver, SichuanSolverSnapshot,
};
use sichuan_solver::solver::utils::{get_node_edges, get_size_from_map, pad_tilemap};

fn board(rows: &[&[Option<u8>]]) -> TileMap {
    let mut map = TileMap::new();
    for (r, row) in rows.iter().enumerate() {
        for (c, cell) in row.iter().enumerate() {
            if let Some(tile) = cell {
                map.insert([r, c], *tile);
            }
        }
    }
    map
}

/// Makes the connections one after the other and checks each against the board as it stands.
fn replay(map: &TileMap, map_size: &[usize; 2], solution: &Vec<Nodes>) -> TileMap {
    let mut current = map.clone();
    for path in solution {
        let [a, b] = get_node_edges(path);
        assert_ne!(a, b);
        assert!(current.get(&a).is_some());
        assert_eq!(current.get(&a), current.get(&b));
        assert!(try_get_node_connection(&a, &b, &current, map_size).is_some());
        assert!(path.len() >= 2 && path.len() <= 4);
        for pair in path.windows(2) {
            assert!(pair[0][0] == pair[1][0] || pair[0][1] == pair[1][1]);
            assert_ne!(pair[0], pair[1]);
        }
        for bend in &path[1..path.len() - 1] {
            assert!(current.get(bend).is_none());
        }
        current = remove_tiles(&current, &vec![path.clone()]);
    }
    current
}

#[test]
fn tile_map_keeps_one_tile_per_cell() {
    let mut map = TileMap::new();
    assert!(map.is_empty());
    assert_eq!(map.insert([1, 2], 7), None);
    assert_eq!(map.insert([0, 0], 3), None);
    assert_eq!(map.insert([1, 2], 9), Some(7));
    assert_eq!(map.len(), 2);
    assert_eq!(map.get(&[1, 2]), Some(9));
    assert_eq!(map.get(&[2, 1]), None);
    assert!(map.contains_key(&[0, 0]));
    assert!(!map.contains_key(&[0, 1]));
    assert_eq!(map.to_vec(), vec![([1, 2], 9), ([0, 0], 3)]);
    assert_eq!(map.entry(1), ([0, 0], 3));
    assert_eq!(map.remove(&[1, 2]), Some(9));
    assert_eq!(map.remove(&[1, 2]), None);
    assert_eq!(map.len(), 1);
    assert!(!map.is_empty());
}

#[test]
fn tile_map_from_entries_lets_the_later_tile_win() {
    let map = TileMap::from_entries(vec![([0, 0], 1), ([0, 1], 2), ([0, 0], 5)]);
    assert_eq!(map.to_vec(), vec![([0, 0], 5), ([0, 1], 2)]);
    let copy = map.clone();
    assert_eq!(copy, map);
}

#[test]
fn boards_are_compared_in_order_or_cell_by_cell() {
    let one = TileMap::from_entries(vec![([0, 0], 1), ([0, 1], 2)]);
    let other = TileMap::from_entries(vec![([0, 1], 2), ([0, 0], 1)]);
    assert_ne!(one, other);
    assert!(one.same_tiles(&other));
    assert!(other.same_tiles(&one));
    assert!(!one.same_tiles(&TileMap::from_entries(vec![([0, 0], 1)])));
    assert!(!TileMap::new().same_tiles(&one));
    assert!(!one.same_tiles(&TileMap::from_entries(vec![([0, 0], 1), ([0, 1], 3)])));
    assert!(TileMap::new().same_tiles(&TileMap::new()));
}

#[test]
fn node_edges_are_the_first_and_the_last_point() {
    assert_eq!(get_node_edges(&vec![[1, 1], [1, 3]]), [[1, 1], [1, 3]]);
    assert_eq!(get_node_edges(&vec![[4, 0], [0, 0], [0, 2], [2, 2]]), [[4, 0], [2, 2]]);
    assert_eq!(get_node_edges(&vec![[3, 3]]), [[3, 3], [3, 3]]);
}

#[test]
fn size_of_an_empty_board_is_one_by_one() {
    assert_eq!(get_size_from_map(&TileMap::new()), [1, 1]);
    assert_eq!(get_size_from_map(&TileMap::from_entries(vec![([4, 0], 1)])), [5, 1]);
    assert_eq!(pad_tilemap(&TileMap::new()), TileMap::new());
}

#[test]
fn keys_are_ordered_number_by_number() {
    assert!(key_less(&vec![1, 2], &vec![1, 3]));
    assert!(!key_less(&vec![1, 3], &vec![1, 2]));
    assert!(key_less(&vec![1], &vec![1, 0]));
    assert!(!key_less(&vec![1, 0], &vec![1]));
    assert!(!key_less(&vec![2, 2], &vec![2, 2]));
    assert!(key_less(&vec![], &vec![0]));
    assert_eq!(sorted_order(&vec![vec![3], vec![1], vec![2], vec![1]]), vec![1, 3, 2, 0]);
    assert_eq!(sorted_order(&vec![]), Vec::<usize>::new());
}

#[test]
fn cells_are_read_row_by_row() {
    assert!(coord_less(&[0, 5], &[1, 0]));
    assert!(coord_less(&[1, 0], &[1, 1]));
    assert!(!coord_less(&[1, 1], &[1, 1]));
    assert!(!coord_less(&[2, 0], &[1, 9]));
    assert_eq!(
        sort_pairs(&vec![[[1, 0], [1, 1]], [[0, 0], [2, 2]], [[0, 0], [0, 1]]]),
        vec![[[0, 0], [0, 1]], [[0, 0], [2, 2]], [[1, 0], [1, 1]]]
    );
    assert_eq!(
        sort_paths(&vec![vec![[1, 0], [1, 1]], vec![[0, 0], [0, 2], [1, 2]], vec![[0, 0], [0, 2]]]),
        vec![vec![[0, 0], [0, 2]], vec![[0, 0], [0, 2], [1, 2]], vec![[1, 0], [1, 1]]]
    );
    let path: Nodes = vec![[0, 0], [0, 2]];
    assert_eq!(copy_nodes(&path), path);
    assert_eq!(copy_paths(&vec![path.clone(), vec![[1, 1]]]), vec![path, vec![[1, 1]]]);
}

#[test]
fn bars_count_their_ends_or_not() {
    let map = board(&[&[Some(0), None, Some(0)]]);
    assert!(can_horizontal_connect(0, 2, 0, true, &map));
    assert!(can_horizontal_connect(2, 0, 0, true, &map));
    assert!(!can_horizontal_connect(0, 2, 0, false, &map));
    assert!(can_horizontal_connect(1, 1, 0, false, &map));
    assert!(can_horizontal_connect(0, 1, 0, true, &map));
    let upright = board(&[&[Some(0)], &[None], &[Some(0)]]);
    assert!(can_vertical_connect(0, 2, 0, true, &upright));
    assert!(!can_vertical_connect(0, 2, 0, false, &upright));
    assert!(can_vertical_connect(1, 1, 0, false, &upright));
}

#[test]
fn rays_stop_before_tiles_and_edges() {
    let map = board(&[&[None, None, None], &[Some(0), None, Some(1)], &[None, None, None]]);
    let size = [3, 3];
    assert_eq!(
        get_grid_pair(&[1, 0], &[1, 2], &UP, &DOWN, &map, &size),
        Some([[[1, 0], [0, 0]], [[1, 2], [2, 2]]])
    );
    assert_eq!(
        get_grid_pair(&[1, 0], &[1, 2], &RIGHT, &LEFT, &map, &size),
        Some([[[1, 0], [1, 1]], [[1, 2], [1, 1]]])
    );
    assert_eq!(
        get_grid_pair(&[1, 0], &[1, 2], &LEFT, &LEFT, &map, &size),
        Some([[[1, 0], [1, 0]], [[1, 2], [1, 1]]])
    );
}

#[test]
fn a_blocked_pair_without_room_has_no_path() {
    let map = board(&[&[Some(0), Some(1), Some(0)]]);
    assert_eq!(try_get_node_connection(&[0, 0], &[0, 2], &map, &[1, 3]), None);
    let mut solver = SichuanSolver::new(&map);
    assert_eq!(solver.solve(), Err(()));
    assert!(!solver.is_completed());
}

#[test]
fn four_equal_tiles_are_cleared_in_two_connections() {
    let map = board(&[&[Some(0), Some(0)], &[Some(0), Some(0)]]);
    let mut solver = SichuanSolver::new(&map);
    assert_eq!(solver.solve(), Ok(()));
    assert!(solver.is_completed());
    let solution = solver.result();
    assert_eq!(solution, vec![vec![[1, 1], [1, 2]], vec![[2, 1], [2, 2]]]);
    let padded = pad_tilemap(&map);
    assert!(replay(&padded, &[4, 4], &solution).is_empty());
}

#[test]
fn four_equal_tiles_force_nothing_but_offer_every_neighbour_pair() {
    let map = pad_tilemap(&board(&[&[Some(0), Some(0)], &[Some(0), Some(0)]]));
    let size = [4, 4];
    let (left, forced) = propagate(&map, &size);
    assert_eq!(forced, Vec::<Nodes>::new());
    assert_eq!(left, map);
    assert_eq!(get_trivial_connections(&map, &size), Vec::<Nodes>::new());
    let coords: Vec<Coord> = vec![[1, 1], [1, 2], [2, 1], [2, 2]];
    assert_eq!(create_coord_pair(&coords).len(), 6);
    assert_eq!(
        connect_label(&coords, &map, &size),
        vec![vec![[1, 1], [1, 2]], vec![[1, 1], [2, 1]], vec![[1, 2], [2, 2]], vec![[2, 1], [2, 2]]]
    );
    assert_eq!(get_ordered_available_connections(&map, &size).len(), 4);
}

#[test]
fn a_path_around_an_obstruction_has_two_bends() {
    let map = board(&[
        &[None, None, None],
        &[Some(0), Some(1), Some(0)],
        &[Some(2), Some(1), Some(2)],
    ]);
    let size = [3, 3];
    assert_eq!(
        try_get_node_connection(&[1, 0], &[1, 2], &map, &size),
        Some(vec![[1, 0], [0, 0], [0, 2], [1, 2]])
    );
    assert_eq!(try_get_node_connection(&[2, 0], &[2, 2], &map, &size), None);
}

#[test]
fn propagation_runs_to_its_end() {
    let map = board(&[
        &[Some(0), Some(1), None, Some(0)],
        &[Some(1), Some(1), Some(2), Some(4)],
        &[Some(2), Some(3), Some(0), Some(3)],
        &[None, Some(0), Some(1), Some(4)],
    ]);
    let size = [4, 4];
    let (left, forced) = propagate(&map, &size);
    assert_eq!(remove_tiles(&map, &forced), left);
    let (again, nothing) = propagate(&left, &size);
    assert_eq!(nothing, Vec::<Nodes>::new());
    assert_eq!(again, left);
    assert_eq!(get_trivial_connections(&left, &size), Vec::<Nodes>::new());
}

#[test]
fn forced_connections_follow_an_assumption() {
    let map = board(&[&[Some(0), Some(0)], &[Some(0), Some(0)]]);
    let size = [2, 2];
    let forced = forced_by(&map, &size, &vec![[0, 0], [0, 1]]);
    assert_eq!(forced, vec![vec![[1, 0], [1, 1]]]);
    assert_eq!(
        connect_pairs(&vec![[[0, 0], [1, 1]], [[0, 0], [1, 0]]], &map, &size),
        vec![vec![[0, 0], [1, 0]]]
    );
}

#[test]
fn a_level_with_one_candidate_cannot_move_on() {
    let map = board(&[&[Some(0), Some(0)]]);
    let mut snapshot = SichuanSolverSnapshot::try_new(&map, &[1, 2]).unwrap();
    assert_eq!(snapshot.connections(), vec![vec![[0, 0], [0, 1]]]);
    snapshot.resolve();
    assert_eq!(snapshot.nodes(), vec![vec![[0, 0], [0, 1]]]);
    assert_eq!(snapshot.next(), Err(()));
    assert!(SichuanSolverSnapshot::try_new(&TileMap::new(), &[1, 1]).is_none());
}

#[test]
fn a_board_that_propagation_clears_is_solved_without_a_level() {
    let map = board(&[&[Some(5), Some(5)]]);
    let mut solver = SichuanSolver::new(&map);
    assert!(solver.is_completed());
    assert_eq!(solver.solve(), Ok(()));
    assert_eq!(solver.result(), vec![vec![[1, 1], [1, 2]]]);
    let mut empty = SichuanSolver::new(&TileMap::new());
    assert_eq!(empty.solve(), Ok(()));
    assert_eq!(empty.result(), Vec::<Nodes>::new());
}

#[test]
fn a_found_solution_replays_on_the_board() {
    let map = board(&[
        &[Some(0), None, Some(0), Some(1)],
        &[Some(1), Some(2), Some(2), None],
        &[Some(0), Some(2), Some(2), Some(3)],
        &[Some(0), None, None, Some(3)],
    ]);
    let mut solver = SichuanSolver::new(&map);
    assert_eq!(solver.solve(), Ok(()));
    let solution = solver.result();
    assert_eq!(solution.len(), 6);
    assert!(replay(&pad_tilemap(&map), &[6, 6], &solution).is_empty());
}

#[test]
fn paths_may_run_through_the_frame() {
    let map = board(&[
        &[Some(0), Some(1), Some(0)],
        &[Some(0), Some(2), Some(0)],
        &[Some(2), Some(1), None],
    ]);
    let mut solver = SichuanSolver::new(&map);
    assert_eq!(solver.solve(), Ok(()));
    let solution = solver.result();
    assert_eq!(
        solution,
        vec![
            vec![[1, 1], [0, 1], [0, 3], [1, 3]],
            vec![[1, 2], [1, 4], [3, 4], [3, 2]],
            vec![[2, 1], [0, 1], [0, 3], [2, 3]],
            vec![[2, 2], [3, 2], [3, 1]],
        ]
    );
    assert!(replay(&pad_tilemap(&map), &[5, 5], &solution).is_empty());
}

#[test]
fn crossed_pairs_cannot_be_cleared() {
    let map = board(&[&[Some(0), Some(1)], &[Some(1), Some(0)]]);
    let padded = pad_tilemap(&map);
    assert_eq!(try_get_node_connection(&[1, 1], &[2, 2], &padded, &[4, 4]), None);
    assert_eq!(try_get_node_connection(&[1, 2], &[2, 1], &padded, &[4, 4]), None);
    let mut solver = SichuanSolver::new(&map);
    assert_eq!(solver.solve(), Err(()));
    assert_eq!(solver.result(), Vec::<Nodes>::new());
    assert!(!solver.is_completed());
}
