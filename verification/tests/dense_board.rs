use sichuan_solver::dense::components::{Nodes, TileMap};
use sichuan_solver::dense::connect::{find_connection, get_grid_pair, higher, lower};
use sichuan_solver::dense::solver::{
    collect_available_connections, collect_connection_single_pair_tiles_loop, connect_label,
    copy_connections, get_pair_indices, remove_connected_tiles, settle, ConnectionInfo, SichuanSolver,
    SichuanSolverRollbackReason, SichuanSolverStatus,
};
use sichuan_solver::dense::transform::pad_tilemap;

fn board(rows: Vec<Vec<Option<u8>>>) -> TileMap {
    TileMap::from_rows(&rows)
}

fn ends(nodes: &Nodes) -> Vec<[usize; 2]> {
    let points: Vec<[usize; 2]> = nodes.iter().flatten().cloned().collect();
    vec![points[0], points[points.len() - 1]]
}

/// Makes the connections one after the other and checks each against the board as it stands.
fn replay(map: &TileMap, solution: &Vec<ConnectionInfo>) -> TileMap {
    let mut current = map.clone();
    for info in solution {
        let [a, b] = info.pair;
        assert_ne!(a, b);
        assert_eq!(current.get(&a), Some(info.tile));
        assert_eq!(current.get(&b), Some(info.tile));
        assert!(find_connection(&current, &a, &b).is_some());
        let mut path_ends = ends(&info.nodes);
        path_ends.sort();
        let mut pair = vec![a, b];
        pair.sort();
        assert_eq!(path_ends, pair);
        let points: Vec<[usize; 2]> = info.nodes.iter().flatten().cloned().collect();
        for step in points.windows(2) {
            assert!(step[0][0] == step[1][0] || step[0][1] == step[1][1]);
            assert_ne!(step[0], step[1]);
        }
        for bend in &points[1..points.len() - 1] {
            assert_eq!(current.get(bend), None);
        }
        current = remove_connected_tiles(&current, &vec![*info]);
    }
    current
}

#[test]
fn a_dense_board_is_read_and_written_cell_by_cell() {
    let rows = vec![vec![Some(1), None, Some(2)], vec![None, Some(3), None]];
    let map = board(rows.clone());
    assert_eq!(map.shape(), [2, 3]);
    assert_eq!(map.get(&[0, 0]), Some(1));
    assert_eq!(map.get(&[0, 1]), None);
    assert_eq!(map.get(&[1, 1]), Some(3));
    assert_eq!(map.get(&[2, 0]), None);
    assert_eq!(map.get(&[0, 3]), None);
    assert_eq!(map.to_rows(), rows);
    let copy = map.clone();
    assert_eq!(copy, map);
    assert_eq!(copy.to_rows(), rows);
}

#[test]
fn an_empty_dense_board_has_its_shape_and_no_tile() {
    let map = TileMap::empty(2, 3);
    assert_eq!(map.shape(), [2, 3]);
    assert_eq!(map.to_rows(), vec![vec![None, None, None], vec![None, None, None]]);
    assert_eq!(TileMap::empty(0, 0).shape(), [0, 0]);
    assert_eq!(board(vec![]).shape(), [0, 0]);
    assert_ne!(TileMap::empty(2, 3), TileMap::empty(3, 2));
}

#[test]
fn taking_tiles_off_leaves_the_other_cells() {
    let map = board(vec![vec![Some(0), Some(0)], vec![Some(1), Some(1)]]);
    let info = ConnectionInfo { tile: 0, pair: [[0, 0], [0, 1]], nodes: [Some([0, 0]), Some([0, 1]), None, None] };
    let left = remove_connected_tiles(&map, &vec![info]);
    assert_eq!(left.to_rows(), vec![vec![None, None], vec![Some(1), Some(1)]]);
    assert_eq!(map.to_rows(), vec![vec![Some(0), Some(0)], vec![Some(1), Some(1)]]);
    assert_eq!(copy_connections(&vec![info]), vec![info]);
}

#[test]
fn a_frame_adds_a_row_and_a_column_on_every_side() {
    let map = board(vec![vec![Some(7)]]);
    let padded = pad_tilemap(&map);
    assert_eq!(padded.shape(), [3, 3]);
    assert_eq!(
        padded.to_rows(),
        vec![vec![None, None, None], vec![None, Some(7), None], vec![None, None, None]]
    );
    assert_eq!(pad_tilemap(&TileMap::empty(0, 0)).shape(), [2, 2]);
}

#[test]
fn numbers_are_compared() {
    assert_eq!(higher(3, 5), 5);
    assert_eq!(higher(5, 3), 5);
    assert_eq!(lower(3, 5), 3);
    assert_eq!(lower(4, 4), 4);
}

#[test]
fn pairs_of_no_or_one_place_are_none() {
    assert_eq!(get_pair_indices(0), Vec::<[usize; 2]>::new());
    assert_eq!(get_pair_indices(1), Vec::<[usize; 2]>::new());
    assert_eq!(get_pair_indices(3), vec![[0, 1], [0, 2], [1, 2]]);
}

#[test]
fn runs_start_at_their_cell_even_when_blocked() {
    let map = board(vec![vec![Some(0), Some(1), None]]);
    assert_eq!(
        get_grid_pair(&map, &[0, 0], &[0, 1], Some([[0, 1], [0, 1]])),
        Some([[[0, 0], [0, 0]], [[0, 1], [0, 2]]])
    );
    assert_eq!(get_grid_pair(&map, &[0, 0], &[0, 1], None), None);
}

#[test]
fn a_blocked_pair_without_room_has_no_dense_path() {
    let map = board(vec![vec![Some(0), Some(1), Some(0)]]);
    assert_eq!(find_connection(&map, &[0, 0], &[0, 2]), None);
    let mut solver = SichuanSolver::new(&map);
    assert_eq!(solver.solve(), Err(SichuanSolverStatus::NoAnswerFound));
}

#[test]
fn four_equal_dense_tiles_are_cleared_in_two_connections() {
    let map = board(vec![vec![Some(0), Some(0)], vec![Some(0), Some(0)]]);
    let mut solver = SichuanSolver::new(&map);
    let solution = solver.solve().unwrap();
    assert_eq!(
        solution,
        vec![
            ConnectionInfo { tile: 0, pair: [[0, 0], [0, 1]], nodes: [Some([0, 0]), Some([0, 1]), None, None] },
            ConnectionInfo { tile: 0, pair: [[1, 0], [1, 1]], nodes: [Some([1, 0]), Some([1, 1]), None, None] },
        ]
    );
    assert!(solver.is_completed());
    assert_eq!(solver.current(), TileMap::empty(2, 2));
    assert_eq!(replay(&map, &solution), TileMap::empty(2, 2));
}

#[test]
fn four_equal_dense_tiles_force_nothing_but_offer_every_neighbour_pair() {
    let map = board(vec![vec![Some(0), Some(0)], vec![Some(0), Some(0)]]);
    assert_eq!(collect_connection_single_pair_tiles_loop(&map), vec![]);
    let (left, forced) = settle(&map);
    assert_eq!(forced, vec![]);
    assert_eq!(left, map);
    assert_eq!(get_pair_indices(4).len(), 6);
    let pairs: Vec<[[usize; 2]; 2]> = collect_available_connections(&map).iter().map(|info| info.pair).collect();
    assert_eq!(
        pairs,
        vec![[[0, 0], [0, 1]], [[0, 0], [1, 0]], [[0, 1], [1, 1]], [[1, 0], [1, 1]]]
    );
    assert_eq!(connect_label(&map, 0, &vec![[0, 0], [0, 1], [1, 0], [1, 1]]).len(), 4);
}

#[test]
fn a_dense_path_around_an_obstruction_has_two_bends() {
    let map = board(vec![
        vec![None, None, None],
        vec![Some(0), Some(1), Some(0)],
        vec![Some(2), Some(1), Some(2)],
    ]);
    assert_eq!(
        find_connection(&map, &[1, 0], &[1, 2]),
        Some([Some([1, 0]), Some([0, 0]), Some([0, 2]), Some([1, 2])])
    );
    assert_eq!(find_connection(&map, &[2, 0], &[2, 2]), None);
}

#[test]
fn dense_propagation_runs_to_its_end() {
    let map = board(vec![
        vec![Some(0), Some(0), Some(1), Some(2)],
        vec![Some(3), Some(1), Some(4), Some(2)],
        vec![Some(4), Some(5), Some(5), Some(0)],
        vec![Some(0), Some(3), Some(0), Some(0)],
    ]);
    let (left, forced) = settle(&map);
    assert_eq!(forced.len(), 5);
    assert_eq!(remove_connected_tiles(&map, &forced), left);
    let (again, nothing) = settle(&left);
    assert_eq!(nothing, vec![]);
    assert_eq!(again, left);
}

#[test]
fn a_dense_board_that_propagation_clears_is_solved_at_once() {
    let map = board(vec![vec![Some(5), Some(5)]]);
    let mut solver = SichuanSolver::new(&map);
    assert_eq!(
        solver.solve(),
        Ok(vec![ConnectionInfo { tile: 5, pair: [[0, 0], [0, 1]], nodes: [Some([0, 0]), Some([0, 1]), None, None] }])
    );
    let mut empty = SichuanSolver::new(&TileMap::empty(2, 2));
    assert_eq!(empty.solve(), Ok(vec![]));
}

#[test]
fn the_dense_solver_goes_level_by_level() {
    let map = board(vec![vec![Some(0), Some(0)], vec![Some(0), Some(0)]]);
    let mut solver = SichuanSolver::new(&map);
    assert!(!solver.is_completed());
    assert_eq!(solver.logically_interpolate_connection(), None);
    assert!(!solver.is_completed());
    assert_eq!(solver.confirmed_connections(), vec![vec![]]);
    assert_eq!(solver.map_log().len(), 1);
    solver.set_available_connections();
    assert_eq!(solver.available_connections()[0].len(), 4);
    assert_eq!(solver.validate_current_map(), None);
    assert!(!solver.should_resume_index());
    assert_eq!(solver.next(), SichuanSolverStatus::AnswerFound);
    assert_eq!(solver.index_log(), vec![0]);
    assert_eq!(solver.assumed_connections().len(), 1);
    assert_eq!(solver.confirmed_connections().len(), 2);
    assert_eq!(solver.get_connections().len(), 2);
    assert!(solver.is_completed());
}

#[test]
fn the_dense_solver_takes_an_assumption_back() {
    let map = board(vec![
        vec![Some(0), Some(0), Some(0), Some(1)],
        vec![None, None, Some(1), Some(0)],
    ]);
    let mut solver = SichuanSolver::new(&map);
    solver.logically_interpolate_connection();
    solver.set_available_connections();
    assert_eq!(solver.assume_connection(), None);
    solver.logically_interpolate_connection();
    solver.set_available_connections();
    assert!(!solver.is_completed());
    assert_eq!(solver.validate_current_map(), Some(SichuanSolverRollbackReason::ValidationFailed));
    assert_eq!(solver.rollback(SichuanSolverRollbackReason::ValidationFailed), None);
    assert_eq!(solver.map_log().len(), 1);
    assert_eq!(solver.index_log(), vec![0]);
    assert_eq!(solver.assumed_connections(), vec![]);
    assert!(solver.should_resume_index());
    assert_eq!(solver.current(), map);
    assert_eq!(solver.next(), SichuanSolverStatus::AnswerFound);
    assert_eq!(solver.index_log(), vec![1]);
    assert_eq!(replay(&map, &solver.get_connections()), TileMap::empty(2, 4));
}

#[test]
fn the_first_level_without_a_candidate_ends_the_search() {
    let map = board(vec![vec![Some(0), Some(1)], vec![Some(1), Some(0)]]);
    let mut solver = SichuanSolver::new(&map);
    solver.logically_interpolate_connection();
    solver.set_available_connections();
    assert_eq!(solver.validate_current_map(), Some(SichuanSolverRollbackReason::ValidationFailed));
    assert_eq!(solver.assume_connection(), Some(SichuanSolverRollbackReason::AssumeIndexOutOfRange));
    assert_eq!(
        solver.rollback(SichuanSolverRollbackReason::AssumeIndexOutOfRange),
        Some(SichuanSolverStatus::NoAnswerFound)
    );
    let mut again = SichuanSolver::new(&map);
    again.logically_interpolate_connection();
    again.set_available_connections();
    assert_eq!(again.next(), SichuanSolverStatus::NoAnswerFound);
    assert_eq!(again.rollback(SichuanSolverRollbackReason::LogicalInterpolationFailed), None);
    assert_eq!(again.current(), map);
}

#[test]
fn a_found_dense_solution_replays_on_the_board() {
    let map = board(vec![
        vec![Some(0), Some(1), None, Some(0)],
        vec![Some(1), Some(1), Some(2), Some(4)],
        vec![Some(2), Some(3), Some(0), Some(3)],
        vec![None, Some(0), Some(1), Some(4)],
    ]);
    let mut solver = SichuanSolver::new(&map);
    let solution = solver.solve().unwrap();
    assert_eq!(solution.len(), 7);
    assert_eq!(replay(&map, &solution), TileMap::empty(4, 4));
}
