use std::collections::HashSet;

use sichuan_solver::dense::components::TileMap;
use sichuan_solver::dense::solver::{ConnectionInfo, SichuanSolver, SichuanSolverStatus};

#[test]
fn test_sichuan_solver_logically_interpolate_connections() {
    let map: TileMap = TileMap::from_rows(&vec![
        vec![Some(0), Some(0), Some(0), Some(0)],
        vec![Some(1), Some(1), Some(2), Some(3)],
        vec![Some(2), Some(1), Some(1), Some(4)],
        vec![Some(4), Some(3), Some(4), Some(4)],
    ]);
    /*
     * 0 0 0 0
     * 1 1 2 3
     * 2 1 1 4
     * 4 3 4 4
     */

    let mut solver = SichuanSolver::new(&map);
    solver.logically_interpolate_connection();

    // no label is carried by exactly two tiles that a path joins: nothing is forced
    let expected: HashSet<&ConnectionInfo> = HashSet::new();
    let connections = solver.confirmed_connections()[0].clone();
    let actual: HashSet<&ConnectionInfo> = connections.iter().collect();
    assert_eq!(actual, expected);

    // a second call at once leaves the board as it is and records an empty list
    solver.logically_interpolate_connection();
    assert_eq!(solver.confirmed_connections(), vec![vec![], vec![]]);
    assert_eq!(solver.current(), map);
}

#[test]
fn test_sichuan_solver_is_completed() {
    let map: TileMap = TileMap::from_rows(&vec![
        vec![Some(0), Some(0), Some(0), Some(0)],
        vec![Some(1), Some(1), Some(2), Some(3)],
        vec![Some(2), Some(1), Some(1), Some(4)],
        vec![Some(4), Some(3), Some(4), Some(4)],
    ]);
    /*
     * 0 0 0 0
     * 1 1 2 3
     * 2 1 1 4
     * 4 3 4 4
     */

    let mut solver = SichuanSolver::new(&map);
    assert_eq!(solver.is_completed(), false);

    solver.logically_interpolate_connection();
    assert_eq!(solver.is_completed(), false);

    let map2: TileMap = TileMap::from_rows(&vec![vec![Some(0), Some(1)], vec![Some(1), Some(0)]]);
    /*
     * 0 1
     * 1 0
     */
    let mut solver2 = SichuanSolver::new(&map2);
    assert_eq!(solver2.is_completed(), false);

    solver2.logically_interpolate_connection();
    assert_eq!(solver2.is_completed(), false);
}

#[test]
fn test_sichuan_solver_rollback() {
    let map: TileMap = TileMap::from_rows(&vec![
        vec![Some(0), Some(0), Some(0), Some(1)],
        vec![None, None, Some(1), Some(0)],
    ]);
    /*
     * 0 0 0 1
     * x x 1 0
     */
    let mut solver = SichuanSolver::new(&map);
    solver.logically_interpolate_connection();
    solver.set_available_connections();
    solver.assume_connection();
    solver.logically_interpolate_connection();
    solver.set_available_connections();
    assert_eq!(solver.is_completed(), false);

    let reason = solver.validate_current_map();
    solver.rollback(reason.unwrap());
    assert_eq!(solver.map_log().len(), 1);
    assert_eq!(solver.index_log().len(), 1);
    assert_eq!(solver.confirmed_connections().len(), 1);
    assert_eq!(solver.available_connections().len(), 1);
    assert_eq!(solver.assumed_connections().len(), 0);
    assert_eq!(solver.should_resume_index(), true);
    assert_eq!(&solver.current(), solver.map_log().last().unwrap());

    solver.assume_connection();
    assert_eq!(solver.assumed_connections().len(), 1);
    assert_eq!(solver.index_log(), vec![1]);
    solver.logically_interpolate_connection();
    solver.set_available_connections();
    assert!(solver.is_completed());

    let map2: TileMap = TileMap::from_rows(&vec![
        vec![Some(0), Some(1), None, Some(0)],
        vec![Some(1), Some(1), Some(2), Some(4)],
        vec![Some(2), Some(3), Some(0), Some(3)],
        vec![None, Some(0), Some(1), Some(4)],
    ]);
    /*
     * 0 1 x 0
     * 1 1 2 4
     * 2 3 0 3
     * x 0 1 4
     */
    let mut solver2 = SichuanSolver::new(&map2);
    solver2.logically_interpolate_connection();
    solver2.set_available_connections();
    solver2.assume_connection();
    solver2.logically_interpolate_connection();
    solver2.set_available_connections();
    assert_eq!(solver2.is_completed(), false);
    assert_eq!(solver2.validate_current_map(), None);

    assert_eq!(solver2.should_resume_index(), false);
    solver2.assume_connection();
    solver2.logically_interpolate_connection();
    solver2.set_available_connections();

    let reason2 = solver2.validate_current_map();
    solver2.rollback(reason2.unwrap());
    assert_eq!(solver2.map_log().len(), 2);
    assert_eq!(solver2.index_log().len(), 2);
    assert_eq!(solver2.confirmed_connections().len(), 2);
    assert_eq!(solver2.available_connections().len(), 2);
    assert_eq!(solver2.assumed_connections().len(), 1);
    assert_eq!(solver2.should_resume_index(), true);
    assert_eq!(&solver2.current(), solver2.map_log().last().unwrap());

    let reason3 = solver2.assume_connection();
    solver2.rollback(reason3.unwrap());
    assert_eq!(solver2.map_log().len(), 1);
    assert_eq!(solver2.index_log().len(), 1);
    assert_eq!(solver2.confirmed_connections().len(), 1);
    assert_eq!(solver2.available_connections().len(), 1);
    assert_eq!(solver2.assumed_connections().len(), 0);
    assert_eq!(solver2.should_resume_index(), true);
    assert_eq!(&solver2.current(), solver2.map_log().last().unwrap());

    solver2.assume_connection();
    solver2.logically_interpolate_connection();
    solver2.set_available_connections();
    assert_eq!(solver2.is_completed(), false);
}

#[test]
fn test_sichuan_solver_next() {
    let map: TileMap = TileMap::from_rows(&vec![
        vec![Some(0), Some(1), None, Some(0)],
        vec![Some(1), Some(1), Some(2), Some(4)],
        vec![Some(2), Some(3), Some(0), Some(3)],
        vec![None, Some(0), Some(1), Some(4)],
    ]);
    /*
     * 0 1 x 0
     * 1 1 2 4
     * 2 3 0 3
     * x 0 1 4
     */

    let mut solver = SichuanSolver::new(&map);
    solver.logically_interpolate_connection();
    solver.set_available_connections();
    let result1 = solver.next();
    assert_eq!(result1, SichuanSolverStatus::InProgress);
    assert_eq!(solver.map_log().len(), 2);
    assert_eq!(solver.index_log().len(), 1);
    assert_eq!(solver.confirmed_connections().len(), 2);
    assert_eq!(solver.available_connections().len(), 2);
    assert_eq!(solver.assumed_connections().len(), 1);
    assert_eq!(solver.should_resume_index(), false);

    let result2 = solver.next();
    assert_eq!(result2, SichuanSolverStatus::InProgress);
    assert_eq!(solver.map_log().len(), 2);
    assert_eq!(solver.index_log().len(), 2);
    assert_eq!(solver.confirmed_connections().len(), 2);
    assert_eq!(solver.available_connections().len(), 2);
    assert_eq!(solver.assumed_connections().len(), 1);
    assert_eq!(solver.should_resume_index(), true);
    assert_eq!(&solver.current(), solver.map_log().last().unwrap());

    let result3 = solver.next();
    assert_eq!(result3, SichuanSolverStatus::InProgress);
    assert_eq!(solver.map_log().len(), 1);
    assert_eq!(solver.index_log().len(), 1);
    assert_eq!(solver.confirmed_connections().len(), 1);
    assert_eq!(solver.available_connections().len(), 1);
    assert_eq!(solver.assumed_connections().len(), 0);
    assert_eq!(solver.should_resume_index(), true);
    assert_eq!(&solver.current(), solver.map_log().last().unwrap());

    let result4 = solver.next();
    assert_eq!(result4, SichuanSolverStatus::InProgress);
    assert_eq!(solver.map_log().len(), 2);
    assert_eq!(solver.index_log(), vec![1]);

    let result5 = solver.next();
    assert_eq!(result5, SichuanSolverStatus::AnswerFound);
    assert_eq!(solver.index_log(), vec![1, 0]);
    assert_eq!(solver.get_connections().len(), 7);
}
