use sichuan_solver::canvas::{xpos, ypos};
use sichuan_solver::components::TileMap;
use sichuan_solver::dense::components::get_node_edge;
use sichuan_solver::solver::utils::validate_tiles;

#[test]
fn a_pixel_falls_on_the_cell_that_covers_it() {
    assert_eq!(xpos(0, 80, 5), Some(0));
    assert_eq!(xpos(79, 80, 5), Some(0));
    assert_eq!(xpos(80, 80, 5), Some(1));
    assert_eq!(xpos(399, 80, 5), Some(4));
    assert_eq!(xpos(400, 80, 5), None);
    assert_eq!(xpos(-1, 80, 5), None);
    assert_eq!(xpos(10, 0, 5), None);
    assert_eq!(xpos(10, 80, 0), None);
    assert_eq!(ypos(250, 100, 3), Some(2));
    assert_eq!(ypos(300, 100, 3), None);
    assert_eq!(ypos(i32::MAX, 1, usize::MAX), Some(i32::MAX as usize));
}

#[test]
fn tiles_can_be_paired_where_every_label_is_even() {
    assert!(validate_tiles(&TileMap::new()));
    assert!(validate_tiles(&TileMap::from_entries(vec![([0, 0], 1), ([5, 5], 1)])));
    assert!(!validate_tiles(&TileMap::from_entries(vec![([0, 0], 1)])));
    assert!(!validate_tiles(&TileMap::from_entries(vec![([0, 0], 1), ([0, 1], 1), ([0, 2], 1), ([1, 0], 255)])));
    assert!(validate_tiles(&TileMap::from_entries(vec![
        ([0, 0], 0),
        ([0, 1], 255),
        ([1, 0], 255),
        ([1, 1], 0),
    ])));
}

#[test]
fn the_ends_of_four_slots_are_the_first_and_the_last_point() {
    assert_eq!(get_node_edge(&[Some([1, 1]), Some([1, 2]), None, None]), [[1, 1], [1, 2]]);
    assert_eq!(get_node_edge(&[Some([3, 1]), Some([0, 1]), Some([0, 3]), Some([1, 3])]), [[3, 1], [1, 3]]);
    assert_eq!(get_node_edge(&[Some([2, 2]), None, None, None]), [[2, 2], [2, 2]]);
    assert_eq!(get_node_edge(&[Some([2, 2]), None, Some([4, 4]), None]), [[2, 2], [4, 4]]);
}
