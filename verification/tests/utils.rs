use sichuan_solver::components::TileMap;
use sichuan_solver::solver::utils::{get_node_edges, get_size_from_map, pad_tilemap};

#[test]
fn utils_test_pad_tilemap() {
    let map: TileMap = TileMap::from_entries(vec![
        ([0, 0], 0),
        ([0, 1], 1),
        ([0, 2], 2),
        ([1, 0], 2),
        ([1, 1], 0),
        ([1, 2], 1),
    ]);
    let expected: TileMap = TileMap::from_entries(vec![
        ([1, 1], 0),
        ([1, 2], 1),
        ([1, 3], 2),
        ([2, 1], 2),
        ([2, 2], 0),
        ([2, 3], 1),
    ]);
    assert_eq!(expected, pad_tilemap(&map));
}

#[test]
fn test_get_map_size() {
    /* tile map:
     * x 0 x 0
     * 0 x x x
     * x x 0 x
     */
    let map: TileMap = TileMap::from_entries(vec![([0, 1], 0), ([0, 3], 0), ([1, 0], 0), ([2, 2], 0)]);
    let expected = [3, 4];
    assert_eq!(get_size_from_map(&map), expected);
}

#[test]
fn transform_test_pad_tilemap() {
    let map: TileMap = TileMap::from_entries(vec![
        ([0, 0], 0),
        ([0, 1], 1),
        ([0, 2], 2),
        ([1, 0], 2),
        ([1, 1], 0),
        ([1, 2], 1),
    ]);
    let expected: TileMap = TileMap::from_entries(vec![
        ([1, 1], 0),
        ([1, 2], 1),
        ([1, 3], 2),
        ([2, 1], 2),
        ([2, 2], 0),
        ([2, 3], 1),
    ]);
    assert_eq!(expected, pad_tilemap(&map));
}
