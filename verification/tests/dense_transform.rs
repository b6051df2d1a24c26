use sichuan_solver::dense::components::TileMap;
use sichuan_solver::dense::transform::pad_tilemap;

#[test]
fn test_pad_tilemap() {
    let map: TileMap = TileMap::from_rows(&vec![
        vec![Some(0), Some(1), Some(2)],
        vec![Some(2), Some(0), Some(1)],
    ]);
    let padmap: TileMap = TileMap::from_rows(&vec![
        vec![None, None, None, None, None],
        vec![None, Some(0), Some(1), Some(2), None],
        vec![None, Some(2), Some(0), Some(1), None],
        vec![None, None, None, None, None],
    ]);
    assert_eq!(padmap, pad_tilemap(&map));
}
