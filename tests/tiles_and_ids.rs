use cave_escape::grid::{build_map, TileMap, TileType};
use cave_escape::ids::first_free_id;

#[test]
fn first_free_id_fills_gaps() {
    assert_eq!(first_free_id(&vec![]), 0);
    assert_eq!(first_free_id(&vec![0, 1, 3]), 2);
    assert_eq!(first_free_id(&vec![2, 1, 0]), 3);
    assert_eq!(first_free_id(&vec![-1, 5]), 0);
}

#[test]
fn tile_map_set_only_inside_rows() {
    let mut m = match build_map("0\nwg\nw") {
        Ok(m) => m.tiles,
        Err(e) => panic!("{:?}", e),
    };
    assert_eq!(m.height(), 2);
    assert_eq!(m.width(0), 2);
    assert_eq!(m.width(1), 1);
    assert_eq!(m.width(5), 0);
    assert!(m.set(1, 0, TileType::Floor));
    assert_eq!(m.get(1, 0), Some(TileType::Floor));
    assert!(!m.set(1, 1, TileType::Floor));
    assert_eq!(m.get(1, 1), None);
    assert!(!m.set(-1, 0, TileType::Floor));
}

#[test]
fn empty_tile_map_reads_walls() {
    let m = TileMap::new();
    assert_eq!(m.height(), 0);
    assert_eq!(m.tile_at(0, 0), TileType::Wall);
    assert_eq!(m.get(0, 0), None);
}
