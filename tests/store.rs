use hexmap::hex::Hex;
use hexmap::store::TileStore;
use hexmap::tile::{Tile, TileType};

#[test]
fn insert_get_remove() {
    let mut s = TileStore::new();
    assert_eq!(s.len(), 0);
    assert_eq!(s.get(Hex::new(0, 0)), None);
    s.insert(Hex::new(1, 2), Tile::new(TileType::Half, 2));
    s.insert(Hex::new(-1, 5), Tile::new(TileType::Full, 0));
    s.insert(Hex::new(1, -2), Tile::new(TileType::Empty, 0));
    assert_eq!(s.len(), 3);
    assert_eq!(s.get(Hex::new(1, 2)), Some(Tile::new(TileType::Half, 2)));
    assert!(s.contains(Hex::new(-1, 5)));
    s.insert(Hex::new(1, 2), Tile::new(TileType::Small, 4));
    assert_eq!(s.len(), 3);
    assert_eq!(s.get(Hex::new(1, 2)), Some(Tile::new(TileType::Small, 4)));
    s.remove(Hex::new(1, 2));
    s.remove(Hex::new(9, 9));
    assert_eq!(s.len(), 2);
    assert_eq!(s.get(Hex::new(1, 2)), None);
}

#[test]
fn records_are_sorted_by_coordinate() {
    let mut s = TileStore::new();
    for (x, y) in [(3, 1), (-2, 4), (3, -1), (0, 0), (-2, -4)] {
        s.insert(Hex::new(x, y), Tile::new(TileType::Empty, 0));
    }
    let keys: Vec<(i32, i32)> = s.records().iter().map(|(h, _)| (h.x, h.y)).collect();
    assert_eq!(keys, vec![(-2, -4), (-2, 4), (0, 0), (3, -1), (3, 1)]);
}

#[test]
fn snapshot_is_independent_copy() {
    let mut s = TileStore::new();
    s.insert(Hex::new(0, 0), Tile::new(TileType::Empty, 0));
    let snap = s.clone_snapshot();
    s.insert(Hex::new(1, 0), Tile::new(TileType::Full, 0));
    assert_eq!(snap.len(), 1);
    assert_eq!(s.len(), 2);
}

#[test]
fn defaults_are_empty() {
    assert_eq!(TileStore::default().len(), 0);
    assert_eq!(Tile::default(), Tile::new(TileType::Empty, 0));
    let b = hexmap::brush::Brush::default();
    assert_eq!(b.brush, Tile::new(TileType::Empty, 0));
    assert_eq!(b.brush_size, 0);
}
