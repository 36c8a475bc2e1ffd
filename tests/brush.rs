use hexmap::brush::{Brush, BrushEvent};
use hexmap::hex::Hex;
use hexmap::store::TileStore;
use hexmap::tile::{Tile, TileType};

#[test]
fn omni_brush_paints_disk() {
    for n in 0..6u32 {
        let mut b = Brush::new();
        b.pick(TileType::Full);
        for _ in 0..n {
            b.size_up();
        }
        assert_eq!(b.brush_size, n);
        let mut s = TileStore::new();
        b.paint(&mut s, Hex::new(4, -2));
        assert_eq!(s.len() as u32, 1 + 3 * n * (n + 1));
        assert_eq!(b.footprint(Hex::new(4, -2)).len() as u32, 1 + 3 * n * (n + 1));
    }
}

#[test]
fn directional_brush_paints_one_cell() {
    let mut b = Brush::new();
    b.size_up();
    b.size_up();
    b.pick(TileType::Half);
    b.size_up();
    assert_eq!(b.brush_size, 3);
    assert_eq!(b.footprint(Hex::new(0, 0)), vec![Hex::new(0, 0)]);
    let mut s = TileStore::new();
    b.paint(&mut s, Hex::new(0, 0));
    assert_eq!(s.len(), 1);
    assert_eq!(s.get(Hex::new(0, 0)), Some(Tile::new(TileType::Half, 0)));
}

#[test]
fn erase_removes_footprint_only() {
    let mut b = Brush::new();
    b.size_up();
    let mut s = TileStore::new();
    b.paint(&mut s, Hex::new(0, 0));
    s.insert(Hex::new(5, 5), Tile::new(TileType::Full, 0));
    assert_eq!(s.len(), 8);
    b.erase(&mut s, Hex::new(0, 0));
    assert_eq!(s.len(), 1);
    assert!(s.contains(Hex::new(5, 5)));
}

#[test]
fn sampling_unset_hex_keeps_brush() {
    let mut b = Brush::new();
    b.pick(TileType::Large);
    b.rotate(2);
    let before = b;
    let s = TileStore::new();
    b.sample(&s, Hex::new(3, 3));
    assert_eq!(b, before);
}

#[test]
fn sampling_copies_tile() {
    let mut b = Brush::new();
    b.size_up();
    let mut s = TileStore::new();
    s.insert(Hex::new(1, 1), Tile::new(TileType::Small, 4));
    b.sample(&s, Hex::new(1, 1));
    assert_eq!(b.brush, Tile::new(TileType::Small, 4));
    assert_eq!(b.brush_size, 1);
}

#[test]
fn rotate_brush_both_ways() {
    let mut b = Brush::new();
    b.pick(TileType::Small);
    b.rotate(-1);
    assert_eq!(b.brush.rotation(), 5);
    b.rotate(1);
    b.rotate(1);
    assert_eq!(b.brush.rotation(), 1);
}

#[test]
fn size_down_saturates() {
    let mut b = Brush::new();
    b.size_down();
    assert_eq!(b.brush_size, 0);
}

#[test]
fn handle_events_step() {
    let mut b = Brush::new();
    let mut s = TileStore::new();
    let save = b.handle_events(&mut s, &[BrushEvent::SizeUp, BrushEvent::Insert], Hex::new(0, 0));
    assert!(save);
    assert_eq!(b.brush_size, 1);
    assert_eq!(s.len(), 7);
    let save = b.handle_events(&mut s, &[BrushEvent::PickSmall, BrushEvent::RotateClockwise], Hex::new(0, 0));
    assert!(!save);
    assert_eq!(b.brush, Tile::new(TileType::Small, 1));
    assert_eq!(b.brush_size, 0);
    let save = b.handle_events(&mut s, &[BrushEvent::InsertWalls], Hex::new(0, 0));
    assert!(save);
    assert_eq!(s.len(), 19);
    let save = b.handle_events(&mut s, &[BrushEvent::CloneTile], Hex::new(9, 9));
    assert!(!save);
    assert_eq!(b.brush, Tile::new(TileType::Small, 1));
}

#[test]
fn step_resets_radius_before_sampling() {
    let mut b = Brush::new();
    b.size_up();
    let mut s = TileStore::new();
    s.insert(Hex::new(1, 1), Tile::new(TileType::Small, 4));
    let save = b.handle_events(&mut s, &[BrushEvent::CloneTile], Hex::new(1, 1));
    assert!(!save);
    assert_eq!(b.brush, Tile::new(TileType::Small, 4));
    assert_eq!(b.brush_size, 1);
    b.handle_events(&mut s, &[], Hex::new(1, 1));
    assert_eq!(b.brush_size, 0);
}

#[test]
fn insert_walls_through_brush() {
    let b = Brush::new();
    let mut s = TileStore::new();
    s.insert(Hex::new(0, 0), Tile::new(TileType::Empty, 0));
    b.insert_walls(&mut s);
    assert_eq!(s.len(), 7);
}
