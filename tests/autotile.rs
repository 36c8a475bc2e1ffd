use hexmap::autotile::{insert_walls, resolve_mask};
use hexmap::hex::Hex;
use hexmap::store::TileStore;
use hexmap::tile::{Tile, TileType};

fn floor(cells: &[(i32, i32)]) -> TileStore {
    let mut s = TileStore::new();
    for &(x, y) in cells {
        s.insert(Hex::new(x, y), Tile::new(TileType::Empty, 0));
    }
    s
}

fn entries(s: &TileStore) -> Vec<(i32, i32, TileType, u8)> {
    s.records().iter().map(|(h, t)| (h.x, h.y, t.tile_type, t.rotation())).collect()
}

#[test]
fn single_floor_cell_gets_full_ring() {
    let mut s = floor(&[(0, 0)]);
    insert_walls(&mut s);
    assert_eq!(s.len(), 7);
    assert_eq!(s.get(Hex::new(0, 0)), Some(Tile::new(TileType::Empty, 0)));
    for n in Hex::new(0, 0).all_neighbors() {
        assert_eq!(s.get(n), Some(Tile::new(TileType::Full, 0)));
    }
}

#[test]
fn two_adjacent_floor_cells() {
    let mut s = floor(&[(0, 0), (1, 0)]);
    insert_walls(&mut s);
    assert_eq!(s.len(), 10);
    // The two cells next to both floor cells see a run of two floor neighbours.
    assert_eq!(s.get(Hex::new(0, 1)), Some(Tile::new(TileType::Large, 5)));
    assert_eq!(s.get(Hex::new(1, -1)), Some(Tile::new(TileType::Large, 2)));
    for (x, y) in [(-1, 0), (-1, 1), (0, -1), (1, 1), (2, -1), (2, 0)] {
        assert_eq!(s.get(Hex::new(x, y)), Some(Tile::new(TileType::Full, 0)));
    }
}

#[test]
fn triangle_of_floor_cells() {
    let mut s = floor(&[(0, 0), (1, 0), (0, 1)]);
    insert_walls(&mut s);
    assert_eq!(
        entries(&s),
        vec![
            (-1, 0, TileType::Full, 0),
            (-1, 1, TileType::Large, 0),
            (-1, 2, TileType::Full, 0),
            (0, -1, TileType::Full, 0),
            (0, 0, TileType::Empty, 0),
            (0, 1, TileType::Empty, 0),
            (0, 2, TileType::Full, 0),
            (1, -1, TileType::Large, 2),
            (1, 0, TileType::Empty, 0),
            (1, 1, TileType::Large, 4),
            (2, -1, TileType::Full, 0),
            (2, 0, TileType::Full, 0),
        ]
    );
}

#[test]
fn second_pass_changes_nothing() {
    let mut s = floor(&[(0, 0), (1, 0), (0, 1), (3, 3)]);
    insert_walls(&mut s);
    let once = entries(&s);
    insert_walls(&mut s);
    assert_eq!(entries(&s), once);
}

#[test]
fn existing_tiles_are_not_overwritten() {
    let mut s = floor(&[(0, 0)]);
    s.insert(Hex::new(1, 0), Tile::new(TileType::Small, 3));
    insert_walls(&mut s);
    assert_eq!(s.get(Hex::new(1, 0)), Some(Tile::new(TileType::Small, 3)));
    assert_eq!(s.len(), 7);
}

#[test]
fn empty_store_stays_empty() {
    let mut s = TileStore::new();
    insert_walls(&mut s);
    assert_eq!(s.len(), 0);
    let mut walls_only = TileStore::new();
    walls_only.insert(Hex::new(0, 0), Tile::new(TileType::Full, 0));
    insert_walls(&mut walls_only);
    assert_eq!(walls_only.len(), 1);
}

#[test]
fn resolve_table() {
    let t = true;
    let f = false;
    assert_eq!(resolve_mask([t; 6]), Some(Tile::new(TileType::Empty, 0)));
    assert_eq!(resolve_mask([f; 6]), Some(Tile::new(TileType::Full, 0)));
    assert_eq!(resolve_mask([t, t, t, t, t, f]), Some(Tile::new(TileType::Empty, 0)));
    assert_eq!(resolve_mask([t, t, t, t, f, f]), Some(Tile::new(TileType::Small, 3)));
    assert_eq!(resolve_mask([t, f, f, t, t, t]), Some(Tile::new(TileType::Small, 0)));
    assert_eq!(resolve_mask([t, t, t, f, f, f]), Some(Tile::new(TileType::Half, 2)));
    assert_eq!(resolve_mask([t, t, f, f, f, t]), Some(Tile::new(TileType::Half, 1)));
    assert_eq!(resolve_mask([t, t, f, f, f, f]), Some(Tile::new(TileType::Large, 1)));
    assert_eq!(resolve_mask([t, f, f, f, f, t]), Some(Tile::new(TileType::Large, 0)));
    assert_eq!(resolve_mask([f, f, f, t, f, f]), Some(Tile::new(TileType::Full, 0)));
    assert_eq!(resolve_mask([t, f, t, f, f, f]), None);
    assert_eq!(resolve_mask([t, f, t, f, t, f]), None);
    assert_eq!(resolve_mask([t, t, f, t, t, f]), None);
}

#[test]
fn enclosed_gap_becomes_floor() {
    let mut s = TileStore::new();
    for n in Hex::new(0, 0).all_neighbors() {
        s.insert(n, Tile::new(TileType::Empty, 0));
    }
    insert_walls(&mut s);
    assert_eq!(s.get(Hex::new(0, 0)), Some(Tile::new(TileType::Empty, 0)));
}

#[test]
fn second_pass_fills_cell_next_to_new_floor() {
    // The first pass fills (1, -1) with floor, as five of its neighbours are
    // floor; that new floor completes a single run for (0, -1).
    let mut s = floor(&[(-2, 1), (-1, 0), (0, 0), (1, -2), (1, 0), (1, 1), (2, -2), (2, -1)]);
    insert_walls(&mut s);
    assert_eq!(s.get(Hex::new(1, -1)), Some(Tile::new(TileType::Empty, 0)));
    assert_eq!(s.get(Hex::new(0, -1)), None);
    insert_walls(&mut s);
    assert_eq!(s.get(Hex::new(0, -1)), Some(Tile::new(TileType::Small, 2)));
}
