use hexmap::hex::Hex;
use hexmap::tile::{Tile, TileType, VertexType};

#[test]
fn rotation_stays_normalized_for_any_delta() {
    for start in 0..6u8 {
        for delta in [i8::MIN, -100, -13, -7, -6, -1, 0, 1, 5, 6, 7, 13, 100, i8::MAX] {
            let mut t = Tile::new(TileType::Half, start);
            t.rotate(delta);
            assert!(t.rotation() < 6);
            let expected = ((start as i32 + delta as i32).rem_euclid(6)) as u8;
            assert_eq!(t.rotation(), expected);
        }
    }
}

#[test]
fn rotate_small_wraps_both_ways() {
    let mut t = Tile::new(TileType::Small, 5);
    t.rotate(1);
    assert_eq!(t.rotation(), 0);
    t.rotate(-1);
    assert_eq!(t.rotation(), 5);
    t.rotate(-13);
    assert_eq!(t.rotation(), 4);
}

#[test]
fn rotate_is_noop_for_empty_and_full() {
    let mut e = Tile::new(TileType::Empty, 0);
    e.rotate(3);
    assert_eq!(e, Tile::new(TileType::Empty, 0));
    let mut f = Tile::new(TileType::Full, 0);
    f.rotate(-2);
    assert_eq!(f.rotation(), 0);
}

#[test]
fn new_normalizes_rotation() {
    assert_eq!(Tile::new(TileType::Large, 13).rotation(), 1);
    assert_eq!(Tile::new(TileType::Half, 255).rotation(), 3);
    assert_eq!(Tile::new(TileType::Full, 4).rotation(), 0);
    assert_eq!(Tile::new(TileType::Empty, 5).rotation(), 0);
}

#[test]
fn omnidirectional_shapes() {
    assert!(Tile::new(TileType::Empty, 0).is_empty_or_full());
    assert!(Tile::new(TileType::Full, 0).is_empty_or_full());
    assert!(!Tile::new(TileType::Small, 0).is_empty_or_full());
    assert!(!Tile::new(TileType::Half, 0).is_empty_or_full());
    assert!(!Tile::new(TileType::Large, 0).is_empty_or_full());
}

#[test]
fn vertex_split_of_each_shape() {
    let (b, e, f) = (VertexType::Both, VertexType::Empty, VertexType::Full);
    assert_eq!(Tile::new(TileType::Empty, 0).vertex_split(), [e; 6]);
    assert_eq!(Tile::new(TileType::Full, 0).vertex_split(), [f; 6]);
    assert_eq!(Tile::new(TileType::Small, 0).vertex_split(), [b, f, b, e, e, e]);
    assert_eq!(Tile::new(TileType::Small, 5).vertex_split(), [f, b, e, e, e, b]);
    assert_eq!(Tile::new(TileType::Half, 1).vertex_split(), [e, b, f, f, b, e]);
    assert_eq!(Tile::new(TileType::Large, 4).vertex_split(), [f, f, b, e, b, f]);
}

#[test]
fn fans_of_half_tile() {
    let (empty, full) = Tile::new(TileType::Half, 0).fans();
    assert_eq!(empty, vec![0, 3, 4, 5]);
    assert_eq!(full, vec![0, 1, 2, 3]);
    let (empty, full) = Tile::split_to_tile_variant([VertexType::Full; 6]);
    assert!(empty.is_empty());
    assert_eq!(full, vec![0, 1, 2, 3, 4, 5]);
}

#[test]
fn neighbors_in_fixed_order() {
    let h = Hex::new(2, -3);
    let ns = h.all_neighbors();
    assert_eq!(
        ns,
        [
            Hex::new(3, -3),
            Hex::new(2, -2),
            Hex::new(1, -2),
            Hex::new(1, -3),
            Hex::new(2, -4),
            Hex::new(3, -4)
        ]
    );
    assert_eq!(h.neighbor(4), Hex::new(2, -4));
}

#[test]
fn range_has_disk_size_and_distinct_cells() {
    let c = Hex::new(5, 7);
    for n in 0..5u32 {
        let cells = c.range(n);
        assert_eq!(cells.len() as u32, 1 + 3 * n * (n + 1));
        let mut sorted = cells.clone();
        sorted.sort_by_key(|h| (h.x, h.y));
        sorted.dedup();
        assert_eq!(sorted.len(), cells.len());
        for h in &cells {
            let dx = h.x - c.x;
            let dy = h.y - c.y;
            let d = dx.abs().max(dy.abs()).max((dx + dy).abs());
            assert!(d as u32 <= n);
        }
    }
    assert_eq!(c.range(0), vec![c]);
}

#[test]
fn line_between_cells() {
    let line = Hex::new(0, 0).line_to(Hex::new(5, 0));
    assert_eq!(line.len(), 6);
    for (i, h) in line.iter().enumerate() {
        assert_eq!(*h, Hex::new(i as i32, 0));
    }
    let line = Hex::new(2, 1).line_to(Hex::new(-1, 3));
    assert_eq!(line.len(), 4);
    assert_eq!(line[0], Hex::new(2, 1));
    assert_eq!(line[3], Hex::new(-1, 3));
    assert_eq!(Hex::new(7, 7).line_to(Hex::new(7, 7)), vec![Hex::new(7, 7)]);
}
