//! The closed catalog of partial-hexagon tile shapes, their rotation and the
//! vertex classification that gives each shape its silhouette.
use vstd::prelude::*;

verus! {

/// The shape of a tile. `Small`, `Half` and `Large` cover a growing arc of
/// the hexagon's perimeter; `Empty` covers nothing and marks floor; `Full`
/// covers everything.
#[derive(Debug, Clone, Copy, PartialEq, Eq, Hash, Structural)]
pub enum TileType {
    Empty,
    Small,
    Half,
    Large,
    Full,
}

/// How one perimeter vertex of a tile takes part in its two vertex fans.
#[derive(Debug, Clone, Copy, PartialEq, Eq, Structural)]
pub enum VertexType {
    /// Only in the unfilled fan.
    Empty,
    /// In both fans: one of the two vertices bounding the filled arc.
    Both,
    /// Only in the filled fan.
    Full,
}

/// A shape together with its rotation, in sixths of a turn.
#[derive(Debug, Clone, Copy, PartialEq, Eq, Hash, Structural)]
pub struct Tile {
    pub tile_type: TileType,
    pub rotation: u8,
}

/// Shapes without rotational distinction.
pub open spec fn is_omni(k: TileType) -> bool {
    k == TileType::Empty || k == TileType::Full
}

/// The tile `Tile::new(k, r)` builds: rotation taken modulo 6, and none for
/// the rotation-invariant shapes.
pub open spec fn tile_of(k: TileType, r: int) -> Tile {
    Tile { tile_type: k, rotation: if is_omni(k) { 0 } else { (r % 6) as u8 } }
}

/// Number of perimeter steps the filled arc of a rotating shape spans.
pub open spec fn arc_len(k: TileType) -> int {
    match k {
        TileType::Small => 2,
        TileType::Half => 3,
        TileType::Large => 4,
        _ => 0,
    }
}

/// Class of perimeter vertex `i` of tile `t`.
pub open spec fn vertex_class(t: Tile, i: int) -> VertexType {
    match t.tile_type {
        TileType::Empty => VertexType::Empty,
        TileType::Full => VertexType::Full,
        _ => {
            let d = (i - t.rotation) % 6;
            if d == 0 || d == arc_len(t.tile_type) {
                VertexType::Both
            } else if d < arc_len(t.tile_type) {
                VertexType::Full
            } else {
                VertexType::Empty
            }
        },
    }
}

/// `f` lists, in increasing order, exactly the vertex indices `i < 6` for
/// which `keep(i)` holds.
pub open spec fn is_fan(f: Seq<usize>, keep: spec_fn(int) -> bool) -> bool {
    &&& forall|a: int, b: int| 0 <= a < b < f.len() ==> f[a] < f[b]
    &&& forall|a: int| 0 <= a < f.len() ==> #[trigger] f[a] < 6 && keep(f[a] as int)
    &&& forall|i: int| 0 <= i < 6 && keep(i) ==> #[trigger] f.contains(i as usize)
}

impl Default for Tile {
    /// An `Empty` (floor) tile.
    fn default() -> (t: Tile)
        ensures
            t == tile_of(TileType::Empty, 0),
    {
        Tile { tile_type: TileType::Empty, rotation: 0 }
    }
}

impl Tile {
    /// Rotation stored in `[0, 6)`, and zero for `Empty` and `Full`.
    pub open spec fn wf(self) -> bool {
        self.rotation < 6 && (is_omni(self.tile_type) ==> self.rotation == 0)
    }

    pub fn new(tile_type: TileType, rotation: u8) -> (t: Tile)
        ensures
            t == tile_of(tile_type, rotation as int),
            t.wf(),
    {
        match tile_type {
            TileType::Empty | TileType::Full => Tile { tile_type, rotation: 0 },
            _ => Tile { tile_type, rotation: rotation % 6 },
        }
    }

    /// Turns the tile by `delta` sixths; `Empty` and `Full` do not change.
    pub fn rotate(&mut self, delta: i8)
        requires
            old(self).wf(),
        ensures
            final(self).wf(),
            final(self).rotation < 6,
            final(self).tile_type == old(self).tile_type,
            is_omni(old(self).tile_type) ==> *final(self) == *old(self),
            !is_omni(old(self).tile_type) ==> final(self).rotation == (old(self).rotation + delta)
                % 6,
    {
        if !self.is_empty_or_full() {
            // Shift by a multiple of 6 so that the remainder is taken of a
            // non-negative number.
            let shifted: u16 = (self.rotation as i16 + delta as i16 + 132) as u16;
            self.rotation = (shifted % 6) as u8;
        }
    }

    pub fn rotation(&self) -> (r: u8)
        ensures
            r == self.rotation,
    {
        self.rotation
    }

    /// True for the shapes without rotational distinction, the only ones a
    /// brush paints with a radius.
    pub fn is_empty_or_full(&self) -> (r: bool)
        ensures
            r == is_omni(self.tile_type),
    {
        match self.tile_type {
            TileType::Empty | TileType::Full => true,
            _ => false,
        }
    }

    /// The class of each of the six perimeter vertices; vertex `i` sits at
    /// angle `i * 60 + 30` degrees.
    pub fn vertex_split(&self) -> (r: [VertexType; 6])
        requires
            self.wf(),
        ensures
            forall|i: int| 0 <= i < 6 ==> #[trigger] r@[i] == vertex_class(*self, i),
    {
        let mut split = [VertexType::Empty; 6];
        let arc: usize = match self.tile_type {
            TileType::Small => 2,
            TileType::Half => 3,
            TileType::Large => 4,
            _ => 0,
        };
        let v = self.rotation as usize;
        let mut i: usize = 0;
        while i < 6
            invariant
                0 <= i <= 6,
                v == self.rotation,
                arc == arc_len(self.tile_type),
                self.wf(),
                forall|j: int| 0 <= j < i ==> #[trigger] split@[j] == vertex_class(*self, j),
            decreases 6 - i,
        {
            let d: usize = (i + 6 - v) % 6;
            let class = match self.tile_type {
                TileType::Empty => VertexType::Empty,
                TileType::Full => VertexType::Full,
                _ => if d == 0 || d == arc {
                    VertexType::Both
                } else if d < arc {
                    VertexType::Full
                } else {
                    VertexType::Empty
                },
            };
            assert(d as int == (i - v) % 6);
            split[i] = class;
            i = i + 1;
        }
        split
    }

    /// The unfilled and the filled vertex fans of the tile.
    pub fn fans(&self) -> (r: (Vec<usize>, Vec<usize>))
        requires
            self.wf(),
        ensures
            is_fan(r.0@, |i: int| vertex_class(*self, i) != VertexType::Full),
            is_fan(r.1@, |i: int| vertex_class(*self, i) != VertexType::Empty),
    {
        Tile::split_to_tile_variant(self.vertex_split())
    }

    /// Splits a vertex classification into the unfilled fan (vertices that
    /// are not `Full`) and the filled fan (vertices that are not `Empty`).
    pub fn split_to_tile_variant(split: [VertexType; 6]) -> (r: (Vec<usize>, Vec<usize>))
        ensures
            is_fan(r.0@, |i: int| split@[i] != VertexType::Full),
            is_fan(r.1@, |i: int| split@[i] != VertexType::Empty),
    {
        let mut empty: Vec<usize> = Vec::new();
        let mut full: Vec<usize> = Vec::new();
        let mut i: usize = 0;
        while i < 6
            invariant
                0 <= i <= 6,
                forall|a: int, b: int| 0 <= a < b < empty@.len() ==> empty@[a] < empty@[b],
                forall|a: int| 0 <= a < empty@.len() ==> #[trigger] empty@[a] < i && split@[empty@[a] as int] != VertexType::Full,
                forall|j: int| 0 <= j < i && split@[j] != VertexType::Full ==> #[trigger] empty@.contains(j as usize),
                forall|a: int, b: int| 0 <= a < b < full@.len() ==> full@[a] < full@[b],
                forall|a: int| 0 <= a < full@.len() ==> #[trigger] full@[a] < i && split@[full@[a] as int] != VertexType::Empty,
                forall|j: int| 0 <= j < i && split@[j] != VertexType::Empty ==> #[trigger] full@.contains(j as usize),
            decreases 6 - i,
        {
            let ghost e0 = empty@;
            let ghost f0 = full@;
            match split[i] {
                VertexType::Empty => empty.push(i),
                VertexType::Both => {
                    empty.push(i);
                    full.push(i);
                },
                VertexType::Full => full.push(i),
            }
            assert(forall|j: int| 0 <= j < i && split@[j] != VertexType::Full ==> e0.contains(j as usize) ==> #[trigger] empty@.contains(j as usize)) by {
                assert forall|j: int| 0 <= j < i && split@[j] != VertexType::Full && e0.contains(j as usize) implies #[trigger] empty@.contains(j as usize) by {
                    let k = choose|k: int| 0 <= k < e0.len() && e0[k] == j as usize;
                    assert(empty@[k] == j as usize);
                }
            }
            assert(forall|j: int| 0 <= j < i && split@[j] != VertexType::Empty ==> f0.contains(j as usize) ==> #[trigger] full@.contains(j as usize)) by {
                assert forall|j: int| 0 <= j < i && split@[j] != VertexType::Empty && f0.contains(j as usize) implies #[trigger] full@.contains(j as usize) by {
                    let k = choose|k: int| 0 <= k < f0.len() && f0[k] == j as usize;
                    assert(full@[k] == j as usize);
                }
            }
            proof {
                if split@[i as int] != VertexType::Full {
                    assert(empty@[empty@.len() - 1] == i);
                }
                if split@[i as int] != VertexType::Empty {
                    assert(full@[full@.len() - 1] == i);
                }
            }
            i = i + 1;
        }
        (empty, full)
    }
}

} // verus!
