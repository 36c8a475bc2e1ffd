//! The editing brush: a template tile and a radius, and the paint, erase,
//! sample and autotile actions it performs on a store.
use vstd::prelude::*;
use crate::autotile::{autotiled, all_in_bounds};
use crate::hex::{Hex, distance, disk_fits, disk_size, RADIUS_LIMIT};
use crate::store::TileStore;
use crate::tile::{Tile, TileType, tile_of, is_omni};

verus! {

/// Discrete editing intents, already resolved from raw input.
#[derive(Debug, Clone, Copy, PartialEq, Eq, Hash, Structural)]
pub enum BrushEvent {
    PickEmpty,
    PickSmall,
    PickHalf,
    PickLarge,
    PickFull,
    RotateClockwise,
    RotateAntiClockwise,
    CloneTile,
    Insert,
    Remove,
    SizeUp,
    SizeDown,
    InsertWalls,
}

/// The brush state: the tile it paints and the radius it paints with.
#[derive(Debug, Clone, Copy, PartialEq, Eq, Structural)]
pub struct Brush {
    pub brush: Tile,
    pub brush_size: u32,
}

/// The brush after picking shape `k`; the rotation is kept for rotating
/// shapes and the radius is kept.
pub open spec fn picked(b: Brush, k: TileType) -> Brush {
    Brush { brush: tile_of(k, b.brush.rotation as int), brush_size: b.brush_size }
}

/// The brush after taking over tile `t`: its type and rotation; the radius
/// is kept.
pub open spec fn sampled(b: Brush, t: Tile) -> Brush {
    Brush { brush: t, brush_size: b.brush_size }
}

/// The brush after sampling the store at `h`: unchanged when `h` is unset.
pub open spec fn sampled_at(b: Brush, m: Map<Hex, Tile>, h: Hex) -> Brush {
    if m.contains_key(h) {
        sampled(b, m[h])
    } else {
        b
    }
}

/// The brush turned by `delta` sixths.
pub open spec fn rotated(b: Brush, delta: int) -> Brush {
    Brush {
        brush: if is_omni(b.brush.tile_type) {
            b.brush
        } else {
            Tile { tile_type: b.brush.tile_type, rotation: ((b.brush.rotation + delta) % 6) as u8 }
        },
        brush_size: b.brush_size,
    }
}

/// The brush with its radius grown by one (saturating).
pub open spec fn grown(b: Brush) -> Brush {
    Brush {
        brush: b.brush,
        brush_size: if b.brush_size == u32::MAX {
            u32::MAX
        } else {
            (b.brush_size + 1) as u32
        },
    }
}

/// The brush with its radius shrunk by one (saturating at zero).
pub open spec fn shrunk(b: Brush) -> Brush {
    Brush {
        brush: b.brush,
        brush_size: if b.brush_size == 0 { 0 } else { (b.brush_size - 1) as u32 },
    }
}

/// The brush with radius zero when its shape paints a single cell.
pub open spec fn settled(b: Brush) -> Brush {
    Brush { brush: b.brush, brush_size: if is_omni(b.brush.tile_type) { b.brush_size } else { 0 } }
}

/// The cells the brush covers at `target`: the disk of its radius for
/// `Empty` and `Full`, the target alone for the other shapes.
pub open spec fn footprint_set(b: Brush, target: Hex) -> Set<Hex> {
    if is_omni(b.brush.tile_type) {
        Set::new(|h: Hex| distance(h, target) <= b.brush_size)
    } else {
        set![target]
    }
}

/// The footprint has representable coordinates and size.
pub open spec fn footprint_fits(b: Brush, target: Hex) -> bool {
    is_omni(b.brush.tile_type) ==> disk_fits(target, b.brush_size)
}

/// The store after painting: every footprint cell holds the brush tile.
pub open spec fn painted(b: Brush, m: Map<Hex, Tile>, target: Hex) -> Map<Hex, Tile> {
    let fp = footprint_set(b, target);
    Map::new(
        |h: Hex| m.contains_key(h) || fp.contains(h),
        |h: Hex|
            if fp.contains(h) {
                b.brush
            } else {
                m[h]
            },
    )
}

/// The store after erasing: every footprint cell is unset.
pub open spec fn erased(b: Brush, m: Map<Hex, Tile>, target: Hex) -> Map<Hex, Tile> {
    m.remove_keys(footprint_set(b, target))
}

/// The brush after the state-only intents of one step, applied in a fixed
/// order: shape picks, rotations, resizes, the reset of the radius to zero
/// for shapes that paint a single cell, then sampling at `h`.
pub open spec fn brush_step(b: Brush, ev: Seq<BrushEvent>, m: Map<Hex, Tile>, h: Hex) -> Brush {
    let b1 = if ev.contains(BrushEvent::PickEmpty) { picked(b, TileType::Empty) } else { b };
    let b2 = if ev.contains(BrushEvent::PickSmall) { picked(b1, TileType::Small) } else { b1 };
    let b3 = if ev.contains(BrushEvent::PickHalf) { picked(b2, TileType::Half) } else { b2 };
    let b4 = if ev.contains(BrushEvent::PickLarge) { picked(b3, TileType::Large) } else { b3 };
    let b5 = if ev.contains(BrushEvent::PickFull) { picked(b4, TileType::Full) } else { b4 };
    let b6 = if ev.contains(BrushEvent::RotateClockwise) { rotated(b5, 1) } else { b5 };
    let b7 = if ev.contains(BrushEvent::RotateAntiClockwise) { rotated(b6, -1) } else { b6 };
    let b8 = if ev.contains(BrushEvent::SizeUp) { grown(b7) } else { b7 };
    let b9 = if ev.contains(BrushEvent::SizeDown) { shrunk(b8) } else { b8 };
    let b10 = settled(b9);
    if ev.contains(BrushEvent::CloneTile) { sampled_at(b10, m, h) } else { b10 }
}

/// The store after the editing intents of one step, made with brush `b` at
/// `h`: paint, then erase, then an autotiling pass. A paint or erase whose
/// footprint leaves the representable coordinates, and a pass over a store
/// with a coordinate out of bounds, are skipped.
pub open spec fn store_step(b: Brush, ev: Seq<BrushEvent>, m: Map<Hex, Tile>, h: Hex) -> Map<Hex, Tile> {
    let m1 = if ev.contains(BrushEvent::Insert) && footprint_fits(b, h) { painted(b, m, h) } else { m };
    let m2 = if ev.contains(BrushEvent::Remove) && footprint_fits(b, h) { erased(b, m1, h) } else { m1 };
    if ev.contains(BrushEvent::InsertWalls) && all_in_bounds(m2) { autotiled(m2) } else { m2 }
}

/// Whether one step asks for the map to be saved.
pub open spec fn step_saves(ev: Seq<BrushEvent>) -> bool {
    ev.contains(BrushEvent::Insert) || ev.contains(BrushEvent::Remove) || ev.contains(
        BrushEvent::InsertWalls,
    )
}

fn has_event(events: &[BrushEvent], e: BrushEvent) -> (r: bool)
    ensures
        r == events@.contains(e),
{
    let mut i: usize = 0;
    while i < events.len()
        invariant
            i <= events@.len(),
            forall|j: int| 0 <= j < i ==> events@[j] != e,
        decreases events@.len() - i,
    {
        if events[i] == e {
            return true;
        }
        i = i + 1;
    }
    false
}

fn footprint_fits_exec(b: &Brush, target: Hex) -> (r: bool)
    ensures
        r == footprint_fits(*b, target),
{
    if !b.brush.is_empty_or_full() {
        return true;
    }
    let n = b.brush_size as i64;
    let x = target.x as i64;
    let y = target.y as i64;
    let ax = if x < 0 { -x } else { x };
    let ay = if y < 0 { -y } else { y };
    b.brush_size <= RADIUS_LIMIT && ax + n <= i32::MAX as i64 && ay + n <= i32::MAX as i64
}

impl Default for Brush {
    /// An `Empty` brush of radius zero.
    fn default() -> (b: Brush)
        ensures
            b.wf(),
            b.brush == tile_of(TileType::Empty, 0),
            b.brush_size == 0,
    {
        Brush::new()
    }
}

impl Brush {
    /// A valid template tile.
    pub open spec fn wf(self) -> bool {
        self.brush.wf()
    }

    /// An `Empty` brush of radius zero.
    pub fn new() -> (b: Brush)
        ensures
            b.wf(),
            b.brush == tile_of(TileType::Empty, 0),
            b.brush_size == 0,
    {
        Brush { brush: Tile::new(TileType::Empty, 0), brush_size: 0 }
    }

    pub fn pick(&mut self, k: TileType)
        requires
            old(self).wf(),
        ensures
            final(self).wf(),
            *final(self) == picked(*old(self), k),
    {
        self.brush = Tile::new(k, self.brush.rotation);
    }

    pub fn rotate(&mut self, delta: i8)
        requires
            old(self).wf(),
        ensures
            final(self).wf(),
            *final(self) == rotated(*old(self), delta as int),
    {
        self.brush.rotate(delta);
    }

    pub fn size_up(&mut self)
        requires
            old(self).wf(),
        ensures
            final(self).wf(),
            *final(self) == grown(*old(self)),
    {
        self.brush_size = self.brush_size.saturating_add(1);
    }

    pub fn size_down(&mut self)
        requires
            old(self).wf(),
        ensures
            final(self).wf(),
            *final(self) == shrunk(*old(self)),
    {
        self.brush_size = self.brush_size.saturating_sub(1);
    }

    /// Takes over the tile at `h`; an unset `h` leaves the brush as it is.
    pub fn sample(&mut self, store: &TileStore, h: Hex)
        requires
            old(self).wf(),
            store.wf(),
        ensures
            final(self).wf(),
            *final(self) == sampled_at(*old(self), store@, h),
            !store@.contains_key(h) ==> *final(self) == *old(self),
    {
        proof {
            store.lemma_tiles_wf();
        }
        if let Some(t) = store.get(h) {
            self.brush = t;
        }
    }

    /// The brush with radius zero when its shape paints a single cell.
pub open spec fn settled(b: Brush) -> Brush {
    Brush { brush: b.brush, brush_size: if is_omni(b.brush.tile_type) { b.brush_size } else { 0 } }
}

/// The cells the brush covers at `target`, each once.
    pub fn footprint(&self, target: Hex) -> (r: Vec<Hex>)
        requires
            footprint_fits(*self, target),
        ensures
            r@.no_duplicates(),
            r@.len() == if is_omni(self.brush.tile_type) {
                disk_size(self.brush_size as int)
            } else {
                1
            },
            forall|h: Hex| #[trigger] r@.contains(h) <==> footprint_set(*self, target).contains(h),
    {
        if self.brush.is_empty_or_full() {
            let r = target.range(self.brush_size);
            assert forall|h: Hex| #[trigger] r@.contains(h) implies footprint_set(*self, target).contains(h) by {
                let i = choose|i: int| 0 <= i < r@.len() && r@[i] == h;
            }
            r
        } else {
            let r = vec![target];
            assert(r@[0] == target);
            r
        }
    }

    /// Writes the brush tile to every cell of its footprint at `target`.
    pub fn paint(&self, store: &mut TileStore, target: Hex)
        requires
            self.wf(),
            old(store).wf(),
            footprint_fits(*self, target),
        ensures
            final(store).wf(),
            final(store)@ == painted(*self, old(store)@, target),
    {
        let ghost m0 = store@;
        let cells = self.footprint(target);
        let mut i: usize = 0;
        while i < cells.len()
            invariant
                i <= cells@.len(),
                store.wf(),
                self.wf(),
                forall|h: Hex| #[trigger] cells@.contains(h) <==> footprint_set(*self, target).contains(h),
                store@ == Map::new(
                    |h: Hex| m0.contains_key(h) || cells@.subrange(0, i as int).contains(h),
                    |h: Hex| if cells@.subrange(0, i as int).contains(h) { self.brush } else { m0[h] },
                ),
            decreases cells@.len() - i,
        {
            let ghost before = cells@.subrange(0, i as int);
            store.insert(cells[i], self.brush);
            let ghost after = cells@.subrange(0, i + 1);
            assert forall|h: Hex| #[trigger] after.contains(h) <==> before.contains(h) || h == cells@[i as int] by {
                if after.contains(h) && h != cells@[i as int] {
                    let k = choose|k: int| 0 <= k < after.len() && after[k] == h;
                    assert(before[k] == h);
                }
                if before.contains(h) {
                    let k = choose|k: int| 0 <= k < before.len() && before[k] == h;
                    assert(after[k] == h);
                }
                if h == cells@[i as int] {
                    assert(after[i as int] == h);
                }
            }
            i = i + 1;
            assert(store@ =~= Map::new(
                |h: Hex| m0.contains_key(h) || cells@.subrange(0, i as int).contains(h),
                |h: Hex| if cells@.subrange(0, i as int).contains(h) { self.brush } else { m0[h] },
            ));
        }
        assert(cells@.subrange(0, cells@.len() as int) == cells@);
        assert(store@ =~= painted(*self, m0, target));
    }

    /// Unsets every cell of the brush footprint at `target`.
    pub fn erase(&self, store: &mut TileStore, target: Hex)
        requires
            old(store).wf(),
            footprint_fits(*self, target),
        ensures
            final(store).wf(),
            final(store)@ == erased(*self, old(store)@, target),
    {
        let ghost m0 = store@;
        let cells = self.footprint(target);
        let mut i: usize = 0;
        while i < cells.len()
            invariant
                i <= cells@.len(),
                store.wf(),
                forall|h: Hex| #[trigger] cells@.contains(h) <==> footprint_set(*self, target).contains(h),
                store@ == m0.remove_keys(cells@.subrange(0, i as int).to_set()),
            decreases cells@.len() - i,
        {
            let ghost before = cells@.subrange(0, i as int);
            store.remove(cells[i]);
            let ghost after = cells@.subrange(0, i + 1);
            assert(after.to_set() =~= before.to_set().insert(cells@[i as int])) by {
                assert forall|h: Hex| #[trigger] after.contains(h) <==> before.contains(h) || h == cells@[i as int] by {
                    if after.contains(h) && h != cells@[i as int] {
                        let k = choose|k: int| 0 <= k < after.len() && after[k] == h;
                        assert(before[k] == h);
                    }
                    if before.contains(h) {
                        let k = choose|k: int| 0 <= k < before.len() && before[k] == h;
                        assert(after[k] == h);
                    }
                    if h == cells@[i as int] {
                        assert(after[i as int] == h);
                    }
                }
            }
            i = i + 1;
            assert(store@ =~= m0.remove_keys(cells@.subrange(0, i as int).to_set()));
        }
        assert(cells@.subrange(0, cells@.len() as int) == cells@);
        assert(cells@.to_set() =~= footprint_set(*self, target));
        assert(store@ =~= erased(*self, m0, target));
    }

    /// One editing step: applies the intents in `events` with the cursor at
    /// `hovered`, and returns whether the map should now be saved.
    pub fn handle_events(&mut self, store: &mut TileStore, events: &[BrushEvent], hovered: Hex) -> (save: bool)
        requires
            old(self).wf(),
            old(store).wf(),
        ensures
            final(self).wf(),
            final(store).wf(),
            *final(self) == brush_step(*old(self), events@, old(store)@, hovered),
            final(store)@ == store_step(*final(self), events@, old(store)@, hovered),
            save == step_saves(events@),
    {
        self.apply_state_events(store, events, hovered);
        self.apply_store_events(store, events, hovered)
    }

    fn apply_state_events(&mut self, store: &TileStore, events: &[BrushEvent], hovered: Hex)
        requires
            old(self).wf(),
            store.wf(),
        ensures
            final(self).wf(),
            *final(self) == brush_step(*old(self), events@, store@, hovered),
    {
        let ghost ev = events@;
        let ghost b = *self;
        let ghost b1 = if ev.contains(BrushEvent::PickEmpty) { picked(b, TileType::Empty) } else { b };
        let ghost b2 = if ev.contains(BrushEvent::PickSmall) { picked(b1, TileType::Small) } else { b1 };
        let ghost b3 = if ev.contains(BrushEvent::PickHalf) { picked(b2, TileType::Half) } else { b2 };
        let ghost b4 = if ev.contains(BrushEvent::PickLarge) { picked(b3, TileType::Large) } else { b3 };
        let ghost b5 = if ev.contains(BrushEvent::PickFull) { picked(b4, TileType::Full) } else { b4 };
        let ghost b6 = if ev.contains(BrushEvent::RotateClockwise) { rotated(b5, 1) } else { b5 };
        let ghost b7 = if ev.contains(BrushEvent::RotateAntiClockwise) { rotated(b6, -1) } else { b6 };
        let ghost b8 = if ev.contains(BrushEvent::SizeUp) { grown(b7) } else { b7 };
        let ghost b9 = if ev.contains(BrushEvent::SizeDown) { shrunk(b8) } else { b8 };
        let ghost b10 = settled(b9);
        if has_event(events, BrushEvent::PickEmpty) {
            self.pick(TileType::Empty);
        }
        assert(*self == b1);
        if has_event(events, BrushEvent::PickSmall) {
            self.pick(TileType::Small);
        }
        assert(*self == b2);
        if has_event(events, BrushEvent::PickHalf) {
            self.pick(TileType::Half);
        }
        assert(*self == b3);
        if has_event(events, BrushEvent::PickLarge) {
            self.pick(TileType::Large);
        }
        assert(*self == b4);
        if has_event(events, BrushEvent::PickFull) {
            self.pick(TileType::Full);
        }
        assert(*self == b5);
        if has_event(events, BrushEvent::RotateClockwise) {
            self.rotate(1);
        }
        assert(*self == b6);
        if has_event(events, BrushEvent::RotateAntiClockwise) {
            self.rotate(-1);
        }
        assert(*self == b7);
        if has_event(events, BrushEvent::SizeUp) {
            self.size_up();
        }
        assert(*self == b8);
        if has_event(events, BrushEvent::SizeDown) {
            self.size_down();
        }
        assert(*self == b9);
        if !self.brush.is_empty_or_full() {
            self.brush_size = 0;
        }
        assert(*self == b10);
        if has_event(events, BrushEvent::CloneTile) {
            self.sample(store, hovered);
        }
    }

    fn apply_store_events(&self, store: &mut TileStore, events: &[BrushEvent], hovered: Hex) -> (save: bool)
        requires
            self.wf(),
            old(store).wf(),
        ensures
            final(store).wf(),
            final(store)@ == store_step(*self, events@, old(store)@, hovered),
            save == step_saves(events@),
    {
        let ghost ev = events@;
        let ghost m = store@;
        let ghost m1 = if ev.contains(BrushEvent::Insert) && footprint_fits(*self, hovered) { painted(*self, m, hovered) } else { m };
        let ghost m2 = if ev.contains(BrushEvent::Remove) && footprint_fits(*self, hovered) { erased(*self, m1, hovered) } else { m1 };
        let mut save = false;
        if has_event(events, BrushEvent::Insert) {
            if footprint_fits_exec(self, hovered) {
                self.paint(store, hovered);
            }
            save = true;
        }
        assert(store@ == m1);
        if has_event(events, BrushEvent::Remove) {
            if footprint_fits_exec(self, hovered) {
                self.erase(store, hovered);
            }
            save = true;
        }
        assert(store@ == m2);
        if has_event(events, BrushEvent::InsertWalls) {
            if crate::autotile::store_in_bounds(store) {
                self.insert_walls(store);
            }
            save = true;
        }
        save
    }

    /// Runs one autotiling pass over the store.
    pub fn insert_walls(&self, store: &mut TileStore)
        requires
            old(store).wf(),
            all_in_bounds(old(store)@),
        ensures
            final(store).wf(),
            final(store)@ == autotiled(old(store)@),
            forall|h: Hex| #[trigger] old(store)@.contains_key(h)
                ==> final(store)@.contains_key(h) && final(store)@[h] == old(store)@[h],
    {
        crate::autotile::insert_walls(store);
    }
}

} // verus!
