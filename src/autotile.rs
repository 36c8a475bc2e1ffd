//! The autotiling pass: around the floor cells of a store, unset cells get
//! the wall tile that matches which of their own neighbours are floor.
//!
//! A cell's six neighbours, taken in the fixed neighbour order, give a
//! circular mask of floor / not floor. A mask with a single circular run of
//! floor neighbours of length `l`, starting at index `s`, resolves to:
//!
//! | run length | tile    | rotation          |
//! |------------|---------|-------------------|
//! | 6 or 5     | `Empty` | none              |
//! | 4          | `Small` | `(s + 3) % 6`     |
//! | 3          | `Half`  | `(s + 2) % 6`     |
//! | 2          | `Large` | `(s + 1) % 6`     |
//! | 1 or 0     | `Full`  | none              |
//!
//! that is, a rotating tile is turned to the index of the last floor
//! neighbour of the run. A mask with two or more runs is left unresolved.
use vstd::prelude::*;
use crate::hex::{Hex, neighbor_at, in_bounds, has_neighbors, COORD_LIMIT};
use crate::store::{TileStore, map_of, lemma_map_of_sorted};
use crate::tile::{Tile, TileType, tile_of};

verus! {

/// `h` holds a floor (`Empty`) tile.
pub open spec fn is_floor(m: Map<Hex, Tile>, h: Hex) -> bool {
    m.contains_key(h) && m[h].tile_type == TileType::Empty
}

/// Which neighbours of `h` are floor, in the fixed neighbour order.
pub open spec fn mask_of(m: Map<Hex, Tile>, h: Hex) -> Seq<bool> {
    Seq::new(6, |i: int| is_floor(m, neighbor_at(h, i)))
}

/// The floor neighbours form exactly the circular run of length `l` that
/// starts at index `s`.
pub open spec fn is_run(mask: Seq<bool>, s: int, l: int) -> bool {
    forall|i: int| 0 <= i < 6 ==> #[trigger] mask[i] == ((i - s) % 6 < l)
}

pub open spec fn is_partial_run(mask: Seq<bool>, s: int, l: int) -> bool {
    0 <= s < 6 && 1 <= l <= 5 && is_run(mask, s, l)
}

pub open spec fn all_eq(mask: Seq<bool>, b: bool) -> bool {
    forall|i: int| 0 <= i < 6 ==> #[trigger] mask[i] == b
}

/// The wall tile for a single run of length `l` (between 1 and 5)
/// starting at `s`.
pub open spec fn run_tile(s: int, l: int) -> Tile {
    if l == 5 {
        tile_of(TileType::Empty, 0)
    } else if l == 4 {
        tile_of(TileType::Small, s + 3)
    } else if l == 3 {
        tile_of(TileType::Half, s + 2)
    } else if l == 2 {
        tile_of(TileType::Large, s + 1)
    } else {
        tile_of(TileType::Full, 0)
    }
}

/// The tile a neighbour mask resolves to, or `None` when the floor
/// neighbours do not form one contiguous run.
pub open spec fn resolve(mask: Seq<bool>) -> Option<Tile> {
    if all_eq(mask, true) {
        Some(tile_of(TileType::Empty, 0))
    } else if all_eq(mask, false) {
        Some(tile_of(TileType::Full, 0))
    } else if exists|s: int, l: int| is_partial_run(mask, s, l) {
        let (s, l) = choose|s: int, l: int| is_partial_run(mask, s, l);
        Some(run_tile(s, l))
    } else {
        None
    }
}

/// An unset cell next to a floor cell.
pub open spec fn is_candidate(m: Map<Hex, Tile>, h: Hex) -> bool {
    !m.contains_key(h) && exists|f: Hex, j: int|
        0 <= j < 6 && is_floor(m, f) && #[trigger] neighbor_at(f, j) == h
}

/// A cell the pass fills: a candidate whose mask resolves.
pub open spec fn is_filled(m: Map<Hex, Tile>, h: Hex) -> bool {
    is_candidate(m, h) && resolve(mask_of(m, h)) is Some
}

/// The store after one pass: every cell kept, every filled cell added with
/// the tile its mask (over the store before the pass) resolves to.
pub open spec fn autotiled(m: Map<Hex, Tile>) -> Map<Hex, Tile> {
    Map::new(
        |h: Hex| m.contains_key(h) || is_filled(m, h),
        |h: Hex|
            if m.contains_key(h) {
                m[h]
            } else {
                resolve(mask_of(m, h))->Some_0
            },
    )
}

/// Every coordinate of the map is in bounds.
pub open spec fn all_in_bounds(m: Map<Hex, Tile>) -> bool {
    forall|h: Hex| #[trigger] m.contains_key(h) ==> in_bounds(h)
}

/// Whether every coordinate of the store is in bounds.
pub fn store_in_bounds(store: &TileStore) -> (r: bool)
    requires
        store.wf(),
    ensures
        r == all_in_bounds(store@),
{
    let recs = store.records();
    proof {
        lemma_map_of_sorted(store.items());
    }
    let mut i: usize = 0;
    while i < recs.len()
        invariant
            i <= recs@.len(),
            recs@ == store.items(),
            store.wf(),
            forall|j: int| 0 <= j < i ==> in_bounds(#[trigger] recs@[j].0),
        decreases recs@.len() - i,
    {
        let h = recs[i].0;
        if !(-COORD_LIMIT <= h.x && h.x <= COORD_LIMIT && -COORD_LIMIT <= h.y && h.y <= COORD_LIMIT) {
            proof {
                lemma_map_of_sorted(store.items());
                assert(0 <= i < recs@.len() && recs@[i as int].0 == h);
                assert(store@.contains_key(h));
                assert(!in_bounds(h));
            }
            return false;
        }
        i = i + 1;
    }
    assert forall|h: Hex| #[trigger] store@.contains_key(h) implies in_bounds(h) by {
        let j = choose|j: int| 0 <= j < recs@.len() && recs@[j].0 == h;
    }
    true
}

/// A mask has at most one decomposition into a single partial run.
proof fn lemma_run_unique(mask: Seq<bool>, s1: int, l1: int, s2: int, l2: int)
    requires
        is_partial_run(mask, s1, l1),
        is_partial_run(mask, s2, l2),
    ensures
        s1 == s2,
        l1 == l2,
{
    let p1 = (s1 + 5) % 6;
    assert(mask[s1]);
    assert(!mask[p1]);
    assert(mask[s2]);
    if s1 != s2 {
        let d = (s1 - s2) % 6;
        assert(d < l2);
        assert((p1 - s2) % 6 == d - 1);
        assert(mask[p1]);
    }
    if l1 < l2 {
        let q = (s1 + l1) % 6;
        assert(!mask[q]);
        assert((q - s2) % 6 == l1);
    }
    if l2 < l1 {
        let q = (s2 + l2) % 6;
        assert(!mask[q]);
        assert((q - s1) % 6 == l2);
    }
}

/// A mask made of a single partial run resolves to that run's tile.
pub proof fn lemma_resolve_run(mask: Seq<bool>, s: int, l: int)
    requires
        mask.len() == 6,
        is_partial_run(mask, s, l),
    ensures
        resolve(mask) == Some(run_tile(s, l)),
{
    assert(mask[s]);
    assert(!mask[(s + 5) % 6]);
    let (s1, l1) = choose|s1: int, l1: int| is_partial_run(mask, s1, l1);
    lemma_run_unique(mask, s, l, s1, l1);
}

/// Whether `mask` is the run of length `l` starting at `s`.
fn check_run(mask: &[bool; 6], s: usize, l: usize) -> (r: bool)
    requires
        s < 6,
        l <= 6,
    ensures
        r == is_run(mask@, s as int, l as int),
{
    let mut i: usize = 0;
    while i < 6
        invariant
            i <= 6,
            s < 6,
            l <= 6,
            forall|j: int| 0 <= j < i ==> #[trigger] mask@[j] == ((j - s) % 6 < l),
        decreases 6 - i,
    {
        let d: usize = (i + 6 - s) % 6;
        assert(d as int == (i - s) % 6);
        if mask[i] != (d < l) {
            return false;
        }
        i = i + 1;
    }
    true
}

fn run_tile_exec(s: usize, l: usize) -> (t: Tile)
    requires
        s < 6,
        1 <= l <= 5,
    ensures
        t == run_tile(s as int, l as int),
        t.wf(),
{
    if l == 5 {
        Tile::new(TileType::Empty, 0)
    } else if l == 4 {
        Tile::new(TileType::Small, (s + 3) as u8)
    } else if l == 3 {
        Tile::new(TileType::Half, (s + 2) as u8)
    } else if l == 2 {
        Tile::new(TileType::Large, (s + 1) as u8)
    } else {
        Tile::new(TileType::Full, 0)
    }
}

/// The tile a neighbour mask resolves to, or `None` for a mask whose floor
/// neighbours form more than one run.
pub fn resolve_mask(mask: [bool; 6]) -> (r: Option<Tile>)
    ensures
        r == resolve(mask@),
        r is Some ==> r->Some_0.wf(),
{
    if check_run(&mask, 0, 6) {
        assert(all_eq(mask@, true));
        return Some(Tile::new(TileType::Empty, 0));
    }
    if check_run(&mask, 0, 0) {
        assert(all_eq(mask@, false));
        return Some(Tile::new(TileType::Full, 0));
    }
    assert(!all_eq(mask@, true)) by {
        if all_eq(mask@, true) {
            assert(is_run(mask@, 0, 6));
        }
    }
    assert(!all_eq(mask@, false)) by {
        if all_eq(mask@, false) {
            assert(is_run(mask@, 0, 0));
        }
    }
    let mut s: usize = 0;
    while s < 6
        invariant
            s <= 6,
            !all_eq(mask@, true),
            !all_eq(mask@, false),
            forall|s0: int, l0: int| 0 <= s0 < s && 1 <= l0 <= 5 ==> !is_run(mask@, s0, l0),
        decreases 6 - s,
    {
        let mut l: usize = 1;
        while l <= 5
            invariant
                s < 6,
                1 <= l <= 6,
                !all_eq(mask@, true),
                !all_eq(mask@, false),
                forall|s0: int, l0: int| 0 <= s0 < s && 1 <= l0 <= 5 ==> !is_run(mask@, s0, l0),
                forall|l0: int| 1 <= l0 < l ==> !is_run(mask@, s as int, l0),
            decreases 6 - l,
        {
            if check_run(&mask, s, l) {
                proof {
                    let (s1, l1) = choose|s1: int, l1: int| is_partial_run(mask@, s1, l1);
                    lemma_run_unique(mask@, s as int, l as int, s1, l1);
                }
                return Some(run_tile_exec(s, l));
            }
            l = l + 1;
        }
        s = s + 1;
    }
    None
}

/// Which neighbours of `h` hold a floor tile in `snap`.
fn floor_mask(snap: &TileStore, h: Hex) -> (r: [bool; 6])
    requires
        snap.wf(),
        has_neighbors(h),
    ensures
        r@ == mask_of(snap@, h),
{
    let ns = h.all_neighbors();
    let mut mask = [false; 6];
    let mut i: usize = 0;
    while i < 6
        invariant
            i <= 6,
            snap.wf(),
            forall|j: int| 0 <= j < 6 ==> #[trigger] ns@[j] == neighbor_at(h, j),
            forall|j: int| 0 <= j < i ==> #[trigger] mask@[j] == is_floor(snap@, neighbor_at(h, j)),
        decreases 6 - i,
    {
        let floor = match snap.get(ns[i]) {
            Some(t) => t.tile_type == TileType::Empty,
            None => false,
        };
        mask[i] = floor;
        i = i + 1;
    }
    assert(mask@ =~= mask_of(snap@, h));
    mask
}

/// One autotiling pass. Masks are read from the store as it was before the
/// pass, so cells filled by the pass do not affect one another; cells that
/// hold a tile are never overwritten.
pub fn insert_walls(store: &mut TileStore)
    requires
        old(store).wf(),
        all_in_bounds(old(store)@),
    ensures
        final(store).wf(),
        final(store)@ == autotiled(old(store)@),
        forall|h: Hex| #[trigger] old(store)@.contains_key(h)
            ==> final(store)@.contains_key(h) && final(store)@[h] == old(store)@[h],
{
    let ghost m0 = store@;
    let snap = store.clone_snapshot();
    let recs = snap.records();
    proof {
        lemma_map_of_sorted(snap.items());
    }
    let n = recs.len();
    let mut k: usize = 0;
    while k < n
        invariant
            k <= n,
            n == recs@.len(),
            recs@ == snap.items(),
            snap.wf(),
            snap@ == m0,
            store.wf(),
            all_in_bounds(m0),
            forall|i: int| 0 <= i < recs@.len() ==> m0.contains_key(#[trigger] recs@[i].0)
                && m0[recs@[i].0] == recs@[i].1,
            forall|h: Hex| #[trigger] m0.contains_key(h) ==> store@.contains_key(h) && store@[h] == m0[h],
            forall|h: Hex| #[trigger] store@.contains_key(h) && !m0.contains_key(h)
                ==> is_filled(m0, h) && resolve(mask_of(m0, h)) == Some(store@[h]),
            forall|kk: int, j: int| 0 <= kk < k && 0 <= j < 6 && recs@[kk].1.tile_type == TileType::Empty
                && is_filled(m0, #[trigger] neighbor_at(recs@[kk].0, j))
                ==> store@.contains_key(neighbor_at(recs@[kk].0, j)),
        decreases n - k,
    {
        let (hex, tile) = recs[k];
        if tile.tile_type == TileType::Empty {
            assert(m0.contains_key(recs@[k as int].0));
            assert(in_bounds(hex));
            let ns = hex.all_neighbors();
            let mut j: usize = 0;
            while j < 6
                invariant
                    k < n,
                    n == recs@.len(),
                    recs@ == snap.items(),
                    hex == recs@[k as int].0,
                    tile == recs@[k as int].1,
                    tile.tile_type == TileType::Empty,
                    in_bounds(hex),
                    j <= 6,
                    snap.wf(),
                    snap@ == m0,
                    store.wf(),
                    is_floor(m0, hex),
                    forall|i: int| 0 <= i < 6 ==> #[trigger] ns@[i] == neighbor_at(hex, i),
                    forall|h: Hex| #[trigger] m0.contains_key(h) ==> store@.contains_key(h) && store@[h] == m0[h],
                    forall|h: Hex| #[trigger] store@.contains_key(h) && !m0.contains_key(h)
                        ==> is_filled(m0, h) && resolve(mask_of(m0, h)) == Some(store@[h]),
                    forall|kk: int, jj: int| 0 <= kk < k && 0 <= jj < 6 && recs@[kk].1.tile_type == TileType::Empty
                        && is_filled(m0, #[trigger] neighbor_at(recs@[kk].0, jj))
                        ==> store@.contains_key(neighbor_at(recs@[kk].0, jj)),
                    forall|jj: int| 0 <= jj < j && is_filled(m0, #[trigger] neighbor_at(hex, jj))
                        ==> store@.contains_key(neighbor_at(hex, jj)),
                decreases 6 - j,
            {
                let c = ns[j];
                if !store.contains(c) {
                    assert(!m0.contains_key(c));
                    assert(is_candidate(m0, c)) by {
                        assert(neighbor_at(hex, j as int) == c);
                    }
                    let mask = floor_mask(&snap, c);
                    match resolve_mask(mask) {
                        Some(t) => {
                            store.insert(c, t);
                        },
                        None => {},
                    }
                }
                j = j + 1;
            }
        }
        k = k + 1;
    }
    proof {
        let m1 = autotiled(m0);
        assert forall|h: Hex| m1.contains_key(h) implies #[trigger] store@.contains_key(h) by {
            if !m0.contains_key(h) {
                let (f, j) = choose|f: Hex, j: int|
                    0 <= j < 6 && is_floor(m0, f) && #[trigger] neighbor_at(f, j) == h;
                let kk = choose|kk: int| 0 <= kk < recs@.len() && recs@[kk].0 == f;
                assert(recs@[kk].1 == m0[f]);
            }
        }
        assert(store@ =~= m1);
    }
}

/// Stepping to neighbour `j` and then to the opposite neighbour returns to
/// the start.
proof fn lemma_neighbor_back(f: Hex, j: int)
    requires
        has_neighbors(f),
        0 <= j < 6,
    ensures
        neighbor_at(neighbor_at(f, j), (j + 3) % 6) == f,
{
}

/// Running the pass twice gives what running it once gives, on every store
/// where the floor cells the first pass adds change nothing for the second:
/// no cell left unset next to such a new floor cell resolves once that floor
/// is counted. (A new floor cell is an unset cell with five or six floor
/// neighbours; other cells see the same masks in both passes.)
pub proof fn lemma_insert_walls_idempotent(m: Map<Hex, Tile>)
    requires
        all_in_bounds(m),
        forall|h: Hex, i: int|
            0 <= i < 6 && !autotiled(m).contains_key(h) && is_floor(autotiled(m), #[trigger] neighbor_at(h, i))
                && !is_floor(m, neighbor_at(h, i)) ==> resolve(mask_of(autotiled(m), h)) is None,
    ensures
        autotiled(autotiled(m)) == autotiled(m),
{
    let m1 = autotiled(m);
    assert forall|h: Hex| !#[trigger] is_filled(m1, h) by {
        if is_filled(m1, h) {
            let (f, j) = choose|f: Hex, j: int|
                0 <= j < 6 && is_floor(m1, f) && #[trigger] neighbor_at(f, j) == h;
            if exists|i: int| 0 <= i < 6 && is_floor(m1, #[trigger] neighbor_at(h, i)) && !is_floor(m, neighbor_at(h, i)) {
                let i = choose|i: int| 0 <= i < 6 && is_floor(m1, #[trigger] neighbor_at(h, i)) && !is_floor(m, neighbor_at(h, i));
                assert(resolve(mask_of(m1, h)) is None);
            } else {
                assert(mask_of(m1, h) =~= mask_of(m, h));
                // `f` is a neighbour of `h`, so it was floor before the pass.
                if m.contains_key(f) {
                    assert(in_bounds(f));
                } else {
                    let (g, k) = choose|g: Hex, k: int|
                        0 <= k < 6 && is_floor(m, g) && #[trigger] neighbor_at(g, k) == f;
                    assert(in_bounds(g));
                }
                lemma_neighbor_back(f, j);
                assert(neighbor_at(h, (j + 3) % 6) == f);
                assert(is_floor(m, f));
                assert(is_candidate(m, h));
                assert(is_filled(m, h));
            }
        }
    }
    assert(autotiled(m1) =~= m1);
}

} // verus!
