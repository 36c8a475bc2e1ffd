//! The tile store: a sparse map from hex coordinates to tiles, kept as a
//! vector of records sorted by coordinate.
use vstd::prelude::*;
use crate::hex::Hex;
use crate::tile::Tile;

verus! {

/// Order of records: by `x`, then by `y`.
pub open spec fn hex_lt(a: Hex, b: Hex) -> bool {
    a.x < b.x || (a.x == b.x && a.y < b.y)
}

/// Records strictly increasing by coordinate; in particular no coordinate
/// occurs twice.
pub open spec fn sorted_keys(s: Seq<(Hex, Tile)>) -> bool {
    forall|i: int, j: int| 0 <= i < j < s.len() ==> hex_lt(#[trigger] s[i].0, #[trigger] s[j].0)
}

/// The map that inserting the records in order builds.
pub open spec fn map_of(s: Seq<(Hex, Tile)>) -> Map<Hex, Tile>
    decreases s.len(),
{
    if s.len() == 0 {
        Map::empty()
    } else {
        map_of(s.drop_last()).insert(s.last().0, s.last().1)
    }
}

/// What `map_of` holds: the coordinates of the records, each with the tile of
/// its last record.
pub proof fn lemma_map_of(s: Seq<(Hex, Tile)>)
    ensures
        forall|h: Hex| #[trigger]
            map_of(s).contains_key(h) <==> exists|i: int| 0 <= i < s.len() && s[i].0 == h,
        forall|i: int|
            0 <= i < s.len() && (forall|j: int| i < j < s.len() ==> s[j].0 != s[i].0)
                ==> #[trigger] map_of(s)[s[i].0] == s[i].1,
    decreases s.len(),
{
    if s.len() > 0 {
        let p = s.drop_last();
        lemma_map_of(p);
        assert(map_of(s) == map_of(p).insert(s.last().0, s.last().1));
        assert forall|h: Hex| #[trigger]
            map_of(s).contains_key(h) <==> exists|i: int| 0 <= i < s.len() && s[i].0 == h by {
            if map_of(s).contains_key(h) && h != s.last().0 {
                let i = choose|i: int| 0 <= i < p.len() && p[i].0 == h;
                assert(s[i].0 == h);
            }
            if exists|i: int| 0 <= i < s.len() && s[i].0 == h {
                let i = choose|i: int| 0 <= i < s.len() && s[i].0 == h;
                if i < p.len() {
                    assert(p[i].0 == h);
                }
            }
        }
        assert forall|i: int|
            0 <= i < s.len() && (forall|j: int| i < j < s.len() ==> s[j].0 != s[i].0)
                implies #[trigger] map_of(s)[s[i].0] == s[i].1 by {
            if i < p.len() {
                assert(s[s.len() - 1].0 != s[i].0);
                assert(p[i] == s[i]);
                assert forall|j: int| i < j < p.len() implies p[j].0 != p[i].0 by {
                    assert(p[j] == s[j]);
                }
            }
        }
    }
}

/// For sorted records, each record's tile is what the map holds at its
/// coordinate.
pub proof fn lemma_map_of_sorted(s: Seq<(Hex, Tile)>)
    requires
        sorted_keys(s),
    ensures
        forall|h: Hex| #[trigger]
            map_of(s).contains_key(h) <==> exists|i: int| 0 <= i < s.len() && s[i].0 == h,
        forall|i: int| 0 <= i < s.len() ==> #[trigger] map_of(s)[s[i].0] == s[i].1,
{
    lemma_map_of(s);
    assert forall|i: int| 0 <= i < s.len() implies #[trigger] map_of(s)[s[i].0] == s[i].1 by {
        assert forall|j: int| i < j < s.len() implies s[j].0 != s[i].0 by {
            assert(hex_lt(s[i].0, s[j].0));
        }
    }
}

/// Two sorted record sequences with the same coordinates and tiles build the
/// same map.
proof fn lemma_map_of_ext(s: Seq<(Hex, Tile)>, m: Map<Hex, Tile>)
    requires
        sorted_keys(s),
        forall|h: Hex| #[trigger]
            m.contains_key(h) <==> exists|i: int| 0 <= i < s.len() && s[i].0 == h,
        forall|i: int| 0 <= i < s.len() ==> #[trigger] m[s[i].0] == s[i].1,
    ensures
        map_of(s) == m,
{
    lemma_map_of_sorted(s);
    assert forall|h: Hex| #[trigger] m.contains_key(h) implies map_of(s)[h] == m[h] by {
        let i = choose|i: int| 0 <= i < s.len() && s[i].0 == h;
        assert(map_of(s)[s[i].0] == s[i].1);
    }
    assert(map_of(s) =~= m);
}

fn hex_less(a: Hex, b: Hex) -> (r: bool)
    ensures
        r == hex_lt(a, b),
{
    a.x < b.x || (a.x == b.x && a.y < b.y)
}

/// A sparse map from coordinates to tiles. A missing coordinate is unset,
/// which differs from a coordinate that holds an `Empty` (floor) tile.
#[derive(Debug)]
pub struct TileStore {
    entries: Vec<(Hex, Tile)>,
}

impl Default for TileStore {
    /// A store with no tile.
    fn default() -> (s: TileStore)
        ensures
            s.wf(),
            s@ == Map::<Hex, Tile>::empty(),
    {
        TileStore::new()
    }
}

impl TileStore {
    /// The records, sorted by coordinate.
    pub closed spec fn items(&self) -> Seq<(Hex, Tile)> {
        self.entries@
    }

    /// Records sorted by coordinate, each with a valid tile.
    pub open spec fn wf(&self) -> bool {
        &&& sorted_keys(self.items())
        &&& forall|i: int| 0 <= i < self.items().len() ==> (#[trigger] self.items()[i]).1.wf()
    }

    /// Every tile of the store is valid.
    pub proof fn lemma_tiles_wf(&self)
        requires
            self.wf(),
        ensures
            forall|h: Hex| #[trigger] self@.contains_key(h) ==> self@[h].wf(),
    {
        lemma_map_of_sorted(self.items());
        assert forall|h: Hex| #[trigger] self@.contains_key(h) implies self@[h].wf() by {
            let i = choose|i: int| 0 <= i < self.items().len() && self.items()[i].0 == h;
            assert(self.items()[i].1.wf());
        }
    }

    pub open spec fn view(&self) -> Map<Hex, Tile> {
        map_of(self.items())
    }

    pub fn new() -> (s: TileStore)
        ensures
            s.wf(),
            s@ == Map::<Hex, Tile>::empty(),
            s.items().len() == 0,
    {
        TileStore { entries: Vec::new() }
    }

    /// Index of the first record whose coordinate is not below `h`.
    fn lower_bound(&self, h: Hex) -> (r: usize)
        requires
            self.wf(),
        ensures
            r <= self.items().len(),
            forall|i: int| 0 <= i < r ==> hex_lt(#[trigger] self.items()[i].0, h),
            forall|i: int| r <= i < self.items().len() ==> !hex_lt(#[trigger] self.items()[i].0, h),
    {
        let mut lo: usize = 0;
        let mut hi: usize = self.entries.len();
        while lo < hi
            invariant
                self.wf(),
                lo <= hi <= self.entries@.len(),
                forall|i: int| 0 <= i < lo ==> hex_lt(#[trigger] self.entries@[i].0, h),
                forall|i: int| hi <= i < self.entries@.len() ==> !hex_lt(#[trigger] self.entries@[i].0, h),
            decreases hi - lo,
        {
            let mid = lo + (hi - lo) / 2;
            if hex_less(self.entries[mid].0, h) {
                assert forall|i: int| 0 <= i <= mid implies hex_lt(#[trigger] self.entries@[i].0, h) by {
                    if i < mid {
                        assert(hex_lt(self.entries@[i].0, self.entries@[mid as int].0));
                    }
                }
                lo = mid + 1;
            } else {
                assert forall|i: int| mid <= i < self.entries@.len() implies !hex_lt(#[trigger] self.entries@[i].0, h) by {
                    if i > mid {
                        assert(hex_lt(self.entries@[mid as int].0, self.entries@[i].0));
                    }
                }
                hi = mid;
            }
        }
        lo
    }

    /// The tile at `h`, if any.
    pub fn get(&self, h: Hex) -> (r: Option<Tile>)
        requires
            self.wf(),
        ensures
            r == (if self@.contains_key(h) { Some(self@[h]) } else { None::<Tile> }),
    {
        proof {
            lemma_map_of_sorted(self.items());
        }
        let i = self.lower_bound(h);
        if i < self.entries.len() && self.entries[i].0 == h {
            Some(self.entries[i].1)
        } else {
            proof {
                if self@.contains_key(h) {
                    let j = choose|j: int| 0 <= j < self.items().len() && self.items()[j].0 == h;
                    if j > i {
                        assert(hex_lt(self.items()[i as int].0, self.items()[j].0));
                    }
                }
            }
            None
        }
    }

    pub fn contains(&self, h: Hex) -> (r: bool)
        requires
            self.wf(),
        ensures
            r == self@.contains_key(h),
    {
        self.get(h).is_some()
    }

    /// Sets the tile at `h`, replacing any tile there.
    pub fn insert(&mut self, h: Hex, t: Tile)
        requires
            old(self).wf(),
            t.wf(),
        ensures
            final(self).wf(),
            final(self)@ == old(self)@.insert(h, t),
    {
        let ghost s0 = self.entries@;
        proof {
            lemma_map_of_sorted(s0);
        }
        let i = self.lower_bound(h);
        if i < self.entries.len() && self.entries[i].0 == h {
            self.entries.set(i, (h, t));
            let ghost s1 = self.entries@;
            assert(forall|a: int| 0 <= a < s1.len() ==> (#[trigger] s1[a]).1.wf()) by {
                assert forall|a: int| 0 <= a < s1.len() implies (#[trigger] s1[a]).1.wf() by {
                    if a != i {
                        assert(s1[a] == s0[a]);
                    }
                }
            }
            assert(sorted_keys(s1)) by {
                assert forall|a: int, b: int| 0 <= a < b < s1.len() implies hex_lt(#[trigger] s1[a].0, #[trigger] s1[b].0) by {
                    assert(hex_lt(s0[a].0, s0[b].0));
                }
            }
            proof {
                let m = map_of(s0).insert(h, t);
                assert forall|k: Hex| #[trigger] m.contains_key(k) <==> exists|j: int| 0 <= j < s1.len() && s1[j].0 == k by {
                    if m.contains_key(k) && k != h {
                        let j = choose|j: int| 0 <= j < s0.len() && s0[j].0 == k;
                        assert(s1[j].0 == k);
                    }
                    if k == h {
                        assert(s1[i as int].0 == k);
                    }
                    if exists|j: int| 0 <= j < s1.len() && s1[j].0 == k {
                        let j = choose|j: int| 0 <= j < s1.len() && s1[j].0 == k;
                        assert(s0[j].0 == k);
                    }
                }
                assert forall|j: int| 0 <= j < s1.len() implies #[trigger] m[s1[j].0] == s1[j].1 by {
                    if j != i {
                        assert(s0[j] == s1[j]);
                        assert(s1[j].0 != h) by {
                            if j < i {
                                assert(hex_lt(s0[j].0, s0[i as int].0));
                            } else {
                                assert(hex_lt(s0[i as int].0, s0[j].0));
                            }
                        }
                    }
                }
                lemma_map_of_ext(s1, m);
            }
        } else {
            self.entries.insert(i, (h, t));
            let ghost s1 = self.entries@;
            assert(forall|a: int| 0 <= a < s1.len() ==> (#[trigger] s1[a]).1.wf()) by {
                assert forall|a: int| 0 <= a < s1.len() implies (#[trigger] s1[a]).1.wf() by {
                    if a < i {
                        assert(s1[a] == s0[a]);
                    } else if a > i {
                        assert(s1[a] == s0[a - 1]);
                    }
                }
            }
            assert(sorted_keys(s1)) by {
                assert forall|a: int, b: int| 0 <= a < b < s1.len() implies hex_lt(#[trigger] s1[a].0, #[trigger] s1[b].0) by {
                    if b < i {
                        assert(hex_lt(s0[a].0, s0[b].0));
                    } else if a > i {
                        assert(hex_lt(s0[a - 1].0, s0[b - 1].0));
                    } else if a == i {
                        assert(!hex_lt(s0[b - 1].0, h));
                        assert(s0[b - 1].0 != h) by {
                            if b - 1 > i {
                                assert(hex_lt(s0[i as int].0, s0[b - 1].0));
                            }
                        }
                    } else {
                        assert(hex_lt(s0[a].0, h));
                    }
                }
            }
            proof {
                let m = map_of(s0).insert(h, t);
                assert forall|k: Hex| #[trigger] m.contains_key(k) <==> exists|j: int| 0 <= j < s1.len() && s1[j].0 == k by {
                    if m.contains_key(k) && k != h {
                        let j = choose|j: int| 0 <= j < s0.len() && s0[j].0 == k;
                        if j < i {
                            assert(s1[j].0 == k);
                        } else {
                            assert(s1[j + 1].0 == k);
                        }
                    }
                    if m.contains_key(k) && k == h {
                        assert(s1[i as int].0 == k);
                    }
                    if exists|j: int| 0 <= j < s1.len() && s1[j].0 == k {
                        let j = choose|j: int| 0 <= j < s1.len() && s1[j].0 == k;
                        if j < i {
                            assert(s0[j].0 == k);
                        } else if j > i {
                            assert(s0[j - 1].0 == k);
                        }
                    }
                }
                assert forall|j: int| 0 <= j < s1.len() implies #[trigger] m[s1[j].0] == s1[j].1 by {
                    if j < i {
                        assert(s0[j] == s1[j]);
                        assert(hex_lt(s1[j].0, h));
                    } else if j > i {
                        assert(s0[j - 1] == s1[j]);
                        assert(hex_lt(s1[i as int].0, s1[j].0));
                    }
                }
                lemma_map_of_ext(s1, m);
            }
        }
    }

    /// Clears `h`; an unset coordinate stays unset.
    pub fn remove(&mut self, h: Hex)
        requires
            old(self).wf(),
        ensures
            final(self).wf(),
            final(self)@ == old(self)@.remove(h),
    {
        let ghost s0 = self.entries@;
        proof {
            lemma_map_of_sorted(s0);
        }
        let i = self.lower_bound(h);
        if i < self.entries.len() && self.entries[i].0 == h {
            self.entries.remove(i);
            let ghost s1 = self.entries@;
            assert(forall|a: int| 0 <= a < s1.len() ==> (#[trigger] s1[a]).1.wf()) by {
                assert forall|a: int| 0 <= a < s1.len() implies (#[trigger] s1[a]).1.wf() by {
                    if a < i {
                        assert(s1[a] == s0[a]);
                    } else {
                        assert(s1[a] == s0[a + 1]);
                    }
                }
            }
            assert(sorted_keys(s1)) by {
                assert forall|a: int, b: int| 0 <= a < b < s1.len() implies hex_lt(#[trigger] s1[a].0, #[trigger] s1[b].0) by {
                    let a0 = if a < i { a } else { a + 1 };
                    let b0 = if b < i { b } else { b + 1 };
                    assert(hex_lt(s0[a0].0, s0[b0].0));
                }
            }
            proof {
                let m = map_of(s0).remove(h);
                assert forall|k: Hex| #[trigger] m.contains_key(k) <==> exists|j: int| 0 <= j < s1.len() && s1[j].0 == k by {
                    if m.contains_key(k) {
                        let j = choose|j: int| 0 <= j < s0.len() && s0[j].0 == k;
                        if j < i {
                            assert(s1[j].0 == k);
                        } else {
                            assert(j != i);
                            assert(s1[j - 1].0 == k);
                        }
                    }
                    if exists|j: int| 0 <= j < s1.len() && s1[j].0 == k {
                        let j = choose|j: int| 0 <= j < s1.len() && s1[j].0 == k;
                        if j < i {
                            assert(s0[j].0 == k);
                            assert(hex_lt(s0[j].0, s0[i as int].0));
                        } else {
                            assert(s0[j + 1].0 == k);
                            assert(hex_lt(s0[i as int].0, s0[j + 1].0));
                        }
                    }
                }
                assert forall|j: int| 0 <= j < s1.len() implies #[trigger] m[s1[j].0] == s1[j].1 by {
                    if j < i {
                        assert(s0[j] == s1[j]);
                        assert(hex_lt(s0[j].0, s0[i as int].0));
                    } else {
                        assert(s0[j + 1] == s1[j]);
                        assert(hex_lt(s0[i as int].0, s0[j + 1].0));
                    }
                }
                lemma_map_of_ext(s1, m);
            }
        } else {
            proof {
                if map_of(s0).contains_key(h) {
                    let j = choose|j: int| 0 <= j < s0.len() && s0[j].0 == h;
                    if j > i {
                        assert(hex_lt(s0[i as int].0, s0[j].0));
                    }
                }
                assert(map_of(s0).remove(h) =~= map_of(s0));
            }
        }
    }

    /// Number of coordinates that hold a tile.
    pub fn len(&self) -> (r: usize)
        requires
            self.wf(),
        ensures
            r == self.items().len(),
            r == self@.dom().len(),
    {
        proof {
            lemma_map_of_dom_len(self.items());
        }
        self.entries.len()
    }

    /// The records, sorted by coordinate.
    pub fn records(&self) -> (r: &Vec<(Hex, Tile)>)
        ensures
            r@ == self.items(),
    {
        &self.entries
    }

    /// A full copy, for reading a stable view while the store itself changes.
    pub fn clone_snapshot(&self) -> (r: TileStore)
        ensures
            r.items() == self.items(),
    {
        let mut copy: Vec<(Hex, Tile)> = Vec::new();
        let mut i: usize = 0;
        while i < self.entries.len()
            invariant
                i <= self.entries@.len(),
                copy@ == self.entries@.subrange(0, i as int),
            decreases self.entries@.len() - i,
        {
            copy.push(self.entries[i]);
            i = i + 1;
        }
        assert(copy@ =~= self.entries@);
        TileStore { entries: copy }
    }
}

/// Sorted records have as many records as the map has coordinates.
proof fn lemma_map_of_dom_len(s: Seq<(Hex, Tile)>)
    requires
        sorted_keys(s),
    ensures
        map_of(s).dom().finite(),
        map_of(s).dom().len() == s.len(),
    decreases s.len(),
{
    if s.len() > 0 {
        let p = s.drop_last();
        assert(sorted_keys(p)) by {
            assert forall|i: int, j: int| 0 <= i < j < p.len() implies hex_lt(#[trigger] p[i].0, #[trigger] p[j].0) by {
                assert(p[i] == s[i] && p[j] == s[j]);
            }
        }
        lemma_map_of_dom_len(p);
        lemma_map_of(p);
        if map_of(p).contains_key(s.last().0) {
            let i = choose|i: int| 0 <= i < p.len() && p[i].0 == s.last().0;
            assert(hex_lt(s[i].0, s[s.len() - 1].0));
        }
    }
}

} // verus!
