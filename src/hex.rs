//! Axial hex coordinates (pointy-top layout) and the neighbourhood
//! operations the rest of the library is built on.
use vstd::prelude::*;

verus! {

/// An axial hex coordinate; the third cube coordinate is `-x - y`.
#[derive(Debug, Clone, Copy, PartialEq, Eq, Hash, Structural)]
pub struct Hex {
    pub x: i32,
    pub y: i32,
}

/// Largest coordinate magnitude for which a hex, its neighbours and their
/// neighbours are all representable.
pub const COORD_LIMIT: i32 = 2147483645;

/// Largest radius whose disk size, `3n(n+1) + 1`, fits in a `u32`.
pub const RADIUS_LIMIT: u32 = 37836;

/// The six neighbour offsets, in the fixed order used by every rotation and
/// pattern rule of the library.
pub open spec fn offset_x(i: int) -> int {
    if i == 0 {
        1
    } else if i == 1 {
        0
    } else if i == 2 {
        -1
    } else if i == 3 {
        -1
    } else if i == 4 {
        0
    } else {
        1
    }
}

pub open spec fn offset_y(i: int) -> int {
    if i == 0 {
        0
    } else if i == 1 {
        1
    } else if i == 2 {
        1
    } else if i == 3 {
        0
    } else if i == 4 {
        -1
    } else {
        -1
    }
}

/// The `i`-th neighbour of `h`.
pub open spec fn neighbor_at(h: Hex, i: int) -> Hex {
    Hex { x: (h.x + offset_x(i)) as i32, y: (h.y + offset_y(i)) as i32 }
}

/// A hex whose neighbours, and their neighbours, have representable coordinates.
pub open spec fn in_bounds(h: Hex) -> bool {
    -COORD_LIMIT <= h.x <= COORD_LIMIT && -COORD_LIMIT <= h.y <= COORD_LIMIT
}

/// A hex whose neighbours have representable coordinates.
pub open spec fn has_neighbors(h: Hex) -> bool {
    i32::MIN < h.x < i32::MAX && i32::MIN < h.y < i32::MAX
}

pub open spec fn abs(v: int) -> int {
    if v < 0 {
        -v
    } else {
        v
    }
}

/// Hex (manhattan) distance between two coordinates.
pub open spec fn distance(a: Hex, b: Hex) -> int {
    let dx = a.x - b.x;
    let dy = a.y - b.y;
    let dz = -dx - dy;
    if abs(dx) >= abs(dy) && abs(dx) >= abs(dz) {
        abs(dx)
    } else if abs(dy) >= abs(dz) {
        abs(dy)
    } else {
        abs(dz)
    }
}

/// Number of hexes within distance `n` of a center.
pub open spec fn disk_size(n: int) -> int {
    3 * n * (n + 1) + 1
}

/// A disk of radius `n` around `c` has representable coordinates and size.
pub open spec fn disk_fits(c: Hex, n: u32) -> bool {
    &&& n <= RADIUS_LIMIT
    &&& abs(c.x as int) + n <= i32::MAX
    &&& abs(c.y as int) + n <= i32::MAX
}

/// Relies on `hexx::Hex::all_neighbors`: the coordinate plus each of
/// `hexx::Hex::NEIGHBORS_COORDS`, in that order.
#[verifier::external_body]
fn hexx_neighbors(h: Hex) -> (r: [Hex; 6])
    requires
        has_neighbors(h),
    ensures
        forall|i: int| 0 <= i < 6 ==> #[trigger] r@[i] == neighbor_at(h, i),
{
    hexx::Hex::new(h.x, h.y).all_neighbors().map(|n| Hex { x: n.x, y: n.y })
}

/// Relies on `hexx::Hex::range`: every coordinate within the radius, each
/// once, `Hex::range_count(radius)` of them.
#[verifier::external_body]
fn hexx_range(center: Hex, radius: u32) -> (r: Vec<Hex>)
    requires
        disk_fits(center, radius),
    ensures
        r@.len() == disk_size(radius as int),
        r@.no_duplicates(),
        forall|i: int| 0 <= i < r@.len() ==> distance(#[trigger] r@[i], center) <= radius,
        forall|h: Hex| distance(h, center) <= radius ==> #[trigger] r@.contains(h),
{
    hexx::Hex::new(center.x, center.y).range(radius).map(|h| Hex { x: h.x, y: h.y }).collect()
}

/// The cells of the straight line from `a` to `b`, as `hexx` draws it.
pub uninterp spec fn hex_line(a: Hex, b: Hex) -> Seq<Hex>;

/// The distance from `a` to `b` and its three cube components are
/// representable.
pub open spec fn line_fits(a: Hex, b: Hex) -> bool {
    let dx = a.x - b.x;
    let dy = a.y - b.y;
    abs(dx) <= i32::MAX && abs(dy) <= i32::MAX && abs(dx + dy) <= i32::MAX
}

/// Relies on `hexx::Hex::line_to`: one cell per step of the distance, plus
/// the start; the cells depend on the two ends alone.
#[verifier::external_body]
fn hexx_line(a: Hex, b: Hex) -> (r: Vec<Hex>)
    requires
        line_fits(a, b),
    ensures
        r@ == hex_line(a, b),
        r@.len() == distance(a, b) + 1,
{
    hexx::Hex::new(a.x, a.y).line_to(hexx::Hex::new(b.x, b.y)).map(|h| Hex { x: h.x, y: h.y }).collect()
}

impl Hex {
    pub fn new(x: i32, y: i32) -> (h: Hex)
        ensures
            h.x == x,
            h.y == y,
    {
        Hex { x, y }
    }

    /// The six neighbours in the fixed order.
    pub fn all_neighbors(self) -> (r: [Hex; 6])
        requires
            has_neighbors(self),
        ensures
            forall|i: int| 0 <= i < 6 ==> #[trigger] r@[i] == neighbor_at(self, i),
    {
        hexx_neighbors(self)
    }

    /// The `i`-th neighbour in the fixed order.
    pub fn neighbor(self, i: usize) -> (r: Hex)
        requires
            has_neighbors(self),
            i < 6,
        ensures
            r == neighbor_at(self, i as int),
    {
        let ns = hexx_neighbors(self);
        ns[i]
    }

    /// Every coordinate within hex distance `radius`, each exactly once.
    pub fn range(self, radius: u32) -> (r: Vec<Hex>)
        requires
            disk_fits(self, radius),
        ensures
            r@.len() == disk_size(radius as int),
            r@.no_duplicates(),
            forall|i: int| 0 <= i < r@.len() ==> distance(#[trigger] r@[i], self) <= radius,
            forall|h: Hex| distance(h, self) <= radius ==> #[trigger] r@.contains(h),
    {
        hexx_range(self, radius)
    }

    /// The cells of the straight line from `self` to `other`, both included.
    pub fn line_to(self, other: Hex) -> (r: Vec<Hex>)
        requires
            line_fits(self, other),
        ensures
            r@ == hex_line(self, other),
            r@.len() == distance(self, other) + 1,
    {
        hexx_line(self, other)
    }
}

} // verus!
