use vstd::prelude::*;

verus! {

/// Largest magnitude of a coordinate, in the fixed-point unit that the caller picks.
pub const COORD_MAX: i64 = 1073741824;

/// How a shape lies with respect to a volume.
#[derive(Copy, Clone, Debug, PartialEq, Eq, Structural)]
pub enum Containment {
    Outside,
    Inside,
    Intersects,
}

/// Classification of shapes of type `T` against a volume.
pub trait Classify<T> {
    spec fn spec_classify(&self, shape: &T) -> Containment;

    spec fn accepts(&self, shape: &T) -> bool;

    fn classify(&self, shape: &T) -> (r: Containment)
        requires
            self.accepts(shape),
        ensures
            r == self.spec_classify(shape),
    ;

    fn intersects(&self, shape: &T) -> (r: bool)
        requires
            self.accepts(shape),
        ensures
            r == (self.spec_classify(shape) != Containment::Outside),
    {
        let c = self.classify(shape);
        c != Containment::Outside
    }

    fn contains(&self, shape: &T) -> (r: bool)
        requires
            self.accepts(shape),
        ensures
            r == (self.spec_classify(shape) == Containment::Inside),
    {
        let c = self.classify(shape);
        c == Containment::Inside
    }
}

/// A point with integer coordinates in a fixed-point unit.
#[derive(Copy, Clone, Debug, PartialEq, Eq, Structural)]
pub struct Point3 {
    pub x: i64,
    pub y: i64,
    pub z: i64,
}

impl Point3 {
    /// Every coordinate lies within `COORD_MAX` of zero.
    pub open spec fn valid(self) -> bool {
        -COORD_MAX <= self.x <= COORD_MAX && -COORD_MAX <= self.y <= COORD_MAX && -COORD_MAX
            <= self.z <= COORD_MAX
    }

    pub fn new(x: i64, y: i64, z: i64) -> (r: Point3)
        ensures
            r == (Point3 { x, y, z }),
    {
        Point3 { x, y, z }
    }
}

/// Dot product of `a` and `b - c`.
pub open spec fn dot_diff(a: Point3, b: Point3, c: Point3) -> int {
    a.x * (b.x - c.x) + a.y * (b.y - c.y) + a.z * (b.z - c.z)
}

/// Squared euclidean distance between two points.
pub open spec fn dist2(a: Point3, b: Point3) -> int {
    (a.x - b.x) * (a.x - b.x) + (a.y - b.y) * (a.y - b.y) + (a.z - b.z) * (a.z - b.z)
}

/// Squared distance of a point from the origin.
pub open spec fn norm2(a: Point3) -> int {
    a.x * a.x + a.y * a.y + a.z * a.z
}

/// An axis-aligned bounding box given by its two extreme corners.
#[derive(Copy, Clone, Debug, PartialEq, Eq, Structural)]
pub struct Aabb {
    pub mins: Point3,
    pub maxs: Point3,
}

impl Aabb {
    /// Both corners are valid points and `mins` does not exceed `maxs` on any axis.
    pub open spec fn valid(self) -> bool {
        self.mins.valid() && self.maxs.valid() && self.mins.x <= self.maxs.x && self.mins.y
            <= self.maxs.y && self.mins.z <= self.maxs.z
    }

    /// Corner `i` of the box: bit 0 of `i` picks the largest x, bit 1 the largest y, bit 2
    /// the largest z.
    pub open spec fn corner(self, i: int) -> Point3 {
        Point3 {
            x: if i % 2 == 1 { self.maxs.x } else { self.mins.x },
            y: if (i / 2) % 2 == 1 { self.maxs.y } else { self.mins.y },
            z: if i / 4 == 1 { self.maxs.z } else { self.mins.z },
        }
    }

    pub fn new(mins: Point3, maxs: Point3) -> (r: Aabb)
        ensures
            r == (Aabb { mins, maxs }),
    {
        Aabb { mins, maxs }
    }
}

/// The eight corners of the box, in the order of `Aabb::corner`.
pub fn corners(aabb: &Aabb) -> (r: [Point3; 8])
    ensures
        forall|i: int| 0 <= i < 8 ==> #[trigger] r@[i] == aabb.corner(i),
{
    let min = aabb.mins;
    let max = aabb.maxs;
    let r = [
        Point3::new(min.x, min.y, min.z),
        Point3::new(max.x, min.y, min.z),
        Point3::new(min.x, max.y, min.z),
        Point3::new(max.x, max.y, min.z),
        Point3::new(min.x, min.y, max.z),
        Point3::new(max.x, min.y, max.z),
        Point3::new(min.x, max.y, max.z),
        Point3::new(max.x, max.y, max.z),
    ];
    assert forall|i: int| 0 <= i < 8 implies #[trigger] r@[i] == aabb.corner(i) by {
        assert(0 <= i < 8);
    }
    r
}

/// Squared distance from a point to the nearest point of a box (zero inside it).
pub open spec fn aabb_dist2(aabb: Aabb, p: Point3) -> int {
    let dx = if p.x < aabb.mins.x { aabb.mins.x - p.x } else if p.x > aabb.maxs.x { p.x - aabb.maxs.x } else { 0 };
    let dy = if p.y < aabb.mins.y { aabb.mins.y - p.y } else if p.y > aabb.maxs.y { p.y - aabb.maxs.y } else { 0 };
    let dz = if p.z < aabb.mins.z { aabb.mins.z - p.z } else if p.z > aabb.maxs.z { p.z - aabb.maxs.z } else { 0 };
    dx * dx + dy * dy + dz * dz
}

/// Whether the box comes within `range` of the point.
pub open spec fn spec_in_range(aabb: Aabb, p: Point3, range: int) -> bool {
    aabb_dist2(aabb, p) <= range * range
}

proof fn lemma_square_bound(a: int, m: int)
    requires
        0 <= a <= m,
    ensures
        0 <= a * a <= m * m,
{
    assert(0 <= a * a <= m * m) by (nonlinear_arith)
        requires
            0 <= a <= m,
    ;
}

/// Whether the box comes within `range` of the point.
pub fn in_range(aabb: &Aabb, position: &Point3, range: u64) -> (r: bool)
    requires
        aabb.valid(),
        position.valid(),
    ensures
        r == spec_in_range(*aabb, *position, range as int),
{
    let dx: i64 = if position.x < aabb.mins.x {
        aabb.mins.x - position.x
    } else if position.x > aabb.maxs.x {
        position.x - aabb.maxs.x
    } else {
        0
    };
    let dy: i64 = if position.y < aabb.mins.y {
        aabb.mins.y - position.y
    } else if position.y > aabb.maxs.y {
        position.y - aabb.maxs.y
    } else {
        0
    };
    let dz: i64 = if position.z < aabb.mins.z {
        aabb.mins.z - position.z
    } else if position.z > aabb.maxs.z {
        position.z - aabb.maxs.z
    } else {
        0
    };
    proof {
        lemma_square_bound(dx as int, 2 * COORD_MAX);
        lemma_square_bound(dy as int, 2 * COORD_MAX);
        lemma_square_bound(dz as int, 2 * COORD_MAX);
        lemma_square_bound(range as int, u64::MAX as int);
    }
    let d2: u128 = (dx as u128) * (dx as u128) + (dy as u128) * (dy as u128) + (dz as u128) * (
    dz as u128);
    d2 <= (range as u128) * (range as u128)
}

} // verus!
