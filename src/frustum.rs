use vstd::prelude::*;
use crate::culling::{Aabb, Classify, Containment, Point3, COORD_MAX, corners};

verus! {

/// A plane `a·x + b·y + c·z + d = 0`; points with a positive value lie on its inner side.
#[derive(Copy, Clone, Debug, PartialEq, Eq, Structural)]
pub struct Plane {
    pub a: i64,
    pub b: i64,
    pub c: i64,
    pub d: i64,
}

/// Largest magnitude of a plane's offset.
pub const PLANE_OFFSET_MAX: i64 = 4611686018427387904;

impl Plane {
    pub open spec fn valid(self) -> bool {
        -COORD_MAX <= self.a <= COORD_MAX && -COORD_MAX <= self.b <= COORD_MAX && -COORD_MAX
            <= self.c <= COORD_MAX && -PLANE_OFFSET_MAX <= self.d <= PLANE_OFFSET_MAX
    }

    /// The value of the plane's equation at `p`.
    pub open spec fn value_at(self, p: Point3) -> int {
        self.a * p.x + self.b * p.y + self.c * p.z + self.d
    }

    /// Every corner of the box lies strictly on the outer side.
    pub open spec fn box_behind(self, aabb: Aabb) -> bool {
        forall|i: int| 0 <= i < 8 ==> #[trigger] self.value_at(aabb.corner(i)) < 0
    }

    /// No corner of the box lies strictly on the outer side.
    pub open spec fn box_in_front(self, aabb: Aabb) -> bool {
        forall|i: int| 0 <= i < 8 ==> #[trigger] self.value_at(aabb.corner(i)) >= 0
    }
}

/// A view volume bounded by six planes (left, right, bottom, top, near, far), together with
/// the position of the eye, all in the planet's frame.
#[derive(Copy, Clone, Debug)]
pub struct Frustum {
    pub position: Point3,
    pub planes: [Plane; 6],
}

proof fn lemma_mul_abs_bound(a: int, b: int, ma: int, mb: int)
    requires
        -ma <= a <= ma,
        -mb <= b <= mb,
    ensures
        -(ma * mb) <= a * b <= ma * mb,
{
    assert(-(ma * mb) <= a * b <= ma * mb) by (nonlinear_arith)
        requires
            -ma <= a <= ma,
            -mb <= b <= mb,
    ;
}

/// The value of a plane's equation at a point.
fn plane_value(plane: &Plane, p: &Point3) -> (r: i64)
    requires
        plane.valid(),
        p.valid(),
    ensures
        r == plane.value_at(*p),
{
    proof {
        lemma_mul_abs_bound(plane.a as int, p.x as int, COORD_MAX as int, COORD_MAX as int);
        lemma_mul_abs_bound(plane.b as int, p.y as int, COORD_MAX as int, COORD_MAX as int);
        lemma_mul_abs_bound(plane.c as int, p.z as int, COORD_MAX as int, COORD_MAX as int);
    }
    plane.a * p.x + plane.b * p.y + plane.c * p.z + plane.d
}

impl Frustum {
    pub open spec fn valid(self) -> bool {
        self.position.valid() && forall|j: int| 0 <= j < 6 ==> (#[trigger] self.planes[j]).valid()
    }

    /// Where a box lies: outside when all its corners are behind one plane, inside when no
    /// corner is behind any plane, intersecting otherwise.
    pub open spec fn classify_box(self, aabb: Aabb) -> Containment {
        if exists|j: int| 0 <= j < 6 && (#[trigger] self.planes[j]).box_behind(aabb) {
            Containment::Outside
        } else if forall|j: int| 0 <= j < 6 ==> (#[trigger] self.planes[j]).box_in_front(aabb) {
            Containment::Inside
        } else {
            Containment::Intersects
        }
    }

    pub fn new(position: Point3, planes: [Plane; 6]) -> (r: Frustum)
        ensures
            r.position == position,
            r.planes == planes,
    {
        Frustum { position, planes }
    }
}

impl Classify<Aabb> for Frustum {
    open spec fn spec_classify(&self, shape: &Aabb) -> Containment {
        self.classify_box(*shape)
    }

    open spec fn accepts(&self, shape: &Aabb) -> bool {
        self.valid() && shape.valid()
    }

    fn classify(&self, shape: &Aabb) -> (r: Containment) {
        let cs = corners(shape);
        let mut all_in_front = true;
        let mut j: usize = 0;
        while j < 6
            invariant
                0 <= j <= 6,
                self.valid(),
                shape.valid(),
                forall|i: int| 0 <= i < 8 ==> #[trigger] cs@[i] == shape.corner(i),
                forall|jj: int| 0 <= jj < j ==> !(#[trigger] self.planes[jj]).box_behind(*shape),
                all_in_front == forall|jj: int|
                    0 <= jj < j ==> (#[trigger] self.planes[jj]).box_in_front(*shape),
            decreases 6 - j,
        {
            let plane = &self.planes[j];
            assert(self.planes[j as int].valid());
            let mut any_front = false;
            let mut none_behind = true;
            let mut k: usize = 0;
            while k < 8
                invariant
                    0 <= k <= 8,
                    j < 6,
                    *plane == self.planes[j as int],
                    plane.valid(),
                    shape.valid(),
                    forall|i: int| 0 <= i < 8 ==> #[trigger] cs@[i] == shape.corner(i),
                    any_front == exists|i: int|
                        0 <= i < k && #[trigger] plane.value_at(shape.corner(i)) >= 0,
                    none_behind == forall|i: int|
                        0 <= i < k ==> #[trigger] plane.value_at(shape.corner(i)) >= 0,
                decreases 8 - k,
            {
                let corner = cs[k];
                assert(corner == shape.corner(k as int));
                assert(corner.valid());
                if plane_value(plane, &corner) < 0 {
                    none_behind = false;
                } else {
                    any_front = true;
                }
                k = k + 1;
            }
            if !any_front {
                assert(self.planes[j as int].box_behind(*shape));
                return Containment::Outside;
            }
            if !none_behind {
                all_in_front = false;
            }
            j = j + 1;
        }
        if all_in_front {
            Containment::Inside
        } else {
            Containment::Intersects
        }
    }
}

} // verus!
