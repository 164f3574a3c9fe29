use vstd::prelude::*;
use crate::culling::{
    Aabb, Classify, Containment, Point3, COORD_MAX, corners, dist2, dot_diff, norm2,
};

verus! {

/// The cone whose apex is the eye and whose surface touches the planet all around: what lies
/// inside it is hidden behind the planet.
#[derive(Copy, Clone, Debug)]
pub struct Cone {
    pub origin: Point3,
    pub radius: i64,
}

/// Whether the planet of radius `radius` centred at the origin hides `p` from an eye at `eye`.
/// With `D² = |eye|²`, `R² = radius²` and `s = eye·(eye − p)`: the eye lies outside the planet,
/// `p` is beyond the plane of the horizon circle (`s > D² − R²`) and within the cone's
/// half-angle (`s² > (D² − R²)·|p − eye|²`).
pub open spec fn spec_hidden(eye: Point3, radius: int, p: Point3) -> bool {
    let d2 = norm2(eye);
    let r2 = radius * radius;
    let s = dot_diff(eye, eye, p);
    d2 > r2 && s > d2 - r2 && s * s > (d2 - r2) * dist2(p, eye)
}

proof fn lemma_mul_abs_bound(a: int, b: int, ma: int, mb: int)
    requires
        -ma <= a <= ma,
        -mb <= b <= mb,
    ensures
        -(ma * mb) <= a * b <= ma * mb,
{
    assert(-(ma * mb) <= a * b <= ma * mb) by (nonlinear_arith)
        requires
            -ma <= a <= ma,
            -mb <= b <= mb,
    ;
}

impl Cone {
    pub open spec fn valid(self) -> bool {
        self.origin.valid() && 0 <= self.radius <= COORD_MAX
    }

    /// Construct the horizon cone of a planet of radius `planet_radius`, centred at the origin,
    /// seen from `camera_position`.
    pub fn new(camera_position: Point3, planet_radius: i64) -> (r: Cone)
        requires
            camera_position.valid(),
            0 <= planet_radius <= COORD_MAX,
        ensures
            r.valid(),
            r.origin == camera_position,
            r.radius == planet_radius,
    {
        Cone { origin: camera_position, radius: planet_radius }
    }

    /// Whether the planet hides the point.
    pub fn hides(&self, p: &Point3) -> (r: bool)
        requires
            self.valid(),
            p.valid(),
        ensures
            r == spec_hidden(self.origin, self.radius as int, *p),
    {
        let o = self.origin;
        let ghost m = COORD_MAX as int;
        proof {
            lemma_mul_abs_bound(o.x as int, o.x as int, m, m);
            lemma_mul_abs_bound(o.y as int, o.y as int, m, m);
            lemma_mul_abs_bound(o.z as int, o.z as int, m, m);
            lemma_mul_abs_bound(self.radius as int, self.radius as int, m, m);
            lemma_mul_abs_bound(o.x as int, o.x - p.x, m, 2 * m);
            lemma_mul_abs_bound(o.y as int, o.y - p.y, m, 2 * m);
            lemma_mul_abs_bound(o.z as int, o.z - p.z, m, 2 * m);
            lemma_mul_abs_bound(p.x - o.x, p.x - o.x, 2 * m, 2 * m);
            lemma_mul_abs_bound(p.y - o.y, p.y - o.y, 2 * m, 2 * m);
            lemma_mul_abs_bound(p.z - o.z, p.z - o.z, 2 * m, 2 * m);
        }
        let d2: i128 = (o.x as i128) * (o.x as i128) + (o.y as i128) * (o.y as i128) + (
        o.z as i128) * (o.z as i128);
        let r2: i128 = (self.radius as i128) * (self.radius as i128);
        let s: i128 = (o.x as i128) * ((o.x - p.x) as i128) + (o.y as i128) * ((o.y
            - p.y) as i128) + (o.z as i128) * ((o.z - p.z) as i128);
        let ex = (p.x - o.x) as i128;
        let ey = (p.y - o.y) as i128;
        let ez = (p.z - o.z) as i128;
        let e2: i128 = ex * ex + ey * ey + ez * ez;
        if d2 <= r2 || s <= d2 - r2 {
            return false;
        }
        proof {
            assert(m * m == 1152921504606846976);
            assert(-6917529027641081856 <= s <= 6917529027641081856);
            assert(-1152921504606846976 <= d2 - r2 <= 3458764513820540928);
            assert(ex == p.x - o.x && ey == p.y - o.y && ez == p.z - o.z);
            assert(0 <= ex * ex && 0 <= ey * ey && 0 <= ez * ez) by (nonlinear_arith);
            assert(0 <= e2 <= 13835058055282163712);
            lemma_mul_abs_bound(s as int, s as int, 6917529027641081856, 6917529027641081856);
            lemma_mul_abs_bound(
                (d2 - r2) as int,
                e2 as int,
                3458764513820540928,
                13835058055282163712,
            );
        }
        s * s > (d2 - r2) * e2
    }
}

impl Classify<Point3> for Cone {
    open spec fn spec_classify(&self, shape: &Point3) -> Containment {
        if spec_hidden(self.origin, self.radius as int, *shape) {
            Containment::Inside
        } else {
            Containment::Outside
        }
    }

    open spec fn accepts(&self, shape: &Point3) -> bool {
        self.valid() && shape.valid()
    }

    fn classify(&self, shape: &Point3) -> (r: Containment) {
        if self.hides(shape) {
            Containment::Inside
        } else {
            Containment::Outside
        }
    }
}

impl Cone {
    /// A box is inside the cone when the planet hides all its corners, outside when it hides
    /// none of them.
    pub open spec fn classify_box(self, aabb: Aabb) -> Containment {
        if forall|i: int| 0 <= i < 8 ==> spec_hidden(self.origin, self.radius as int, #[trigger] aabb.corner(i)) {
            Containment::Inside
        } else if forall|i: int| 0 <= i < 8 ==> !spec_hidden(self.origin, self.radius as int, #[trigger] aabb.corner(i)) {
            Containment::Outside
        } else {
            Containment::Intersects
        }
    }
}

impl Classify<Aabb> for Cone {
    open spec fn spec_classify(&self, shape: &Aabb) -> Containment {
        self.classify_box(*shape)
    }

    open spec fn accepts(&self, shape: &Aabb) -> bool {
        self.valid() && shape.valid()
    }

    fn classify(&self, shape: &Aabb) -> (r: Containment) {
        let cs = corners(shape);
        let mut all_hidden = true;
        let mut none_hidden = true;
        let mut k: usize = 0;
        while k < 8
            invariant
                0 <= k <= 8,
                self.valid(),
                shape.valid(),
                forall|i: int| 0 <= i < 8 ==> #[trigger] cs@[i] == shape.corner(i),
                all_hidden == forall|i: int|
                    0 <= i < k ==> spec_hidden(self.origin, self.radius as int, #[trigger] shape.corner(i)),
                none_hidden == forall|i: int|
                    0 <= i < k ==> !spec_hidden(self.origin, self.radius as int, #[trigger] shape.corner(i)),
            decreases 8 - k,
        {
            let corner = cs[k];
            assert(corner == shape.corner(k as int));
            if self.hides(&corner) {
                none_hidden = false;
            } else {
                all_hidden = false;
            }
            k = k + 1;
        }
        if all_hidden {
            Containment::Inside
        } else if none_hidden {
            Containment::Outside
        } else {
            Containment::Intersects
        }
    }
}

/// A point of the planet's surface that faces away from the eye (`eye·p < R²`) is inside the
/// horizon cone of an eye outside the planet.
pub proof fn lemma_far_side_hidden(eye: Point3, radius: int, p: Point3)
    requires
        radius >= 0,
        norm2(eye) > radius * radius,
        norm2(p) == radius * radius,
        eye.x * p.x + eye.y * p.y + eye.z * p.z < radius * radius,
    ensures
        spec_hidden(eye, radius, p),
{
    let d2 = norm2(eye);
    let r2 = radius * radius;
    let a = eye.x * p.x + eye.y * p.y + eye.z * p.z;
    let s = dot_diff(eye, eye, p);
    assert(s == d2 - a) by (nonlinear_arith)
        requires
            s == dot_diff(eye, eye, p),
            d2 == norm2(eye),
            a == eye.x * p.x + eye.y * p.y + eye.z * p.z,
    ;
    assert(dist2(p, eye) == r2 - 2 * a + d2) by (nonlinear_arith)
        requires
            norm2(p) == r2,
            d2 == norm2(eye),
            a == eye.x * p.x + eye.y * p.y + eye.z * p.z,
    ;
    assert(s * s - (d2 - r2) * dist2(p, eye) == (a - r2) * (a - r2)) by (nonlinear_arith)
        requires
            s == d2 - a,
            dist2(p, eye) == r2 - 2 * a + d2,
    ;
    assert((a - r2) * (a - r2) > 0) by (nonlinear_arith)
        requires
            a < r2,
    ;
}

proof fn lemma_scaled_component(e: int, pc: int, qc: int, num: int, den: int)
    requires
        den * pc == (den - num) * e + num * qc,
    ensures
        e * (den * pc) == (den - num) * (e * e) + num * (e * qc),
{
    assert(e * (den * pc) == (den - num) * (e * e) + num * (e * qc)) by (nonlinear_arith)
        requires
            den * pc == (den - num) * e + num * qc,
    ;
}

/// A point between the eye and a visible point `q` of the planet's side facing the eye
/// (`eye·q ≥ R²`), that is `den·p = (den − num)·eye + num·q` with `0 ≤ num ≤ den`, is outside
/// the horizon cone.
pub proof fn lemma_near_side_visible(eye: Point3, radius: int, q: Point3, p: Point3, num: int, den: int)
    requires
        radius >= 0,
        0 <= num <= den,
        den > 0,
        eye.x * q.x + eye.y * q.y + eye.z * q.z >= radius * radius,
        den * p.x == (den - num) * eye.x + num * q.x,
        den * p.y == (den - num) * eye.y + num * q.y,
        den * p.z == (den - num) * eye.z + num * q.z,
    ensures
        !spec_hidden(eye, radius, p),
{
    let d2 = norm2(eye);
    let r2 = radius * radius;
    let aq = eye.x * q.x + eye.y * q.y + eye.z * q.z;
    let ap = eye.x * p.x + eye.y * p.y + eye.z * p.z;
    if d2 > r2 {
        lemma_scaled_component(eye.x as int, p.x as int, q.x as int, num, den);
        lemma_scaled_component(eye.y as int, p.y as int, q.y as int, num, den);
        lemma_scaled_component(eye.z as int, p.z as int, q.z as int, num, den);
        assert(den * ap == eye.x * (den * p.x) + eye.y * (den * p.y) + eye.z * (den * p.z))
            by (nonlinear_arith)
            requires
                ap == eye.x * p.x + eye.y * p.y + eye.z * p.z,
        ;
        assert(den * ap == (den - num) * d2 + num * aq) by (nonlinear_arith)
            requires
                d2 == eye.x * eye.x + eye.y * eye.y + eye.z * eye.z,
                aq == eye.x * q.x + eye.y * q.y + eye.z * q.z,
                den * ap == (den - num) * (eye.x * eye.x) + num * (eye.x * q.x) + (den - num) * (
                eye.y * eye.y) + num * (eye.y * q.y) + (den - num) * (eye.z * eye.z) + num * (
                eye.z * q.z),
        ;
        assert(den * ap >= den * r2) by (nonlinear_arith)
            requires
                den * ap == (den - num) * d2 + num * aq,
                0 <= num <= den,
                d2 > r2,
                aq >= r2,
        ;
        assert(ap >= r2) by (nonlinear_arith)
            requires
                den * ap >= den * r2,
                den > 0,
        ;
        assert(dot_diff(eye, eye, p) == d2 - ap) by (nonlinear_arith)
            requires
                d2 == norm2(eye),
                ap == eye.x * p.x + eye.y * p.y + eye.z * p.z,
        ;
    }
}

} // verus!
