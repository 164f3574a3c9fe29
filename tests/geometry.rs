use omniverse::culling::{corners, in_range, Aabb, Classify, Containment, Point3};
use omniverse::frustum::{Frustum, Plane};
use omniverse::horizon_culling::Cone;
use omniverse::patch::{Face, PatchLocation};
use omniverse::quad_tree::{Child, QuadTree};

fn p(x: i64, y: i64, z: i64) -> Point3 {
    Point3::new(x, y, z)
}

fn open_frustum(eye: Point3) -> Frustum {
    Frustum::new(eye, [Plane { a: 0, b: 0, c: 0, d: 1 }; 6])
}

#[test]
fn corners_follow_bit_order() {
    let b = Aabb::new(p(1, 2, 3), p(4, 5, 6));
    let c = corners(&b);
    assert_eq!(c[0], p(1, 2, 3));
    assert_eq!(c[1], p(4, 2, 3));
    assert_eq!(c[2], p(1, 5, 3));
    assert_eq!(c[3], p(4, 5, 3));
    assert_eq!(c[4], p(1, 2, 6));
    assert_eq!(c[7], p(4, 5, 6));
}

#[test]
fn in_range_measures_distance_to_box() {
    let b = Aabb::new(p(0, 0, 0), p(10, 10, 10));
    // Inside the box the distance is zero.
    assert!(in_range(&b, &p(5, 5, 5), 0));
    // 3-4-5 triangle from the corner (10, 10, 10).
    assert!(in_range(&b, &p(13, 14, 10), 5));
    assert!(!in_range(&b, &p(13, 14, 10), 4));
    assert!(in_range(&b, &p(-3, 5, -4), 5));
}

#[test]
fn frustum_classifies_boxes() {
    // Keep x >= 0 and x <= 100.
    let mut planes = [Plane { a: 0, b: 0, c: 0, d: 1 }; 6];
    planes[0] = Plane { a: 1, b: 0, c: 0, d: 0 };
    planes[1] = Plane { a: -1, b: 0, c: 0, d: 100 };
    let f = Frustum::new(p(0, 0, 0), planes);
    assert_eq!(f.classify(&Aabb::new(p(10, 0, 0), p(20, 5, 5))), Containment::Inside);
    assert_eq!(f.classify(&Aabb::new(p(-20, 0, 0), p(-10, 5, 5))), Containment::Outside);
    assert_eq!(f.classify(&Aabb::new(p(90, 0, 0), p(110, 5, 5))), Containment::Intersects);
    assert!(f.intersects(&Aabb::new(p(90, 0, 0), p(110, 5, 5))));
    assert!(!f.contains(&Aabb::new(p(90, 0, 0), p(110, 5, 5))));
    assert!(!f.intersects(&Aabb::new(p(101, 0, 0), p(110, 5, 5))));
}

#[test]
fn horizon_hides_far_side_of_planet() {
    let cone = Cone::new(p(0, 0, 1500), 1000);
    // The point of the sphere opposite the eye.
    assert!(cone.hides(&p(0, 0, -1000)));
    assert_eq!(cone.classify(&p(0, 0, -1000)), Containment::Inside);
    // A point on the far side, off axis.
    assert!(cone.hides(&p(600, 0, -800)));
    // The nearest point of the sphere and a point between it and the eye are visible.
    assert!(!cone.hides(&p(0, 0, 1000)));
    assert!(!cone.hides(&p(0, 0, 1200)));
    // A point beside the planet, outside the cone.
    assert!(!cone.hides(&p(3000, 0, -1000)));
}

#[test]
fn horizon_classifies_boxes_by_corners() {
    let cone = Cone::new(p(0, 0, 1500), 1000);
    let hidden = Aabb::new(p(-100, -100, -1000), p(100, 100, -900));
    let visible = Aabb::new(p(-100, -100, 900), p(100, 100, 1000));
    let both = Aabb::new(p(-100, -100, -1000), p(100, 100, 1000));
    assert_eq!(cone.classify(&hidden), Containment::Inside);
    assert!(cone.contains(&hidden));
    assert_eq!(cone.classify(&visible), Containment::Outside);
    assert_eq!(cone.classify(&both), Containment::Intersects);
}

#[test]
fn eye_inside_planet_hides_nothing() {
    let cone = Cone::new(p(0, 0, 10), 1000);
    assert!(!cone.hides(&p(0, 0, -1000)));
    let _ = open_frustum(p(0, 0, 0));
}

#[test]
fn split_halves_and_tiles_the_parent() {
    let root = PatchLocation::root(Face::Top);
    assert_eq!(root, PatchLocation { face: Face::Top, x: 0, y: 0, lod_level: 0 });
    let tl = root.top_left();
    let tr = root.top_right();
    let bl = root.bottom_left();
    let br = root.bottom_right();
    assert_eq!(tl, PatchLocation { face: Face::Top, x: 0, y: 0, lod_level: 1 });
    assert_eq!(tr, PatchLocation { face: Face::Top, x: 1, y: 0, lod_level: 1 });
    assert_eq!(bl, PatchLocation { face: Face::Top, x: 0, y: 1, lod_level: 1 });
    assert_eq!(br, PatchLocation { face: Face::Top, x: 1, y: 1, lod_level: 1 });
    let deeper = br.split(Child::TopRight);
    assert_eq!(deeper, PatchLocation { face: Face::Top, x: 3, y: 2, lod_level: 2 });
    // Every cell of the level-2 grid inside `br` lies in exactly one of its quadrants.
    let quads = [br.top_left(), br.top_right(), br.bottom_left(), br.bottom_right()];
    for px in 2..4u64 {
        for py in 2..4u64 {
            let n = quads.iter().filter(|q| q.x == px && q.y == py).count();
            assert_eq!(n, 1);
        }
    }
}

#[test]
fn child_and_face_indices() {
    assert_eq!(Child::TopLeft.index(), 0);
    assert_eq!(Child::BottomRight.index(), 3);
    let values = Child::values();
    for (i, c) in values.iter().enumerate() {
        assert_eq!(c.index(), i);
    }
    let faces = Face::values();
    assert_eq!(faces.len(), 6);
    for (i, f) in faces.iter().enumerate() {
        assert_eq!(f.index(), i);
    }
    assert_eq!(Face::Back.index(), 5);
}

#[test]
fn quad_tree_starts_without_children() {
    let t = QuadTree::new(7u32);
    assert!(!t.has_children());
    assert_eq!(t.content, 7);
}
