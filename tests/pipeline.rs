use omniverse::constants::{MAX_PATCH_COUNT, VERTICES_PER_PATCH};
use omniverse::culling::{Aabb, Point3};
use omniverse::draw::{
    DrawParameters, PolygonMode,
    draw_commands, index_buffer, index_range, low_detail_normal_index, morph_target_index,
    split_distances, INDEX_COUNT,
};
use omniverse::frustum::{Frustum, Plane};
use omniverse::horizon_culling::Cone;
use omniverse::id_arena::{IdArena, IdGenerator, SimpleIdArena};
use omniverse::lod_select::{LODSelectResult, MorphRange, VisibleNode, VisibleNodePart};
use omniverse::node::NodeId;
use omniverse::node_backing::NodeBacking;
use omniverse::patch::{Face, PatchLocation};
use omniverse::provider::{encode_priority, take_next, QueuedRequest};
use omniverse::quad_tree::Child;
use omniverse::residency::{Delivery, ProviderAction, Renderer};
use omniverse::timeline::Timeline;

fn p(x: i64, y: i64, z: i64) -> Point3 {
    Point3::new(x, y, z)
}

/// Bounding boxes of the six faces of a planet of radius `r`, by face number: +x, -x, +y,
/// -y, +z, -z.
fn face_boxes(r: i64) -> [Aabb; 6] {
    let e = r * 708 / 1000;
    let n = r * 577 / 1000;
    [
        Aabb::new(p(n, -e, -e), p(r, e, e)),
        Aabb::new(p(-r, -e, -e), p(-n, e, e)),
        Aabb::new(p(-e, n, -e), p(e, r, e)),
        Aabb::new(p(-e, -r, -e), p(e, -n, e)),
        Aabb::new(p(-e, -e, n), p(e, e, r)),
        Aabb::new(p(-e, -e, -r), p(e, e, -n)),
    ]
}

fn open_frustum(eye: Point3) -> Frustum {
    Frustum::new(eye, [Plane { a: 0, b: 0, c: 0, d: 1 }; 6])
}

#[test]
fn arena_reuses_released_ids() {
    let mut arena = SimpleIdArena::with_capacity(2);
    assert_eq!(arena.capacity(), 2);
    assert_eq!(arena.acquire(), Some(0));
    assert_eq!(arena.acquire(), Some(1));
    assert_eq!(arena.acquire(), None);
    assert_eq!(arena.len(), 2);
    arena.release(0);
    assert_eq!(arena.len(), 1);
    assert_eq!(arena.acquire(), Some(0));
    assert_eq!(arena.acquire(), None);
}

#[test]
fn backing_runs_out_at_capacity() {
    let mut backing = NodeBacking::new();
    for _ in 0..MAX_PATCH_COUNT {
        assert!(backing.acquire().is_some());
    }
    assert_eq!(backing.len(), MAX_PATCH_COUNT);
    assert!(backing.acquire().is_none());
    backing.release(NodeId(7));
    assert_eq!(backing.acquire(), Some(NodeId(7)));
    assert_eq!(backing.atlas_index(NodeId(7)), 7);
    assert_eq!(backing.base_vertex(NodeId(2)), 2 * 33 * 33);
}

#[test]
fn index_buffer_has_four_quadrants() {
    let indices = index_buffer();
    assert_eq!(indices.len(), (VERTICES_PER_PATCH - 1) * (VERTICES_PER_PATCH - 1) * 6);
    assert_eq!(indices.len() as u32, INDEX_COUNT);
    assert_eq!(&indices[0..6], &[0, 33, 34, 0, 34, 1]);
    // The top-right quadrant starts at column 16.
    assert_eq!(&indices[1536..1542], &[16, 49, 50, 16, 50, 17]);
    // The bottom-right quadrant starts at row 16, column 16.
    assert_eq!(indices[3 * 1536], 16 + 16 * 33);
    // The last corner is (32, 31), the right end of the last cell's upper edge.
    assert_eq!(indices[6143], 32 + 31 * 33);
    assert!(indices.iter().all(|&i| (i as usize) < 33 * 33));
}

#[test]
fn draw_commands_cover_parts() {
    assert_eq!(index_range(VisibleNodePart::Whole), (0, 6144));
    assert_eq!(index_range(VisibleNodePart::Child(Child::BottomLeft)), (3072, 1536));
    let range = MorphRange { start_tenths: 90, end_tenths: 100 };
    let nodes = vec![
        VisibleNode { node_id: NodeId(3), part: VisibleNodePart::Whole, morph_range: range, lod_level: 0 },
        VisibleNode {
            node_id: NodeId(5),
            part: VisibleNodePart::Child(Child::TopRight),
            morph_range: range,
            lod_level: 1,
        },
    ];
    let commands = draw_commands(&nodes);
    assert_eq!(commands.len(), 2);
    assert_eq!(commands[0].count, 6144);
    assert_eq!(commands[0].first_index, 0);
    assert_eq!(commands[0].base_vertex, 3 * 1089);
    assert_eq!(commands[0].base_instance, 0);
    assert_eq!(commands[1].count, 1536);
    assert_eq!(commands[1].first_index, 1536);
    assert_eq!(commands[1].base_vertex, 5 * 1089);
    assert_eq!(commands[1].base_instance, 1);
    assert_eq!(commands[1].instance_count, 1);
}

#[test]
fn split_distances_halve_per_level() {
    assert_eq!(split_distances(3), vec![16, 8, 4, 2]);
    assert_eq!(split_distances(0), vec![2]);
    let d = split_distances(19);
    assert_eq!(d.len(), 20);
    assert_eq!(d[0], 1 << 20);
}

#[test]
fn morph_targets_are_even_grid_points() {
    assert_eq!(morph_target_index(0), 0);
    assert_eq!(morph_target_index(1), 0);
    assert_eq!(morph_target_index(34), 0);
    assert_eq!(morph_target_index(35), 2);
    assert_eq!(morph_target_index(33 * 33 - 1), 33 * 33 - 1);
    assert_eq!(low_detail_normal_index(0), Some(0));
    assert_eq!(low_detail_normal_index(1), None);
    assert_eq!(low_detail_normal_index(66 * 2 + 4), Some(33 + 2));
}

#[test]
fn priorities_favour_fine_patches_in_view() {
    assert_eq!(encode_priority(3, false), 3);
    assert_eq!(encode_priority(3, true), 515);
    assert!(encode_priority(5, true) > encode_priority(4, false));
    assert!(encode_priority(1, false) > 0);
}

#[test]
fn scheduler_drops_cancelled_and_takes_highest() {
    let loc = PatchLocation::root(Face::Left);
    let mut queue = vec![
        QueuedRequest { id: 1, priority: 2, location: loc },
        QueuedRequest { id: 2, priority: 0, location: loc },
        QueuedRequest { id: 3, priority: 515, location: loc },
        QueuedRequest { id: 4, priority: 515, location: loc },
    ];
    assert_eq!(take_next(&mut queue).map(|r| r.id), Some(4));
    assert_eq!(queue.len(), 2);
    assert_eq!(take_next(&mut queue).map(|r| r.id), Some(3));
    assert_eq!(take_next(&mut queue).map(|r| r.id), Some(1));
    assert_eq!(take_next(&mut queue), None);
    let mut cancelled = vec![QueuedRequest { id: 9, priority: 0, location: loc }];
    assert_eq!(take_next(&mut cancelled), None);
    assert!(cancelled.is_empty());
}

#[test]
fn thousand_requests_all_come_out() {
    let loc = PatchLocation::root(Face::Top);
    let mut queue: Vec<QueuedRequest> =
        (0..1000).map(|id| QueuedRequest { id, priority: 1, location: loc }).collect();
    let mut seen = vec![false; 1000];
    while let Some(r) = take_next(&mut queue) {
        assert!(!seen[r.id]);
        seen[r.id] = true;
    }
    assert!(seen.iter().all(|&s| s));
}

#[test]
fn six_whole_roots_without_splits() {
    let renderer = Renderer::new(face_boxes(1000), split_distances(0));
    let eye = p(0, 0, 1500);
    // A cone of radius zero hides nothing.
    let visible = renderer.visible_nodes(&open_frustum(eye), &Cone::new(eye, 0));
    assert_eq!(visible.len(), 6);
    for v in visible.iter() {
        assert_eq!(v.part, VisibleNodePart::Whole);
        assert_eq!(index_range(v.part).1 / 3, 32 * 32 * 2);
        assert_eq!(v.morph_range, MorphRange { start_tenths: 18, end_tenths: 20 });
    }
    assert_eq!(renderer.resident_count(), 6);
}

#[test]
fn horizon_culls_the_far_face() {
    let renderer = Renderer::new(face_boxes(1000), split_distances(0));
    let eye = p(0, 0, 1500);
    let visible = renderer.visible_nodes(&open_frustum(eye), &Cone::new(eye, 1000));
    assert_eq!(visible.len(), 5);
}

#[test]
fn near_face_splits_first() {
    let mut renderer = Renderer::new(face_boxes(400_000), split_distances(10));
    let eye = p(0, 0, 402_000);
    renderer.ensure_resident_patches(&open_frustum(eye));
    let actions = renderer.take_actions();
    let queued: Vec<PatchLocation> = actions
        .iter()
        .filter_map(|a| match a {
            ProviderAction::Queue { location, .. } => Some(*location),
            _ => None,
        })
        .collect();
    assert_eq!(queued.len(), 4);
    assert!(queued.iter().all(|l| l.face == Face::Front && l.lod_level == 1));
    assert_eq!(renderer.pending_count(), 4);
    // Until the children arrive, the front face is drawn whole from its root.
    let visible = renderer.visible_nodes(&open_frustum(eye), &Cone::new(eye, 400_000));
    assert!(visible.len() <= 2);
    assert!(visible.iter().all(|v| v.part == VisibleNodePart::Whole));
}

#[test]
fn delivered_children_replace_the_parent() {
    let mut renderer = Renderer::new(face_boxes(400_000), split_distances(10));
    let eye = p(0, 0, 402_000);
    renderer.ensure_resident_patches(&open_frustum(eye));
    let actions = renderer.take_actions();
    let mut ids = Vec::new();
    for a in actions.iter() {
        if let ProviderAction::Queue { id, .. } = a {
            ids.push(*id);
        }
    }
    let first = ids[0];
    let child_box = Aabb::new(p(-1000, -1000, 399_000), p(0, 0, 400_000));
    match renderer.receive(first, child_box) {
        Delivery::Placed(slot) => assert!(slot.0 >= 6),
        other => panic!("unexpected {:?}", other),
    }
    assert_eq!(renderer.resident_count(), 7);
    assert_eq!(renderer.pending_count(), 3);
    assert!(!renderer.is_pending(first));
    // The same result again is stale.
    assert_eq!(renderer.receive(first, child_box), Delivery::Stale);
    let visible = renderer.visible_nodes(&open_frustum(eye), &Cone::new(eye, 0));
    // The child is drawn, the parent fills the three quadrants still pending.
    let parts = visible.iter().filter(|v| matches!(v.part, VisibleNodePart::Child(_))).count();
    assert_eq!(parts, 3);
    assert!(visible.iter().any(|v| v.lod_level == 1));
}

#[test]
fn cancelled_request_leaves_nothing_pending() {
    let mut renderer = Renderer::new(face_boxes(400_000), split_distances(10));
    let near = p(0, 0, 402_000);
    renderer.ensure_resident_patches(&open_frustum(near));
    let ids: Vec<usize> = renderer
        .take_actions()
        .iter()
        .filter_map(|a| match a {
            ProviderAction::Queue { id, .. } => Some(*id),
            _ => None,
        })
        .collect();
    // The eye moves away: the front face merges and its requests are cancelled.
    let far = p(0, 0, 900_000);
    renderer.ensure_resident_patches(&open_frustum(far));
    let cancels = renderer
        .take_actions()
        .iter()
        .filter(|a| matches!(a, ProviderAction::SetPriority { priority: 0, .. }))
        .count();
    assert_eq!(cancels, 4);
    assert_eq!(renderer.pending_count(), 0);
    // A result that was already being computed is dropped.
    let late = Aabb::new(p(0, 0, 399_000), p(10, 10, 400_000));
    assert_eq!(renderer.receive(ids[0], late), Delivery::Stale);
    assert_eq!(renderer.pending_count(), 0);
    assert_eq!(renderer.resident_count(), 6);
}

#[test]
fn empty_view_draws_nothing() {
    let renderer = Renderer::new(face_boxes(1000), split_distances(0));
    let eye = p(0, 0, 1500);
    let nothing = Frustum::new(eye, [Plane { a: 0, b: 0, c: 0, d: -1 }; 6]);
    let visible = renderer.visible_nodes(&nothing, &Cone::new(eye, 1000));
    assert!(visible.is_empty());
    assert!(draw_commands(&visible).is_empty());
}

#[test]
fn select_results_left_for_parent() {
    assert!(LODSelectResult::Pending.is_not_selected());
    assert!(LODSelectResult::OutOfRange.is_not_selected());
    assert!(LODSelectResult::Undefined.is_not_selected());
    assert!(!LODSelectResult::Selected.is_not_selected());
    assert!(!LODSelectResult::OutOfFrustum.is_not_selected());
}

#[test]
fn timeline_measures_frames() {
    let mut timeline = Timeline::new();
    assert_eq!(timeline.previous_frame_duration().as_nanos(), 0);
    let start = timeline.start_time;
    timeline.next_frame();
    assert_eq!(timeline.start_time, start);
    assert!(timeline.previous_frame_time >= start);
}

#[test]
fn new_generator_starts_over_from_roots() {
    let mut renderer = Renderer::new(face_boxes(400_000), split_distances(10));
    let eye = p(0, 0, 402_000);
    renderer.ensure_resident_patches(&open_frustum(eye));
    let actions = renderer.take_actions();
    // Four requests, then the new children's priorities for this frame.
    assert_eq!(actions.len(), 8);
    assert!(matches!(actions[4], ProviderAction::SetPriority { priority: 513, .. }));
    assert_eq!(renderer.pending_count(), 4);
    renderer.set_generator(face_boxes(400_000));
    assert_eq!(renderer.pending_count(), 0);
    assert_eq!(renderer.resident_count(), 6);
    let cancels = renderer
        .take_actions()
        .iter()
        .filter(|a| matches!(a, ProviderAction::SetPriority { priority: 0, .. }))
        .count();
    assert_eq!(cancels, 4);
    let slots: Vec<usize> = (0..6).map(|f| renderer.root_slot(f).0).collect();
    for (i, s) in slots.iter().enumerate() {
        assert!(!slots[i + 1..].contains(s));
    }
}

#[test]
fn pending_children_get_view_priorities() {
    let mut renderer = Renderer::new(face_boxes(400_000), split_distances(10));
    let eye = p(0, 0, 402_000);
    renderer.ensure_resident_patches(&open_frustum(eye));
    let _ = renderer.take_actions();
    // On the next pass the pending children are reprioritised: level 1, parent in view.
    renderer.ensure_resident_patches(&open_frustum(eye));
    let priorities: Vec<usize> = renderer
        .take_actions()
        .iter()
        .filter_map(|a| match a {
            ProviderAction::SetPriority { priority, .. } => Some(*priority),
            _ => None,
        })
        .collect();
    assert_eq!(priorities, vec![513, 513, 513, 513]);
}

#[test]
fn draw_parameters_choose_polygon_mode() {
    let solid = DrawParameters::default();
    assert!(!solid.wire_frame);
    assert_eq!(solid.polygon_mode(), PolygonMode::Fill);
    assert_eq!(DrawParameters { wire_frame: true }.polygon_mode(), PolygonMode::Line);
}

#[test]
fn split_queues_quadrants_in_order() {
    let mut renderer = Renderer::new(face_boxes(400_000), split_distances(10));
    let eye = p(0, 0, 402_000);
    renderer.ensure_resident_patches(&open_frustum(eye));
    let actions = renderer.take_actions();
    let front = PatchLocation::root(Face::Front);
    let expected = [front.top_left(), front.top_right(), front.bottom_left(), front.bottom_right()];
    for (i, loc) in expected.iter().enumerate() {
        assert_eq!(actions[i], ProviderAction::Queue { id: i, location: *loc, priority: 2 });
    }
}

#[test]
fn released_slot_is_reused_first() {
    let mut arena = SimpleIdArena::with_capacity(4);
    assert_eq!(arena.acquire(), Some(0));
    assert_eq!(arena.acquire(), Some(1));
    assert_eq!(arena.acquire(), Some(2));
    arena.release(1);
    arena.release(0);
    assert_eq!(arena.acquire(), Some(0));
    assert_eq!(arena.acquire(), Some(1));
    assert_eq!(arena.acquire(), Some(3));
}
