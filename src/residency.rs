use vstd::prelude::*;
use std::collections::HashMap;
use crate::node::{Node, NodeGeometry, NodeId, Token, child_of, lemma_child_valid, tree_valid};
use crate::culling::{Classify, in_range, spec_in_range};
use crate::frustum::Frustum;
use crate::lod_select::{split_distances_valid, LODSelectHelper, SelectParams, VisibleNode, Selection, LODSelectResult, emitted_of, lemma_emitted_push};
use crate::horizon_culling::Cone;
use crate::provider::{encode_priority, spec_priority, spec_initial_priority, IN_FRUSTUM_PRIORITY};
use crate::node_backing::NodeBacking;
use crate::patch::{Face, PatchLocation, MAX_LOD_LEVEL};
use crate::culling::Aabb;
use crate::constants::MAX_PATCH_COUNT;
use crate::quad_tree::{QuadTree, child_at};

verus! {

broadcast use vstd::std_specs::hash::group_hash_axioms;

/// What the residency pass asks of the geometry provider.
#[derive(Copy, Clone, Debug, PartialEq, Eq, Structural)]
pub enum ProviderAction {
    /// Start computing the geometry of `location` under request `id`, at `priority`.
    Queue { id: usize, location: PatchLocation, priority: usize },
    /// Change the priority of request `id`; zero cancels it.
    SetPriority { id: usize, priority: usize },
}

/// The pending requests of the tree rooted at `t` (at `loc`): request id to location.
pub open spec fn pending_of(t: QuadTree<Node>, loc: PatchLocation) -> Map<usize, PatchLocation>
    decreases MAX_LOD_LEVEL - loc.lod_level, 5int,
{
    match t.content {
        Node::Pending(id, _) => map![id => loc],
        Node::WithGeometry(_) => children_pending(t, loc, 4),
    }
}

/// The pending requests of the first `n` children of `t`.
pub open spec fn children_pending(t: QuadTree<Node>, loc: PatchLocation, n: int) -> Map<
    usize,
    PatchLocation,
>
    decreases MAX_LOD_LEVEL - loc.lod_level, n,
{
    if n <= 0 || n > 4 || t.children is None || loc.lod_level >= MAX_LOD_LEVEL {
        Map::empty()
    } else {
        children_pending(t, loc, n - 1).union_prefer_right(
            pending_of(child_of(t, n - 1), loc.spec_split(child_at(n - 1))),
        )
    }
}

/// The backing slots held by the resident nodes of the tree.
pub open spec fn slots_of(t: QuadTree<Node>, loc: PatchLocation) -> Set<usize>
    decreases MAX_LOD_LEVEL - loc.lod_level, 5int,
{
    match t.content {
        Node::Pending(_, _) => Set::empty(),
        Node::WithGeometry(g) => children_slots(t, loc, 4).insert(g.node_id.0),
    }
}

/// The backing slots held by the first `n` children of `t` and their descendants.
pub open spec fn children_slots(t: QuadTree<Node>, loc: PatchLocation, n: int) -> Set<usize>
    decreases MAX_LOD_LEVEL - loc.lod_level, n,
{
    if n <= 0 || n > 4 || t.children is None || loc.lod_level >= MAX_LOD_LEVEL {
        Set::empty()
    } else {
        children_slots(t, loc, n - 1).union(
            slots_of(child_of(t, n - 1), loc.spec_split(child_at(n - 1))),
        )
    }
}

/// The number of resident nodes of the tree.
pub open spec fn resident_count(t: QuadTree<Node>, loc: PatchLocation) -> nat
    decreases MAX_LOD_LEVEL - loc.lod_level, 5int,
{
    match t.content {
        Node::Pending(_, _) => 0,
        Node::WithGeometry(_) => 1 + children_count(t, loc, 4),
    }
}

/// The number of resident nodes of the first `n` children of `t` and their descendants.
pub open spec fn children_count(t: QuadTree<Node>, loc: PatchLocation, n: int) -> nat
    decreases MAX_LOD_LEVEL - loc.lod_level, n,
{
    if n <= 0 || n > 4 || t.children is None || loc.lod_level >= MAX_LOD_LEVEL {
        0
    } else {
        children_count(t, loc, n - 1) + resident_count(
            child_of(t, n - 1),
            loc.spec_split(child_at(n - 1)),
        )
    }
}

/// No two nodes of the tree share a request id or a slot.
pub open spec fn unique(t: QuadTree<Node>, loc: PatchLocation) -> bool
    decreases MAX_LOD_LEVEL - loc.lod_level, 5int,
{
    match t.content {
        Node::Pending(_, _) => true,
        Node::WithGeometry(g) => !children_slots(t, loc, 4).contains(g.node_id.0)
            && children_unique(t, loc, 4),
    }
}

/// No two nodes among the first `n` children of `t` and their descendants share a request id
/// or a slot.
pub open spec fn children_unique(t: QuadTree<Node>, loc: PatchLocation, n: int) -> bool
    decreases MAX_LOD_LEVEL - loc.lod_level, n,
{
    if n <= 0 || n > 4 || t.children is None || loc.lod_level >= MAX_LOD_LEVEL {
        true
    } else {
        let c = child_of(t, n - 1);
        let cl = loc.spec_split(child_at(n - 1));
        &&& children_unique(t, loc, n - 1)
        &&& unique(c, cl)
        &&& children_pending(t, loc, n - 1).dom().disjoint(pending_of(c, cl).dom())
        &&& children_slots(t, loc, n - 1).disjoint(slots_of(c, cl))
    }
}

/// The cancellations that dropping the tree sends: priority zero for each pending request,
/// children before their parent, in quadrant order.
pub open spec fn cancels_of(t: QuadTree<Node>, loc: PatchLocation) -> Seq<ProviderAction>
    decreases MAX_LOD_LEVEL - loc.lod_level, 5int,
{
    match t.content {
        Node::Pending(id, _) => seq![ProviderAction::SetPriority { id, priority: 0 }],
        Node::WithGeometry(_) => children_cancels(t, loc, 4),
    }
}

/// The cancellations that dropping the first `n` children of `t` sends.
pub open spec fn children_cancels(t: QuadTree<Node>, loc: PatchLocation, n: int) -> Seq<
    ProviderAction,
>
    decreases MAX_LOD_LEVEL - loc.lod_level, n,
{
    if n <= 0 || n > 4 || t.children is None || loc.lod_level >= MAX_LOD_LEVEL {
        Seq::empty()
    } else {
        children_cancels(t, loc, n - 1) + cancels_of(
            child_of(t, n - 1),
            loc.spec_split(child_at(n - 1)),
        )
    }
}

proof fn lemma_children_prefix(t: QuadTree<Node>, loc: PatchLocation, i: int, n: int)
    requires
        0 <= i <= n <= 4,
        children_unique(t, loc, n),
    ensures
        children_unique(t, loc, i),
        children_slots(t, loc, i).subset_of(children_slots(t, loc, n)),
        children_pending(t, loc, i).dom().subset_of(children_pending(t, loc, n).dom()),
    decreases n,
{
    if i < n {
        lemma_children_prefix(t, loc, i, n - 1);
    }
}

/// Releases every slot and cancels every request of the tree, leaving the tree itself to the
/// caller to drop.
fn remove_face(
    backing: &mut NodeBacking,
    node: &QuadTree<Node>,
    location: Ghost<PatchLocation>,
    max_lod: Ghost<nat>,
    pending_requests: &mut HashMap<usize, PatchLocation>,
    actions: &mut Vec<ProviderAction>,
)
    requires
        old(backing).wf(),
        tree_valid(*node, location@, max_lod@),
        unique(*node, location@),
        slots_of(*node, location@).subset_of(old(backing).slots()),
    ensures
        final(backing).wf(),
        final(backing).slots() == old(backing).slots().difference(slots_of(*node, location@)),
        final(backing).spec_len() + resident_count(*node, location@) == old(backing).spec_len(),
        final(pending_requests)@ == old(pending_requests)@.remove_keys(
            pending_of(*node, location@).dom(),
        ),
        final(actions)@ == old(actions)@ + cancels_of(*node, location@),
    decreases MAX_LOD_LEVEL - location@.lod_level, 5int,
{
    match &node.content {
        Node::Pending(id, _) => {
            actions.push(ProviderAction::SetPriority { id: *id, priority: 0 });
            pending_requests.remove(id);
            assert(old(backing).slots().difference(slots_of(*node, location@)) =~= old(backing).slots());
            assert(final(pending_requests)@ =~= old(pending_requests)@.remove_keys(
                pending_of(*node, location@).dom(),
            ));
        },
        Node::WithGeometry(geometry) => {
            remove_children(backing, node, location, max_lod, pending_requests, actions, 4);
            backing.release(geometry.node_id);
            assert(backing.slots() =~= old(backing).slots().difference(
                slots_of(*node, location@),
            ));
            assert(pending_requests@ =~= old(pending_requests)@.remove_keys(
                pending_of(*node, location@).dom(),
            ));
        },
    }
}

/// Releases every slot and cancels every request below the first `n` children of the node.
fn remove_children(
    backing: &mut NodeBacking,
    node: &QuadTree<Node>,
    location: Ghost<PatchLocation>,
    max_lod: Ghost<nat>,
    pending_requests: &mut HashMap<usize, PatchLocation>,
    actions: &mut Vec<ProviderAction>,
    n: usize,
)
    requires
        n <= 4,
        old(backing).wf(),
        tree_valid(*node, location@, max_lod@),
        children_unique(*node, location@, n as int),
        children_slots(*node, location@, n as int).subset_of(old(backing).slots()),
    ensures
        final(backing).wf(),
        final(backing).slots() == old(backing).slots().difference(
            children_slots(*node, location@, n as int),
        ),
        final(backing).spec_len() + children_count(*node, location@, n as int) == old(backing).spec_len(),
        final(pending_requests)@ == old(pending_requests)@.remove_keys(
            children_pending(*node, location@, n as int).dom(),
        ),
        final(actions)@ == old(actions)@ + children_cancels(*node, location@, n as int),
    decreases MAX_LOD_LEVEL - location@.lod_level, n,
{
    let ghost loc = location@;
    match &node.children {
        Some(children) => {
            if n == 0 {
                assert(old(backing).slots().difference(children_slots(*node, loc, 0)) =~= old(backing).slots());
                assert(old(pending_requests)@.remove_keys(children_pending(*node, loc, 0).dom())
                    =~= old(pending_requests)@);
                return;
            }
            let i = n - 1;
            proof {
                lemma_children_prefix(*node, loc, i as int, n as int);
            }
            remove_children(backing, node, location, max_lod, pending_requests, actions, i);
            let ghost cl = loc.spec_split(child_at(i as int));
            assert(child_of(*node, i as int) == children[i as int]);
            assert(tree_valid(children[i as int], cl, max_lod@));
            assert(slots_of(children[i as int], cl).subset_of(backing.slots()));
            remove_face(backing, &children[i], Ghost(cl), max_lod, pending_requests, actions);
            assert(backing.slots() =~= old(backing).slots().difference(
                children_slots(*node, loc, n as int),
            ));
            assert(pending_requests@ =~= old(pending_requests)@.remove_keys(
                children_pending(*node, loc, n as int).dom(),
            ));
        },
        None => {
            assert(old(backing).slots().difference(children_slots(*node, loc, n as int)) =~= old(backing).slots());
            assert(old(pending_requests)@.remove_keys(children_pending(*node, loc, n as int).dom())
                =~= old(pending_requests)@);
        },
    }
}

/// Given a quad tree node, destroy all its children and clean up after them.
fn merge(
    backing: &mut NodeBacking,
    node: &mut QuadTree<Node>,
    location: Ghost<PatchLocation>,
    max_lod: Ghost<nat>,
    pending_requests: &mut HashMap<usize, PatchLocation>,
    actions: &mut Vec<ProviderAction>,
)
    requires
        old(backing).wf(),
        tree_valid(*old(node), location@, max_lod@),
        children_unique(*old(node), location@, 4),
        children_slots(*old(node), location@, 4).subset_of(old(backing).slots()),
    ensures
        final(node).content == old(node).content,
        final(node).children is None,
        final(backing).wf(),
        final(backing).slots() == old(backing).slots().difference(
            children_slots(*old(node), location@, 4),
        ),
        final(backing).spec_len() + children_count(*old(node), location@, 4) == old(backing).spec_len(),
        final(pending_requests)@ == old(pending_requests)@.remove_keys(
            children_pending(*old(node), location@, 4).dom(),
        ),
        final(actions)@ == old(actions)@ + children_cancels(*old(node), location@, 4),
{
    remove_children(backing, node, location, max_lod, pending_requests, actions, 4);
    node.children = None;
}

proof fn lemma_restore(m: Map<usize, PatchLocation>, p: Map<usize, PatchLocation>)
    requires
        p.submap_of(m),
    ensures
        m.remove_keys(p.dom()).union_prefer_right(p) == m,
{
    assert forall|k: usize| #[trigger] p.contains_key(k) implies m.contains_key(k) && m[k] == p[k] by {
        if m.dom().contains(k) {
        }
    }
    assert(m.remove_keys(p.dom()).union_prefer_right(p) =~= m);
}

proof fn lemma_children_pending_value(t: QuadTree<Node>, loc: PatchLocation, i: int, n: int, k: usize)
    requires
        0 <= i <= n <= 4,
        children_unique(t, loc, n),
        children_pending(t, loc, i).contains_key(k),
    ensures
        children_pending(t, loc, n).contains_key(k),
        children_pending(t, loc, n)[k] == children_pending(t, loc, i)[k],
    decreases n,
{
    if i < n {
        lemma_children_pending_value(t, loc, i, n - 1, k);
        lemma_children_prefix(t, loc, n - 1, n);
    }
}

/// Trees that agree on their first `n` children agree on what those children hold.
proof fn lemma_children_congruent(t1: QuadTree<Node>, t2: QuadTree<Node>, loc: PatchLocation, n: int)
    requires
        0 <= n <= 4,
        t1.children is Some,
        t2.children is Some,
        forall|j: int| 0 <= j < n ==> child_of(t1, j) == child_of(t2, j),
    ensures
        children_pending(t1, loc, n) == children_pending(t2, loc, n),
        children_slots(t1, loc, n) == children_slots(t2, loc, n),
        children_count(t1, loc, n) == children_count(t2, loc, n),
        children_unique(t1, loc, n) == children_unique(t2, loc, n),
    decreases n,
{
    if n > 0 {
        lemma_children_congruent(t1, t2, loc, n - 1);
    }
}

/// How one pass leaves a tree: it keeps no slot it did not hold, and each of its requests was
/// already pending in it or is new (numbered from `first` to below `next`).
pub open spec fn evolved(
    old_t: QuadTree<Node>,
    new_t: QuadTree<Node>,
    loc: PatchLocation,
    first: nat,
    next: nat,
) -> bool {
    &&& slots_of(new_t, loc).subset_of(slots_of(old_t, loc))
    &&& forall|k: usize| #[trigger]
        pending_of(new_t, loc).contains_key(k) ==> pending_of(old_t, loc).contains_key(k) || (
        first <= k < next)
}

/// Whether a pass visits the node at `loc` below its own split level.
pub open spec fn visited(loc: PatchLocation, split_distances: Seq<u64>) -> bool {
    loc.lod_level < split_distances.len() && loc.lod_level < MAX_LOD_LEVEL
}

/// Whether the eye lies within the split distance of the resident node `g` at `loc`.
pub open spec fn wants_children(
    g: NodeGeometry,
    loc: PatchLocation,
    frustum: Frustum,
    split_distances: Seq<u64>,
) -> bool {
    spec_in_range(g.aabb, frustum.position, split_distances[loc.lod_level as int] as int)
}

/// Whether the pass gives the childless resident node four new pending children: only when at
/// least four request ids are left below `usize::MAX`.
pub open spec fn ids_left(next: nat) -> bool {
    next + 4 <= usize::MAX
}

/// The new pending node for quadrant `i` of `loc`, under request id `next + i`.
pub open spec fn fresh_child(loc: PatchLocation, next: nat, i: int) -> QuadTree<Node> {
    QuadTree {
        content: Node::Pending(
            (next + i) as usize,
            Token { priority: spec_initial_priority(loc.lod_level as nat + 1) as usize },
        ),
        children: None,
    }
}

/// The four requests the pass queues when it splits the node at `loc`, ids from `next` on.
pub open spec fn queue_actions(loc: PatchLocation, next: nat) -> Seq<ProviderAction> {
    Seq::new(
        4,
        |i: int|
            ProviderAction::Queue {
                id: (next + i) as usize,
                location: loc.spec_split(child_at(i)),
                priority: spec_initial_priority(loc.lod_level as nat + 1) as usize,
            },
    )
}

/// Whether the pass creates children for `t`: a resident, childless node within its split
/// distance, with ids left.
pub open spec fn creates_children(
    t: QuadTree<Node>,
    loc: PatchLocation,
    frustum: Frustum,
    split_distances: Seq<u64>,
    next: nat,
) -> bool {
    &&& visited(loc, split_distances)
    &&& t.content matches Node::WithGeometry(g) && wants_children(g, loc, frustum, split_distances)
    &&& t.children is None
    &&& ids_left(next)
}

/// Whether the pass descends into the children of `t` (after creating them if needed).
pub open spec fn descends(
    t: QuadTree<Node>,
    loc: PatchLocation,
    frustum: Frustum,
    split_distances: Seq<u64>,
    next: nat,
) -> bool {
    &&& visited(loc, split_distances)
    &&& t.content matches Node::WithGeometry(g) && wants_children(g, loc, frustum, split_distances)
    &&& (t.children is Some || ids_left(next))
}

/// Child `i` of `t` as the pass finds it when it descends: the existing child, or the new
/// pending one.
pub open spec fn kid(t: QuadTree<Node>, loc: PatchLocation, next: nat, i: int) -> QuadTree<Node> {
    if t.children is Some {
        child_of(t, i)
    } else {
        fresh_child(loc, next, i)
    }
}

/// Whether the children of the resident node `t` count as in view for their priorities.
pub open spec fn kids_in_frustum(t: QuadTree<Node>, frustum: Frustum) -> bool {
    frustum.classify_box(t.content->WithGeometry_0.aabb) != crate::culling::Containment::Outside
}

/// The next free request id after the pass over `t` at `loc`, started with `next`.
pub open spec fn pass_next(
    t: QuadTree<Node>,
    loc: PatchLocation,
    frustum: Frustum,
    split_distances: Seq<u64>,
    next: nat,
) -> nat
    decreases MAX_LOD_LEVEL - loc.lod_level, 5int,
{
    if descends(t, loc, frustum, split_distances, next) {
        kids_next(t, loc, frustum, split_distances, next, 4)
    } else {
        next
    }
}

/// The next free request id after the pass over the first `n` children of `t`.
pub open spec fn kids_next(
    t: QuadTree<Node>,
    loc: PatchLocation,
    frustum: Frustum,
    split_distances: Seq<u64>,
    next: nat,
    n: int,
) -> nat
    decreases MAX_LOD_LEVEL - loc.lod_level, n,
{
    if n <= 0 || n > 4 || loc.lod_level >= MAX_LOD_LEVEL {
        if t.children is Some { next } else { next + 4 }
    } else {
        pass_next(
            kid(t, loc, next, n - 1),
            loc.spec_split(child_at(n - 1)),
            frustum,
            split_distances,
            kids_next(t, loc, frustum, split_distances, next, n - 1),
        )
    }
}

/// The actions the pass over `t` at `loc` records for the provider: a pending node within the
/// split levels gets its new priority; a resident node out of its split range drops its
/// children and cancels their requests; one within range queues four children if it had none
/// (and ids are left), then the pass goes on in its children in quadrant order.
pub open spec fn pass_actions(
    t: QuadTree<Node>,
    loc: PatchLocation,
    parent_in_frustum: bool,
    frustum: Frustum,
    split_distances: Seq<u64>,
    next: nat,
) -> Seq<ProviderAction>
    decreases MAX_LOD_LEVEL - loc.lod_level, 5int,
{
    if !visited(loc, split_distances) {
        Seq::empty()
    } else {
        match t.content {
            Node::Pending(id, _) => seq![
                ProviderAction::SetPriority {
                    id,
                    priority: spec_priority(loc.lod_level as nat, parent_in_frustum) as usize,
                },
            ],
            Node::WithGeometry(g) => if !wants_children(g, loc, frustum, split_distances) {
                children_cancels(t, loc, 4)
            } else if t.children is None && !ids_left(next) {
                Seq::empty()
            } else {
                (if t.children is None {
                    queue_actions(loc, next)
                } else {
                    Seq::empty()
                }) + kids_actions(t, loc, frustum, split_distances, next, 4)
            },
        }
    }
}

/// The actions the pass records for the first `n` children of the resident node `t`.
pub open spec fn kids_actions(
    t: QuadTree<Node>,
    loc: PatchLocation,
    frustum: Frustum,
    split_distances: Seq<u64>,
    next: nat,
    n: int,
) -> Seq<ProviderAction>
    decreases MAX_LOD_LEVEL - loc.lod_level, n,
{
    if n <= 0 || n > 4 || loc.lod_level >= MAX_LOD_LEVEL {
        Seq::empty()
    } else {
        kids_actions(t, loc, frustum, split_distances, next, n - 1) + pass_actions(
            kid(t, loc, next, n - 1),
            loc.spec_split(child_at(n - 1)),
            kids_in_frustum(t, frustum),
            frustum,
            split_distances,
            kids_next(t, loc, frustum, split_distances, next, n - 1),
        )
    }
}

/// What the pass makes of the tree `old_t` at `loc`: `new_t` is the result. Below the split
/// levels nothing changes. A pending node gets the priority of its level and of whether its
/// parent is in view. A resident node keeps its geometry; out of its split range it ends
/// without children; within range it ends with four children, each the result of the pass
/// over the child it had or over a new pending child, unless it had none and no ids are left,
/// in which case it stays as it was.
pub open spec fn pass_tree(
    old_t: QuadTree<Node>,
    new_t: QuadTree<Node>,
    loc: PatchLocation,
    parent_in_frustum: bool,
    frustum: Frustum,
    split_distances: Seq<u64>,
    next: nat,
) -> bool
    decreases MAX_LOD_LEVEL - loc.lod_level,
{
    if !visited(loc, split_distances) {
        new_t == old_t
    } else {
        match old_t.content {
            Node::Pending(id, _) => new_t == QuadTree {
                content: Node::Pending(
                    id,
                    Token { priority: spec_priority(loc.lod_level as nat, parent_in_frustum) as usize },
                ),
                children: old_t.children,
            },
            Node::WithGeometry(g) => if !wants_children(g, loc, frustum, split_distances) {
                new_t.content == old_t.content && new_t.children is None
            } else if old_t.children is None && !ids_left(next) {
                new_t == old_t
            } else {
                &&& new_t.content == old_t.content
                &&& new_t.children is Some
                &&& forall|i: int|
                    0 <= i < 4 ==> pass_tree(
                        kid(old_t, loc, next, i),
                        #[trigger] child_of(new_t, i),
                        loc.spec_split(child_at(i)),
                        kids_in_frustum(old_t, frustum),
                        frustum,
                        split_distances,
                        kids_next(old_t, loc, frustum, split_distances, next, i),
                    )
            },
        }
    }
}

/// A pass that finds a resident, childless node within its split distance (with ids left)
/// leaves it with four children: the pending nodes of requests `next .. next + 4`, one per
/// quadrant, and their requests queued first among its actions.
pub proof fn lemma_split_children(
    old_t: QuadTree<Node>,
    new_t: QuadTree<Node>,
    loc: PatchLocation,
    parent_in_frustum: bool,
    frustum: Frustum,
    split_distances: Seq<u64>,
    next: nat,
)
    requires
        creates_children(old_t, loc, frustum, split_distances, next),
        pass_tree(old_t, new_t, loc, parent_in_frustum, frustum, split_distances, next),
    ensures
        new_t.content == old_t.content,
        new_t.children is Some,
        forall|i: int|
            0 <= i < 4 ==> (#[trigger] child_of(new_t, i)).children is None && child_of(new_t, i).content
                is Pending && child_of(new_t, i).content->Pending_0 == (next + i) as usize,
        pass_actions(old_t, loc, parent_in_frustum, frustum, split_distances, next).subrange(0, 4)
            == queue_actions(loc, next),
{
    assert forall|i: int| 0 <= i < 4 implies (#[trigger] child_of(new_t, i)).children is None
        && child_of(new_t, i).content is Pending && child_of(new_t, i).content->Pending_0 == (next
        + i) as usize by {
        assert(kid(old_t, loc, next, i) == fresh_child(loc, next, i));
        let cl = loc.spec_split(child_at(i));
        let cn = kids_next(old_t, loc, frustum, split_distances, next, i);
        assert(pass_tree(
            fresh_child(loc, next, i),
            child_of(new_t, i),
            cl,
            kids_in_frustum(old_t, frustum),
            frustum,
            split_distances,
            cn,
        ));
    }
    let k = kids_actions(old_t, loc, frustum, split_distances, next, 4);
    assert((queue_actions(loc, next) + k).subrange(0, 4) =~= queue_actions(loc, next));
}

/// A new pending node for `location`, queued under a fresh request id.
fn request_node(
    pending_requests: &mut HashMap<usize, PatchLocation>,
    next_request: &mut usize,
    actions: &mut Vec<ProviderAction>,
    location: PatchLocation,
) -> (r: QuadTree<Node>)
    requires
        *old(next_request) < usize::MAX,
        location.lod_level < IN_FRUSTUM_PRIORITY,
    ensures
        *final(next_request) == *old(next_request) + 1,
        r == (QuadTree::<Node> {
            content: Node::Pending(
                *old(next_request),
                (Token { priority: spec_initial_priority(location.lod_level as nat) as usize }),
            ),
            children: None,
        }),
        final(pending_requests)@ == old(pending_requests)@.insert(*old(next_request), location),
        final(actions)@ == old(actions)@.push(
            (ProviderAction::Queue {
                id: *old(next_request),
                location,
                priority: spec_initial_priority(location.lod_level as nat) as usize,
            }),
        ),
{
    let id = *next_request;
    *next_request = id + 1;
    let priority = location.lod_level + 1;
    actions.push(ProviderAction::Queue { id, location, priority });
    pending_requests.insert(id, location);
    QuadTree::new(Node::Pending(id, Token { priority }))
}

/// The residency pass over the tree at `location`, as `pass_tree`, `pass_actions` and
/// `pass_next` state it: children missing within range are queued for generation.
fn ensure_resident_children(
    backing: &mut NodeBacking,
    pending_requests: &mut HashMap<usize, PatchLocation>,
    next_request: &mut usize,
    actions: &mut Vec<ProviderAction>,
    frustum_planet: &Frustum,
    node: &mut QuadTree<Node>,
    location: PatchLocation,
    parent_in_frustum: bool,
    split_distances: &Vec<u64>,
)
    requires
        old(backing).wf(),
        frustum_planet.valid(),
        split_distances_valid(split_distances@),
        tree_valid(*old(node), location, split_distances@.len() as nat),
        unique(*old(node), location),
        slots_of(*old(node), location).subset_of(old(backing).slots()),
        forall|k: usize| #[trigger] pending_of(*old(node), location).contains_key(k) ==> k < *old(next_request),
        pending_of(*old(node), location).submap_of(old(pending_requests)@),
        forall|k: usize| #[trigger] old(pending_requests)@.contains_key(k) ==> k < *old(next_request),
    ensures
        forall|k: usize| #[trigger] final(pending_requests)@.contains_key(k) ==> k < *final(next_request),
        final(backing).wf(),
        tree_valid(*final(node), location, split_distances@.len() as nat),
        unique(*final(node), location),
        *old(next_request) <= *final(next_request),
        evolved(*old(node), *final(node), location, *old(next_request) as nat, *final(next_request) as nat),
        final(backing).slots() == old(backing).slots().difference(slots_of(*old(node), location)).union(
            slots_of(*final(node), location),
        ),
        final(backing).spec_len() + resident_count(*old(node), location) == old(backing).spec_len()
            + resident_count(*final(node), location),
        final(pending_requests)@ == old(pending_requests)@.remove_keys(
            pending_of(*old(node), location).dom(),
        ).union_prefer_right(pending_of(*final(node), location)),
        pass_tree(
            *old(node),
            *final(node),
            location,
            parent_in_frustum,
            *frustum_planet,
            split_distances@,
            *old(next_request) as nat,
        ),
        final(actions)@ == old(actions)@ + pass_actions(
            *old(node),
            location,
            parent_in_frustum,
            *frustum_planet,
            split_distances@,
            *old(next_request) as nat,
        ),
        *final(next_request) == pass_next(
            *old(node),
            location,
            *frustum_planet,
            split_distances@,
            *old(next_request) as nat,
        ),
    decreases MAX_LOD_LEVEL - location.lod_level,
{
    let ghost loc = location;
    let ghost next0 = *old(next_request) as nat;
    let ghost max = split_distances@.len() as nat;
    // Do not split the last LOD level.
    if location.lod_level >= split_distances.len() {
        proof {
            assert(old(backing).slots().difference(slots_of(*node, loc)).union(slots_of(*node, loc)) =~= old(backing).slots());
            lemma_restore(old(pending_requests)@, pending_of(*node, loc));
        }
        return;
    }
    match node.content {
        Node::Pending(id, _) => {
            let priority = encode_priority(location.lod_level, parent_in_frustum);
            node.content = Node::Pending(id, Token { priority });
            actions.push(ProviderAction::SetPriority { id, priority });
            proof {
                assert(node.children is None);
                assert(tree_valid(*node, loc, max));
                assert(unique(*node, loc));
                assert(pending_of(*node, loc) == pending_of(*old(node), loc));
                assert(old(backing).slots().difference(slots_of(*node, loc)).union(slots_of(*node, loc)) =~= old(backing).slots());
                lemma_restore(old(pending_requests)@, pending_of(*node, loc));
            }
        },
        Node::WithGeometry(geometry) => {
            let frustum_pos = frustum_planet.position;
            if !in_range(&geometry.aabb, &frustum_pos, split_distances[location.lod_level]) {
                merge(backing, node, Ghost(loc), Ghost(max), pending_requests, actions);
                proof {
                    assert(slots_of(*node, loc) =~= set![geometry.node_id.0]);
                    assert(backing.slots() =~= old(backing).slots().difference(slots_of(*old(node), loc)).union(slots_of(*node, loc)));
                    assert(pending_of(*node, loc) =~= Map::empty());
                    assert(pending_requests@ =~= old(pending_requests)@.remove_keys(pending_of(*old(node), loc).dom()).union_prefer_right(pending_of(*node, loc)));
                }
                return;
            }
            let in_frustum = frustum_planet.intersects(&geometry.aabb);
            proof {
                assert(location.lod_level < MAX_LOD_LEVEL);
            }
            if !node.has_children() {
                if *next_request > usize::MAX - 4 {
                    // No fresh request ids are left: the node keeps its own geometry.
                    proof {
                        assert(old(backing).slots().difference(slots_of(*node, loc)).union(slots_of(*node, loc)) =~= old(backing).slots());
                        lemma_restore(old(pending_requests)@, pending_of(*node, loc));
                    }
                    return;
                }
                let tl = request_node(pending_requests, next_request, actions, location.top_left());
                let tr = request_node(pending_requests, next_request, actions, location.top_right());
                let bl = request_node(pending_requests, next_request, actions, location.bottom_left());
                let br = request_node(pending_requests, next_request, actions, location.bottom_right());
                node.children = Some(Box::new([tl, tr, bl, br]));
                proof {
                    let n0 = *old(next_request);
                    assert(child_of(*node, 0) == tl && child_of(*node, 1) == tr && child_of(*node, 2) == bl && child_of(*node, 3) == br);
                    assert(children_pending(*node, loc, 0) =~= Map::<usize, PatchLocation>::empty());
                    assert(pending_of(tl, loc.spec_split(child_at(0))) =~= map![n0 as usize => loc.spec_split(child_at(0))]);
                    assert(pending_of(tr, loc.spec_split(child_at(1))) =~= map![(n0 + 1) as usize => loc.spec_split(child_at(1))]);
                    assert(pending_of(bl, loc.spec_split(child_at(2))) =~= map![(n0 + 2) as usize => loc.spec_split(child_at(2))]);
                    assert(pending_of(br, loc.spec_split(child_at(3))) =~= map![(n0 + 3) as usize => loc.spec_split(child_at(3))]);
                    assert(children_pending(*node, loc, 1) =~= map![n0 as usize => loc.spec_split(child_at(0))]);
                    assert(children_pending(*node, loc, 2) =~= map![n0 as usize => loc.spec_split(child_at(0)), (n0 + 1) as usize => loc.spec_split(child_at(1))]);
                    assert(children_pending(*node, loc, 3) =~= map![n0 as usize => loc.spec_split(child_at(0)), (n0 + 1) as usize => loc.spec_split(child_at(1)), (n0 + 2) as usize => loc.spec_split(child_at(2))]);
                    assert(children_slots(*node, loc, 0) =~= Set::<usize>::empty());
                    assert(slots_of(tl, loc.spec_split(child_at(0))) =~= Set::<usize>::empty());
                    assert(slots_of(tr, loc.spec_split(child_at(1))) =~= Set::<usize>::empty());
                    assert(slots_of(bl, loc.spec_split(child_at(2))) =~= Set::<usize>::empty());
                    assert(slots_of(br, loc.spec_split(child_at(3))) =~= Set::<usize>::empty());
                    assert(children_slots(*node, loc, 1) =~= Set::<usize>::empty());
                    assert(children_slots(*node, loc, 2) =~= Set::<usize>::empty());
                    assert(children_slots(*node, loc, 3) =~= Set::<usize>::empty());
                    assert(children_pending(*node, loc, 4) =~= map![n0 as usize => loc.spec_split(child_at(0)), (n0 + 1) as usize => loc.spec_split(child_at(1)), (n0 + 2) as usize => loc.spec_split(child_at(2)), (n0 + 3) as usize => loc.spec_split(child_at(3))]);
                    assert(children_slots(*node, loc, 4) =~= Set::<usize>::empty());
                    assert(children_unique(*node, loc, 0));
                    assert(unique(tl, loc.spec_split(child_at(0))));
                    assert(unique(tr, loc.spec_split(child_at(1))));
                    assert(unique(bl, loc.spec_split(child_at(2))));
                    assert(unique(br, loc.spec_split(child_at(3))));
                    assert(children_unique(*node, loc, 1));
                    assert(children_unique(*node, loc, 2));
                    assert(children_unique(*node, loc, 3));
                    assert(children_unique(*node, loc, 4));
                    assert(children_count(*node, loc, 0) == 0);
                    assert(resident_count(tl, loc.spec_split(child_at(0))) == 0);
                    assert(resident_count(tr, loc.spec_split(child_at(1))) == 0);
                    assert(resident_count(bl, loc.spec_split(child_at(2))) == 0);
                    assert(resident_count(br, loc.spec_split(child_at(3))) == 0);
                    assert(children_count(*node, loc, 1) == 0);
                    assert(children_count(*node, loc, 2) == 0);
                    assert(children_count(*node, loc, 3) == 0);
                    assert(children_count(*node, loc, 4) == 0);
                    assert(children_count(*old(node), loc, 4) == 0);
                    assert(children_pending(*old(node), loc, 4) =~= Map::<usize, PatchLocation>::empty());
                    assert(children_slots(*old(node), loc, 4) =~= Set::<usize>::empty());
                    assert forall|j: int| 0 <= j < 4 implies tree_valid(
                        #[trigger] child_of(*node, j),
                        loc.spec_split(child_at(j)),
                        max,
                    ) by {
                        let cl = loc.spec_split(child_at(j));
                        crate::patch::lemma_split_valid(loc, child_at(j));
                    }
                    assert(tree_valid(*node, loc, max));
                    assert(pending_requests@ =~= old(pending_requests)@.union_prefer_right(children_pending(*node, loc, 4)));
                    assert(actions@ =~= old(actions)@ + queue_actions(loc, next0));
                    assert(tl == fresh_child(loc, next0, 0));
                    assert(tr == fresh_child(loc, next0, 1));
                    assert(bl == fresh_child(loc, next0, 2));
                    assert(br == fresh_child(loc, next0, 3));
                }
            }
            let ghost a_mid = actions@;
            proof {
                assert(forall|j: int| 0 <= j < 4 ==> #[trigger] kid(*old(node), loc, next0, j) == child_of(*node, j));
                assert(*next_request == kids_next(*old(node), loc, *frustum_planet, split_distances@, next0, 0));
                assert(actions@ =~= a_mid + kids_actions(*old(node), loc, *frustum_planet, split_distances@, next0, 0));
                assert(a_mid == old(actions)@ + (if old(node).children is None {
                    queue_actions(loc, next0)
                } else {
                    Seq::empty()
                }));
            }
            let ghost mid = *node;
            let ghost p_mid = pending_requests@;
            let ghost s_mid = backing.slots();
            let ghost len_mid = backing.spec_len();
            let ghost next_mid = *next_request;
            proof {
                lemma_children_prefix(mid, loc, 0, 4);
                assert(pending_requests@ =~= p_mid.remove_keys(children_pending(mid, loc, 0).dom()).union_prefer_right(children_pending(*node, loc, 0)));
                assert(backing.slots() =~= s_mid.difference(children_slots(mid, loc, 0)).union(children_slots(*node, loc, 0)));
            }
            let values = crate::quad_tree::Child::values();
            let mut i: usize = 0;
            while i < 4
                invariant
                    0 <= i <= 4,
                    location == loc,
                    max == split_distances@.len(),
                    loc.lod_level < max,
                    loc.lod_level < MAX_LOD_LEVEL,
                    frustum_planet.valid(),
                    split_distances_valid(split_distances@),
                    forall|j: int| 0 <= j < 4 ==> #[trigger] values@[j] == child_at(j),
                    mid.content == Node::WithGeometry(geometry),
                    mid.children is Some,
                    tree_valid(mid, loc, max),
                    unique(mid, loc),
                    slots_of(mid, loc).subset_of(s_mid),
                    pending_of(mid, loc).submap_of(p_mid),
                    forall|k: usize| #[trigger] pending_of(mid, loc).contains_key(k) ==> k < next_mid,
                    forall|k: usize| #[trigger] p_mid.contains_key(k) ==> k < next_mid,
                    next_mid <= *next_request,
                    node.content == mid.content,
                    node.children is Some,
                    forall|j: int| i <= j < 4 ==> #[trigger] child_of(*node, j) == child_of(mid, j),
                    forall|j: int| 0 <= j < i ==> tree_valid(#[trigger] child_of(*node, j), loc.spec_split(child_at(j)), max),
                    children_unique(*node, loc, i as int),
                    backing.wf(),
                    backing.slots() == s_mid.difference(children_slots(mid, loc, i as int)).union(children_slots(*node, loc, i as int)),
                    children_slots(*node, loc, i as int).subset_of(children_slots(mid, loc, i as int)),
                    backing.spec_len() + children_count(mid, loc, i as int) == len_mid + children_count(*node, loc, i as int),
                    pending_requests@ == p_mid.remove_keys(children_pending(mid, loc, i as int).dom()).union_prefer_right(children_pending(*node, loc, i as int)),
                    forall|k: usize| #[trigger] children_pending(*node, loc, i as int).contains_key(k) ==> k < *next_request && (children_pending(mid, loc, i as int).contains_key(k) || next_mid <= k),
                    forall|k: usize| #[trigger] pending_requests@.contains_key(k) ==> k < *next_request,
                    forall|j: int| 0 <= j < 4 ==> #[trigger] kid(*old(node), loc, next0, j) == child_of(mid, j),
                    in_frustum == kids_in_frustum(*old(node), *frustum_planet),
                    next0 == *old(next_request),
                    old(node).content == mid.content,
                    *next_request == kids_next(*old(node), loc, *frustum_planet, split_distances@, next0, i as int),
                    actions@ == a_mid + kids_actions(*old(node), loc, *frustum_planet, split_distances@, next0, i as int),
                    forall|j: int| 0 <= j < i ==> pass_tree(
                        kid(*old(node), loc, next0, j),
                        #[trigger] child_of(*node, j),
                        loc.spec_split(child_at(j)),
                        in_frustum,
                        *frustum_planet,
                        split_distances@,
                        kids_next(*old(node), loc, *frustum_planet, split_distances@, next0, j),
                    ),
                decreases 4 - i,
            {
                let ghost before = *node;
                let ghost cl = loc.spec_split(child_at(i as int));
                let ghost c = child_of(mid, i as int);
                let ghost next_before = *next_request;
                proof {
                    lemma_children_prefix(mid, loc, i as int + 1, 4);
                    lemma_child_valid(mid, loc, max, i as int);
                    assert(children_pending(mid, loc, i as int + 1) == children_pending(mid, loc, i as int).union_prefer_right(pending_of(c, cl)));
                    assert(children_slots(mid, loc, i as int + 1) == children_slots(mid, loc, i as int).union(slots_of(c, cl)));
                    assert(unique(c, cl));
                    assert(slots_of(c, cl).subset_of(backing.slots()));
                    assert forall|k: usize| #[trigger] pending_of(c, cl).contains_key(k) implies k < *next_request by {
                        assert(children_pending(mid, loc, 4).contains_key(k));
                        assert(pending_of(mid, loc).contains_key(k));
                    }
                    assert forall|k: usize| #[trigger] pending_of(c, cl).contains_key(k) implies pending_requests@.contains_key(k) && pending_requests@[k] == pending_of(c, cl)[k] by {
                        assert(children_pending(mid, loc, 4).contains_key(k));
                        assert(children_pending(mid, loc, i as int + 1)[k] == pending_of(c, cl)[k]);
                        assert(children_pending(mid, loc, 4)[k] == pending_of(c, cl)[k]) by {
                            lemma_children_pending_value(mid, loc, i as int + 1, 4, k);
                        }
                        assert(p_mid.contains_key(k));
                        assert(!children_pending(mid, loc, i as int).contains_key(k));
                        assert(!children_pending(*node, loc, i as int).contains_key(k));
                    }
                    assert(pending_of(c, cl).submap_of(pending_requests@));
                    assert(child_of(*node, i as int) == c);
                    assert forall|k: usize| #[trigger] children_pending(*node, loc, i as int).contains_key(k) implies !pending_of(c, cl).contains_key(k) by {
                        if pending_of(c, cl).contains_key(k) {
                            assert(children_pending(mid, loc, 4).contains_key(k));
                            assert(pending_of(mid, loc).contains_key(k));
                            assert(!children_pending(mid, loc, i as int).contains_key(k));
                        }
                    }
                }
                match &mut node.children {
                    Some(children) => {
                        assert(children[i as int] == child_of(before, i as int));
                        let child_location = location.split(values[i]);
                        ensure_resident_children(
                            backing,
                            pending_requests,
                            next_request,
                            actions,
                            frustum_planet,
                            &mut children[i],
                            child_location,
                            in_frustum,
                            split_distances,
                        );
                    },
                    None => {},
                }
                proof {
                    let c2 = child_of(*node, i as int);
                    assert forall|j: int| 0 <= j < 4 && j != i implies #[trigger] child_of(*node, j) == child_of(before, j) by {}
                    lemma_children_congruent(*node, before, loc, i as int);
                    assert(children_pending(*node, loc, i as int + 1) == children_pending(*node, loc, i as int).union_prefer_right(pending_of(c2, cl)));
                    assert(children_slots(*node, loc, i as int + 1) == children_slots(*node, loc, i as int).union(slots_of(c2, cl)));
                    assert(children_pending(*node, loc, i as int).dom().disjoint(pending_of(c, cl).dom()));
                    assert(children_pending(*node, loc, i as int).dom().disjoint(pending_of(c2, cl).dom())) by {
                        assert forall|k: usize| children_pending(*node, loc, i as int).contains_key(k) implies !pending_of(c2, cl).contains_key(k) by {
                            if pending_of(c2, cl).contains_key(k) {
                                if pending_of(c, cl).contains_key(k) {
                                } else {
                                    assert(next_before <= k);
                                }
                            }
                        }
                    }
                    assert(children_unique(*node, loc, i as int + 1));
                    assert(children_slots(before, loc, i as int).disjoint(slots_of(c, cl)));
                    assert(slots_of(c2, cl).subset_of(slots_of(c, cl)));
                    assert(backing.slots() =~= s_mid.difference(children_slots(mid, loc, i as int + 1)).union(children_slots(*node, loc, i as int + 1)));
                    assert(pending_requests@ =~= p_mid.remove_keys(children_pending(mid, loc, i as int + 1).dom()).union_prefer_right(children_pending(*node, loc, i as int + 1)));
                    assert forall|k: usize| #[trigger] children_pending(*node, loc, i as int + 1).contains_key(k) implies k < *next_request && (children_pending(mid, loc, i as int + 1).contains_key(k) || next_mid <= k) by {
                        if pending_of(c2, cl).contains_key(k) {
                            if pending_of(c, cl).contains_key(k) {
                            } else {
                                assert(next_before <= k);
                            }
                        }
                    }
                }
                i = i + 1;
            }
            proof {
                assert(children_count(mid, loc, 4) == children_count(*old(node), loc, 4));
                assert(tree_valid(*node, loc, max));
                assert(unique(*node, loc));
                assert(backing.slots() =~= old(backing).slots().difference(slots_of(*old(node), loc)).union(slots_of(*node, loc)));
                assert(pending_requests@ =~= old(pending_requests)@.remove_keys(pending_of(*old(node), loc).dom()).union_prefer_right(pending_of(*node, loc)));
            }
        },
    }
}

/// What delivering the geometry `g` of request `id` makes of the tree: the pending node of
/// that request becomes resident with `g`, keeping its (absent) children; every other node
/// stays as it was; a tree without that request is unchanged.
pub open spec fn promoted(
    old_t: QuadTree<Node>,
    new_t: QuadTree<Node>,
    loc: PatchLocation,
    id: usize,
    g: NodeGeometry,
) -> bool
    decreases MAX_LOD_LEVEL - loc.lod_level,
{
    if !pending_of(old_t, loc).contains_key(id) {
        new_t == old_t
    } else {
        match old_t.content {
            Node::Pending(_, _) => new_t == QuadTree {
                content: Node::WithGeometry(g),
                children: old_t.children,
            },
            Node::WithGeometry(_) => {
                &&& new_t.content == old_t.content
                &&& new_t.children is Some
                &&& loc.lod_level < MAX_LOD_LEVEL
                &&& forall|i: int|
                    0 <= i < 4 ==> promoted(
                        child_of(old_t, i),
                        #[trigger] child_of(new_t, i),
                        loc.spec_split(child_at(i)),
                        id,
                        g,
                    )
            },
        }
    }
}

/// A request of child `j` is among those of the first `n > j` children.
proof fn lemma_child_key_in_prefix(t: QuadTree<Node>, loc: PatchLocation, j: int, n: int, k: usize)
    requires
        0 <= j < n <= 4,
        children_unique(t, loc, n),
        t.children is Some,
        loc.lod_level < MAX_LOD_LEVEL,
        pending_of(child_of(t, j), loc.spec_split(child_at(j))).contains_key(k),
    ensures
        children_pending(t, loc, n).contains_key(k),
{
    assert(children_pending(t, loc, j + 1).contains_key(k));
    lemma_children_pending_value(t, loc, j + 1, n, k);
}

/// Two trees that differ only in child `i`, which lost request `id` and gained slot `slot`.
proof fn lemma_children_promoted(
    t1: QuadTree<Node>,
    t2: QuadTree<Node>,
    loc: PatchLocation,
    i: int,
    n: int,
    id: usize,
    slot: usize,
)
    requires
        0 <= i < n <= 4,
        t1.children is Some,
        t2.children is Some,
        loc.lod_level < MAX_LOD_LEVEL,
        forall|j: int| 0 <= j < 4 && j != i ==> child_of(t1, j) == child_of(t2, j),
        children_unique(t1, loc, n),
        !children_slots(t1, loc, n).contains(slot),
        !children_pending(t1, loc, i).contains_key(id),
        pending_of(child_of(t1, i), loc.spec_split(child_at(i))).contains_key(id),
        pending_of(child_of(t2, i), loc.spec_split(child_at(i))) == pending_of(
            child_of(t1, i),
            loc.spec_split(child_at(i)),
        ).remove(id),
        slots_of(child_of(t2, i), loc.spec_split(child_at(i))) == slots_of(
            child_of(t1, i),
            loc.spec_split(child_at(i)),
        ).insert(slot),
        resident_count(child_of(t2, i), loc.spec_split(child_at(i))) == resident_count(
            child_of(t1, i),
            loc.spec_split(child_at(i)),
        ) + 1,
        unique(child_of(t2, i), loc.spec_split(child_at(i))),
    ensures
        children_pending(t2, loc, n) == children_pending(t1, loc, n).remove(id),
        children_slots(t2, loc, n) == children_slots(t1, loc, n).insert(slot),
        children_count(t2, loc, n) == children_count(t1, loc, n) + 1,
        children_unique(t2, loc, n),
    decreases n,
{
    if n - 1 == i {
        lemma_children_congruent(t1, t2, loc, i);
        assert(children_pending(t2, loc, n) =~= children_pending(t1, loc, n).remove(id));
        assert(children_slots(t2, loc, n) =~= children_slots(t1, loc, n).insert(slot));
    } else {
        lemma_children_prefix(t1, loc, n - 1, n);
        lemma_children_promoted(t1, t2, loc, i, n - 1, id, slot);
        let c = child_of(t1, n - 1);
        let cl = loc.spec_split(child_at(n - 1));
        assert(child_of(t2, n - 1) == c);
        lemma_children_pending_value(t1, loc, i + 1, n - 1, id);
        assert(!pending_of(c, cl).contains_key(id));
        assert(children_pending(t2, loc, n) =~= children_pending(t1, loc, n).remove(id));
        assert(children_slots(t2, loc, n) =~= children_slots(t1, loc, n).insert(slot));
    }
}

/// Finds the pending node of request `id` in the tree and makes it resident with `geometry`.
/// Returns whether there was such a node.
fn promote(
    node: &mut QuadTree<Node>,
    location: &PatchLocation,
    max_lod: Ghost<nat>,
    id: usize,
    geometry: NodeGeometry,
) -> (r: bool)
    requires
        tree_valid(*old(node), *location, max_lod@),
        unique(*old(node), *location),
        geometry.aabb.valid(),
        !slots_of(*old(node), *location).contains(geometry.node_id.0),
    ensures
        r == pending_of(*old(node), *location).contains_key(id),
        !r ==> *final(node) == *old(node),
        r ==> pending_of(*final(node), *location) == pending_of(*old(node), *location).remove(id),
        r ==> slots_of(*final(node), *location) == slots_of(*old(node), *location).insert(
            geometry.node_id.0,
        ),
        r ==> resident_count(*final(node), *location) == resident_count(*old(node), *location) + 1,
        tree_valid(*final(node), *location, max_lod@),
        unique(*final(node), *location),
        promoted(*old(node), *final(node), *location, id, geometry),
    decreases MAX_LOD_LEVEL - location.lod_level,
{
    let ghost loc = *location;
    match node.content {
        Node::Pending(pending_id, _) => {
            if pending_id == id {
                node.content = Node::WithGeometry(geometry);
                proof {
                    assert(children_pending(*node, loc, 4) =~= Map::<usize, PatchLocation>::empty());
                    assert(children_slots(*node, loc, 4) =~= Set::<usize>::empty());
                    assert(pending_of(*node, loc) =~= pending_of(*old(node), loc).remove(id));
                    assert(slots_of(*node, loc) =~= slots_of(*old(node), loc).insert(geometry.node_id.0));
                }
                true
            } else {
                false
            }
        },
        Node::WithGeometry(own) => {
            if node.children.is_none() {
                return false;
            }
            let ghost start = *node;
            proof {
                lemma_children_prefix(start, loc, 0, 4);
            }
            let mut i: usize = 0;
            while i < 4
                invariant
                    0 <= i <= 4,
                    loc == *location,
                    *node == start,
                    start == *old(node),
                    start.children is Some,
                    start.content == Node::WithGeometry(own),
                    tree_valid(start, loc, max_lod@),
                    unique(start, loc),
                    geometry.aabb.valid(),
                    !slots_of(start, loc).contains(geometry.node_id.0),
                    !children_pending(start, loc, i as int).contains_key(id),
                decreases 4 - i,
            {
                let ghost cl = loc.spec_split(child_at(i as int));
                proof {
                    lemma_child_valid(start, loc, max_lod@, i as int);
                    lemma_children_prefix(start, loc, i as int + 1, 4);
                    assert(children_slots(start, loc, i as int + 1).contains(geometry.node_id.0) ==> children_slots(start, loc, 4).contains(geometry.node_id.0));
                }
                let values = crate::quad_tree::Child::values();
                let found = match &mut node.children {
                    Some(children) => {
                        assert(children[i as int] == child_of(start, i as int));
                        assert(cl.lod_level == loc.lod_level + 1 && loc.lod_level < MAX_LOD_LEVEL);
                        let child_location = location.split(values[i]);
                        promote(&mut children[i], &child_location, max_lod, id, geometry)
                    },
                    None => false,
                };
                if found {
                    proof {
                        assert forall|j: int| 0 <= j < 4 && j != i implies child_of(start, j) == child_of(*node, j) by {}
                        lemma_children_promoted(start, *node, loc, i as int, 4, id, geometry.node_id.0);
                        assert forall|j: int| 0 <= j < 4 && j != i implies !pending_of(
                            child_of(start, j),
                            loc.spec_split(child_at(j)),
                        ).contains_key(id) by {
                            if j < i {
                                lemma_children_prefix(start, loc, i as int, 4);
                                if pending_of(child_of(start, j), loc.spec_split(child_at(j))).contains_key(id) {
                                    lemma_child_key_in_prefix(start, loc, j, i as int, id);
                                }
                            } else {
                                lemma_children_prefix(start, loc, j + 1, 4);
                                lemma_child_key_in_prefix(start, loc, i as int, j, id);
                            }
                        }
                        assert forall|j: int| 0 <= j < 4 implies promoted(
                            child_of(start, j),
                            #[trigger] child_of(*node, j),
                            loc.spec_split(child_at(j)),
                            id,
                            geometry,
                        ) by {}
                        assert(children_pending(start, loc, i as int + 1).contains_key(id));
                        lemma_children_pending_value(start, loc, i as int + 1, 4, id);
                        assert(pending_of(start, loc).contains_key(id));
                        assert(pending_of(*node, loc) =~= pending_of(start, loc).remove(id));
                        assert(slots_of(*node, loc) =~= slots_of(start, loc).insert(geometry.node_id.0));
                        assert forall|j: int| 0 <= j < 4 implies tree_valid(#[trigger] child_of(*node, j), loc.spec_split(child_at(j)), max_lod@) by {
                            lemma_child_valid(start, loc, max_lod@, j);
                        }
                    }
                    return true;
                }
                proof {
                    assert forall|j: int| 0 <= j < 4 implies child_of(*node, j) == child_of(start, j) by {}
                    assert(node.children.unwrap()@ =~= start.children.unwrap()@);
                    broadcast use vstd::array::group_array_axioms;
                    assert(node.children.unwrap() =~= start.children.unwrap());
                    assert(*node == start);
                }
                i = i + 1;
            }
            false
        },
    }
}

/// The quad tree of one face of the planet.
pub struct FaceTree {
    pub face: Face,
    pub root: QuadTree<Node>,
}

/// The pending requests of the first `n` faces.
pub open spec fn faces_pending(faces: Seq<FaceTree>, n: int) -> Map<usize, PatchLocation>
    decreases n,
{
    if n <= 0 || n > faces.len() {
        Map::empty()
    } else {
        faces_pending(faces, n - 1).union_prefer_right(
            pending_of(faces[n - 1].root, PatchLocation::spec_root(faces[n - 1].face)),
        )
    }
}

/// The slots held by the first `n` faces.
pub open spec fn faces_slots(faces: Seq<FaceTree>, n: int) -> Set<usize>
    decreases n,
{
    if n <= 0 || n > faces.len() {
        Set::empty()
    } else {
        faces_slots(faces, n - 1).union(
            slots_of(faces[n - 1].root, PatchLocation::spec_root(faces[n - 1].face)),
        )
    }
}

/// The number of resident nodes of the first `n` faces.
pub open spec fn faces_count(faces: Seq<FaceTree>, n: int) -> nat
    decreases n,
{
    if n <= 0 || n > faces.len() {
        0
    } else {
        faces_count(faces, n - 1) + resident_count(
            faces[n - 1].root,
            PatchLocation::spec_root(faces[n - 1].face),
        )
    }
}

/// No two nodes of the first `n` faces share a request id or a slot, and each of these faces
/// is a valid tree no deeper than `max_lod` with a resident root.
pub open spec fn faces_wf(faces: Seq<FaceTree>, n: int, max_lod: nat) -> bool
    decreases n,
{
    if n <= 0 || n > faces.len() {
        true
    } else {
        let t = faces[n - 1].root;
        let l = PatchLocation::spec_root(faces[n - 1].face);
        &&& faces_wf(faces, n - 1, max_lod)
        &&& t.content is WithGeometry
        &&& tree_valid(t, l, max_lod)
        &&& unique(t, l)
        &&& faces_pending(faces, n - 1).dom().disjoint(pending_of(t, l).dom())
        &&& faces_slots(faces, n - 1).disjoint(slots_of(t, l))
    }
}

/// The next free request id after the pass over the first `n` faces, started with `next`.
pub open spec fn faces_next(
    faces: Seq<FaceTree>,
    frustum: Frustum,
    split_distances: Seq<u64>,
    next: nat,
    n: int,
) -> nat
    decreases n,
{
    if n <= 0 || n > faces.len() {
        next
    } else {
        pass_next(
            faces[n - 1].root,
            PatchLocation::spec_root(faces[n - 1].face),
            frustum,
            split_distances,
            faces_next(faces, frustum, split_distances, next, n - 1),
        )
    }
}

/// The actions the pass over the first `n` faces records, face after face; each root counts
/// as having its parent in view.
pub open spec fn faces_actions(
    faces: Seq<FaceTree>,
    frustum: Frustum,
    split_distances: Seq<u64>,
    next: nat,
    n: int,
) -> Seq<ProviderAction>
    decreases n,
{
    if n <= 0 || n > faces.len() {
        Seq::empty()
    } else {
        faces_actions(faces, frustum, split_distances, next, n - 1) + pass_actions(
            faces[n - 1].root,
            PatchLocation::spec_root(faces[n - 1].face),
            true,
            frustum,
            split_distances,
            faces_next(faces, frustum, split_distances, next, n - 1),
        )
    }
}

/// The cancellations that dropping the first `n` faces sends, face after face.
pub open spec fn faces_cancels(faces: Seq<FaceTree>, n: int) -> Seq<ProviderAction>
    decreases n,
{
    if n <= 0 || n > faces.len() {
        Seq::empty()
    } else {
        faces_cancels(faces, n - 1) + cancels_of(
            faces[n - 1].root,
            PatchLocation::spec_root(faces[n - 1].face),
        )
    }
}

/// What a delivered geometry came to.
#[derive(Copy, Clone, Debug, PartialEq, Eq, Structural)]
pub enum Delivery {
    /// No pending node waits for the request any more: the result is dropped.
    Stale,
    /// The pending node became resident in the given slot.
    Placed(NodeId),
    /// All slots are in use: the split is skipped for now. The node stays pending, so its
    /// parent keeps drawing that quadrant, and nothing is queued again.
    NoSlot,
}

/// The per-frame bookkeeping of the planet's patches: the six face trees, the slots of the
/// backing store, the requests pending with the geometry provider and the actions for it.
pub struct Renderer {
    faces: [FaceTree; 6],
    split_distances: Vec<u64>,
    backing: NodeBacking,
    pending_geometry_requests: HashMap<usize, PatchLocation>,
    next_request: usize,
    actions: Vec<ProviderAction>,
}

impl Renderer {
    /// The renderer's invariant: six valid face trees with resident roots, whose slots are
    /// exactly those in use, whose pending requests are exactly those recorded, no two nodes
    /// sharing a slot or a request, every request id below the next one to be handed out.
    pub closed spec fn wf(self) -> bool {
        &&& split_distances_valid(self.split_distances@)
        &&& self.backing.wf()
        &&& faces_wf(self.faces@, 6, self.split_distances@.len() as nat)
        &&& self.pending_geometry_requests@ == faces_pending(self.faces@, 6)
        &&& self.backing.slots() == faces_slots(self.faces@, 6)
        &&& self.backing.spec_len() == faces_count(self.faces@, 6)
        &&& forall|k: usize| #[trigger] self.pending_geometry_requests@.contains_key(k) ==> k < self.next_request
    }

    /// The face trees.
    pub closed spec fn trees(self) -> Seq<FaceTree> {
        self.faces@
    }

    /// The split distances, coarsest level first.
    pub closed spec fn spec_split_distances(self) -> Seq<u64> {
        self.split_distances@
    }

    /// The requests waiting for geometry: id to location.
    pub closed spec fn pending(self) -> Map<usize, PatchLocation> {
        self.pending_geometry_requests@
    }

    /// The slots of the backing store in use.
    pub closed spec fn slots(self) -> Set<usize> {
        self.backing.slots()
    }

    /// The number of slots in use.
    pub closed spec fn slot_count(self) -> nat {
        self.backing.spec_len()
    }

    /// The next request id to be handed out.
    pub closed spec fn spec_next(self) -> nat {
        self.next_request as nat
    }

    /// The actions for the provider not yet taken.
    pub closed spec fn spec_actions(self) -> Seq<ProviderAction> {
        self.actions@
    }
}

/// The number of resident nodes never exceeds the number of slots of the backing store.
pub proof fn lemma_residency_bound(r: Renderer)
    requires
        r.wf(),
    ensures
        faces_count(r.trees(), 6) == r.slot_count(),
        r.slot_count() <= MAX_PATCH_COUNT,
{
    r.backing.lemma_len_bounded();
}

/// The recorded pending requests are exactly the pending nodes of the face trees, request id to
/// location, and no two pending nodes share a request id.
pub proof fn lemma_pending_consistent(r: Renderer)
    requires
        r.wf(),
    ensures
        r.pending() == faces_pending(r.trees(), 6),
        faces_wf(r.trees(), 6, r.spec_split_distances().len() as nat),
{
}

proof fn lemma_faces_prefix(faces: Seq<FaceTree>, i: int, n: int, max_lod: nat)
    requires
        0 <= i <= n <= faces.len(),
        faces_wf(faces, n, max_lod),
    ensures
        faces_wf(faces, i, max_lod),
        faces_slots(faces, i).subset_of(faces_slots(faces, n)),
        faces_pending(faces, i).dom().subset_of(faces_pending(faces, n).dom()),
    decreases n,
{
    if i < n {
        lemma_faces_prefix(faces, i, n - 1, max_lod);
    }
}

proof fn lemma_faces_pending_value(faces: Seq<FaceTree>, i: int, n: int, max_lod: nat, k: usize)
    requires
        0 <= i <= n <= faces.len(),
        faces_wf(faces, n, max_lod),
        faces_pending(faces, i).contains_key(k),
    ensures
        faces_pending(faces, n).contains_key(k),
        faces_pending(faces, n)[k] == faces_pending(faces, i)[k],
    decreases n,
{
    if i < n {
        lemma_faces_pending_value(faces, i, n - 1, max_lod, k);
        lemma_faces_prefix(faces, n - 1, n, max_lod);
    }
}

proof fn lemma_faces_congruent(f1: Seq<FaceTree>, f2: Seq<FaceTree>, n: int, max_lod: nat)
    requires
        0 <= n <= f1.len(),
        n <= f2.len(),
        forall|j: int| 0 <= j < n ==> f1[j] == f2[j],
    ensures
        faces_pending(f1, n) == faces_pending(f2, n),
        faces_slots(f1, n) == faces_slots(f2, n),
        faces_count(f1, n) == faces_count(f2, n),
        faces_wf(f1, n, max_lod) == faces_wf(f2, n, max_lod),
    decreases n,
{
    if n > 0 {
        lemma_faces_congruent(f1, f2, n - 1, max_lod);
    }
}

impl Renderer {
    /// Runs the residency pass over the six faces in order (see `pass_tree`): every visited
    /// resident node within its split distance ends with children, new ones pending under
    /// fresh request ids; every one out of range loses its children. The requests this queues,
    /// reprioritises and cancels are recorded as actions for the provider (`pass_actions`).
    pub fn ensure_resident_patches(&mut self, frustum_planet: &Frustum)
        requires
            old(self).wf(),
            frustum_planet.valid(),
        ensures
            final(self).wf(),
            final(self).spec_split_distances() == old(self).spec_split_distances(),
            forall|f: int|
                0 <= f < 6 ==> #[trigger] final(self).trees()[f].face == old(self).trees()[f].face
                    && pass_tree(
                    old(self).trees()[f].root,
                    final(self).trees()[f].root,
                    PatchLocation::spec_root(old(self).trees()[f].face),
                    true,
                    *frustum_planet,
                    old(self).spec_split_distances(),
                    faces_next(old(self).trees(), *frustum_planet, old(self).spec_split_distances(), old(self).spec_next(), f),
                ),
            final(self).spec_next() == faces_next(
                old(self).trees(),
                *frustum_planet,
                old(self).spec_split_distances(),
                old(self).spec_next(),
                6,
            ),
            final(self).spec_actions() == old(self).spec_actions() + faces_actions(
                old(self).trees(),
                *frustum_planet,
                old(self).spec_split_distances(),
                old(self).spec_next(),
                6,
            ),
    {
        let ghost f0 = self.faces@;
        let ghost pending_start = self.pending_geometry_requests@;
        let ghost s0 = self.backing.slots();
        let ghost len0 = self.backing.spec_len();
        let ghost next0 = self.next_request;
        let ghost max = self.split_distances@.len() as nat;
        proof {
            lemma_faces_prefix(f0, 0, 6, max);
            assert(self.pending_geometry_requests@ =~= pending_start.remove_keys(faces_pending(f0, 0).dom()).union_prefer_right(faces_pending(self.faces@, 0)));
            assert(self.backing.slots() =~= s0.difference(faces_slots(f0, 0)).union(faces_slots(self.faces@, 0)));
        }
        let mut f: usize = 0;
        while f < 6
            invariant
                0 <= f <= 6,
                frustum_planet.valid(),
                split_distances_valid(self.split_distances@),
                self.split_distances@.len() == max,
                self.split_distances@ == old(self).split_distances@,
                f0 == old(self).faces@,
                f0.len() == 6,
                self.faces@.len() == 6,
                faces_wf(f0, 6, max),
                pending_start == faces_pending(f0, 6),
                s0 == faces_slots(f0, 6),
                len0 == faces_count(f0, 6),
                forall|k: usize| #[trigger] pending_start.contains_key(k) ==> k < next0,
                next0 <= self.next_request,
                forall|j: int| f <= j < 6 ==> #[trigger] self.faces@[j] == f0[j],
                forall|j: int| 0 <= j < f ==> (#[trigger] self.faces@[j]).face == f0[j].face
                    && pass_tree(
                    f0[j].root,
                    self.faces@[j].root,
                    PatchLocation::spec_root(f0[j].face),
                    true,
                    *frustum_planet,
                    self.split_distances@,
                    faces_next(f0, *frustum_planet, self.split_distances@, next0 as nat, j),
                ),
                next0 == old(self).next_request,
                self.next_request == faces_next(f0, *frustum_planet, self.split_distances@, next0 as nat, f as int),
                self.actions@ == old(self).actions@ + faces_actions(f0, *frustum_planet, self.split_distances@, next0 as nat, f as int),
                faces_wf(self.faces@, f as int, max),
                self.backing.wf(),
                self.backing.slots() == s0.difference(faces_slots(f0, f as int)).union(faces_slots(self.faces@, f as int)),
                faces_slots(self.faces@, f as int).subset_of(faces_slots(f0, f as int)),
                self.backing.spec_len() + faces_count(f0, f as int) == len0 + faces_count(self.faces@, f as int),
                self.pending_geometry_requests@ == pending_start.remove_keys(faces_pending(f0, f as int).dom()).union_prefer_right(faces_pending(self.faces@, f as int)),
                forall|k: usize| #[trigger] faces_pending(self.faces@, f as int).contains_key(k) ==> k < self.next_request && (faces_pending(f0, f as int).contains_key(k) || next0 <= k),
                forall|k: usize| #[trigger] self.pending_geometry_requests@.contains_key(k) ==> k < self.next_request,
            decreases 6 - f,
        {
            let ghost before = self.faces@;
            let ghost t = f0[f as int].root;
            let ghost l = PatchLocation::spec_root(f0[f as int].face);
            let ghost next_before = self.next_request;
            proof {
                lemma_faces_prefix(f0, f as int + 1, 6, max);
                assert(faces_pending(f0, f as int + 1) == faces_pending(f0, f as int).union_prefer_right(pending_of(t, l)));
                assert(slots_of(t, l).subset_of(self.backing.slots()));
                assert forall|k: usize| #[trigger] pending_of(t, l).contains_key(k) implies k < self.next_request && !faces_pending(self.faces@, f as int).contains_key(k) by {
                    assert(faces_pending(f0, f as int + 1).contains_key(k));
                    lemma_faces_pending_value(f0, f as int + 1, 6, max, k);
                }
                assert forall|k: usize| #[trigger] pending_of(t, l).contains_key(k) implies self.pending_geometry_requests@.contains_key(k) && self.pending_geometry_requests@[k] == pending_of(t, l)[k] by {
                    assert(faces_pending(f0, f as int + 1).contains_key(k));
                    lemma_faces_pending_value(f0, f as int + 1, 6, max, k);
                    assert(!faces_pending(f0, f as int).contains_key(k));
                }
                assert(pending_of(t, l).submap_of(self.pending_geometry_requests@));
            }
            let location = PatchLocation::root(self.faces[f].face);
            ensure_resident_children(
                &mut self.backing,
                &mut self.pending_geometry_requests,
                &mut self.next_request,
                &mut self.actions,
                frustum_planet,
                &mut self.faces[f].root,
                location,
                true,
                &self.split_distances,
            );
            proof {
                let t2 = self.faces@[f as int].root;
                assert forall|j: int| 0 <= j < 6 && j != f implies #[trigger] self.faces@[j] == before[j] by {}
                lemma_faces_congruent(self.faces@, before, f as int, max);
                assert(faces_pending(self.faces@, f as int + 1) == faces_pending(self.faces@, f as int).union_prefer_right(pending_of(t2, l)));
                assert(faces_slots(self.faces@, f as int + 1) == faces_slots(self.faces@, f as int).union(slots_of(t2, l)));
                assert(faces_slots(before, f as int).disjoint(slots_of(t, l)));
                assert(faces_pending(self.faces@, f as int).dom().disjoint(pending_of(t2, l).dom())) by {
                    assert forall|k: usize| faces_pending(self.faces@, f as int).contains_key(k) implies !pending_of(t2, l).contains_key(k) by {
                        if pending_of(t2, l).contains_key(k) {
                            if pending_of(t, l).contains_key(k) {
                            } else {
                                assert(next_before <= k);
                            }
                        }
                    }
                }
                assert(faces_wf(self.faces@, f as int + 1, max));
                assert(self.backing.slots() =~= s0.difference(faces_slots(f0, f as int + 1)).union(faces_slots(self.faces@, f as int + 1)));
                assert(self.pending_geometry_requests@ =~= pending_start.remove_keys(faces_pending(f0, f as int + 1).dom()).union_prefer_right(faces_pending(self.faces@, f as int + 1)));
                assert forall|k: usize| #[trigger] faces_pending(self.faces@, f as int + 1).contains_key(k) implies k < self.next_request && (faces_pending(f0, f as int + 1).contains_key(k) || next0 <= k) by {
                    if pending_of(t2, l).contains_key(k) {
                        if pending_of(t, l).contains_key(k) {
                        } else {
                            assert(next_before <= k);
                        }
                    }
                }
            }
            f = f + 1;
        }
        proof {
            assert(self.pending_geometry_requests@ =~= faces_pending(self.faces@, 6));
            assert(self.backing.slots() =~= faces_slots(self.faces@, 6));
        }
    }
}

impl Renderer {
    /// Takes the geometry that the provider computed for request `id`, with its bounding box.
    /// A request that is no longer pending is dropped; otherwise its node becomes resident in
    /// a fresh slot, or, when all slots are in use, stays pending. No action is recorded.
    pub fn receive(&mut self, id: usize, aabb: Aabb) -> (r: Delivery)
        requires
            old(self).wf(),
            aabb.valid(),
        ensures
            final(self).wf(),
            final(self).spec_split_distances() == old(self).spec_split_distances(),
            !old(self).pending().contains_key(id) ==> r == Delivery::Stale && final(self).pending()
                == old(self).pending() && final(self).slots() == old(self).slots()
                && final(self).trees() == old(self).trees(),
            old(self).pending().contains_key(id) && old(self).slot_count() == MAX_PATCH_COUNT ==> r
                == Delivery::NoSlot && final(self).pending() == old(self).pending() && final(self).slots() == old(self).slots() && final(self).trees() == old(self).trees(),
            old(self).pending().contains_key(id) && old(self).slot_count() < MAX_PATCH_COUNT ==> (r
                is Placed && !old(self).slots().contains(r->Placed_0.0) && final(self).slots()
                == old(self).slots().insert(r->Placed_0.0) && final(self).pending() == old(self).pending().remove(id) && final(self).slot_count() == old(self).slot_count() + 1
                && forall|f: int|
                0 <= f < 6 ==> #[trigger] final(self).trees()[f].face == old(self).trees()[f].face
                    && promoted(
                    old(self).trees()[f].root,
                    final(self).trees()[f].root,
                    PatchLocation::spec_root(old(self).trees()[f].face),
                    id,
                    NodeGeometry { node_id: r->Placed_0, aabb },
                )),
            final(self).spec_actions() == old(self).spec_actions(),
            final(self).spec_next() == old(self).spec_next(),
    {
        proof {
            self.backing.lemma_len_bounded();
        }
        if !self.pending_geometry_requests.contains_key(&id) {
            return Delivery::Stale;
        }
        let slot = match self.backing.acquire() {
            Some(slot) => slot,
            None => {
                return Delivery::NoSlot;
            },
        };
        assert(old(self).slot_count() < MAX_PATCH_COUNT);
        let geometry = NodeGeometry { node_id: slot, aabb };
        let ghost f0 = self.faces@;
        let ghost max = self.split_distances@.len() as nat;
        proof {
            lemma_faces_prefix(f0, 0, 6, max);
        }
        let mut f: usize = 0;
        while f < 6
            invariant
                0 <= f <= 6,
                self.faces@ == f0,
                f0.len() == 6,
                faces_wf(f0, 6, max),
                max == self.split_distances@.len(),
                aabb.valid(),
                geometry == (NodeGeometry { node_id: slot, aabb }),
                !faces_slots(f0, 6).contains(slot.0),
                !faces_pending(f0, f as int).contains_key(id),
                self.pending_geometry_requests@ == faces_pending(f0, 6),
                self.pending_geometry_requests@.contains_key(id),
                self.backing.wf(),
                self.backing.slots() == faces_slots(f0, 6).insert(slot.0),
                self.backing.spec_len() == faces_count(f0, 6) + 1,
                split_distances_valid(self.split_distances@),
                self.split_distances@ == old(self).split_distances@,
                self.next_request == old(self).next_request,
                forall|k: usize| #[trigger] self.pending_geometry_requests@.contains_key(k) ==> k < self.next_request,
                self.pending_geometry_requests@ == old(self).pending_geometry_requests@,
                self.backing.slots() == old(self).backing.slots().insert(slot.0),
                self.backing.spec_len() == old(self).backing.spec_len() + 1,
                !old(self).backing.slots().contains(slot.0),
                old(self).slot_count() < MAX_PATCH_COUNT,
                self.actions@ == old(self).actions@,
                f0 == old(self).faces@,
            decreases 6 - f,
        {
            let ghost t = f0[f as int].root;
            let ghost l = PatchLocation::spec_root(f0[f as int].face);
            proof {
                lemma_faces_prefix(f0, f as int + 1, 6, max);
                assert(faces_pending(f0, f as int + 1) == faces_pending(f0, f as int).union_prefer_right(pending_of(t, l)));
            }
            let location = PatchLocation::root(self.faces[f].face);
            let found = promote(&mut self.faces[f].root, &location, Ghost(max), id, geometry);
            if found {
                proof {
                    let t2 = self.faces@[f as int].root;
                    assert forall|j: int| 0 <= j < 6 && j != f implies #[trigger] self.faces@[j] == f0[j] by {}
                    lemma_faces_promoted(f0, self.faces@, f as int, 6, max, id, slot.0);
                    assert(faces_pending(f0, f as int + 1).contains_key(id));
                    lemma_faces_pending_value(f0, f as int + 1, 6, max, id);
                    assert forall|j: int| 0 <= j < 6 && j != f implies !pending_of(
                        f0[j].root,
                        PatchLocation::spec_root(f0[j].face),
                    ).contains_key(id) by {
                        if j < f {
                            lemma_faces_prefix(f0, f as int, 6, max);
                            if pending_of(f0[j].root, PatchLocation::spec_root(f0[j].face)).contains_key(id) {
                                lemma_face_key_in_prefix(f0, j, f as int, max, id);
                            }
                        } else {
                            lemma_faces_prefix(f0, j + 1, 6, max);
                            lemma_face_key_in_prefix(f0, f as int, j, max, id);
                        }
                    }
                    assert forall|j: int| 0 <= j < 6 implies #[trigger] self.faces@[j].face == f0[j].face
                        && promoted(
                        f0[j].root,
                        self.faces@[j].root,
                        PatchLocation::spec_root(f0[j].face),
                        id,
                        geometry,
                    ) by {}
                }
                self.pending_geometry_requests.remove(&id);
                proof {
                    assert(self.pending_geometry_requests@ =~= faces_pending(self.faces@, 6));
                }
                return Delivery::Placed(slot);
            }
            proof {
                assert(self.faces@ =~= f0);
            }
            f = f + 1;
        }
        proof {
            assert(false);
        }
        Delivery::Stale
    }

    /// Hands out the actions for the geometry provider recorded so far.
    pub fn take_actions(&mut self) -> (r: Vec<ProviderAction>)
        requires
            old(self).wf(),
        ensures
            final(self).wf(),
            r@ == old(self).spec_actions(),
            final(self).spec_actions() == Seq::<ProviderAction>::empty(),
            final(self).trees() == old(self).trees(),
            final(self).pending() == old(self).pending(),
            final(self).slots() == old(self).slots(),
            final(self).spec_split_distances() == old(self).spec_split_distances(),
    {
        let mut taken: Vec<ProviderAction> = Vec::new();
        std::mem::swap(&mut taken, &mut self.actions);
        taken
    }

    /// The split distances, coarsest level first.
    pub fn split_distances(&self) -> (r: &Vec<u64>)
        ensures
            r@ == self.spec_split_distances(),
    {
        &self.split_distances
    }

    /// The number of slots in use, which is the number of resident nodes.
    pub fn resident_count(&self) -> (r: usize)
        requires
            self.wf(),
        ensures
            r == faces_count(self.trees(), 6),
            r == self.slot_count(),
            r <= MAX_PATCH_COUNT,
    {
        self.backing.len()
    }

    /// The slot of the root of face number `f`.
    pub fn root_slot(&self, f: usize) -> (r: NodeId)
        requires
            self.wf(),
            f < 6,
        ensures
            self.trees()[f as int].root.content == Node::WithGeometry(
                NodeGeometry { node_id: r, aabb: self.trees()[f as int].root.content->WithGeometry_0.aabb },
            ),
    {
        proof {
            lemma_faces_prefix(self.faces@, f as int + 1, 6, self.split_distances@.len() as nat);
        }
        match self.faces[f].root.content {
            Node::WithGeometry(g) => g.node_id,
            Node::Pending(_, _) => {
                assert(false);
                NodeId(0)
            },
        }
    }

    /// The number of requests waiting for geometry.
    pub fn pending_count(&self) -> (r: usize)
        requires
            self.wf(),
        ensures
            r == self.pending().len(),
    {
        self.pending_geometry_requests.len()
    }

    /// Whether request `id` waits for geometry.
    pub fn is_pending(&self, id: usize) -> (r: bool)
        requires
            self.wf(),
        ensures
            r == self.pending().contains_key(id),
    {
        self.pending_geometry_requests.contains_key(&id)
    }

    /// The contributions to draw for the eye of `frustum_planet`, face after face.
    pub fn visible_nodes(&self, frustum_planet: &Frustum, cone: &Cone) -> (r: Vec<VisibleNode>)
        requires
            self.wf(),
            frustum_planet.valid(),
            cone.valid(),
        ensures
            r@ == visible_of(
                SelectParams {
                    frustum_planet: *frustum_planet,
                    cone: *cone,
                    split_distances: self.spec_split_distances(),
                },
                self.trees(),
                6,
            ),
            r@.len() <= 4 * self.slot_count(),
            r@.len() <= crate::constants::MAX_DRAW_COUNT,
    {
        let mut lod_select = LODSelectHelper::new(frustum_planet, cone, &self.split_distances);
        let ghost params = lod_select.params();
        let ghost max = self.split_distances@.len() as nat;
        let mut f: usize = 0;
        while f < 6
            invariant
                0 <= f <= 6,
                self.wf(),
                self.faces@.len() == 6,
                faces_wf(self.faces@, 6, max),
                max == self.split_distances@.len(),
                lod_select.params() == params,
                params.valid(),
                params == (SelectParams {
                    frustum_planet: *frustum_planet,
                    cone: *cone,
                    split_distances: self.split_distances@,
                }),
                lod_select.result@ == visible_of(params, self.faces@, f as int),
            decreases 6 - f,
        {
            proof {
                lemma_faces_prefix(self.faces@, f as int + 1, 6, max);
            }
            let location = PatchLocation::root(self.faces[f].face);
            lod_select.select(&self.faces[f].root, &location);
            f = f + 1;
        }
        proof {
            lemma_visible_bound(params, self.faces@, 6);
            lemma_residency_bound(*self);
        }
        lod_select.result()
    }
}

/// What the selection gives for the first `n` faces, one after the other.
pub open spec fn visible_of(params: SelectParams, faces: Seq<FaceTree>, n: int) -> Seq<VisibleNode>
    decreases n,
{
    if n <= 0 || n > faces.len() {
        Seq::empty()
    } else {
        visible_of(params, faces, n - 1) + params.spec_select(
            faces[n - 1].root,
            PatchLocation::spec_root(faces[n - 1].face),
            false,
        ).emitted
    }
}

/// A request of face `j` is among those of the first `n > j` faces.
proof fn lemma_face_key_in_prefix(faces: Seq<FaceTree>, j: int, n: int, max_lod: nat, k: usize)
    requires
        0 <= j < n <= faces.len(),
        faces_wf(faces, n, max_lod),
        pending_of(faces[j].root, PatchLocation::spec_root(faces[j].face)).contains_key(k),
    ensures
        faces_pending(faces, n).contains_key(k),
{
    assert(faces_pending(faces, j + 1).contains_key(k));
    lemma_faces_pending_value(faces, j + 1, n, max_lod, k);
}

/// Two face sequences that differ only in face `i`, which lost request `id` and gained slot
/// `slot`.
proof fn lemma_faces_promoted(
    f1: Seq<FaceTree>,
    f2: Seq<FaceTree>,
    i: int,
    n: int,
    max_lod: nat,
    id: usize,
    slot: usize,
)
    requires
        0 <= i < n <= 6,
        f1.len() == 6,
        f2.len() == 6,
        forall|j: int| 0 <= j < 6 && j != i ==> f1[j] == f2[j],
        f1[i].face == f2[i].face,
        faces_wf(f1, n, max_lod),
        !faces_slots(f1, n).contains(slot),
        !faces_pending(f1, i).contains_key(id),
        f2[i].root.content is WithGeometry,
        tree_valid(f2[i].root, PatchLocation::spec_root(f2[i].face), max_lod),
        unique(f2[i].root, PatchLocation::spec_root(f2[i].face)),
        pending_of(f1[i].root, PatchLocation::spec_root(f1[i].face)).contains_key(id),
        pending_of(f2[i].root, PatchLocation::spec_root(f2[i].face)) == pending_of(
            f1[i].root,
            PatchLocation::spec_root(f1[i].face),
        ).remove(id),
        slots_of(f2[i].root, PatchLocation::spec_root(f2[i].face)) == slots_of(
            f1[i].root,
            PatchLocation::spec_root(f1[i].face),
        ).insert(slot),
        resident_count(f2[i].root, PatchLocation::spec_root(f2[i].face)) == resident_count(
            f1[i].root,
            PatchLocation::spec_root(f1[i].face),
        ) + 1,
    ensures
        faces_pending(f2, n) == faces_pending(f1, n).remove(id),
        faces_slots(f2, n) == faces_slots(f1, n).insert(slot),
        faces_count(f2, n) == faces_count(f1, n) + 1,
        faces_wf(f2, n, max_lod),
    decreases n,
{
    if n - 1 == i {
        lemma_faces_congruent(f1, f2, i, max_lod);
        assert(faces_pending(f2, n) =~= faces_pending(f1, n).remove(id));
        assert(faces_slots(f2, n) =~= faces_slots(f1, n).insert(slot));
    } else {
        lemma_faces_prefix(f1, n - 1, n, max_lod);
        lemma_faces_promoted(f1, f2, i, n - 1, max_lod, id, slot);
        let t = f1[n - 1].root;
        let l = PatchLocation::spec_root(f1[n - 1].face);
        assert(f2[n - 1] == f1[n - 1]);
        lemma_faces_pending_value(f1, i + 1, n - 1, max_lod, id);
        assert(!pending_of(t, l).contains_key(id));
        assert(faces_pending(f2, n) =~= faces_pending(f1, n).remove(id));
        assert(faces_slots(f2, n) =~= faces_slots(f1, n).insert(slot));
    }
}

/// A resident root for `face`, with its geometry in a fresh slot.
fn make_root(backing: &mut NodeBacking, face: Face, aabb: Aabb) -> (r: FaceTree)
    requires
        old(backing).wf(),
        old(backing).spec_len() < MAX_PATCH_COUNT,
        aabb.valid(),
    ensures
        final(backing).wf(),
        r.face == face,
        r.root.children is None,
        r.root.content matches Node::WithGeometry(g) && g.aabb == aabb && !old(backing).slots().contains(g.node_id.0)
            && final(backing).slots() == old(backing).slots().insert(g.node_id.0),
        final(backing).spec_len() == old(backing).spec_len() + 1,
{
    let slot = match backing.acquire() {
        Some(slot) => slot,
        None => {
            assert(false);
            NodeId(0)
        },
    };
    FaceTree { face, root: QuadTree::new(Node::WithGeometry(NodeGeometry { node_id: slot, aabb })) }
}

/// The six faces in their fixed order, each with a resident root whose box is given by
/// `root_bounds` at the face's number.
fn build_faces(backing: &mut NodeBacking, root_bounds: &[Aabb; 6]) -> (r: [FaceTree; 6])
    requires
        old(backing).wf(),
        old(backing).spec_len() == 0,
        old(backing).slots() == Set::<usize>::empty(),
        forall|i: int| 0 <= i < 6 ==> (#[trigger] root_bounds@[i]).valid(),
    ensures
        final(backing).wf(),
        forall|f: int| 0 <= f < 6 ==> (#[trigger] r@[f]).face.spec_index() == f && r@[f].root.children is None
            && (r@[f].root.content matches Node::WithGeometry(g) && g.aabb == root_bounds@[f]),
        faces_wf(r@, 6, 0),
        faces_pending(r@, 6) == Map::<usize, PatchLocation>::empty(),
        final(backing).slots() == faces_slots(r@, 6),
        final(backing).spec_len() == faces_count(r@, 6),
        final(backing).spec_len() == 6,
{
    let faces = Face::values();
    let f0 = make_root(backing, faces[0], root_bounds[0]);
    let f1 = make_root(backing, faces[1], root_bounds[1]);
    let f2 = make_root(backing, faces[2], root_bounds[2]);
    let f3 = make_root(backing, faces[3], root_bounds[3]);
    let f4 = make_root(backing, faces[4], root_bounds[4]);
    let f5 = make_root(backing, faces[5], root_bounds[5]);
    let r = [f0, f1, f2, f3, f4, f5];
    proof {
        let rs = r@;
        assert(rs.len() == 6);
        assert forall|f: int| 0 <= f < 6 implies
            pending_of(#[trigger] rs[f].root, PatchLocation::spec_root(rs[f].face)) == Map::<usize, PatchLocation>::empty()
            && slots_of(rs[f].root, PatchLocation::spec_root(rs[f].face)) == set![rs[f].root.content->WithGeometry_0.node_id.0]
            && resident_count(rs[f].root, PatchLocation::spec_root(rs[f].face)) == 1
            && unique(rs[f].root, PatchLocation::spec_root(rs[f].face))
            && tree_valid(rs[f].root, PatchLocation::spec_root(rs[f].face), 0) by {
            let l = PatchLocation::spec_root(rs[f].face);
            crate::patch::lemma_root_valid(rs[f].face);
            assert(children_pending(rs[f].root, l, 4) =~= Map::<usize, PatchLocation>::empty());
            assert(children_slots(rs[f].root, l, 4) =~= Set::<usize>::empty());
            assert(slots_of(rs[f].root, l) =~= set![rs[f].root.content->WithGeometry_0.node_id.0]);
        }
        assert(pending_of(rs[0].root, PatchLocation::spec_root(rs[0].face)) == Map::<usize, PatchLocation>::empty());
        assert(slots_of(rs[0].root, PatchLocation::spec_root(rs[0].face)) == set![rs[0].root.content->WithGeometry_0.node_id.0]);
        assert(pending_of(rs[1].root, PatchLocation::spec_root(rs[1].face)) == Map::<usize, PatchLocation>::empty());
        assert(slots_of(rs[1].root, PatchLocation::spec_root(rs[1].face)) == set![rs[1].root.content->WithGeometry_0.node_id.0]);
        assert(pending_of(rs[2].root, PatchLocation::spec_root(rs[2].face)) == Map::<usize, PatchLocation>::empty());
        assert(slots_of(rs[2].root, PatchLocation::spec_root(rs[2].face)) == set![rs[2].root.content->WithGeometry_0.node_id.0]);
        assert(pending_of(rs[3].root, PatchLocation::spec_root(rs[3].face)) == Map::<usize, PatchLocation>::empty());
        assert(slots_of(rs[3].root, PatchLocation::spec_root(rs[3].face)) == set![rs[3].root.content->WithGeometry_0.node_id.0]);
        assert(pending_of(rs[4].root, PatchLocation::spec_root(rs[4].face)) == Map::<usize, PatchLocation>::empty());
        assert(slots_of(rs[4].root, PatchLocation::spec_root(rs[4].face)) == set![rs[4].root.content->WithGeometry_0.node_id.0]);
        assert(pending_of(rs[5].root, PatchLocation::spec_root(rs[5].face)) == Map::<usize, PatchLocation>::empty());
        assert(slots_of(rs[5].root, PatchLocation::spec_root(rs[5].face)) == set![rs[5].root.content->WithGeometry_0.node_id.0]);
        assert(faces_pending(rs, 0) =~= Map::<usize, PatchLocation>::empty());
        assert(faces_slots(rs, 0) =~= Set::<usize>::empty());
        assert(faces_pending(rs, 1) =~= Map::<usize, PatchLocation>::empty());
        assert(faces_pending(rs, 2) =~= Map::<usize, PatchLocation>::empty());
        assert(faces_pending(rs, 3) =~= Map::<usize, PatchLocation>::empty());
        assert(faces_pending(rs, 4) =~= Map::<usize, PatchLocation>::empty());
        assert(faces_pending(rs, 5) =~= Map::<usize, PatchLocation>::empty());
        assert(faces_pending(rs, 6) =~= Map::<usize, PatchLocation>::empty());
        assert(faces_slots(rs, 1) =~= set![rs[0].root.content->WithGeometry_0.node_id.0]);
        assert(faces_slots(rs, 2) =~= faces_slots(rs, 1).insert(rs[1].root.content->WithGeometry_0.node_id.0));
        assert(faces_slots(rs, 3) =~= faces_slots(rs, 2).insert(rs[2].root.content->WithGeometry_0.node_id.0));
        assert(faces_slots(rs, 4) =~= faces_slots(rs, 3).insert(rs[3].root.content->WithGeometry_0.node_id.0));
        assert(faces_slots(rs, 5) =~= faces_slots(rs, 4).insert(rs[4].root.content->WithGeometry_0.node_id.0));
        assert(faces_slots(rs, 6) =~= faces_slots(rs, 5).insert(rs[5].root.content->WithGeometry_0.node_id.0));
        assert(backing.slots() =~= faces_slots(rs, 6));
        assert(resident_count(rs[0].root, PatchLocation::spec_root(rs[0].face)) == 1);
        assert(unique(rs[0].root, PatchLocation::spec_root(rs[0].face)));
        assert(tree_valid(rs[0].root, PatchLocation::spec_root(rs[0].face), 0));
        assert(resident_count(rs[1].root, PatchLocation::spec_root(rs[1].face)) == 1);
        assert(unique(rs[1].root, PatchLocation::spec_root(rs[1].face)));
        assert(tree_valid(rs[1].root, PatchLocation::spec_root(rs[1].face), 0));
        assert(resident_count(rs[2].root, PatchLocation::spec_root(rs[2].face)) == 1);
        assert(unique(rs[2].root, PatchLocation::spec_root(rs[2].face)));
        assert(tree_valid(rs[2].root, PatchLocation::spec_root(rs[2].face), 0));
        assert(resident_count(rs[3].root, PatchLocation::spec_root(rs[3].face)) == 1);
        assert(unique(rs[3].root, PatchLocation::spec_root(rs[3].face)));
        assert(tree_valid(rs[3].root, PatchLocation::spec_root(rs[3].face), 0));
        assert(resident_count(rs[4].root, PatchLocation::spec_root(rs[4].face)) == 1);
        assert(unique(rs[4].root, PatchLocation::spec_root(rs[4].face)));
        assert(tree_valid(rs[4].root, PatchLocation::spec_root(rs[4].face), 0));
        assert(resident_count(rs[5].root, PatchLocation::spec_root(rs[5].face)) == 1);
        assert(unique(rs[5].root, PatchLocation::spec_root(rs[5].face)));
        assert(tree_valid(rs[5].root, PatchLocation::spec_root(rs[5].face), 0));
        assert(rs[0] == f0);
        assert(rs[0].root.content is WithGeometry);
        assert(faces_wf(rs, 0, 0));
        assert(faces_pending(rs, 0).dom().disjoint(pending_of(rs[0].root, PatchLocation::spec_root(rs[0].face)).dom()));
        assert(faces_slots(rs, 0).disjoint(slots_of(rs[0].root, PatchLocation::spec_root(rs[0].face))));
        assert(faces_wf(rs, 1, 0));
        assert(faces_wf(rs, 2, 0));
        assert(faces_wf(rs, 3, 0));
        assert(faces_wf(rs, 4, 0));
        assert(faces_wf(rs, 5, 0));
        assert(faces_wf(rs, 6, 0));
        assert(faces_count(rs, 0) == 0);
        assert(faces_count(rs, 1) == 1);
        assert(faces_count(rs, 2) == 2);
        assert(faces_count(rs, 3) == 3);
        assert(faces_count(rs, 4) == 4);
        assert(faces_count(rs, 5) == 5);
        assert(faces_count(rs, 6) == 6);
    }
    r
}

impl Renderer {
    /// A renderer whose six faces each hold a resident root, with the bounding box of the
    /// face's number in `root_bounds`, and nothing pending.
    pub fn new(root_bounds: [Aabb; 6], split_distances: Vec<u64>) -> (r: Renderer)
        requires
            forall|i: int| 0 <= i < 6 ==> (#[trigger] root_bounds@[i]).valid(),
            split_distances_valid(split_distances@),
        ensures
            r.wf(),
            r.spec_split_distances() == split_distances@,
            r.pending() == Map::<usize, PatchLocation>::empty(),
            r.spec_actions() == Seq::<ProviderAction>::empty(),
            r.slot_count() == 6,
            forall|f: int| 0 <= f < 6 ==> (#[trigger] r.trees()[f]).face.spec_index() == f
                && r.trees()[f].root.children is None && (r.trees()[f].root.content matches Node::WithGeometry(g)
                && g.aabb == root_bounds@[f]),
    {
        let mut backing = NodeBacking::new();
        let faces = build_faces(&mut backing, &root_bounds);
        let r = Renderer {
            faces,
            split_distances,
            backing,
            pending_geometry_requests: HashMap::new(),
            next_request: 0,
            actions: Vec::new(),
        };
        proof {
            lemma_faces_valid_deeper(r.faces@, 6, 0, r.split_distances@.len() as nat);
        }
        r
    }
}

proof fn lemma_faces_valid_deeper(faces: Seq<FaceTree>, n: int, a: nat, b: nat)
    requires
        a <= b,
        0 <= n <= faces.len(),
        faces_wf(faces, n, a),
        forall|f: int| 0 <= f < n ==> (#[trigger] faces[f]).root.children is None,
    ensures
        faces_wf(faces, n, b),
    decreases n,
{
    if n > 0 {
        lemma_faces_valid_deeper(faces, n - 1, a, b);
        assert(faces[n - 1].root.children is None);
    }
}

impl Renderer {
    /// Drops every patch, for geometry from a new generator: all slots are released, all
    /// requests cancelled, and each face gets a fresh resident root with the bounding box of
    /// the face's number in `root_bounds`.
    pub fn set_generator(&mut self, root_bounds: [Aabb; 6])
        requires
            old(self).wf(),
            forall|i: int| 0 <= i < 6 ==> (#[trigger] root_bounds@[i]).valid(),
        ensures
            final(self).wf(),
            final(self).spec_split_distances() == old(self).spec_split_distances(),
            final(self).pending() == Map::<usize, PatchLocation>::empty(),
            final(self).slot_count() == 6,
            final(self).spec_actions() == old(self).spec_actions() + faces_cancels(old(self).trees(), 6),
            forall|f: int| 0 <= f < 6 ==> (#[trigger] final(self).trees()[f]).face.spec_index() == f
                && final(self).trees()[f].root.children is None && (final(self).trees()[f].root.content matches Node::WithGeometry(g)
                && g.aabb == root_bounds@[f]),
    {
        let ghost f0 = self.faces@;
        let ghost pending_start = self.pending_geometry_requests@;
        let ghost s0 = self.backing.slots();
        let ghost len0 = self.backing.spec_len();
        let ghost max = self.split_distances@.len() as nat;
        proof {
            lemma_faces_prefix(f0, 0, 6, max);
            assert(s0.difference(faces_slots(f0, 0)) =~= s0);
            assert(pending_start.remove_keys(faces_pending(f0, 0).dom()) =~= pending_start);
        }
        let mut f: usize = 0;
        while f < 6
            invariant
                0 <= f <= 6,
                self.faces@ == f0,
                f0.len() == 6,
                faces_wf(f0, 6, max),
                max == self.split_distances@.len(),
                split_distances_valid(self.split_distances@),
                self.split_distances@ == old(self).split_distances@,
                pending_start == faces_pending(f0, 6),
                s0 == faces_slots(f0, 6),
                len0 == faces_count(f0, 6),
                self.backing.wf(),
                self.backing.slots() == s0.difference(faces_slots(f0, f as int)),
                self.backing.spec_len() + faces_count(f0, f as int) == len0,
                self.pending_geometry_requests@ == pending_start.remove_keys(faces_pending(f0, f as int).dom()),
                f0 == old(self).faces@,
                self.actions@ == old(self).actions@ + faces_cancels(f0, f as int),
            decreases 6 - f,
        {
            let ghost t = f0[f as int].root;
            let ghost l = PatchLocation::spec_root(f0[f as int].face);
            proof {
                lemma_faces_prefix(f0, f as int + 1, 6, max);
                assert(faces_slots(f0, f as int).disjoint(slots_of(t, l)));
                assert(slots_of(t, l).subset_of(faces_slots(f0, 6)));
            }
            remove_face(
                &mut self.backing,
                &self.faces[f].root,
                Ghost(l),
                Ghost(max),
                &mut self.pending_geometry_requests,
                &mut self.actions,
            );
            proof {
                assert(self.backing.slots() =~= s0.difference(faces_slots(f0, f as int + 1)));
                assert(self.pending_geometry_requests@ =~= pending_start.remove_keys(faces_pending(f0, f as int + 1).dom()));
            }
            f = f + 1;
        }
        proof {
            assert(self.backing.slots() =~= Set::<usize>::empty());
            assert(self.pending_geometry_requests@ =~= Map::<usize, PatchLocation>::empty());
        }
        self.faces = build_faces(&mut self.backing, &root_bounds);
        proof {
            lemma_faces_valid_deeper(self.faces@, 6, 0, max);
        }
    }
}

proof fn lemma_parts_len(p: SelectParams, g: NodeGeometry, loc: PatchLocation, kids: Seq<Selection>, n: int)
    ensures
        p.parts(g, loc, kids, n).len() <= if n < 0 { 0 } else { n },
    decreases n,
{
    if n > 0 {
        lemma_parts_len(p, g, loc, kids, n - 1);
    }
}

/// A node draws at most four contributions for each resident node of its tree.
pub proof fn lemma_emitted_bound(p: SelectParams, t: QuadTree<Node>, loc: PatchLocation, parent_inside: bool)
    ensures
        p.spec_select(t, loc, parent_inside).emitted.len() <= 4 * resident_count(t, loc),
    decreases MAX_LOD_LEVEL - loc.lod_level, 5int,
{
    match t.content {
        Node::Pending(_, _) => {},
        Node::WithGeometry(g) => {
            let containment = if parent_inside {
                crate::culling::Containment::Inside
            } else {
                p.frustum_planet.classify_box(g.aabb)
            };
            let inside = containment == crate::culling::Containment::Inside;
            lemma_kids_emitted_bound(p, t, loc, inside, 4);
            lemma_parts_len(p, g, loc, p.spec_children(t, loc, inside, 4), 4);
        },
    }
}

proof fn lemma_kids_emitted_bound(p: SelectParams, t: QuadTree<Node>, loc: PatchLocation, inside: bool, n: int)
    requires
        0 <= n <= 4,
    ensures
        emitted_of(p.spec_children(t, loc, inside, n)).len() <= 4 * children_count(t, loc, n),
    decreases MAX_LOD_LEVEL - loc.lod_level, n,
{
    if n > 0 {
        lemma_kids_emitted_bound(p, t, loc, inside, n - 1);
        let prev = p.spec_children(t, loc, inside, n - 1);
        let x = p.spec_children(t, loc, inside, n).last();
        assert(p.spec_children(t, loc, inside, n) == prev.push(x));
        lemma_emitted_push(prev, x);
        if t.children is Some && loc.lod_level < MAX_LOD_LEVEL {
            lemma_emitted_bound(p, child_of(t, n - 1), loc.spec_split(child_at(n - 1)), inside);
        }
    } else {
        assert(p.spec_children(t, loc, inside, 0) =~= Seq::<Selection>::empty());
    }
}

proof fn lemma_visible_bound(p: SelectParams, faces: Seq<FaceTree>, n: int)
    requires
        0 <= n <= faces.len(),
    ensures
        crate::residency::visible_of(p, faces, n).len() <= 4 * faces_count(faces, n),
    decreases n,
{
    if n > 0 {
        lemma_visible_bound(p, faces, n - 1);
        lemma_emitted_bound(p, faces[n - 1].root, PatchLocation::spec_root(faces[n - 1].face), false);
    }
}

} // verus!
