use vstd::prelude::*;
use crate::culling::{Classify, Containment, in_range, spec_in_range};
use crate::frustum::Frustum;
use crate::horizon_culling::Cone;
use crate::node::{Node, NodeGeometry, NodeId, child_of, lemma_child_valid, tree_valid};
use crate::patch::{PatchLocation, MAX_LOD_LEVEL};
use crate::quad_tree::{Child, QuadTree, child_at};

verus! {

/// Largest split distance the selector accepts.
pub const SPLIT_DISTANCE_MAX: u64 = 144115188075855872;

/// Which part of a node is drawn.
#[derive(Copy, Clone, Debug, PartialEq, Eq, Structural)]
pub enum VisibleNodePart {
    /// The entire node
    Whole,
    /// Only the quadrant of the node under the given child
    Child(Child),
}

/// The distances, in tenths of a unit, over which a contribution morphs towards its parent's
/// geometry: not at all up to `start_tenths`, completely from `end_tenths` on.
#[derive(Copy, Clone, Debug, PartialEq, Eq, Structural)]
pub struct MorphRange {
    pub start_tenths: u64,
    pub end_tenths: u64,
}

/// One contribution to the frame: a node, or one quadrant of it, to draw.
#[derive(Copy, Clone, Debug, PartialEq, Eq, Structural)]
pub struct VisibleNode {
    pub node_id: NodeId,
    pub part: VisibleNodePart,
    pub morph_range: MorphRange,
    pub lod_level: u16,
}

/// Defines the result of calling `lod_select` on a node.
#[derive(Copy, Clone, Debug, PartialEq, Eq, Structural)]
pub enum LODSelectResult {
    /// Undefined value (patch doesn't exist)
    Undefined,
    /// The patch is outside of the frustum
    OutOfFrustum,
    /// The patch is outside of its lod range
    OutOfRange,
    /// The patch was selected
    Selected,
    /// The node has a pending streaming request
    Pending,
}

impl LODSelectResult {
    /// The node was left for its parent to cover.
    pub open spec fn spec_is_not_selected(self) -> bool {
        match self {
            LODSelectResult::Undefined => true,
            LODSelectResult::OutOfFrustum => false,
            LODSelectResult::OutOfRange => true,
            LODSelectResult::Selected => false,
            LODSelectResult::Pending => true,
        }
    }

    /// Returns true if the result indicates that the node was not added to the visible list.
    pub fn is_not_selected(&self) -> (r: bool)
        ensures
            r == self.spec_is_not_selected(),
    {
        match self {
            LODSelectResult::Undefined => true,
            LODSelectResult::OutOfFrustum => false,
            LODSelectResult::OutOfRange => true,
            LODSelectResult::Selected => false,
            LODSelectResult::Pending => true,
        }
    }
}

/// The morph range of a contribution at level `lod`: it ends at the split distance of the
/// level above (of level zero itself at the root) and starts at nine tenths of that.
pub open spec fn spec_morph_range(split_distances: Seq<u64>, lod: int) -> MorphRange {
    let end = if lod == 0 { split_distances[0] } else { split_distances[lod - 1] };
    MorphRange { start_tenths: (9 * end) as u64, end_tenths: (10 * end) as u64 }
}

/// The morph range of every level that can be drawn spans a positive distance, so the blend
/// towards the parent's geometry goes from nothing to complete gradually, not at one distance.
pub proof fn lemma_morph_range_nonempty(split_distances: Seq<u64>, lod: int)
    requires
        split_distances_valid(split_distances),
        0 <= lod <= split_distances.len(),
        forall|i: int| 0 <= i < split_distances.len() ==> #[trigger] split_distances[i] > 0,
    ensures
        spec_morph_range(split_distances, lod).start_tenths < spec_morph_range(
            split_distances,
            lod,
        ).end_tenths,
{
    let end = if lod == 0 { split_distances[0] } else { split_distances[lod - 1] };
    assert(end > 0 && end <= SPLIT_DISTANCE_MAX);
}

/// Split distances that the selector can work with: at least one, none above
/// `SPLIT_DISTANCE_MAX`, and fewer than levels of detail.
pub open spec fn split_distances_valid(split_distances: Seq<u64>) -> bool {
    &&& 0 < split_distances.len() < MAX_LOD_LEVEL
    &&& forall|i: int| 0 <= i < split_distances.len() ==> #[trigger] split_distances[i] <= SPLIT_DISTANCE_MAX
}

/// What the selection of one node gives: the contributions in the order they are emitted, and
/// the node's result.
pub struct Selection {
    pub emitted: Seq<VisibleNode>,
    pub result: LODSelectResult,
}

/// None of the four children was selected: each left its quadrant to its parent.
pub open spec fn none_selected(kids: Seq<Selection>) -> bool {
    forall|i: int| 0 <= i < 4 ==> (#[trigger] kids[i]).result.spec_is_not_selected()
}

/// At least one of the four children was selected.
pub open spec fn some_selected(kids: Seq<Selection>) -> bool {
    exists|i: int| 0 <= i < 4 && (#[trigger] kids[i]).result == LODSelectResult::Selected
}

/// The contributions of a sequence of selections, one after the other.
pub open spec fn emitted_of(kids: Seq<Selection>) -> Seq<VisibleNode>
    decreases kids.len(),
{
    if kids.len() == 0 {
        Seq::empty()
    } else {
        emitted_of(kids.drop_last()) + kids.last().emitted
    }
}

/// Appending a selection appends its contributions.
pub proof fn lemma_emitted_push(kids: Seq<Selection>, s: Selection)
    ensures
        emitted_of(kids.push(s)) == emitted_of(kids) + s.emitted,
{
    assert(kids.push(s).drop_last() =~= kids);
}

/// A helper struct that is used to select LOD levels of quad tree nodes.
pub struct LODSelectHelper {
    pub frustum_planet: Frustum,
    pub cone: Cone,
    pub split_distances: Vec<u64>,
    pub result: Vec<VisibleNode>,
}

/// What the selection depends on: the frustum relative to the planet, the horizon cone and
/// the split distances.
pub struct SelectParams {
    pub frustum_planet: Frustum,
    pub cone: Cone,
    pub split_distances: Seq<u64>,
}

impl LODSelectHelper {
    pub open spec fn params(self) -> SelectParams {
        SelectParams {
            frustum_planet: self.frustum_planet,
            cone: self.cone,
            split_distances: self.split_distances@,
        }
    }

    pub open spec fn valid(self) -> bool {
        self.params().valid()
    }
}

impl SelectParams {
    pub open spec fn valid(self) -> bool {
        self.frustum_planet.valid() && self.cone.valid() && split_distances_valid(
            self.split_distances,
        )
    }

    /// A contribution of `g` at `loc`.
    pub open spec fn contribution(
        self,
        g: NodeGeometry,
        loc: PatchLocation,
        part: VisibleNodePart,
    ) -> VisibleNode {
        VisibleNode {
            node_id: g.node_id,
            part,
            morph_range: spec_morph_range(self.split_distances, loc.lod_level as int),
            lod_level: loc.lod_level as u16,
        }
    }

    /// The contributions for the quadrants whose child was not selected, in quadrant order.
    pub open spec fn parts(
        self,
        g: NodeGeometry,
        loc: PatchLocation,
        kids: Seq<Selection>,
        n: int,
    ) -> Seq<VisibleNode>
        decreases n,
    {
        if n <= 0 {
            Seq::empty()
        } else {
            let prev = self.parts(g, loc, kids, n - 1);
            if kids[n - 1].result.spec_is_not_selected() {
                prev.push(self.contribution(g, loc, VisibleNodePart::Child(child_at(n - 1))))
            } else {
                prev
            }
        }
    }

    /// The selection of node `t` at `loc`, given whether its parent lies wholly inside the
    /// frustum.
    pub open spec fn spec_select(
        self,
        t: QuadTree<Node>,
        loc: PatchLocation,
        parent_inside: bool,
    ) -> Selection
        decreases MAX_LOD_LEVEL - loc.lod_level, 5int,
    {
        match t.content {
            Node::Pending(_, _) => Selection { emitted: Seq::empty(), result: LODSelectResult::Pending },
            Node::WithGeometry(g) => {
                let containment = if parent_inside {
                    Containment::Inside
                } else {
                    self.frustum_planet.classify_box(g.aabb)
                };
                let pos = self.frustum_planet.position;
                let sd = self.split_distances;
                let lod = loc.lod_level as int;
                if containment == Containment::Outside {
                    Selection { emitted: Seq::empty(), result: LODSelectResult::OutOfFrustum }
                } else if self.cone.classify_box(g.aabb) == Containment::Inside {
                    Selection { emitted: Seq::empty(), result: LODSelectResult::OutOfFrustum }
                } else if lod > 0 && !spec_in_range(g.aabb, pos, sd[lod - 1] as int) {
                    Selection { emitted: Seq::empty(), result: LODSelectResult::OutOfRange }
                } else if lod < sd.len() && spec_in_range(g.aabb, pos, sd[lod] as int) {
                    let inside = containment == Containment::Inside;
                    let kids = self.spec_children(t, loc, inside, 4);
                    let below = emitted_of(kids);
                    if none_selected(kids) {
                        Selection {
                            emitted: below.push(self.contribution(g, loc, VisibleNodePart::Whole)),
                            result: LODSelectResult::Selected,
                        }
                    } else {
                        Selection {
                            emitted: below + self.parts(g, loc, kids, 4),
                            result: if some_selected(kids) {
                                LODSelectResult::Selected
                            } else {
                                LODSelectResult::OutOfFrustum
                            },
                        }
                    }
                } else {
                    Selection {
                        emitted: seq![self.contribution(g, loc, VisibleNodePart::Whole)],
                        result: LODSelectResult::Selected,
                    }
                }
            },
        }
    }

    /// The selections of the first `n` children of `t` (all undefined when it has none).
    pub open spec fn spec_children(
        self,
        t: QuadTree<Node>,
        loc: PatchLocation,
        inside: bool,
        n: int,
    ) -> Seq<Selection>
        decreases MAX_LOD_LEVEL - loc.lod_level, n,
    {
        if n <= 0 || n > 4 {
            Seq::empty()
        } else {
            let prev = self.spec_children(t, loc, inside, n - 1);
            if t.children is Some && loc.lod_level < MAX_LOD_LEVEL {
                prev.push(
                    self.spec_select(child_of(t, n - 1), loc.spec_split(child_at(n - 1)), inside),
                )
            } else {
                prev.push(Selection { emitted: Seq::empty(), result: LODSelectResult::Undefined })
            }
        }
    }
}

impl LODSelectHelper {
    /// Construct a new LOD selection helper
    /// * `frustum_planet` - The frustum relative to the planet
    /// * `cone` - The horizon culling cone relative to the planet
    /// * `split_distances` - For every lod level at which distance its children should be used instead.
    pub fn new(frustum_planet: &Frustum, cone: &Cone, split_distances: &Vec<u64>) -> (r:
        LODSelectHelper)
        ensures
            r.frustum_planet == *frustum_planet,
            r.cone == *cone,
            r.split_distances@ == split_distances@,
            r.result@ == Seq::<VisibleNode>::empty(),
    {
        LODSelectHelper {
            frustum_planet: *frustum_planet,
            cone: *cone,
            split_distances: split_distances.clone(),
            result: Vec::new(),
        }
    }

    /// Returns the result of the LOD selection process consuming the helper.
    pub fn result(self) -> (r: Vec<VisibleNode>)
        ensures
            r@ == self.result@,
    {
        self.result
    }

    /// Select the appropriate LOD levels of the specified node.
    pub fn select(&mut self, node: &QuadTree<Node>, location: &PatchLocation)
        requires
            old(self).valid(),
            tree_valid(*node, *location, old(self).split_distances@.len() as nat),
        ensures
            final(self).frustum_planet == old(self).frustum_planet,
            final(self).cone == old(self).cone,
            final(self).split_distances@ == old(self).split_distances@,
            final(self).result@ == old(self).result@ + old(self).params().spec_select(
                *node,
                *location,
                false,
            ).emitted,
    {
        self.recurse(node, location, false);
    }

    /// The morph range of a contribution at level `lod_level`.
    fn morph_range(&self, lod_level: usize) -> (r: MorphRange)
        requires
            self.valid(),
            lod_level <= self.split_distances@.len(),
        ensures
            r == spec_morph_range(self.split_distances@, lod_level as int),
    {
        let end = if lod_level == 0 {
            self.split_distances[0]
        } else {
            self.split_distances[lod_level - 1]
        };
        MorphRange { start_tenths: 9 * end, end_tenths: 10 * end }
    }

    /// Adds the geometry of the entire node to the result
    fn add_whole(&mut self, node: &NodeGeometry, location: &PatchLocation)
        requires
            old(self).valid(),
            location.lod_level <= old(self).split_distances@.len(),
        ensures
            final(self).frustum_planet == old(self).frustum_planet,
            final(self).cone == old(self).cone,
            final(self).split_distances@ == old(self).split_distances@,
            final(self).result@ == old(self).result@.push(
                old(self).params().contribution(*node, *location, VisibleNodePart::Whole),
            ),
    {
        self.add(node, location, VisibleNodePart::Whole)
    }

    /// Adds only a part of the geometry of the node to the result
    fn add_part(&mut self, node: &NodeGeometry, location: &PatchLocation, child: Child)
        requires
            old(self).valid(),
            location.lod_level <= old(self).split_distances@.len(),
        ensures
            final(self).frustum_planet == old(self).frustum_planet,
            final(self).cone == old(self).cone,
            final(self).split_distances@ == old(self).split_distances@,
            final(self).result@ == old(self).result@.push(
                old(self).params().contribution(*node, *location, VisibleNodePart::Child(child)),
            ),
    {
        self.add(node, location, VisibleNodePart::Child(child))
    }

    /// Adds a specific part of the geometry of a node to the result. Use the `add_whole` and
    /// `add_part` methods for easier use.
    fn add(&mut self, node: &NodeGeometry, location: &PatchLocation, part: VisibleNodePart)
        requires
            old(self).valid(),
            location.lod_level <= old(self).split_distances@.len(),
        ensures
            final(self).frustum_planet == old(self).frustum_planet,
            final(self).cone == old(self).cone,
            final(self).split_distances@ == old(self).split_distances@,
            final(self).result@ == old(self).result@.push(
                old(self).params().contribution(*node, *location, part),
            ),
    {
        let morph_range = self.morph_range(location.lod_level);
        self.result.push(
            VisibleNode {
                node_id: node.node_id,
                part,
                morph_range,
                lod_level: location.lod_level as u16,
            },
        );
    }

    /// Recurse into the specified node adding all visible nodes to the LOD selection result.
    pub fn recurse(
        &mut self,
        node: &QuadTree<Node>,
        location: &PatchLocation,
        parent_completely_in_frustum: bool,
    ) -> (r: LODSelectResult)
        requires
            old(self).valid(),
            tree_valid(*node, *location, old(self).split_distances@.len() as nat),
        ensures
            final(self).frustum_planet == old(self).frustum_planet,
            final(self).cone == old(self).cone,
            final(self).split_distances@ == old(self).split_distances@,
            final(self).result@ == old(self).result@ + old(self).params().spec_select(
                *node,
                *location,
                parent_completely_in_frustum,
            ).emitted,
            r == old(self).params().spec_select(*node, *location, parent_completely_in_frustum).result,
        decreases MAX_LOD_LEVEL - location.lod_level,
    {
        let ghost spec_self = old(self).params();
        let ghost sel = spec_self.spec_select(*node, *location, parent_completely_in_frustum);
        match &node.content {
            Node::Pending(_, _) => {
                assert(self.result@ =~= old(self).result@ + sel.emitted);
                LODSelectResult::Pending
            },
            Node::WithGeometry(geometry) => {
                let frustum_containment = if parent_completely_in_frustum {
                    Containment::Inside
                } else {
                    self.frustum_planet.classify(&geometry.aabb)
                };
                if frustum_containment == Containment::Outside {
                    assert(self.result@ =~= old(self).result@ + sel.emitted);
                    return LODSelectResult::OutOfFrustum;
                }
                if self.cone.contains(&geometry.aabb) {
                    assert(self.result@ =~= old(self).result@ + sel.emitted);
                    return LODSelectResult::OutOfFrustum;
                }
                let pos = self.frustum_planet.position;
                let lod = location.lod_level;
                if lod > 0 && !in_range(
                    &geometry.aabb,
                    &pos,
                    self.split_distances[lod - 1],
                ) {
                    assert(self.result@ =~= old(self).result@ + sel.emitted);
                    return LODSelectResult::OutOfRange;
                }
                if lod < self.split_distances.len() && in_range(
                    &geometry.aabb,
                    &pos,
                    self.split_distances[lod],
                ) {
                    let inside = frustum_containment == Containment::Inside;
                    let ghost kids = spec_self.spec_children(*node, *location, inside, 4);
                    let values = Child::values();
                    proof {
                        lemma_children_prefix(spec_self, *node, *location, inside, 4, 4);
                    }
                    let mut results: Vec<LODSelectResult> = Vec::new();
                    let mut i: usize = 0;
                    while i < 4
                        invariant
                            0 <= i <= 4,
                            self.valid(),
                            self.params() == spec_self,
                            tree_valid(*node, *location, spec_self.split_distances.len() as nat),
                            node.content == Node::WithGeometry(*geometry),
                            forall|j: int| 0 <= j < 4 ==> #[trigger] values@[j] == child_at(j),
                            results@.len() == i,
                            forall|j: int|
                                0 <= j < i ==> #[trigger] results@[j] == spec_self.spec_children(
                                    *node,
                                    *location,
                                    inside,
                                    4,
                                )[j].result,
                            self.result@ == old(self).result@ + emitted_of(
                                spec_self.spec_children(*node, *location, inside, i as int),
                            ),
                        decreases 4 - i,
                    {
                        proof {
                            lemma_children_prefix(spec_self, *node, *location, inside, i as int + 1, 4);
                            assert(spec_self.spec_children(*node, *location, inside, i as int + 1)
                                == spec_self.spec_children(*node, *location, inside, i as int).push(
                                spec_self.spec_children(*node, *location, inside, 4)[i as int]));
                        }
                        let ghost before = self.result@;
                        let r = match &node.children {
                            Some(children) => {
                                proof {
                                    assert(child_of(*node, i as int) == children[i as int]);
                                    lemma_child_valid(*node, *location, spec_self.split_distances.len() as nat, i as int);
                                    assert(tree_valid(
                                        child_of(*node, i as int),
                                        location.spec_split(child_at(i as int)),
                                        spec_self.split_distances.len() as nat,
                                    ));
                                }
                                let child_location = location.split(values[i]);
                                self.recurse(&children[i], &child_location, inside)
                            },
                            None => LODSelectResult::Undefined,
                        };
                        proof {
                            lemma_emitted_push(
                                spec_self.spec_children(*node, *location, inside, i as int),
                                spec_self.spec_children(*node, *location, inside, 4)[i as int],
                            );
                            assert(self.result@ =~= old(self).result@ + emitted_of(
                                spec_self.spec_children(*node, *location, inside, i as int + 1),
                            ));
                        }
                        results.push(r);
                        i = i + 1;
                    }
                    let mut all_not_selected = true;
                    let mut any_selected = false;
                    let mut k: usize = 0;
                    while k < 4
                        invariant
                            0 <= k <= 4,
                            results@.len() == 4,
                            all_not_selected == forall|j: int|
                                0 <= j < k ==> (#[trigger] results@[j]).spec_is_not_selected(),
                            any_selected == exists|j: int|
                                0 <= j < k && #[trigger] results@[j] == LODSelectResult::Selected,
                        decreases 4 - k,
                    {
                        if !results[k].is_not_selected() {
                            all_not_selected = false;
                        }
                        if results[k] == LODSelectResult::Selected {
                            any_selected = true;
                        }
                        k = k + 1;
                    }
                    assert(forall|j: int| 0 <= j < 4 ==> #[trigger] results@[j] == kids[j].result);
                    assert(self.result@ == old(self).result@ + emitted_of(kids));
                    assert(kids.len() == 4);
                    if all_not_selected {
                        assert forall|j: int|
                            0 <= j < 4 implies (#[trigger] kids[j]).result.spec_is_not_selected() by {
                            assert(results@[j] == kids[j].result);
                            assert(results@[j].spec_is_not_selected());
                        }
                        self.add_whole(geometry, location);
                        assert(self.result@ =~= old(self).result@ + sel.emitted);
                        return LODSelectResult::Selected;
                    }
                    let mut m: usize = 0;
                    while m < 4
                        invariant
                            0 <= m <= 4,
                            self.valid(),
                            self.params() == spec_self,
                            lod < self.split_distances@.len(),
                            lod == location.lod_level,
                            forall|j: int| 0 <= j < 4 ==> #[trigger] values@[j] == child_at(j),
                            results@.len() == 4,
                            forall|j: int| 0 <= j < 4 ==> #[trigger] results@[j] == kids[j].result,
                            self.result@ == old(self).result@ + emitted_of(kids) + spec_self.parts(
                                *geometry,
                                *location,
                                kids,
                                m as int,
                            ),
                        decreases 4 - m,
                    {
                        if results[m].is_not_selected() {
                            self.add_part(geometry, location, values[m]);
                        }
                        m = m + 1;
                        assert(self.result@ =~= old(self).result@ + emitted_of(kids)
                            + spec_self.parts(*geometry, *location, kids, m as int));
                    }
                    assert(!forall|j: int|
                        0 <= j < 4 ==> (#[trigger] kids[j]).result.spec_is_not_selected()) by {
                        let j = choose|j: int| 0 <= j < 4 && !(#[trigger] results@[j]).spec_is_not_selected();
                        assert(results@[j] == kids[j].result);
                    }
                    assert(any_selected == exists|j: int|
                        0 <= j < 4 && (#[trigger] kids[j]).result == LODSelectResult::Selected) by {
                        if any_selected {
                            let j = choose|j: int| 0 <= j < 4 && #[trigger] results@[j] == LODSelectResult::Selected;
                            assert(results@[j] == kids[j].result);
                        }
                        if exists|j: int| 0 <= j < 4 && (#[trigger] kids[j]).result == LODSelectResult::Selected {
                            let j = choose|j: int| 0 <= j < 4 && (#[trigger] kids[j]).result == LODSelectResult::Selected;
                            assert(results@[j] == kids[j].result);
                        }
                    }
                    assert(self.result@ =~= old(self).result@ + sel.emitted);
                    if any_selected {
                        LODSelectResult::Selected
                    } else {
                        LODSelectResult::OutOfFrustum
                    }
                } else {
                    self.add_whole(geometry, location);
                    assert(self.result@ =~= old(self).result@ + sel.emitted);
                    LODSelectResult::Selected
                }
            },
        }
    }
}

proof fn lemma_parts_contain(p: SelectParams, g: NodeGeometry, loc: PatchLocation, kids: Seq<Selection>, n: int, i: int)
    requires
        0 <= i < n <= 4,
        kids[i].result.spec_is_not_selected(),
    ensures
        p.parts(g, loc, kids, n).contains(p.contribution(g, loc, VisibleNodePart::Child(child_at(i)))),
    decreases n,
{
    let c = p.contribution(g, loc, VisibleNodePart::Child(child_at(i)));
    if i == n - 1 {
        let prev = p.parts(g, loc, kids, n - 1);
        assert(p.parts(g, loc, kids, n) == prev.push(c));
        assert(prev.push(c)[prev.len() as int] == c);
    } else {
        lemma_parts_contain(p, g, loc, kids, n - 1, i);
        let prev = p.parts(g, loc, kids, n - 1);
        let j = choose|j: int| 0 <= j < prev.len() && prev[j] == c;
        if kids[n - 1].result.spec_is_not_selected() {
            assert(p.parts(g, loc, kids, n)[j] == c);
        }
    }
}

/// A selected node leaves no hole: either it is drawn whole, or each of its quadrants is
/// drawn by its selected child, lies out of view (culled), or is drawn from this node.
pub proof fn lemma_selection_covers(
    p: SelectParams,
    t: QuadTree<Node>,
    loc: PatchLocation,
    parent_inside: bool,
)
    requires
        p.valid(),
        tree_valid(t, loc, p.split_distances.len() as nat),
        p.spec_select(t, loc, parent_inside).result == LODSelectResult::Selected,
    ensures
        t.content is WithGeometry,
        ({
            let g = t.content->WithGeometry_0;
            let s = p.spec_select(t, loc, parent_inside);
            let inside = parent_inside || p.frustum_planet.classify_box(g.aabb) == Containment::Inside;
            let kids = p.spec_children(t, loc, inside, 4);
            s.emitted.contains(p.contribution(g, loc, VisibleNodePart::Whole)) || forall|i: int|
                0 <= i < 4 ==> (#[trigger] kids[i]).result == LODSelectResult::Selected || kids[i].result
                    == LODSelectResult::OutOfFrustum || s.emitted.contains(
                    p.contribution(g, loc, VisibleNodePart::Child(child_at(i))),
                )
        }),
{
    let g = t.content->WithGeometry_0;
    let s = p.spec_select(t, loc, parent_inside);
    let inside = parent_inside || p.frustum_planet.classify_box(g.aabb) == Containment::Inside;
    let kids = p.spec_children(t, loc, inside, 4);
    let whole = p.contribution(g, loc, VisibleNodePart::Whole);
    let containment = if parent_inside { Containment::Inside } else { p.frustum_planet.classify_box(g.aabb) };
    assert((containment == Containment::Inside) == inside);
    let lod = loc.lod_level as int;
    let sd = p.split_distances;
    let pos = p.frustum_planet.position;
    if lod < sd.len() && spec_in_range(g.aabb, pos, sd[lod] as int) {
        lemma_children_prefix(p, t, loc, inside, 4, 4);
        if none_selected(kids) {
            let below = emitted_of(kids);
            assert(s.emitted == below.push(whole));
            assert(s.emitted[below.len() as int] == whole);
        } else {
            let below = emitted_of(kids);
            let parts = p.parts(g, loc, kids, 4);
            assert(s.emitted == below + parts);
            assert forall|i: int|
                0 <= i < 4 implies (#[trigger] kids[i]).result == LODSelectResult::Selected || kids[i].result
                    == LODSelectResult::OutOfFrustum || s.emitted.contains(
                    p.contribution(g, loc, VisibleNodePart::Child(child_at(i))),
                ) by {
                if kids[i].result.spec_is_not_selected() {
                    lemma_parts_contain(p, g, loc, kids, 4, i);
                    let c = p.contribution(g, loc, VisibleNodePart::Child(child_at(i)));
                    let j = choose|j: int| 0 <= j < parts.len() && parts[j] == c;
                    assert(s.emitted[below.len() + j] == c);
                }
            }
        }
    } else {
        assert(s.emitted == seq![whole]);
        assert(s.emitted[0] == whole);
    }
}

/// The selections of the first `n` children are a prefix of those of the first `m`.
proof fn lemma_children_prefix(
    h: SelectParams,
    t: QuadTree<Node>,
    loc: PatchLocation,
    inside: bool,
    n: int,
    m: int,
)
    requires
        0 <= n <= m <= 4,
    ensures
        h.spec_children(t, loc, inside, n) == h.spec_children(t, loc, inside, m).subrange(0, n),
        h.spec_children(t, loc, inside, m).len() == m,
    decreases m,
{
    if m > 0 {
        if n < m {
            lemma_children_prefix(h, t, loc, inside, n, m - 1);
            assert(h.spec_children(t, loc, inside, m - 1) =~= h.spec_children(t, loc, inside, m).subrange(0, m - 1));
            assert(h.spec_children(t, loc, inside, n) =~= h.spec_children(t, loc, inside, m).subrange(0, n));
        } else {
            lemma_children_prefix(h, t, loc, inside, n - 1, m - 1);
            assert(h.spec_children(t, loc, inside, n) =~= h.spec_children(t, loc, inside, m).subrange(0, n));
        }
    } else {
        assert(h.spec_children(t, loc, inside, n) =~= h.spec_children(t, loc, inside, m).subrange(0, n));
    }
}

} // verus!
