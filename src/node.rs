use vstd::prelude::*;
use crate::culling::Aabb;
use crate::patch::{PatchLocation, MAX_LOD_LEVEL};
use crate::quad_tree::{QuadTree, child_at};

verus! {

/// A slot of the node backing store.
#[derive(Copy, Clone, Debug, PartialEq, Eq, Structural)]
pub struct NodeId(pub usize);

/// The urgency with which a pending patch is wanted; zero means that the request is cancelled.
#[derive(Copy, Clone, Debug, PartialEq, Eq, Structural)]
pub struct Token {
    pub priority: usize,
}

/// What a resident node keeps: its slot in the backing store and its bounding box.
#[derive(Copy, Clone, Debug, PartialEq, Eq, Structural)]
pub struct NodeGeometry {
    pub node_id: NodeId,
    pub aabb: Aabb,
}

/// A node of a face's quad tree: either waiting for its geometry under a request id, or
/// resident with its geometry in the backing store.
#[derive(Copy, Clone, Debug, PartialEq, Eq, Structural)]
pub enum Node {
    Pending(usize, Token),
    WithGeometry(NodeGeometry),
}

/// The children of a node, each with the location of its quadrant.
pub open spec fn child_of(t: QuadTree<Node>, i: int) -> QuadTree<Node>
    recommends
        t.children is Some,
{
    t.children.unwrap()[i]
}

/// A tree of nodes rooted at `loc`, no deeper than `max_lod`: every location is valid, every
/// box is valid, and only resident nodes above level `max_lod` have children.
pub open spec fn tree_valid(t: QuadTree<Node>, loc: PatchLocation, max_lod: nat) -> bool
    decreases MAX_LOD_LEVEL - loc.lod_level,
{
    &&& loc.valid()
    &&& loc.lod_level <= max_lod
    &&& (t.content matches Node::WithGeometry(g) ==> g.aabb.valid())
    &&& (t.children is Some ==> {
        &&& t.content is WithGeometry
        &&& loc.lod_level < max_lod
        &&& loc.lod_level < MAX_LOD_LEVEL
        &&& forall|i: int|
            0 <= i < 4 ==> tree_valid(
                #[trigger] child_of(t, i),
                loc.spec_split(child_at(i)),
                max_lod,
            )
    })
}

/// A child of a valid tree is a valid tree at its quadrant, one level deeper.
pub proof fn lemma_child_valid(t: QuadTree<Node>, loc: PatchLocation, max_lod: nat, i: int)
    requires
        tree_valid(t, loc, max_lod),
        t.children is Some,
        0 <= i < 4,
    ensures
        tree_valid(child_of(t, i), loc.spec_split(child_at(i)), max_lod),
        loc.lod_level < max_lod,
        loc.lod_level < MAX_LOD_LEVEL,
{
}

} // verus!
