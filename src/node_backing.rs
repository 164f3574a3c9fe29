use vstd::prelude::*;
use crate::constants::{MAX_PATCH_COUNT, VERTICES_PER_PATCH};
use crate::id_arena::{IdArena, IdGenerator, SimpleIdArena};
use crate::node::NodeId;

verus! {

/// Hands out the slots of the backing store: one per resident patch, each owning a slice of the
/// vertex buffer and a layer of each texture atlas.
pub struct NodeBacking {
    id_generator: SimpleIdArena,
}

impl NodeBacking {
    pub closed spec fn wf(self) -> bool {
        self.id_generator.wf() && self.id_generator.limit() == MAX_PATCH_COUNT
    }

    /// The slots in use.
    pub closed spec fn slots(self) -> Set<usize> {
        self.id_generator.ids()
    }

    /// The slot that the next `acquire` hands out, if any: the one released last, else the
    /// lowest slot never used.
    pub closed spec fn next_slot(self) -> Option<usize> {
        self.id_generator.next_id()
    }

    /// The number of slots in use.
    pub closed spec fn spec_len(self) -> nat {
        self.id_generator.spec_len()
    }

    /// No more slots are in use than there are.
    pub proof fn lemma_len_bounded(self)
        requires
            self.wf(),
        ensures
            self.spec_len() <= MAX_PATCH_COUNT,
    {
        self.id_generator.lemma_ids_below_capacity();
    }

    pub fn new() -> (r: NodeBacking)
        ensures
            r.wf(),
            r.slots() == Set::<usize>::empty(),
            r.spec_len() == 0,
            r.next_slot() == Some(0usize),
    {
        NodeBacking { id_generator: SimpleIdArena::with_capacity(MAX_PATCH_COUNT) }
    }

    /// A free slot, or `None` when all `MAX_PATCH_COUNT` slots are in use.
    pub fn acquire(&mut self) -> (r: Option<NodeId>)
        requires
            old(self).wf(),
        ensures
            final(self).wf(),
            r is None <==> old(self).spec_len() == MAX_PATCH_COUNT,
            r == (match old(self).next_slot() {
                Some(i) => Some(NodeId(i)),
                None => None,
            }),
            r is None ==> final(self).slots() == old(self).slots() && final(self).spec_len() == old(self).spec_len(),
            r matches Some(id) ==> id.0 < MAX_PATCH_COUNT && !old(self).slots().contains(id.0)
                && final(self).slots() == old(self).slots().insert(id.0) && final(self).spec_len()
                == old(self).spec_len() + 1,
    {
        let r = self.id_generator.acquire();
        proof {
            self.id_generator.lemma_ids_below_capacity();
        }
        match r {
            Some(id) => {
                assert(self.id_generator.ids().contains(id));
                Some(NodeId(id))
            },
            None => None,
        }
    }

    /// Returns a slot for reuse.
    pub fn release(&mut self, id: NodeId)
        requires
            old(self).wf(),
            old(self).slots().contains(id.0),
        ensures
            final(self).wf(),
            final(self).slots() == old(self).slots().remove(id.0),
            final(self).next_slot() == Some(id.0),
            final(self).spec_len() + 1 == old(self).spec_len(),
    {
        self.id_generator.release(id.0);
    }

    /// The number of slots in use.
    pub fn len(&self) -> (r: usize)
        requires
            self.wf(),
        ensures
            r == self.spec_len(),
            r <= MAX_PATCH_COUNT,
    {
        proof {
            self.id_generator.lemma_ids_below_capacity();
        }
        self.id_generator.len()
    }

    /// The number of slots there are.
    pub fn capacity(&self) -> (r: usize)
        requires
            self.wf(),
        ensures
            r == MAX_PATCH_COUNT,
    {
        self.id_generator.capacity()
    }

    /// The layer of the texture atlases that belongs to a slot.
    pub fn atlas_index(&self, id: NodeId) -> (r: u32)
        requires
            id.0 < MAX_PATCH_COUNT,
        ensures
            r == id.0,
    {
        id.0 as u32
    }

    /// The first vertex of a slot's slice of the vertex buffer.
    pub fn base_vertex(&self, id: NodeId) -> (r: u32)
        requires
            id.0 < MAX_PATCH_COUNT,
        ensures
            r == id.0 * (VERTICES_PER_PATCH * VERTICES_PER_PATCH),
    {
        (id.0 * (VERTICES_PER_PATCH * VERTICES_PER_PATCH)) as u32
    }
}

} // verus!
