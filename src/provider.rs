use vstd::prelude::*;
use crate::patch::PatchLocation;

verus! {

/// Added to the priority of a patch that lies in the view.
pub const IN_FRUSTUM_PRIORITY: usize = 512;

/// The priority of a pending patch at `lod_level`: the level, plus `IN_FRUSTUM_PRIORITY` when
/// it lies in the view. Zero means cancelled; workers take the highest priority first.
pub open spec fn spec_priority(lod_level: nat, in_frustum: bool) -> nat {
    lod_level + if in_frustum { IN_FRUSTUM_PRIORITY as nat } else { 0 }
}

/// The priority of a pending patch at `lod_level`.
pub fn encode_priority(lod_level: usize, in_frustum: bool) -> (r: usize)
    requires
        lod_level < IN_FRUSTUM_PRIORITY,
    ensures
        r == spec_priority(lod_level as nat, in_frustum),
{
    if in_frustum {
        lod_level + IN_FRUSTUM_PRIORITY
    } else {
        lod_level
    }
}

/// The priority a request gets when it is queued: one more than its level, so that it is never
/// zero.
pub open spec fn spec_initial_priority(lod_level: nat) -> nat {
    lod_level + 1
}

/// A finer patch in view is always wanted more urgently (is taken before) a coarser patch out
/// of view; and no valid priority of a pending patch reads as cancelled.
pub proof fn lemma_priority_urgency(fine: nat, coarse: nat)
    requires
        coarse < fine < IN_FRUSTUM_PRIORITY,
    ensures
        spec_priority(fine, true) > spec_priority(coarse, false),
        spec_priority(fine, true) > 0,
        spec_priority(fine, false) > 0,
{
}

/// A request waiting in the provider's queue, with its priority as last read.
#[derive(Copy, Clone, Debug, PartialEq, Eq, Structural)]
pub struct QueuedRequest {
    pub id: usize,
    pub priority: usize,
    pub location: PatchLocation,
}

/// The requests of `q` that are not cancelled, in order.
pub open spec fn live(q: Seq<QueuedRequest>) -> Seq<QueuedRequest>
    decreases q.len(),
{
    if q.len() == 0 {
        Seq::empty()
    } else if q.last().priority == 0 {
        live(q.drop_last())
    } else {
        live(q.drop_last()).push(q.last())
    }
}

/// Position `k` holds the highest priority of `q`, and the last one among equals.
pub open spec fn is_next(q: Seq<QueuedRequest>, k: int) -> bool {
    &&& 0 <= k < q.len()
    &&& forall|j: int| 0 <= j < q.len() ==> (#[trigger] q[j]).priority <= q[k].priority
    &&& forall|j: int| k < j < q.len() ==> (#[trigger] q[j]).priority < q[k].priority
}

/// Drops the cancelled requests from the queue and takes out the one with the highest
/// priority (the latest queued among equals). `None` when nothing is left.
pub fn take_next(queue: &mut Vec<QueuedRequest>) -> (r: Option<QueuedRequest>)
    ensures
        r is None <==> live(old(queue)@).len() == 0,
        r is None ==> final(queue)@.len() == 0,
        r matches Some(req) ==> exists|k: int|
            is_next(live(old(queue)@), k) && req == live(old(queue)@)[k] && final(queue)@ == live(
                old(queue)@,
            ).remove(k),
{
    let ghost q0 = queue@;
    let mut kept: Vec<QueuedRequest> = Vec::new();
    let mut i: usize = 0;
    while i < queue.len()
        invariant
            0 <= i <= queue@.len(),
            queue@ == q0,
            kept@ == live(q0.subrange(0, i as int)),
        decreases queue@.len() - i,
    {
        let req = queue[i];
        proof {
            assert(q0.subrange(0, i as int + 1).drop_last() =~= q0.subrange(0, i as int));
        }
        if req.priority != 0 {
            kept.push(req);
        }
        i = i + 1;
    }
    assert(q0.subrange(0, q0.len() as int) =~= q0);
    if kept.len() == 0 {
        *queue = kept;
        return None;
    }
    let mut best: usize = 0;
    let mut j: usize = 1;
    while j < kept.len()
        invariant
            0 <= best < j <= kept@.len(),
            forall|m: int| 0 <= m < j ==> (#[trigger] kept@[m]).priority <= kept@[best as int].priority,
            forall|m: int| best < m < j ==> (#[trigger] kept@[m]).priority < kept@[best as int].priority,
        decreases kept@.len() - j,
    {
        if kept[j].priority >= kept[best].priority {
            best = j;
        }
        j = j + 1;
    }
    let req = kept.remove(best);
    *queue = kept;
    assert(is_next(live(q0), best as int));
    Some(req)
}

} // verus!
