use vstd::prelude::*;
use vstd::set_lib::{set_int_range, lemma_int_range, lemma_len_subset};

verus! {

/// Distinct values below `n` number at most `n`.
proof fn lemma_distinct_below(s: Seq<usize>, n: usize)
    requires
        s.no_duplicates(),
        forall|i: int| 0 <= i < s.len() ==> #[trigger] s[i] < n,
    ensures
        s.len() <= n,
{
    let f = |x: usize| x as int;
    assert(vstd::relations::injective(f));
    s.lemma_no_duplicates_injective(f);
    let t = s.map_values(f);
    t.unique_seq_to_set();
    lemma_int_range(0, n as int);
    assert forall|v: int| t.to_set().contains(v) implies set_int_range(0, n as int).contains(v) by {
        let i = choose|i: int| 0 <= i < t.len() && t[i] == v;
        assert(s[i] < n);
    }
    lemma_len_subset(t.to_set(), set_int_range(0, n as int));
}

/// Hands out ids and takes them back.
pub trait IdGenerator {
    type Id;

    /// The generator's internal invariant.
    spec fn wf(&self) -> bool;

    /// The ids handed out and not yet released.
    spec fn ids(&self) -> Set<Self::Id>;

    /// The number of ids handed out and not yet released.
    spec fn spec_len(&self) -> nat;

    /// Whether no further id can be handed out.
    spec fn exhausted(&self) -> bool;

    /// The bound on the ids out at once, which does not change.
    spec fn limit(&self) -> nat;

    /// The id that the next `acquire` hands out, if any.
    spec fn next_id(&self) -> Option<Self::Id>;

    /// Acquires a new id
    fn acquire(&mut self) -> (r: Option<Self::Id>)
        requires
            old(self).wf(),
        ensures
            final(self).wf(),
            final(self).limit() == old(self).limit(),
            r == old(self).next_id(),
            r is None <==> old(self).exhausted(),
            r is None ==> final(self).ids() == old(self).ids() && final(self).spec_len()
                == old(self).spec_len(),
            r matches Some(id) ==> !old(self).ids().contains(id) && final(self).ids() == old(self).ids().insert(id) && final(self).spec_len() == old(self).spec_len() + 1,
    ;

    /// Releases the specified Id
    fn release(&mut self, id: Self::Id)
        requires
            old(self).wf(),
            old(self).ids().contains(id),
        ensures
            final(self).wf(),
            final(self).limit() == old(self).limit(),
            final(self).next_id() == Some(id),
            final(self).ids() == old(self).ids().remove(id),
            final(self).spec_len() + 1 == old(self).spec_len(),
            !final(self).exhausted(),
    ;

    /// Returns the number of Ids allocated
    fn len(&self) -> (r: usize)
        requires
            self.wf(),
        ensures
            r == self.spec_len(),
    ;
}

/// An id generator with a fixed upper bound on the ids it has out at once.
pub trait IdArena: IdGenerator {
    spec fn spec_capacity(&self) -> nat;

    /// Returns the maximum capacity of the arena
    fn capacity(&self) -> (r: usize)
        ensures
            r == self.spec_capacity(),
    ;
}

/// Hands out the ids `0..capacity`, reusing released ones first (most recently released first).
pub struct SimpleIdArena {
    counter: usize,
    free: Vec<usize>,
    capacity: usize,
}

impl SimpleIdArena {
    /// The number of ids ever handed out that were not yet released, each below the capacity.
    pub closed spec fn arena_wf(self) -> bool {
        &&& self.counter <= self.capacity
        &&& self.free@.len() <= self.counter
        &&& forall|i: int| 0 <= i < self.free@.len() ==> #[trigger] self.free@[i] < self.counter
        &&& self.free@.no_duplicates()
    }

    pub closed spec fn allocated(self) -> Set<usize> {
        Set::new(|i: usize| i < self.counter && !self.free@.contains(i))
    }

    pub closed spec fn count(self) -> nat {
        (self.counter - self.free@.len()) as nat
    }

    /// A released id if there is one (the one released last), else the lowest id never
    /// handed out, if below the capacity.
    pub closed spec fn upcoming(self) -> Option<usize> {
        if self.free@.len() > 0 {
            Some(self.free@.last())
        } else if self.counter < self.capacity {
            Some(self.counter)
        } else {
            None
        }
    }

    pub closed spec fn cap(self) -> nat {
        self.capacity as nat
    }

    /// Every id out lies below the capacity.
    pub proof fn lemma_ids_below_capacity(self)
        requires
            self.arena_wf(),
        ensures
            forall|id: usize| #[trigger] self.allocated().contains(id) ==> id < self.cap(),
            self.count() <= self.cap(),
    {
    }

    pub fn with_capacity(capacity: usize) -> (r: SimpleIdArena)
        ensures
            r.wf(),
            r.ids() == Set::<usize>::empty(),
            r.spec_len() == 0,
            r.spec_capacity() == capacity,
            r.limit() == capacity,
            r.next_id() == (if capacity > 0 {
                Some(0usize)
            } else {
                None
            }),
    {
        let r = SimpleIdArena { counter: 0, free: Vec::new(), capacity };
        assert(r.allocated() =~= Set::<usize>::empty());
        r
    }
}

impl IdGenerator for SimpleIdArena {
    type Id = usize;

    open spec fn wf(&self) -> bool {
        self.arena_wf()
    }

    open spec fn ids(&self) -> Set<usize> {
        self.allocated()
    }

    open spec fn spec_len(&self) -> nat {
        self.count()
    }

    open spec fn exhausted(&self) -> bool {
        self.count() == self.cap()
    }

    open spec fn limit(&self) -> nat {
        self.cap()
    }

    open spec fn next_id(&self) -> Option<usize> {
        self.upcoming()
    }

    fn acquire(&mut self) -> (r: Option<usize>) {
        match self.free.pop() {
            Some(id) => {
                proof {
                    let f = old(self).free@;
                    assert(f == self.free@.push(id));
                    assert(f[f.len() - 1] == id);
                    assert forall|i: int| 0 <= i < self.free@.len() implies #[trigger] self.free@[i]
                        != id by {
                        assert(f[i] == self.free@[i]);
                    }
                    assert forall|i: int| 0 <= i < self.free@.len() implies #[trigger] self.free@[i]
                        < self.counter by {
                        assert(f[i] == self.free@[i]);
                    }
                    assert(self.allocated() =~= old(self).allocated().insert(id));
                }
                Some(id)
            },
            None => {
                if self.counter >= self.capacity {
                    None
                } else {
                    let id = self.counter;
                    self.counter = self.counter + 1;
                    assert(self.allocated() =~= old(self).allocated().insert(id));
                    Some(id)
                }
            },
        }
    }

    fn release(&mut self, id: usize) {
        self.free.push(id);
        proof {
            let f = old(self).free@;
            assert(self.free@ == f.push(id));
            assert forall|i: int| 0 <= i < self.free@.len() implies #[trigger] self.free@[i]
                < self.counter by {
                if i < f.len() {
                    assert(f[i] == self.free@[i]);
                }
            }
            assert(self.free@.no_duplicates()) by {
                assert forall|i: int, j: int|
                    0 <= i < self.free@.len() && 0 <= j < self.free@.len() && i != j implies self.free@[i]
                    != self.free@[j] by {
                    if i < f.len() && j < f.len() {
                        assert(f[i] == self.free@[i] && f[j] == self.free@[j]);
                    } else if i < f.len() {
                        assert(f.contains(f[i]));
                    } else {
                        assert(f.contains(f[j]));
                    }
                }
            }
            lemma_distinct_below(self.free@, self.counter);
            assert forall|v: usize| self.free@.contains(v) <==> (f.contains(v) || v == id) by {
                if self.free@.contains(v) {
                    let i = choose|i: int| 0 <= i < self.free@.len() && self.free@[i] == v;
                    if i < f.len() {
                        assert(f[i] == v);
                    }
                }
                if f.contains(v) {
                    let i = choose|i: int| 0 <= i < f.len() && f[i] == v;
                    assert(self.free@[i] == v);
                }
                if v == id {
                    assert(self.free@[f.len() as int] == v);
                }
            }
            assert(self.allocated() =~= old(self).allocated().remove(id));
        }
    }

    fn len(&self) -> (r: usize) {
        self.counter - self.free.len()
    }
}

impl IdArena for SimpleIdArena {
    open spec fn spec_capacity(&self) -> nat {
        self.cap()
    }

    fn capacity(&self) -> (r: usize) {
        self.capacity
    }
}

} // verus!
