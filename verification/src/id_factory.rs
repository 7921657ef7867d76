//! An allocator of small integer ids that hands returned ids out again.

use vstd::prelude::*;

verus! {

/// What an [`IdFactory`] holds: the ids below `next` have been handed out at
/// least once, and those in `free` have come back since.
pub struct IdFactoryView {
    pub next: usize,
    pub free: Seq<usize>,
}

impl IdFactoryView {
    /// Whether `id` is handed out and has not come back.
    pub open spec fn is_live(self, id: usize) -> bool {
        id < self.next && !self.free.contains(id)
    }

    /// The ids that are handed out and have not come back.
    pub open spec fn live(self) -> Set<usize> {
        Set::new(|id: usize| self.is_live(id))
    }

    /// The allocator after it has answered a request: the answer is no
    /// longer to be had. Nothing changes where no id was left.
    pub open spec fn taken(self) -> IdFactoryView {
        if self.free.len() > 0 {
            IdFactoryView { free: self.free.drop_last(), ..self }
        } else if self.next < usize::MAX {
            IdFactoryView { next: (self.next + 1) as usize, ..self }
        } else {
            self
        }
    }

    /// The allocator after `id` came back.
    pub open spec fn returned(self, id: usize) -> IdFactoryView {
        IdFactoryView { free: self.free.push(id), ..self }
    }

    /// The id that the next request is answered with, if one is left: the id
    /// that came back last, or else the smallest id never handed out.
    pub open spec fn upcoming(self) -> Option<usize> {
        if self.free.len() > 0 {
            Some(self.free.last())
        } else if self.next < usize::MAX {
            Some(self.next)
        } else {
            None
        }
    }
}

/// Hands out ids, each to one holder at a time. An id that its holder gives
/// back is handed out again before a new one is made.
pub struct IdFactory {
    next_id: usize,
    free_ids: Vec<usize>,
}

impl IdFactory {
    pub closed spec fn view(&self) -> IdFactoryView {
        IdFactoryView { next: self.next_id, free: self.free_ids@ }
    }

    /// The ids that came back are distinct and were handed out before.
    pub closed spec fn wf(&self) -> bool {
        &&& self.free_ids@.no_duplicates()
        &&& forall|i: int| 0 <= i < self.free_ids@.len() ==> #[trigger] self.free_ids@[i] < self.next_id
    }

    /// A factory that has handed out nothing. Its first id is 0.
    pub fn new() -> (factory: Self)
        ensures
            factory.wf(),
            factory@.next == 0,
            factory@.free == Seq::<usize>::empty(),
            factory@.live() == Set::<usize>::empty(),
    {
        let factory = IdFactory { next_id: 0, free_ids: Vec::new() };
        assert(factory@.live() =~= Set::<usize>::empty());
        factory
    }

    /// A factory that has handed out nothing and whose first id is `first`.
    pub fn starting_at(first: usize) -> (factory: Self)
        ensures
            factory.wf(),
            factory@.next == first,
            factory@.free == Seq::<usize>::empty(),
    {
        IdFactory { next_id: first, free_ids: Vec::new() }
    }

    /// Hands out an id that is not live: the one that came back last, or else
    /// the next new one. `None` when no id is left; nothing changes then.
    pub fn get(&mut self) -> (id: Option<usize>)
        requires
            old(self).wf(),
        ensures
            final(self).wf(),
            id == old(self)@.upcoming(),
            final(self)@ == old(self)@.taken(),
            id matches Some(i) ==> !old(self)@.is_live(i) && i < usize::MAX && final(self)@.live() == old(self)@.live().insert(i),
    {
        if self.free_ids.len() > 0 {
            let id = self.free_ids.pop().unwrap();
            proof {
                let before = old(self)@;
                let after = self@;
                assert(before.free.last() == id);
                assert(after.free =~= before.free.drop_last());
                assert forall|other: usize| after.is_live(other) == (before.is_live(other) || other == id) by {
                    if other < before.next {
                        if before.free.contains(other) && other != id {
                            let k = choose|k: int| 0 <= k < before.free.len() && before.free[k] == other;
                            assert(after.free[k] == other);
                        }
                        if after.free.contains(other) {
                            let k = choose|k: int| 0 <= k < after.free.len() && after.free[k] == other;
                            assert(before.free[k] == other);
                        }
                    }
                }
                assert(after.live() =~= before.live().insert(id));
            }
            Some(id)
        } else if self.next_id < usize::MAX {
            let id = self.next_id;
            self.next_id = id + 1;
            proof {
                assert(self@.live() =~= old(self)@.live().insert(id));
            }
            Some(id)
        } else {
            None
        }
    }

    /// Whether an id is left to hand out.
    pub fn has_next(&self) -> (left: bool)
        ensures
            left == self@.upcoming() is Some,
    {
        self.free_ids.len() > 0 || self.next_id < usize::MAX
    }

    /// Takes back `id`, which its holder no longer uses.
    pub fn reuse(&mut self, id: usize)
        requires
            old(self).wf(),
            old(self)@.is_live(id),
        ensures
            final(self).wf(),
            final(self)@ == old(self)@.returned(id),
            final(self)@.live() == old(self)@.live().remove(id),
            final(self)@.upcoming() == Some(id),
    {
        self.free_ids.push(id);
        proof {
            let before = old(self)@;
            let after = self@;
            assert forall|other: usize| after.is_live(other) == (before.is_live(other) && other != id) by {
                if before.free.contains(other) {
                    let k = choose|k: int| 0 <= k < before.free.len() && before.free[k] == other;
                    assert(after.free[k] == other);
                }
                if other == id {
                    assert(after.free[after.free.len() - 1] == id);
                }
            }
            assert(after.live() =~= before.live().remove(id));
        }
    }

    /// Whether `id` is handed out and has not come back.
    pub fn is_live(&self, id: usize) -> (live: bool)
        ensures
            live == self@.is_live(id),
    {
        if id >= self.next_id {
            return false;
        }
        let mut i: usize = 0;
        while i < self.free_ids.len()
            invariant
                i <= self.free_ids@.len(),
                forall|k: int| 0 <= k < i ==> self.free_ids@[k] != id,
            decreases self.free_ids@.len() - i,
        {
            if self.free_ids[i] == id {
                return false;
            }
            i += 1;
        }
        true
    }
}

} // verus!
