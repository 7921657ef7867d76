//! A dense store: values held under small integer ids.

use vstd::prelude::*;

verus! {

/// Values stored under ids. An id holds at most one value at a time; storing,
/// reading and removing a value each take constant time but for growth.
pub struct Store<T> {
    entries: Vec<Option<T>>,
}

impl<T> Store<T> {
    /// The stored values by id.
    pub closed spec fn view(&self) -> Map<usize, T> {
        Map::new(
            |id: usize| id < self.entries@.len() && self.entries@[id as int] is Some,
            |id: usize| self.entries@[id as int]->0,
        )
    }

    /// A number above every id in use.
    pub closed spec fn bound(&self) -> nat {
        self.entries@.len()
    }

    /// Every id in use is below the bound.
    pub proof fn lemma_bound(&self)
        ensures
            forall|id: usize| #[trigger] self@.contains_key(id) ==> id < self.bound(),
    {
    }

    /// An empty store.
    pub fn new() -> (store: Self)
        ensures
            store@ == Map::<usize, T>::empty(),
    {
        let store = Store { entries: Vec::new() };
        assert(store@ =~= Map::<usize, T>::empty());
        store
    }

    /// Whether a value is stored under `id`.
    pub fn contains(&self, id: usize) -> (present: bool)
        ensures
            present == self@.contains_key(id),
    {
        id < self.entries.len() && self.entries[id].is_some()
    }

    /// The value stored under `id`, if any.
    pub fn get(&self, id: usize) -> (value: Option<&T>)
        ensures
            value == (if self@.contains_key(id) { Some(&self@[id]) } else { None }),
    {
        if id < self.entries.len() {
            self.entries[id].as_ref()
        } else {
            None
        }
    }

    /// The value stored under `id`, if any, for change in place.
    pub fn get_mut(&mut self, id: usize) -> (value: Option<&mut T>)
        ensures
            old(self)@.contains_key(id) ==> value is Some && *value->0 == old(self)@[id]
                && final(self)@ == old(self)@.insert(id, *final(value->0)),
            !old(self)@.contains_key(id) ==> value is None && final(self)@ == old(self)@,
    {
        if id < self.entries.len() {
            self.entries[id].as_mut()
        } else {
            None
        }
    }

    /// Stores `value` under `id` and returns what was stored there before.
    pub fn insert(&mut self, id: usize, value: T) -> (previous: Option<T>)
        requires
            id < usize::MAX,
        ensures
            final(self)@ == old(self)@.insert(id, value),
            previous == (if old(self)@.contains_key(id) { Some(old(self)@[id]) } else { None }),
    {
        while self.entries.len() <= id
            invariant
                self@ == old(self)@,
                id < usize::MAX,
            decreases id + 1 - self.entries@.len(),
        {
            let ghost before = self@;
            self.entries.push(None);
            assert(self@ =~= before);
        }
        let mut slot = Some(value);
        std::mem::swap(&mut slot, &mut self.entries[id]);
        assert(self@ =~= old(self)@.insert(id, value));
        slot
    }

    /// Takes out the value stored under `id`, if any.
    pub fn remove(&mut self, id: usize) -> (value: Option<T>)
        ensures
            final(self)@ == old(self)@.remove(id),
            value == (if old(self)@.contains_key(id) { Some(old(self)@[id]) } else { None }),
    {
        if id < self.entries.len() {
            let value = self.entries[id].take();
            assert(self@ =~= old(self)@.remove(id));
            value
        } else {
            assert(self@ =~= old(self)@.remove(id));
            None
        }
    }
}

} // verus!
