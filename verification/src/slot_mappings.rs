//! The table that keeps slot indices stable from one run of a task to the
//! next.

use vstd::prelude::*;

verus! {

/// One entry of the table: the slot index that the value emitted under
/// `token` was given.
#[derive(Clone, Copy, Debug, PartialEq, Eq, Structural)]
pub struct SlotMapping {
    pub token: u64,
    pub index: usize,
}

/// Whether some entry of `entries` names the slot at `index`.
pub open spec fn maps_index(entries: Seq<SlotMapping>, index: usize) -> bool {
    exists|k: int| 0 <= k < entries.len() && #[trigger] entries[k].index == index
}

/// The index that the first entry for `token` names, if there is one.
pub open spec fn lookup(entries: Seq<SlotMapping>, token: u64) -> Option<usize>
    decreases entries.len(),
{
    if entries.len() == 0 {
        None
    } else if entries[0].token == token {
        Some(entries[0].index)
    } else {
        lookup(entries.drop_first(), token)
    }
}

/// The slot indices that a task's body used, by the token under which it
/// emitted each value.
#[derive(Debug)]
pub struct SlotMappings {
    entries: Vec<SlotMapping>,
}

impl View for SlotMappings {
    type V = Seq<SlotMapping>;

    closed spec fn view(&self) -> Seq<SlotMapping> {
        self.entries@
    }
}

impl SlotMappings {
    /// An empty table.
    pub fn new() -> (table: Self)
        ensures
            table@ == Seq::<SlotMapping>::empty(),
    {
        SlotMappings { entries: Vec::new() }
    }

    /// The number of entries.
    pub fn len(&self) -> (n: usize)
        ensures
            n == self@.len(),
    {
        self.entries.len()
    }

    /// The entry at place `i`.
    pub fn get(&self, i: usize) -> (entry: SlotMapping)
        requires
            i < self@.len(),
        ensures
            entry == self@[i as int],
    {
        self.entries[i]
    }

    /// Adds an entry: the value emitted under `token` has the slot at `index`.
    pub fn record(&mut self, token: u64, index: usize)
        ensures
            final(self)@ == old(self)@.push(SlotMapping { token, index }),
    {
        self.entries.push(SlotMapping { token, index });
    }

    /// The index that the first entry for `token` names, if there is one.
    pub fn find(&self, token: u64) -> (index: Option<usize>)
        ensures
            index == lookup(self@, token),
    {
        let mut i: usize = 0;
        assert(self.entries@.skip(0) =~= self.entries@);
        while i < self.entries.len()
            invariant
                i <= self.entries@.len(),
                lookup(self.entries@, token) == lookup(self.entries@.skip(i as int), token),
            decreases self.entries@.len() - i,
        {
            if self.entries[i].token == token {
                assert(self.entries@.skip(i as int)[0] == self.entries@[i as int]);
                return Some(self.entries[i].index);
            }
            assert(self.entries@.skip(i as int)[0] == self.entries@[i as int]);
            assert(self.entries@.skip(i as int).drop_first() =~= self.entries@.skip(i + 1));
            i += 1;
        }
        assert(self.entries@.skip(i as int).len() == 0);
        None
    }

    /// Whether some entry names the slot at `index`.
    pub fn maps(&self, index: usize) -> (mapped: bool)
        ensures
            mapped == maps_index(self@, index),
    {
        let mut i: usize = 0;
        while i < self.entries.len()
            invariant
                i <= self.entries@.len(),
                forall|k: int| 0 <= k < i ==> (#[trigger] self.entries@[k]).index != index,
            decreases self.entries@.len() - i,
        {
            if self.entries[i].index == index {
                return true;
            }
            i += 1;
        }
        false
    }

    /// A table with the same entries.
    pub fn duplicate(&self) -> (copy: Self)
        ensures
            copy@ == self@,
    {
        let mut entries: Vec<SlotMapping> = Vec::new();
        let mut i: usize = 0;
        while i < self.entries.len()
            invariant
                i <= self.entries@.len(),
                entries@ == self.entries@.take(i as int),
            decreases self.entries@.len() - i,
        {
            entries.push(self.entries[i]);
            assert(self.entries@.take(i + 1) =~= self.entries@.take(i as int).push(self.entries@[i as int]));
            i += 1;
        }
        assert(self.entries@.take(self.entries@.len() as int) =~= self.entries@);
        SlotMappings { entries }
    }
}

} // verus!
