//! The set of dependencies that a task has recorded.

use crate::value::Dependency;
use vstd::prelude::*;

verus! {

/// A set of dependencies, kept in the order in which they were first added.
pub struct DependencySet {
    items: Vec<Dependency>,
}

impl DependencySet {
    /// The dependencies held.
    pub closed spec fn view(&self) -> Set<Dependency> {
        self.items@.to_set()
    }

    /// The dependencies in the order in which they were first added.
    pub closed spec fn order(&self) -> Seq<Dependency> {
        self.items@
    }

    /// No dependency is held twice.
    pub closed spec fn wf(&self) -> bool {
        self.items@.no_duplicates()
    }

    /// The order lists what the set holds, each dependency once.
    pub proof fn lemma_order(&self)
        requires
            self.wf(),
        ensures
            self.order().no_duplicates(),
            self.order().to_set() == self@,
    {
    }

    /// The empty set.
    pub fn new() -> (set: Self)
        ensures
            set.wf(),
            set@ == Set::<Dependency>::empty(),
            set.order() == Seq::<Dependency>::empty(),
    {
        let set = DependencySet { items: Vec::new() };
        assert(set@ =~= Set::<Dependency>::empty());
        set
    }

    /// The number of dependencies held.
    pub fn len(&self) -> (n: usize)
        ensures
            n == self.order().len(),
    {
        self.items.len()
    }

    /// The dependency at place `i` of the order.
    pub fn get(&self, i: usize) -> (dependency: Dependency)
        requires
            i < self.order().len(),
        ensures
            dependency == self.order()[i as int],
    {
        self.items[i]
    }

    fn position(&self, dependency: Dependency) -> (place: Option<usize>)
        ensures
            place matches Some(i) ==> i < self.items@.len() && self.items@[i as int] == dependency,
            place is None ==> !self.items@.contains(dependency),
    {
        let mut i: usize = 0;
        while i < self.items.len()
            invariant
                i <= self.items@.len(),
                forall|k: int| 0 <= k < i ==> self.items@[k] != dependency,
            decreases self.items@.len() - i,
        {
            if self.items[i] == dependency {
                return Some(i);
            }
            i += 1;
        }
        None
    }

    /// Whether `dependency` is held.
    pub fn contains(&self, dependency: Dependency) -> (held: bool)
        ensures
            held == self@.contains(dependency),
    {
        self.position(dependency).is_some()
    }

    /// Adds `dependency`. The result says whether it was new.
    pub fn insert(&mut self, dependency: Dependency) -> (added: bool)
        requires
            old(self).wf(),
        ensures
            final(self).wf(),
            final(self)@ == old(self)@.insert(dependency),
            added == !old(self)@.contains(dependency),
    {
        match self.position(dependency) {
            Some(_) => {
                assert(self@ =~= old(self)@.insert(dependency));
                false
            },
            None => {
                self.items.push(dependency);
                proof {
                    let before = old(self).items@;
                    let after = self.items@;
                    assert forall|d: Dependency| after.contains(d) == (before.contains(d) || d == dependency) by {
                        if before.contains(d) {
                            let k = choose|k: int| 0 <= k < before.len() && before[k] == d;
                            assert(after[k] == d);
                        }
                        if d == dependency {
                            assert(after[after.len() - 1] == d);
                        }
                    }
                    assert(self@ =~= old(self)@.insert(dependency));
                }
                true
            },
        }
    }

    /// Takes out `dependency`. The result says whether it was held.
    pub fn remove(&mut self, dependency: Dependency) -> (removed: bool)
        requires
            old(self).wf(),
        ensures
            final(self).wf(),
            final(self)@ == old(self)@.remove(dependency),
            removed == old(self)@.contains(dependency),
    {
        match self.position(dependency) {
            Some(i) => {
                self.items.remove(i);
                proof {
                    let before = old(self).items@;
                    let after = self.items@;
                    assert(after =~= before.remove(i as int));
                    assert forall|d: Dependency| after.contains(d) == (before.contains(d) && d != dependency) by {
                        if before.contains(d) && d != dependency {
                            let k = choose|k: int| 0 <= k < before.len() && before[k] == d;
                            if k < i {
                                assert(after[k] == d);
                            } else {
                                assert(after[k - 1] == d);
                            }
                        }
                        if after.contains(d) {
                            let k = choose|k: int| 0 <= k < after.len() && after[k] == d;
                            if k < i {
                                assert(before[k] == d);
                            } else {
                                assert(before[k + 1] == d);
                            }
                        }
                    }
                    assert(self@ =~= old(self)@.remove(dependency));
                }
                true
            },
            None => {
                assert(self@ =~= old(self)@.remove(dependency));
                false
            },
        }
    }

    /// Empties the set.
    pub fn clear(&mut self)
        ensures
            final(self).wf(),
            final(self)@ == Set::<Dependency>::empty(),
    {
        self.items.clear();
        assert(self@ =~= Set::<Dependency>::empty());
    }
}

} // verus!
