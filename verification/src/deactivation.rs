//! How activity is taken from tasks that nothing keeps alive.

use crate::activation::parents_among;
use crate::backend::MemoryBackend;
use crate::ids::{ids_to_vec, lemma_take_all, lemma_take_to_set};
use crate::invariants::{lemma_deactivated_graph, lemma_deactivated_listeners};
use crate::task::TaskView;
use crate::value::TaskId;
use std::collections::HashSet;
use vstd::prelude::*;

verus! {

/// The tasks of `ids` that a deactivation retires: those that are active
/// with an active count of zero.
pub open spec fn retiring(tasks: Map<TaskId, TaskView>, ids: Set<TaskId>) -> Set<TaskId> {
    Set::new(|id: TaskId| ids.contains(id) && tasks.contains_key(id) && tasks[id].idle())
}

/// The tasks while activity is taken from them: the tasks of `inactive` are
/// inactive, those of `done` no longer count as active parents of their
/// children, and `current` no longer counts as an active parent of the tasks
/// of `uncredited`.
pub open spec fn deactivating(
    tasks: Map<TaskId, TaskView>,
    inactive: Set<TaskId>,
    done: Set<TaskId>,
    current: TaskId,
    uncredited: Set<TaskId>,
) -> Map<TaskId, TaskView> {
    Map::new(
        |id: TaskId| tasks.contains_key(id),
        |id: TaskId|
            TaskView {
                active: tasks[id].active && !inactive.contains(id),
                active_parents: tasks[id].active_parents.difference(parents_among(tasks, done, id)).difference(
                    if uncredited.contains(id) {
                        set![current]
                    } else {
                        Set::empty()
                    },
                ),
                ..tasks[id]
            },
    )
}

/// The tasks after the tasks of `gone` were deactivated: they are inactive
/// and no longer count as active parents of their children.
pub open spec fn deactivated(tasks: Map<TaskId, TaskView>, gone: Set<TaskId>) -> Map<TaskId, TaskView> {
    Map::new(
        |id: TaskId| tasks.contains_key(id),
        |id: TaskId|
            TaskView {
                active: tasks[id].active && !gone.contains(id),
                active_parents: tasks[id].active_parents.difference(parents_among(tasks, gone, id)),
                ..tasks[id]
            },
    )
}

/// The children of the tasks of `gone` that are left active with an active
/// count of zero once the tasks of `gone` are deactivated.
pub open spec fn idle_children(tasks: Map<TaskId, TaskView>, gone: Set<TaskId>) -> Set<TaskId> {
    Set::new(
        |child: TaskId|
            tasks.contains_key(child) && deactivated(tasks, gone)[child].idle() && parents_among(
                tasks,
                gone,
                child,
            ) != Set::<TaskId>::empty(),
    )
}

/// Nothing is taken before the deactivation starts.
pub proof fn lemma_deactivate_start(tasks: Map<TaskId, TaskView>, current: TaskId)
    ensures
        deactivating(tasks, Set::empty(), Set::empty(), current, Set::empty()) == tasks,
{
    let start = deactivating(tasks, Set::empty(), Set::empty(), current, Set::empty());
    assert forall|id: TaskId| #[trigger] tasks.contains_key(id) implies start[id] =~~= tasks[id] by {
        assert(parents_among(tasks, Set::empty(), id) =~= Set::<TaskId>::empty());
        assert(start[id].active_parents =~= tasks[id].active_parents);
    }
    assert(start =~~= tasks);
}

/// The start of one round of the deactivation: `current` turns inactive.
pub proof fn lemma_deactivate_round_start(
    tasks: Map<TaskId, TaskView>,
    done: Set<TaskId>,
    previous: TaskId,
    current: TaskId,
)
    ensures
        ({
            let before = deactivating(tasks, done, done, previous, Set::empty());
            let after = deactivating(tasks, done.insert(current), done, current, Set::empty());
            &&& tasks.contains_key(current) ==> after == before.insert(
                current,
                TaskView { active: false, ..before[current] },
            )
            &&& !tasks.contains_key(current) ==> after == before
        }),
{
    let before = deactivating(tasks, done, done, previous, Set::empty());
    let after = deactivating(tasks, done.insert(current), done, current, Set::empty());
    if tasks.contains_key(current) {
        assert(after =~~= before.insert(current, TaskView { active: false, ..before[current] }));
    } else {
        assert(after =~~= before);
    }
}

/// One step of the deactivation: `current` no longer counts as an active
/// parent of `child`.
pub proof fn lemma_deactivate_uncredit(
    tasks: Map<TaskId, TaskView>,
    inactive: Set<TaskId>,
    done: Set<TaskId>,
    current: TaskId,
    uncredited: Set<TaskId>,
    child: TaskId,
)
    ensures
        ({
            let before = deactivating(tasks, inactive, done, current, uncredited);
            let after = deactivating(tasks, inactive, done, current, uncredited.insert(child));
            &&& tasks.contains_key(child) ==> after == before.insert(
                child,
                TaskView { active_parents: before[child].active_parents.remove(current), ..before[child] },
            )
            &&& !tasks.contains_key(child) ==> after == before
        }),
{
    let before = deactivating(tasks, inactive, done, current, uncredited);
    let after = deactivating(tasks, inactive, done, current, uncredited.insert(child));
    if tasks.contains_key(child) {
        assert(after =~~= before.insert(
            child,
            TaskView { active_parents: before[child].active_parents.remove(current), ..before[child] },
        ));
    } else {
        assert(after =~~= before);
    }
}

/// The end of one round of the deactivation: `current`, which no longer
/// counts as an active parent of any of its children, is done.
pub proof fn lemma_deactivate_round_end(
    tasks: Map<TaskId, TaskView>,
    inactive: Set<TaskId>,
    done: Set<TaskId>,
    current: TaskId,
)
    requires
        tasks.contains_key(current),
    ensures
        deactivating(tasks, inactive, done.insert(current), current, Set::empty()) == deactivating(
            tasks,
            inactive,
            done,
            current,
            tasks[current].children,
        ),
{
    let credited = tasks[current].children;
    let finished = done.insert(current);
    assert forall|id: TaskId| #[trigger] tasks.contains_key(id) implies tasks[id].active_parents.difference(
        parents_among(tasks, finished, id),
    ).difference(Set::empty()) =~= tasks[id].active_parents.difference(parents_among(tasks, done, id)).difference(
        if credited.contains(id) {
            set![current]
        } else {
            Set::empty()
        },
    ) by {}
    assert(deactivating(tasks, inactive, finished, current, Set::empty()) =~~= deactivating(
        tasks,
        inactive,
        done,
        current,
        credited,
    ));
}

/// The end of the deactivation.
pub proof fn lemma_deactivate_end(tasks: Map<TaskId, TaskView>, gone: Set<TaskId>, current: TaskId)
    ensures
        deactivating(tasks, gone, gone, current, Set::empty()) == deactivated(tasks, gone),
{
    assert forall|id: TaskId| #[trigger] tasks.contains_key(id) implies tasks[id].active_parents.difference(
        parents_among(tasks, gone, id),
    ).difference(Set::empty()) =~= tasks[id].active_parents.difference(parents_among(tasks, gone, id)) by {}
    assert(deactivating(tasks, gone, gone, current, Set::empty()) =~~= deactivated(tasks, gone));
}

/// What a deactivation leaves to do.
pub struct Deactivation {
    /// The tasks that were deactivated, each once: they may be removed.
    pub retired: Vec<TaskId>,
    /// The children of those tasks that are left active with an active count
    /// of zero, each once: they are to be deactivated in turn.
    pub idle: Vec<TaskId>,
}

impl MemoryBackend {
    /// The tasks of `ids` that are active with an active count of zero, each
    /// once.
    pub(crate) fn retiring_tasks(&self, ids: &Vec<TaskId>) -> (list: Vec<TaskId>)
        ensures
            list@.no_duplicates(),
            list@.to_set() == retiring(self@.tasks, ids@.to_set()),
    {
        let mut list: Vec<TaskId> = Vec::new();
        let mut seen: HashSet<TaskId> = HashSet::new();
        let mut i: usize = 0;
        proof {
            lemma_take_all(ids@);
        }
        while i < ids.len()
            invariant
                i <= ids@.len(),
                list@.no_duplicates(),
                seen@ == list@.to_set(),
                forall|id: TaskId|
                    #[trigger] list@.contains(id) <==> ids@.take(i as int).contains(id) && self@.tasks.contains_key(
                        id,
                    ) && self@.tasks[id].idle(),
            decreases ids@.len() - i,
        {
            let id = ids[i];
            let idle = match self.get_task(id) {
                Some(record) => record.is_idle(),
                None => false,
            };
            let ghost before = list@;
            if idle {
                if seen.insert(id) {
                    list.push(id);
                }
            }
            proof {
                let shorter = ids@.take(i as int);
                let longer = ids@.take(i + 1);
                assert(longer =~= shorter.push(id));
                assert forall|other: TaskId| #[trigger]
                    list@.contains(other) <==> longer.contains(other) && self@.tasks.contains_key(other)
                        && self@.tasks[other].idle() by {
                    if list@.contains(other) {
                        let k = choose|k: int| 0 <= k < list@.len() && list@[k] == other;
                        if k < before.len() {
                            assert(before[k] == other);
                            assert(before.contains(other));
                            let j = choose|j: int| 0 <= j < shorter.len() && shorter[j] == other;
                            assert(longer[j] == other);
                        } else {
                            assert(longer[i as int] == other);
                        }
                    }
                    if longer.contains(other) && self@.tasks.contains_key(other) && self@.tasks[other].idle() {
                        let j = choose|j: int| 0 <= j < longer.len() && longer[j] == other;
                        if j < i {
                            assert(shorter[j] == other);
                            assert(before.contains(other));
                            let k = choose|k: int| 0 <= k < before.len() && before[k] == other;
                            assert(list@[k] == other);
                        } else if list@.len() > before.len() {
                            assert(list@[before.len() as int] == other);
                        } else {
                            assert(before.to_set().contains(other));
                            let k = choose|k: int| 0 <= k < before.len() && before[k] == other;
                            assert(list@[k] == other);
                        }
                    }
                }
                if list@.len() > before.len() {
                    assert(!before.to_set().contains(id));
                }
                assert(seen@ =~= list@.to_set()) by {
                    assert forall|other: TaskId| seen@.contains(other) == list@.to_set().contains(other) by {
                        if list@.contains(other) {
                            let k = choose|k: int| 0 <= k < list@.len() && list@[k] == other;
                            if k < before.len() {
                                assert(before[k] == other);
                                assert(before.to_set().contains(other));
                            }
                        }
                        if before.to_set().contains(other) {
                            let k = choose|k: int| 0 <= k < before.len() && before[k] == other;
                            assert(list@[k] == other);
                        }
                        if list@.len() > before.len() && other == id {
                            assert(list@[before.len() as int] == other);
                        }
                    }
                }
            }
            i += 1;
        }
        proof {
            lemma_take_all(ids@);
            assert(list@.to_set() =~= retiring(self@.tasks, ids@.to_set()));
        }
        list
    }

    /// Takes the activity from the tasks of `gone`: each turns inactive and
    /// no longer counts as an active parent of its children.
    pub(crate) fn retire(&mut self, gone: &Vec<TaskId>)
        requires
            old(self).wf(),
            forall|k: int| 0 <= k < gone@.len() ==> old(self)@.tasks.contains_key(#[trigger] gone@[k]),
        ensures
            final(self).wf(),
            final(self)@ == old(self)@.with_tasks(deactivated(old(self)@.tasks, gone@.to_set())),
    {
        let ghost tasks = self@.tasks;
        let ghost mut previous: TaskId = 0;
        let mut i: usize = 0;
        proof {
            lemma_take_all(gone@);
            lemma_deactivate_start(tasks, previous);
        }
        while i < gone.len()
            invariant
                self.wf(),
                i <= gone@.len(),
                tasks == old(self)@.tasks,
                forall|k: int| 0 <= k < gone@.len() ==> tasks.contains_key(#[trigger] gone@[k]),
                self@ == old(self)@.with_tasks(
                    deactivating(
                        tasks,
                        gone@.take(i as int).to_set(),
                        gone@.take(i as int).to_set(),
                        previous,
                        Set::empty(),
                    ),
                ),
            decreases gone@.len() - i,
        {
            let current = gone[i];
            let ghost done = gone@.take(i as int).to_set();
            proof {
                lemma_take_to_set(gone@, i as int);
                lemma_deactivate_round_start(tasks, done, previous, current);
            }
            match self.task_mut(current) {
                None => {},
                Some(record) => {
                    record.set_active(false);
                },
            }
            let children = match self.get_task(current) {
                Some(record) => ids_to_vec(record.children()),
                None => Vec::new(),
            };
            let mut j: usize = 0;
            proof {
                lemma_take_all(children@);
            }
            while j < children.len()
                invariant
                    self.wf(),
                    j <= children@.len(),
                    tasks == old(self)@.tasks,
                    tasks.contains_key(current),
                    children@.to_set() == tasks[current].children,
                    self@ == old(self)@.with_tasks(
                        deactivating(tasks, done.insert(current), done, current, children@.take(j as int).to_set()),
                    ),
                decreases children@.len() - j,
            {
                match self.task_mut(children[j]) {
                    None => {},
                    Some(record) => {
                        record.uncredit(current);
                    },
                }
                proof {
                    lemma_take_to_set(children@, j as int);
                    lemma_deactivate_uncredit(
                        tasks,
                        done.insert(current),
                        done,
                        current,
                        children@.take(j as int).to_set(),
                        children@[j as int],
                    );
                }
                j += 1;
            }
            proof {
                lemma_take_all(children@);
                lemma_deactivate_round_end(tasks, done.insert(current), done, current);
                previous = current;
            }
            i += 1;
        }
        proof {
            lemma_take_all(gone@);
            lemma_deactivate_end(tasks, gone@.to_set(), previous);
        }
    }

    /// The children of the tasks of `parents` that are active with an active
    /// count of zero, each once.
    pub(crate) fn idle_children_of(&self, parents: &Vec<TaskId>) -> (list: Vec<TaskId>)
        ensures
            list@.no_duplicates(),
            forall|child: TaskId|
                #[trigger] list@.contains(child) <==> self@.tasks.contains_key(child) && self@.tasks[child].idle()
                    && parents_among(self@.tasks, parents@.to_set(), child) != Set::<TaskId>::empty(),
    {
        let mut list: Vec<TaskId> = Vec::new();
        let mut seen: HashSet<TaskId> = HashSet::new();
        let mut i: usize = 0;
        proof {
            lemma_take_all(parents@);
            assert forall|child: TaskId| #[trigger] list@.contains(child) <==> self@.tasks.contains_key(child)
                && self@.tasks[child].idle() && parents_among(self@.tasks, parents@.take(0).to_set(), child)
                != Set::<TaskId>::empty() by {
                assert(parents_among(self@.tasks, parents@.take(0).to_set(), child) =~= Set::<TaskId>::empty());
            }
        }
        while i < parents.len()
            invariant
                i <= parents@.len(),
                list@.no_duplicates(),
                seen@ == list@.to_set(),
                forall|child: TaskId|
                    #[trigger] list@.contains(child) <==> self@.tasks.contains_key(child) && self@.tasks[child].idle()
                        && parents_among(self@.tasks, parents@.take(i as int).to_set(), child) != Set::<
                        TaskId,
                    >::empty(),
            decreases parents@.len() - i,
        {
            let parent = parents[i];
            let ghost done = parents@.take(i as int).to_set();
            let children = match self.get_task(parent) {
                Some(record) => ids_to_vec(record.children()),
                None => Vec::new(),
            };
            let mut j: usize = 0;
            proof {
                lemma_take_all(children@);
            }
            while j < children.len()
                invariant
                    j <= children@.len(),
                    list@.no_duplicates(),
                    seen@ == list@.to_set(),
                    self@.tasks.contains_key(parent) ==> children@.to_set() == self@.tasks[parent].children,
                    !self@.tasks.contains_key(parent) ==> children@.len() == 0,
                    forall|child: TaskId|
                        #[trigger] list@.contains(child) <==> self@.tasks.contains_key(child)
                            && self@.tasks[child].idle() && (parents_among(self@.tasks, done, child) != Set::<
                            TaskId,
                        >::empty() || children@.take(j as int).contains(child)),
                decreases children@.len() - j,
            {
                let child = children[j];
                let idle = match self.get_task(child) {
                    Some(record) => record.is_idle(),
                    None => false,
                };
                let ghost before = list@;
                if idle {
                    if seen.insert(child) {
                        list.push(child);
                    }
                }
                proof {
                    let shorter = children@.take(j as int);
                    let longer = children@.take(j + 1);
                    assert(longer =~= shorter.push(child));
                    assert forall|other: TaskId| #[trigger]
                        list@.contains(other) <==> self@.tasks.contains_key(other) && self@.tasks[other].idle() && (
                        parents_among(self@.tasks, done, other) != Set::<TaskId>::empty() || longer.contains(other)) by {
                        if list@.contains(other) {
                            let k = choose|k: int| 0 <= k < list@.len() && list@[k] == other;
                            if k < before.len() {
                                assert(before[k] == other);
                                assert(before.contains(other));
                                if shorter.contains(other) {
                                    let m = choose|m: int| 0 <= m < shorter.len() && shorter[m] == other;
                                    assert(longer[m] == other);
                                }
                            } else {
                                assert(longer[j as int] == other);
                            }
                        }
                        if self@.tasks.contains_key(other) && self@.tasks[other].idle() && (parents_among(
                            self@.tasks,
                            done,
                            other,
                        ) != Set::<TaskId>::empty() || longer.contains(other)) {
                            if longer.contains(other) && !shorter.contains(other) {
                                let m = choose|m: int| 0 <= m < longer.len() && longer[m] == other;
                                if m < j {
                                    assert(shorter[m] == other);
                                }
                                assert(other == child);
                                if list@.len() > before.len() {
                                    assert(list@[before.len() as int] == other);
                                } else {
                                    assert(before.to_set().contains(other));
                                    let k = choose|k: int| 0 <= k < before.len() && before[k] == other;
                                    assert(list@[k] == other);
                                }
                            } else {
                                assert(before.contains(other));
                                let k = choose|k: int| 0 <= k < before.len() && before[k] == other;
                                assert(list@[k] == other);
                            }
                        }
                    }
                    if list@.len() > before.len() {
                        assert(!before.to_set().contains(child));
                    }
                    assert(seen@ =~= list@.to_set()) by {
                        assert forall|other: TaskId| seen@.contains(other) == list@.to_set().contains(other) by {
                            if list@.contains(other) {
                                let k = choose|k: int| 0 <= k < list@.len() && list@[k] == other;
                                if k < before.len() {
                                    assert(before[k] == other);
                                    assert(before.to_set().contains(other));
                                }
                            }
                            if before.to_set().contains(other) {
                                let k = choose|k: int| 0 <= k < before.len() && before[k] == other;
                                assert(list@[k] == other);
                            }
                            if list@.len() > before.len() && other == child {
                                assert(list@[before.len() as int] == other);
                            }
                        }
                    }
                }
                j += 1;
            }
            proof {
                lemma_take_all(children@);
                lemma_take_to_set(parents@, i as int);
                let next = parents@.take(i + 1).to_set();
                assert forall|child: TaskId| #[trigger] list@.contains(child) <==> self@.tasks.contains_key(child)
                    && self@.tasks[child].idle() && parents_among(self@.tasks, next, child) != Set::<TaskId>::empty() by {
                    let among_done = parents_among(self@.tasks, done, child);
                    let among_next = parents_among(self@.tasks, next, child);
                    if among_done != Set::<TaskId>::empty() {
                        assert(exists|p: TaskId| among_done.contains(p)) by {
                            if forall|p: TaskId| !among_done.contains(p) {
                                assert(among_done =~= Set::<TaskId>::empty());
                            }
                        }
                        let p = choose|p: TaskId| among_done.contains(p);
                        assert(among_next.contains(p));
                    }
                    if children@.contains(child) {
                        assert(children@.to_set().contains(child));
                        assert(among_next.contains(parent));
                    }
                    if among_next != Set::<TaskId>::empty() {
                        assert(exists|p: TaskId| among_next.contains(p)) by {
                            if forall|p: TaskId| !among_next.contains(p) {
                                assert(among_next =~= Set::<TaskId>::empty());
                            }
                        }
                        let p = choose|p: TaskId| among_next.contains(p);
                        if p == parent {
                            assert(children@.to_set().contains(child));
                        } else {
                            assert(among_done.contains(p));
                        }
                    }
                }
            }
            i += 1;
        }
        proof {
            lemma_take_all(parents@);
        }
        list
    }

    /// Deactivates the tasks of `ids` that are active with an active count
    /// of zero: each turns inactive and no longer counts as an active parent
    /// of its children. The result lists the tasks that were deactivated and
    /// the children that this left idle.
    pub fn deactivate_tasks(&mut self, ids: &Vec<TaskId>) -> (work: Deactivation)
        requires
            old(self).wf(),
        ensures
            final(self).wf(),
            final(self)@ == old(self)@.with_tasks(
                deactivated(old(self)@.tasks, retiring(old(self)@.tasks, ids@.to_set())),
            ),
            work.retired@.no_duplicates(),
            work.retired@.to_set() == retiring(old(self)@.tasks, ids@.to_set()),
            work.idle@.no_duplicates(),
            work.idle@.to_set() == idle_children(old(self)@.tasks, retiring(old(self)@.tasks, ids@.to_set())),
            old(self).inv() ==> final(self).inv(),
    {
        proof {
            if old(self).inv() {
                lemma_deactivated_graph(old(self)@.tasks, retiring(old(self)@.tasks, ids@.to_set()));
                lemma_deactivated_listeners(
                    old(self)@.tasks,
                    retiring(old(self)@.tasks, ids@.to_set()),
                    old(self)@.listeners,
                );
            }
        }
        let ghost tasks = self@.tasks;
        let retired = self.retiring_tasks(ids);
        proof {
            assert forall|k: int| 0 <= k < retired@.len() implies tasks.contains_key(#[trigger] retired@[k]) by {
                assert(retired@.to_set().contains(retired@[k]));
            }
        }
        self.retire(&retired);
        let idle = self.idle_children_of(&retired);
        proof {
            let gone = retired@.to_set();
            let after = self@.tasks;
            assert forall|child: TaskId| #[trigger] tasks.contains_key(child) implies parents_among(after, gone, child)
                =~= parents_among(tasks, gone, child) by {}
            assert(idle@.to_set() =~= idle_children(tasks, gone));
        }
        Deactivation { retired, idle }
    }
}

} // verus!
