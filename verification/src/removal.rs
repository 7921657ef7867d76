//! The removal of tasks that nothing keeps alive.

use crate::backend::{scrubbed, slots_fit, BackendView, MemoryBackend};
use crate::ids::{ids_to_vec, lemma_take_all, lemma_take_to_set};
use crate::invariants::{lemma_purged_graph, lemma_removed_listeners};
use crate::task::{Task, TaskView};
use crate::value::{Dependency, TaskId, WaitHandle};
use vstd::prelude::*;

verus! {

/// The pairs of reader and dependency for the output of `victim`, stored
/// under `gone`, and for its slots before `count`: what the readers of these
/// cells are to forget.
pub open spec fn reader_pairs(gone: TaskId, victim: TaskView, count: int) -> Set<(TaskId, Dependency)> {
    Set::new(
        |pair: (TaskId, Dependency)|
            match pair.1 {
                Dependency::OnOutput(writer) => writer == gone && victim.output.readers.contains(pair.0),
                Dependency::OnSlot(writer, index) => writer == gone && index < count && index < victim.slots.len()
                    && victim.slots[index as int].readers.contains(pair.0),
            },
    )
}

/// The tasks while the traces of the task `gone` are taken from them: the
/// tasks of `unparented` no longer have it as a child, those of `orphaned`
/// no longer have it as a parent, the cells that `released` names no longer
/// have it as a reader, and the readers of `forgotten` no longer hold the
/// dependency that they are paired with.
pub open spec fn purging(
    tasks: Map<TaskId, TaskView>,
    gone: TaskId,
    unparented: Set<TaskId>,
    orphaned: Set<TaskId>,
    released: Set<Dependency>,
    forgotten: Set<(TaskId, Dependency)>,
) -> Map<TaskId, TaskView> {
    Map::new(
        |id: TaskId| tasks.contains_key(id),
        |id: TaskId|
            {
                let childless = if unparented.contains(id) {
                    tasks[id].without_child(gone)
                } else {
                    tasks[id]
                };
                let parentless = if orphaned.contains(id) {
                    childless.without_parent(gone)
                } else {
                    childless
                };
                parentless.without_reader_in(id, gone, released).without_dependencies(
                    Set::new(|dependency: Dependency| forgotten.contains((id, dependency))),
                )
            },
    )
}

/// The tasks after every trace of the task `gone`, whose record was
/// `victim`, was taken from them: it is nobody's child, parent or reader,
/// and nobody depends on it.
pub open spec fn purged(tasks: Map<TaskId, TaskView>, gone: TaskId, victim: TaskView) -> Map<TaskId, TaskView> {
    purging(
        tasks,
        gone,
        victim.parents,
        victim.children,
        victim.dependencies,
        reader_pairs(gone, victim, victim.slots.len() as int),
    )
}

/// What someone may wait on for the task `victim`, stored under `id`: its
/// output and its slots, as far as someone waits for them.
pub open spec fn waited(id: TaskId, victim: TaskView) -> Set<WaitHandle> {
    Set::new(|handle: WaitHandle| handle.task == id && victim.awaits(handle.slot))
}

impl BackendView {
    /// The backend after the removal of the task under `id`. A task that is
    /// inactive with an active count of zero leaves the store and the cache,
    /// its id goes back to the allocator, every trace of it is taken from the
    /// other tasks, and whoever waited for it is woken. Any other task stays,
    /// and an unknown id changes nothing.
    pub open spec fn removed(self, id: TaskId) -> BackendView {
        if self.tasks.contains_key(id) && self.tasks[id].removable() {
            let erased = self.erased(id);
            BackendView {
                listeners: self.listeners.difference(waited(id, self.tasks[id])),
                ..erased.with_tasks(purged(erased.tasks, id, self.tasks[id]))
            }
        } else {
            self
        }
    }

    /// Whether a request to remove the task under `id` removes it.
    pub open spec fn removes(self, id: TaskId) -> bool {
        self.tasks.contains_key(id) && self.tasks[id].removable()
    }

    /// The backend after the tasks of `order` were removed one after the
    /// other, each as far as it was removable when its turn came.
    pub open spec fn removed_all(self, order: Seq<TaskId>) -> BackendView
        decreases order.len(),
    {
        if order.len() == 0 {
            self
        } else {
            self.removed_all(order.drop_last()).removed(order.last())
        }
    }
}

/// Nothing is taken from the tasks before the purge starts.
pub proof fn lemma_purge_start(tasks: Map<TaskId, TaskView>, gone: TaskId)
    ensures
        purging(tasks, gone, Set::empty(), Set::empty(), Set::empty(), Set::empty()) == tasks,
{
    let start = purging(tasks, gone, Set::empty(), Set::empty(), Set::empty(), Set::empty());
    assert forall|id: TaskId| #[trigger] tasks.contains_key(id) implies start[id] =~~= tasks[id] by {
        assert(Set::new(|dependency: Dependency| Set::<(TaskId, Dependency)>::empty().contains((id, dependency)))
            =~= Set::<Dependency>::empty());
        assert(start[id].slots =~~= tasks[id].slots);
    }
    assert(start =~~= tasks);
}

/// One more parent gives up the task.
pub proof fn lemma_purge_parent(
    tasks: Map<TaskId, TaskView>,
    gone: TaskId,
    unparented: Set<TaskId>,
    parent: TaskId,
)
    ensures
        ({
            let before = purging(tasks, gone, unparented, Set::empty(), Set::empty(), Set::empty());
            let after = purging(tasks, gone, unparented.insert(parent), Set::empty(), Set::empty(), Set::empty());
            &&& tasks.contains_key(parent) ==> after == before.insert(parent, before[parent].without_child(gone))
            &&& !tasks.contains_key(parent) ==> after == before
        }),
{
    let before = purging(tasks, gone, unparented, Set::empty(), Set::empty(), Set::empty());
    let after = purging(tasks, gone, unparented.insert(parent), Set::empty(), Set::empty(), Set::empty());
    if tasks.contains_key(parent) {
        let expected = before.insert(parent, before[parent].without_child(gone));
        assert forall|id: TaskId| #[trigger] after.contains_key(id) implies after[id] =~~= expected[id] by {
            assert(after[id].slots =~~= expected[id].slots);
            assert(after[id].children =~= expected[id].children);
            assert(after[id].fresh_children =~= expected[id].fresh_children);
        }
        assert(after =~~= expected);
    } else {
        assert(after =~~= before);
    }
}

/// One more child gives up the task.
pub proof fn lemma_purge_child(
    tasks: Map<TaskId, TaskView>,
    gone: TaskId,
    unparented: Set<TaskId>,
    orphaned: Set<TaskId>,
    child: TaskId,
)
    ensures
        ({
            let before = purging(tasks, gone, unparented, orphaned, Set::empty(), Set::empty());
            let after = purging(tasks, gone, unparented, orphaned.insert(child), Set::empty(), Set::empty());
            &&& tasks.contains_key(child) ==> after == before.insert(child, before[child].without_parent(gone))
            &&& !tasks.contains_key(child) ==> after == before
        }),
{
    let before = purging(tasks, gone, unparented, orphaned, Set::empty(), Set::empty());
    let after = purging(tasks, gone, unparented, orphaned.insert(child), Set::empty(), Set::empty());
    if tasks.contains_key(child) {
        let expected = before.insert(child, before[child].without_parent(gone));
        assert forall|id: TaskId| #[trigger] after.contains_key(id) implies after[id] =~~= expected[id] by {
            assert(after[id].slots =~~= expected[id].slots);
            assert(after[id].parents =~= expected[id].parents);
            assert(after[id].active_parents =~= expected[id].active_parents);
        }
        assert(after =~~= expected);
    } else {
        assert(after =~~= before);
    }
}

/// One more cell gives up the task as a reader.
pub proof fn lemma_purge_reader(
    tasks: Map<TaskId, TaskView>,
    gone: TaskId,
    unparented: Set<TaskId>,
    orphaned: Set<TaskId>,
    released: Set<Dependency>,
    dependency: Dependency,
)
    requires
        slots_fit(tasks),
    ensures
        ({
            let before = purging(tasks, gone, unparented, orphaned, released, Set::empty());
            let after = purging(tasks, gone, unparented, orphaned, released.insert(dependency), Set::empty());
            let writer = dependency.writer();
            &&& tasks.contains_key(writer) ==> after == before.insert(
                writer,
                before[writer].with_cell_readers(
                    dependency.slot(),
                    before[writer].cell_readers(dependency.slot()).remove(gone),
                ),
            )
            &&& !tasks.contains_key(writer) ==> after == before
        }),
{
    let before = purging(tasks, gone, unparented, orphaned, released, Set::empty());
    let after = purging(tasks, gone, unparented, orphaned, released.insert(dependency), Set::empty());
    let writer = dependency.writer();
    let expected = if tasks.contains_key(writer) {
        before.insert(
            writer,
            before[writer].with_cell_readers(dependency.slot(), before[writer].cell_readers(dependency.slot()).remove(gone)),
        )
    } else {
        before
    };
    assert forall|id: TaskId| #[trigger] after.contains_key(id) implies after[id] =~~= expected[id] by {
        assert(after[id].slots.len() == expected[id].slots.len());
        assert forall|i: int| 0 <= i < after[id].slots.len() implies (#[trigger] after[id].slots[i]) =~~= expected[id].slots[i] by {
            if Dependency::OnSlot(id, i as usize) == dependency {
                assert(dependency.slot() == Some(i as usize));
            }
        }
        assert(after[id].slots =~~= expected[id].slots);
        assert(after[id].output =~~= expected[id].output);
    }
    assert(after =~~= expected);
}

/// The readers of one more cell forget the dependency on it.
pub proof fn lemma_purge_forget(
    tasks: Map<TaskId, TaskView>,
    gone: TaskId,
    unparented: Set<TaskId>,
    orphaned: Set<TaskId>,
    released: Set<Dependency>,
    forgotten: Set<(TaskId, Dependency)>,
    readers: Set<TaskId>,
    dependency: Dependency,
    more: Set<(TaskId, Dependency)>,
)
    requires
        forall|pair: (TaskId, Dependency)|
            more.contains(pair) <==> forgotten.contains(pair) || (pair.1 == dependency && readers.contains(pair.0)),
    ensures
        purging(tasks, gone, unparented, orphaned, released, more) == scrubbed(
            purging(tasks, gone, unparented, orphaned, released, forgotten),
            readers,
            dependency,
        ),
{
    let before = purging(tasks, gone, unparented, orphaned, released, forgotten);
    let after = purging(tasks, gone, unparented, orphaned, released, more);
    let expected = scrubbed(before, readers, dependency);
    assert forall|id: TaskId| #[trigger] after.contains_key(id) implies after[id] =~~= expected[id] by {
        let gone_before = Set::new(|d: Dependency| forgotten.contains((id, d)));
        let gone_after = Set::new(|d: Dependency| more.contains((id, d)));
        if readers.contains(id) {
            assert(gone_after =~= gone_before.insert(dependency));
        } else {
            assert(gone_after =~= gone_before);
        }
        assert(after[id].dependencies =~= expected[id].dependencies);
        assert(after[id].fresh_dependencies =~= expected[id].fresh_dependencies);
        assert(after[id].slots =~~= expected[id].slots);
    }
    assert(after =~~= expected);
}

impl MemoryBackend {
    /// Takes every trace of the task `gone`, whose record `victim` has left
    /// the store, from the tasks that are left.
    pub(crate) fn purge(&mut self, gone: TaskId, victim: &Task)
        requires
            old(self).wf(),
            victim.wf(),
        ensures
            final(self).wf(),
            final(self)@ == old(self)@.with_tasks(purged(old(self)@.tasks, gone, victim@)),
    {
        let ghost tasks = self@.tasks;
        proof {
            lemma_purge_start(tasks, gone);
            self.lemma_slots_fit();
        }
        let parents = ids_to_vec(victim.parents());
        let mut i: usize = 0;
        proof {
            lemma_take_all(parents@);
        }
        while i < parents.len()
            invariant
                self.wf(),
                i <= parents@.len(),
                tasks == old(self)@.tasks,
                self@ == old(self)@.with_tasks(
                    purging(tasks, gone, parents@.take(i as int).to_set(), Set::empty(), Set::empty(), Set::empty()),
                ),
            decreases parents@.len() - i,
        {
            match self.task_mut(parents[i]) {
                None => {},
                Some(record) => {
                    record.remove_child(gone);
                },
            }
            proof {
                lemma_take_to_set(parents@, i as int);
                lemma_purge_parent(tasks, gone, parents@.take(i as int).to_set(), parents@[i as int]);
            }
            i += 1;
        }
        proof {
            lemma_take_all(parents@);
        }
        let children = ids_to_vec(victim.children());
        let mut i: usize = 0;
        proof {
            lemma_take_all(children@);
        }
        while i < children.len()
            invariant
                self.wf(),
                i <= children@.len(),
                tasks == old(self)@.tasks,
                self@ == old(self)@.with_tasks(
                    purging(
                        tasks,
                        gone,
                        victim@.parents,
                        children@.take(i as int).to_set(),
                        Set::empty(),
                        Set::empty(),
                    ),
                ),
            decreases children@.len() - i,
        {
            match self.task_mut(children[i]) {
                None => {},
                Some(record) => {
                    record.remove_parent(gone);
                },
            }
            proof {
                lemma_take_to_set(children@, i as int);
                lemma_purge_child(tasks, gone, victim@.parents, children@.take(i as int).to_set(), children@[i as int]);
            }
            i += 1;
        }
        proof {
            lemma_take_all(children@);
        }
        let dependencies = victim.dependencies();
        let ghost order = dependencies.order();
        let mut i: usize = 0;
        proof {
            dependencies.lemma_order();
            lemma_take_all(order);
        }
        while i < dependencies.len()
            invariant
                self.wf(),
                i <= order.len(),
                order == dependencies.order(),
                order.to_set() == victim@.dependencies,
                tasks == old(self)@.tasks,
                slots_fit(tasks),
                self@ == old(self)@.with_tasks(
                    purging(
                        tasks,
                        gone,
                        victim@.parents,
                        victim@.children,
                        order.take(i as int).to_set(),
                        Set::empty(),
                    ),
                ),
            decreases order.len() - i,
        {
            let dependency = dependencies.get(i);
            match self.task_mut(dependency.task()) {
                None => {},
                Some(record) => {
                    record.remove_reader(dependency.cell(), gone);
                },
            }
            proof {
                lemma_take_to_set(order, i as int);
                lemma_purge_reader(
                    tasks,
                    gone,
                    victim@.parents,
                    victim@.children,
                    order.take(i as int).to_set(),
                    dependency,
                );
            }
            i += 1;
        }
        proof {
            lemma_take_all(order);
        }
        let readers = ids_to_vec(victim.output().readers());
        self.scrub(&readers, Dependency::OnOutput(gone));
        proof {
            lemma_purge_forget(
                tasks,
                gone,
                victim@.parents,
                victim@.children,
                victim@.dependencies,
                Set::empty(),
                readers@.to_set(),
                Dependency::OnOutput(gone),
                reader_pairs(gone, victim@, 0),
            );
        }
        let count = victim.slot_count();
        let mut i: usize = 0;
        while i < count
            invariant
                self.wf(),
                i <= count,
                count == victim@.slots.len(),
                tasks == old(self)@.tasks,
                self@ == old(self)@.with_tasks(
                    purging(
                        tasks,
                        gone,
                        victim@.parents,
                        victim@.children,
                        victim@.dependencies,
                        reader_pairs(gone, victim@, i as int),
                    ),
                ),
            decreases count - i,
        {
            let readers = ids_to_vec(victim.slot(i).readers());
            self.scrub(&readers, Dependency::OnSlot(gone, i));
            proof {
                lemma_purge_forget(
                    tasks,
                    gone,
                    victim@.parents,
                    victim@.children,
                    victim@.dependencies,
                    reader_pairs(gone, victim@, i as int),
                    readers@.to_set(),
                    Dependency::OnSlot(gone, i),
                    reader_pairs(gone, victim@, i + 1),
                );
            }
            i += 1;
        }
    }

    /// Removes the task under `id` if it is inactive with an active count of
    /// zero: it leaves the store and the cache, its id goes back to the
    /// allocator, every trace of it is taken from the other tasks, and
    /// whoever waited for it is woken. Any other task stays. The result is
    /// `None` where nothing was removed; else it lists what someone waited
    /// for.
    pub fn remove_task(&mut self, id: TaskId) -> (wake: Option<Vec<WaitHandle>>)
        requires
            old(self).wf(),
        ensures
            final(self).wf(),
            final(self)@ == old(self)@.removed(id),
            wake is Some == old(self)@.removes(id),
            wake matches Some(handles) ==> forall|handle: WaitHandle|
                handles@.contains(handle) <==> handle.task == id && old(self)@.tasks[id].awaits(handle.slot),
            old(self).inv() ==> final(self).inv(),
    {
        proof {
            if old(self).inv() && old(self)@.removes(id) {
                old(self).lemma_slots_fit();
                lemma_purged_graph(old(self)@.tasks, id);
                lemma_removed_listeners(old(self)@, id);
            }
        }
        let removable = match self.get_task(id) {
            Some(record) => record.is_removable(),
            None => false,
        };
        if !removable {
            return None;
        }
        match self.erase_task(id) {
            None => None,
            Some(victim) => {
                self.purge(id, &victim);
                let handles = victim.waited_handles(id);
                self.wake_all(&handles);
                proof {
                    assert(handles@.to_set() =~= waited(id, victim@));
                }
                Some(handles)
            },
        }
    }
}

} // verus!
