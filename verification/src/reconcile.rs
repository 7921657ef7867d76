//! What the end of a run settles: the dependencies and the children that the
//! run did not renew are dropped.

use crate::backend::{slots_fit, MemoryBackend};
use crate::ids::{lemma_take_all, lemma_take_to_set};
use crate::task::TaskView;
use crate::value::{Dependency, TaskId};
use vstd::prelude::*;

verus! {

/// The tasks after `reader` gave up the dependencies of `gone`: it no longer
/// holds them, and it is no longer among the readers of the cells that they
/// name.
pub open spec fn unregistered(tasks: Map<TaskId, TaskView>, reader: TaskId, gone: Set<Dependency>) -> Map<
    TaskId,
    TaskView,
> {
    Map::new(
        |id: TaskId| tasks.contains_key(id),
        |id: TaskId|
            if id == reader {
                tasks[id].without_dependencies(gone).without_reader_in(id, reader, gone)
            } else {
                tasks[id].without_reader_in(id, reader, gone)
            },
    )
}

/// The tasks after `parent` gave up the children of `gone`: they are no
/// longer its children, and it is no longer their parent.
pub open spec fn pruned(tasks: Map<TaskId, TaskView>, parent: TaskId, gone: Set<TaskId>) -> Map<TaskId, TaskView> {
    Map::new(
        |id: TaskId| tasks.contains_key(id),
        |id: TaskId|
            {
                let task = if id == parent {
                    tasks[id].without_children(gone)
                } else {
                    tasks[id]
                };
                if gone.contains(id) {
                    task.without_parent(parent)
                } else {
                    task
                }
            },
    )
}

/// The children of `gone` that `parent` leaves without reason to be active:
/// those that are active with an active count of zero once `parent` has
/// given them up, and were not before.
pub open spec fn pruning_idles(tasks: Map<TaskId, TaskView>, parent: TaskId, gone: Set<TaskId>) -> Set<TaskId> {
    Set::new(
        |id: TaskId| gone.contains(id) && tasks.contains_key(id) && !tasks[id].idle() && pruned(tasks, parent, gone)[id].idle(),
    )
}

/// Giving up one more dependency.
pub proof fn lemma_unregister_step(
    tasks: Map<TaskId, TaskView>,
    reader: TaskId,
    gone: Set<Dependency>,
    dependency: Dependency,
)
    requires
        tasks.contains_key(reader),
        slots_fit(tasks),
    ensures
        ({
            let before = unregistered(tasks, reader, gone);
            let writer = dependency.writer();
            let released = if before.contains_key(writer) {
                before.insert(
                    writer,
                    before[writer].with_cell_readers(
                        dependency.slot(),
                        before[writer].cell_readers(dependency.slot()).remove(reader),
                    ),
                )
            } else {
                before
            };
            unregistered(tasks, reader, gone.insert(dependency)) == released.insert(
                reader,
                released[reader].without_dependency(dependency),
            )
        }),
{
    let before = unregistered(tasks, reader, gone);
    let writer = dependency.writer();
    let released = if before.contains_key(writer) {
        before.insert(
            writer,
            before[writer].with_cell_readers(
                dependency.slot(),
                before[writer].cell_readers(dependency.slot()).remove(reader),
            ),
        )
    } else {
        before
    };
    let after = released.insert(reader, released[reader].without_dependency(dependency));
    let expected = unregistered(tasks, reader, gone.insert(dependency));
    assert forall|id: TaskId| #[trigger] expected.contains_key(id) implies expected[id] =~~= after[id] by {
        let more = gone.insert(dependency);
        assert(tasks[id].slots.len() == after[id].slots.len());
        assert forall|i: int| 0 <= i < tasks[id].slots.len() implies (#[trigger] expected[id].slots[i]) =~~= after[id].slots[i] by {
            if Dependency::OnSlot(id, i as usize) == dependency {
                assert(dependency.slot() == Some(i as usize));
            }
        }
        assert(expected[id].slots =~~= after[id].slots);
        assert(expected[id].output =~~= after[id].output);
        assert(expected[id].dependencies =~= after[id].dependencies);
        assert(expected[id].fresh_dependencies =~= after[id].fresh_dependencies);
    }
    assert(expected =~~= after);
}

/// Giving up one more child.
pub proof fn lemma_prune_step(tasks: Map<TaskId, TaskView>, parent: TaskId, gone: Set<TaskId>, child: TaskId)
    requires
        tasks.contains_key(parent),
    ensures
        ({
            let before = pruned(tasks, parent, gone);
            let cut = before.insert(parent, before[parent].without_child(child));
            let after = if cut.contains_key(child) {
                cut.insert(child, cut[child].without_parent(parent))
            } else {
                cut
            };
            pruned(tasks, parent, gone.insert(child)) == after
        }),
{
    let before = pruned(tasks, parent, gone);
    let cut = before.insert(parent, before[parent].without_child(child));
    let after = if cut.contains_key(child) {
        cut.insert(child, cut[child].without_parent(parent))
    } else {
        cut
    };
    let expected = pruned(tasks, parent, gone.insert(child));
    assert forall|id: TaskId| #[trigger] expected.contains_key(id) implies expected[id] =~~= after[id] by {
        assert(expected[id].children =~= after[id].children);
        assert(expected[id].fresh_children =~= after[id].fresh_children);
        assert(expected[id].parents =~= after[id].parents);
        assert(expected[id].active_parents =~= after[id].active_parents);
    }
    assert(expected =~~= after);
}

impl MemoryBackend {
    /// Gives up the dependencies of `gone` for `reader`: `reader` no longer
    /// holds them and leaves the readers of the cells that they name.
    pub(crate) fn unregister(&mut self, reader: TaskId, gone: &Vec<Dependency>)
        requires
            old(self).wf(),
            old(self)@.tasks.contains_key(reader),
        ensures
            final(self).wf(),
            final(self)@ == old(self)@.with_tasks(unregistered(old(self)@.tasks, reader, gone@.to_set())),
    {
        let ghost tasks = self@.tasks;
        let mut i: usize = 0;
        proof {
            lemma_take_all(gone@);
            self.lemma_slots_fit();
            assert(self@.tasks =~~= unregistered(tasks, reader, gone@.take(0).to_set()));
        }
        while i < gone.len()
            invariant
                self.wf(),
                i <= gone@.len(),
                tasks == old(self)@.tasks,
                tasks.contains_key(reader),
                slots_fit(tasks),
                self@ == old(self)@.with_tasks(unregistered(tasks, reader, gone@.take(i as int).to_set())),
            decreases gone@.len() - i,
        {
            let dependency = gone[i];
            match self.task_mut(dependency.task()) {
                None => {},
                Some(writer) => {
                    writer.remove_reader(dependency.cell(), reader);
                },
            }
            match self.task_mut(reader) {
                None => {},
                Some(record) => {
                    record.forget_dependency(dependency);
                },
            }
            proof {
                lemma_take_to_set(gone@, i as int);
                lemma_unregister_step(tasks, reader, gone@.take(i as int).to_set(), dependency);
            }
            i += 1;
        }
        proof {
            lemma_take_all(gone@);
        }
    }

    /// Gives up the children of `gone` for `parent`: they are no longer its
    /// children and it is no longer their parent. The result lists, each
    /// once, the children that this leaves active with an active count of
    /// zero.
    pub(crate) fn disconnect_children(&mut self, parent: TaskId, gone: &Vec<TaskId>) -> (idle: Vec<TaskId>)
        requires
            old(self).wf(),
            old(self)@.tasks.contains_key(parent),
            gone@.no_duplicates(),
        ensures
            final(self).wf(),
            final(self)@ == old(self)@.with_tasks(pruned(old(self)@.tasks, parent, gone@.to_set())),
            idle@.no_duplicates(),
            idle@.to_set() == pruning_idles(old(self)@.tasks, parent, gone@.to_set()),
    {
        let ghost tasks = self@.tasks;
        let mut idle: Vec<TaskId> = Vec::new();
        let mut i: usize = 0;
        proof {
            lemma_take_all(gone@);
            assert(self@.tasks =~~= pruned(tasks, parent, gone@.take(0).to_set()));
        }
        while i < gone.len()
            invariant
                self.wf(),
                i <= gone@.len(),
                gone@.no_duplicates(),
                tasks == old(self)@.tasks,
                tasks.contains_key(parent),
                self@ == old(self)@.with_tasks(pruned(tasks, parent, gone@.take(i as int).to_set())),
                idle@.no_duplicates(),
                forall|id: TaskId|
                    #[trigger] idle@.contains(id) <==> gone@.take(i as int).contains(id) && tasks.contains_key(id)
                        && !tasks[id].idle() && pruned(tasks, parent, gone@.to_set())[id].idle(),
            decreases gone@.len() - i,
        {
            let child = gone[i];
            let ghost before_idle = idle@;
            let was_idle = match self.get_task(child) {
                Some(record) => record.is_idle(),
                None => true,
            };
            match self.task_mut(parent) {
                None => {},
                Some(record) => {
                    record.remove_child(child);
                },
            }
            let mut now_idle = false;
            match self.task_mut(child) {
                None => {},
                Some(record) => {
                    record.remove_parent(parent);
                    now_idle = record.is_idle();
                },
            }
            proof {
                lemma_take_to_set(gone@, i as int);
                lemma_prune_step(tasks, parent, gone@.take(i as int).to_set(), child);
                let seen = gone@.take(i as int);
                let whole = pruned(tasks, parent, gone@.to_set());
                let so_far = pruned(tasks, parent, gone@.take(i + 1).to_set());
                assert(gone@.to_set().contains(child));
                assert(!seen.contains(child)) by {
                    if seen.contains(child) {
                        let k = choose|k: int| 0 <= k < seen.len() && seen[k] == child;
                        assert(gone@[k] == child);
                    }
                }
                if tasks.contains_key(child) {
                    // what is left of the child's sets depends on the parent
                    // alone, and the parent's own sets say nothing on idleness
                    assert(whole[child].active_parents =~= so_far[child].active_parents);
                    assert(whole[child].idle() == so_far[child].idle());
                    assert(!was_idle ==> !tasks[child].idle()) by {
                        let current = pruned(tasks, parent, seen.to_set());
                        assert(current[child].active_parents =~= tasks[child].active_parents);
                    }
                    assert(was_idle ==> tasks[child].idle()) by {
                        let current = pruned(tasks, parent, seen.to_set());
                        assert(current[child].active_parents =~= tasks[child].active_parents);
                    }
                }
            }
            if now_idle && !was_idle {
                idle.push(child);
            }
            proof {
                let shorter = gone@.take(i as int);
                let longer = gone@.take(i + 1);
                assert(longer =~= shorter.push(child));
                assert forall|id: TaskId| #[trigger]
                    idle@.contains(id) <==> longer.contains(id) && tasks.contains_key(id) && !tasks[id].idle()
                        && pruned(tasks, parent, gone@.to_set())[id].idle() by {
                    if idle@.contains(id) {
                        let k = choose|k: int| 0 <= k < idle@.len() && idle@[k] == id;
                        if k < before_idle.len() {
                            assert(before_idle[k] == id);
                            assert(before_idle.contains(id));
                            let j = choose|j: int| 0 <= j < shorter.len() && shorter[j] == id;
                            assert(longer[j] == id);
                        } else {
                            assert(longer[i as int] == id);
                        }
                    }
                    if longer.contains(id) && tasks.contains_key(id) && !tasks[id].idle() && pruned(
                        tasks,
                        parent,
                        gone@.to_set(),
                    )[id].idle() {
                        let j = choose|j: int| 0 <= j < longer.len() && longer[j] == id;
                        if j < i {
                            assert(shorter[j] == id);
                            assert(before_idle.contains(id));
                            let k = choose|k: int| 0 <= k < before_idle.len() && before_idle[k] == id;
                            assert(idle@[k] == id);
                        } else {
                            assert(idle@[before_idle.len() as int] == id);
                        }
                    }
                }
                if idle@.len() > before_idle.len() {
                    if before_idle.contains(child) {
                        assert(shorter.contains(child));
                    }
                }
            }
            i += 1;
        }
        proof {
            lemma_take_all(gone@);
            assert(idle@.to_set() =~= pruning_idles(tasks, parent, gone@.to_set()));
        }
        idle
    }
}

} // verus!
