//! What holds of the tasks between any two operations of the backend.

use crate::activation::{activated, connected, link_wakes, linked, lemma_path_extends, lemma_start_wakes, parents_among, wakes, woken};
use crate::backend::{invalidated, scrubbed, slots_fit, BackendView};
use crate::completion::{abandoned_before, abandoned_dependencies, remapped};
use crate::deactivation::deactivated;
use crate::reconcile::{pruned, unregistered};
use crate::removal::{purged, reader_pairs};
use crate::slot_mappings::SlotMapping;
use crate::slot::Slot;
use crate::task::{TaskState, TaskTypeView, TaskView};
use crate::removal::waited;
use crate::value::{Dependency, Outcome, TaskId, Value, WaitHandle};
use vstd::prelude::*;

verus! {

/// What holds of the execution state of one task. A done task has an output
/// that its latest run stored or confirmed, and nobody waits for it; a run
/// under way is the latest run; content that is stored comes from a run
/// that has started; nobody waits for a slot that has content.
pub open spec fn run_inv(task: TaskView) -> bool {
    &&& task.state is Done ==> task.output.content is Some && task.output.epoch == task.executions
        && !task.output.waiters
    &&& task.state matches TaskState::InProgress { run_epoch } ==> run_epoch == task.executions
    &&& task.state matches TaskState::InProgressDirty { run_epoch } ==> run_epoch == task.executions
    &&& task.output.content is Some ==> task.output.epoch <= task.executions
    &&& task.output.content is None ==> task.output.readers == Set::<TaskId>::empty()
    &&& forall|i: int|
        0 <= i < task.slots.len() ==> ((#[trigger] task.slots[i]).content is Some ==> !task.slots[i].waiters)
    &&& forall|i: int|
        0 <= i < task.slots.len() ==> ((#[trigger] task.slots[i]).content is None ==> task.slots[i].readers
            == Set::<TaskId>::empty())
}

/// What holds of the record of one task's relations. What the latest run
/// recorded is part of what the task holds; the active parents are parents,
/// and finitely many; a task with a positive active count is active; only a
/// transient task is anchored, and a transient task is nobody's child.
pub open spec fn links_inv(task: TaskView) -> bool {
    &&& task.fresh_dependencies.subset_of(task.dependencies)
    &&& task.fresh_children.subset_of(task.children)
    &&& task.active_parents.subset_of(task.parents)
    &&& task.parents.finite()
    &&& task.active_count() > 0 ==> task.active
    &&& task.anchored ==> task.ty is Transient
    &&& task.ty is Transient ==> task.parents == Set::<TaskId>::empty()
}

/// Every task is in order by itself.
pub open spec fn tasks_inv(tasks: Map<TaskId, TaskView>) -> bool {
    forall|id: TaskId| #[trigger] tasks.contains_key(id) ==> run_inv(tasks[id]) && links_inv(tasks[id])
}

/// The dependencies and the readers agree: a reader holds a dependency
/// exactly when the cell that the dependency names has it as a reader.
pub open spec fn edges_inv(tasks: Map<TaskId, TaskView>) -> bool {
    &&& forall|reader: TaskId, dependency: Dependency|
        tasks.contains_key(reader) && #[trigger] tasks[reader].dependencies.contains(dependency)
            ==> tasks.contains_key(dependency.writer()) && tasks[dependency.writer()].cell_readers(
            dependency.slot(),
        ).contains(reader)
    &&& forall|writer: TaskId, slot: Option<usize>, reader: TaskId|
        tasks.contains_key(writer) && #[trigger] tasks[writer].cell_readers(slot).contains(reader)
            ==> tasks.contains_key(reader) && tasks[reader].dependencies.contains(Dependency::on(writer, slot))
}

/// The children and the parents agree, and a parent counts as active for a
/// child exactly when it is active.
pub open spec fn family_inv(tasks: Map<TaskId, TaskView>) -> bool {
    &&& forall|parent: TaskId, child: TaskId|
        tasks.contains_key(parent) && #[trigger] tasks[parent].children.contains(child) ==> tasks.contains_key(child)
            && tasks[child].parents.contains(parent)
    &&& forall|child: TaskId, parent: TaskId|
        tasks.contains_key(child) && #[trigger] tasks[child].parents.contains(parent) ==> tasks.contains_key(parent)
            && tasks[parent].children.contains(child) && (tasks[child].active_parents.contains(parent)
            <==> tasks[parent].active)
}

/// What holds of the tasks between any two operations.
pub open spec fn graph_inv(tasks: Map<TaskId, TaskView>) -> bool {
    &&& tasks_inv(tasks)
    &&& edges_inv(tasks)
    &&& family_inv(tasks)
}

/// Whether two records agree on what the first says of dependencies and
/// readers.
pub open spec fn same_edges(a: TaskView, b: TaskView) -> bool {
    &&& a.dependencies == b.dependencies
    &&& a.output.readers == b.output.readers
    &&& a.slots.len() == b.slots.len()
    &&& forall|i: int| 0 <= i < a.slots.len() ==> (#[trigger] a.slots[i]).readers == b.slots[i].readers
}

/// Whether two records agree on children, parents and activity.
pub open spec fn same_family(a: TaskView, b: TaskView) -> bool {
    &&& a.children == b.children
    &&& a.parents == b.parents
    &&& a.active_parents == b.active_parents
    &&& a.active == b.active
    &&& a.anchored == b.anchored
    &&& a.ty == b.ty
}

/// Whether two maps hold the same tasks, each with the same edges.
pub open spec fn same_edges_everywhere(a: Map<TaskId, TaskView>, b: Map<TaskId, TaskView>) -> bool {
    &&& forall|id: TaskId| a.contains_key(id) == b.contains_key(id)
    &&& forall|id: TaskId| #[trigger] a.contains_key(id) ==> same_edges(a[id], b[id])
}

/// Whether two maps hold the same tasks, each with the same family.
pub open spec fn same_family_everywhere(a: Map<TaskId, TaskView>, b: Map<TaskId, TaskView>) -> bool {
    &&& forall|id: TaskId| a.contains_key(id) == b.contains_key(id)
    &&& forall|id: TaskId| #[trigger] a.contains_key(id) ==> same_family(a[id], b[id])
}

/// The readers of a cell depend on the readers of the output and of the
/// slots alone.
pub proof fn lemma_same_edges_same_readers(a: TaskView, b: TaskView, slot: Option<usize>)
    requires
        same_edges(a, b),
    ensures
        a.cell_readers(slot) == b.cell_readers(slot),
{
}

/// Tasks that change in nothing that bears on dependencies and readers keep
/// them in agreement.
pub proof fn lemma_edges_frame(a: Map<TaskId, TaskView>, b: Map<TaskId, TaskView>)
    requires
        edges_inv(a),
        same_edges_everywhere(a, b),
    ensures
        edges_inv(b),
{
    assert forall|reader: TaskId, dependency: Dependency|
        b.contains_key(reader) && #[trigger] b[reader].dependencies.contains(dependency) implies b.contains_key(
        dependency.writer(),
    ) && b[dependency.writer()].cell_readers(dependency.slot()).contains(reader) by {
        assert(a[reader].dependencies.contains(dependency));
        lemma_same_edges_same_readers(a[dependency.writer()], b[dependency.writer()], dependency.slot());
    }
    assert forall|writer: TaskId, slot: Option<usize>, reader: TaskId|
        b.contains_key(writer) && #[trigger] b[writer].cell_readers(slot).contains(reader) implies b.contains_key(
        reader,
    ) && b[reader].dependencies.contains(Dependency::on(writer, slot)) by {
        lemma_same_edges_same_readers(a[writer], b[writer], slot);
        assert(a[writer].cell_readers(slot).contains(reader));
    }
}

/// Tasks that change in nothing that bears on children, parents and
/// activity keep them in agreement.
pub proof fn lemma_family_frame(a: Map<TaskId, TaskView>, b: Map<TaskId, TaskView>)
    requires
        family_inv(a),
        same_family_everywhere(a, b),
    ensures
        family_inv(b),
{
    assert forall|parent: TaskId, child: TaskId|
        b.contains_key(parent) && #[trigger] b[parent].children.contains(child) implies b.contains_key(child)
            && b[child].parents.contains(parent) by {
        assert(a[parent].children.contains(child));
    }
    assert forall|child: TaskId, parent: TaskId|
        b.contains_key(child) && #[trigger] b[child].parents.contains(parent) implies b.contains_key(parent)
            && b[parent].children.contains(child) && (b[child].active_parents.contains(parent)
            <==> b[parent].active) by {
        assert(a[child].parents.contains(parent));
    }
}

/// An invalidation keeps a task in order.
pub proof fn lemma_invalidated_task(task: TaskView)
    requires
        run_inv(task),
        links_inv(task),
    ensures
        run_inv(task.invalidated()),
        links_inv(task.invalidated()),
        same_edges(task, task.invalidated()),
        same_family(task, task.invalidated()),
{
}

/// A request for a run keeps a task in order.
pub proof fn lemma_scheduled_task(task: TaskView)
    requires
        run_inv(task),
        links_inv(task),
    ensures
        run_inv(task.scheduled()),
        links_inv(task.scheduled()),
        same_edges(task, task.scheduled()),
        same_family(task, task.scheduled()),
{
}

/// The start of a run keeps a task in order.
pub proof fn lemma_started_task(task: TaskView)
    requires
        run_inv(task),
        links_inv(task),
        task.can_start(),
    ensures
        run_inv(task.started()),
        links_inv(task.started()),
        same_edges(task, task.started()),
        same_family(task, task.started()),
{
}

/// A new slot keeps a task in order.
pub proof fn lemma_fresh_slot_task(task: TaskView)
    requires
        run_inv(task),
        links_inv(task),
    ensures
        run_inv(TaskView { slots: task.slots.push(Slot::empty()), ..task }),
        links_inv(TaskView { slots: task.slots.push(Slot::empty()), ..task }),
{
}

/// A task that has done nothing yet is in order.
pub proof fn lemma_fresh_task(ty: TaskTypeView, state: TaskState, anchored: bool)
    requires
        !(state is Done),
        state is Dirty || state is Scheduled,
        anchored ==> ty is Transient,
    ensures
        run_inv(TaskView::fresh(ty, state, anchored)),
        links_inv(TaskView::fresh(ty, state, anchored)),
{
}

/// Replacing a task by one with the same edges and the same family keeps
/// the graph in order, provided the new record is in order by itself.
pub proof fn lemma_local_change(tasks: Map<TaskId, TaskView>, id: TaskId, task: TaskView)
    requires
        graph_inv(tasks),
        tasks.contains_key(id),
        run_inv(task),
        links_inv(task),
        same_edges(tasks[id], task),
        same_family(tasks[id], task),
    ensures
        graph_inv(tasks.insert(id, task)),
{
    let after = tasks.insert(id, task);
    assert(same_edges_everywhere(tasks, after));
    assert(same_family_everywhere(tasks, after));
    lemma_edges_frame(tasks, after);
    lemma_family_frame(tasks, after);
}

/// The invalidation of a set of tasks keeps the graph in order.
pub proof fn lemma_invalidated_graph(tasks: Map<TaskId, TaskView>, ids: Set<TaskId>)
    requires
        graph_inv(tasks),
    ensures
        graph_inv(invalidated(tasks, ids)),
{
    let after = invalidated(tasks, ids);
    assert forall|id: TaskId| #[trigger] tasks.contains_key(id) implies same_edges(tasks[id], after[id])
        && same_family(tasks[id], after[id]) && run_inv(after[id]) && links_inv(after[id]) by {
        lemma_invalidated_task(tasks[id]);
    }
    assert(same_edges_everywhere(tasks, after));
    assert(same_family_everywhere(tasks, after));
    lemma_edges_frame(tasks, after);
    lemma_family_frame(tasks, after);
}

/// A new slot of one task keeps the graph in order.
pub proof fn lemma_fresh_slot_graph(tasks: Map<TaskId, TaskView>, id: TaskId)
    requires
        graph_inv(tasks),
        tasks.contains_key(id),
    ensures
        graph_inv(tasks.insert(id, TaskView { slots: tasks[id].slots.push(Slot::empty()), ..tasks[id] })),
{
    let before = tasks[id];
    let longer = TaskView { slots: before.slots.push(Slot::empty()), ..before };
    let after = tasks.insert(id, longer);
    lemma_fresh_slot_task(before);
    assert forall|slot: Option<usize>| #[trigger] longer.cell_readers(slot) == before.cell_readers(slot) by {}
    assert(same_family_everywhere(tasks, after));
    lemma_family_frame(tasks, after);
    assert forall|reader: TaskId, dependency: Dependency|
        after.contains_key(reader) && #[trigger] after[reader].dependencies.contains(dependency) implies after.contains_key(
        dependency.writer(),
    ) && after[dependency.writer()].cell_readers(dependency.slot()).contains(reader) by {
        assert(tasks[reader].dependencies.contains(dependency));
        assert(longer.cell_readers(dependency.slot()) == before.cell_readers(dependency.slot()));
    }
    assert forall|writer: TaskId, slot: Option<usize>, reader: TaskId|
        after.contains_key(writer) && #[trigger] after[writer].cell_readers(slot).contains(reader) implies after.contains_key(
        reader,
    ) && after[reader].dependencies.contains(Dependency::on(writer, slot)) by {
        assert(longer.cell_readers(slot) == before.cell_readers(slot));
        assert(tasks[writer].cell_readers(slot).contains(reader));
    }
}

/// A new task that has done nothing yet, stored under an unused id, keeps
/// the graph in order.
pub proof fn lemma_new_task_graph(tasks: Map<TaskId, TaskView>, id: TaskId, ty: TaskTypeView, state: TaskState, anchored: bool)
    requires
        graph_inv(tasks),
        !tasks.contains_key(id),
        state is Dirty || state is Scheduled,
        anchored ==> ty is Transient,
    ensures
        graph_inv(tasks.insert(id, TaskView::fresh(ty, state, anchored))),
{
    let task = TaskView::fresh(ty, state, anchored);
    let after = tasks.insert(id, task);
    lemma_fresh_task(ty, state, anchored);
    assert forall|slot: Option<usize>| #[trigger] task.cell_readers(slot) == Set::<TaskId>::empty() by {}
    assert forall|reader: TaskId, dependency: Dependency|
        after.contains_key(reader) && #[trigger] after[reader].dependencies.contains(dependency) implies after.contains_key(
        dependency.writer(),
    ) && after[dependency.writer()].cell_readers(dependency.slot()).contains(reader) by {
        assert(tasks[reader].dependencies.contains(dependency));
    }
    assert forall|writer: TaskId, slot: Option<usize>, reader: TaskId|
        after.contains_key(writer) && #[trigger] after[writer].cell_readers(slot).contains(reader) implies after.contains_key(
        reader,
    ) && after[reader].dependencies.contains(Dependency::on(writer, slot)) by {
        if writer == id {
            assert(task.cell_readers(slot) == Set::<TaskId>::empty());
        } else {
            assert(tasks[writer].cell_readers(slot).contains(reader));
        }
    }
    assert forall|parent: TaskId, child: TaskId|
        after.contains_key(parent) && #[trigger] after[parent].children.contains(child) implies after.contains_key(child)
            && after[child].parents.contains(parent) by {
        assert(tasks[parent].children.contains(child));
    }
    assert forall|child: TaskId, parent: TaskId|
        after.contains_key(child) && #[trigger] after[child].parents.contains(parent) implies after.contains_key(parent)
            && after[parent].children.contains(child) && (after[child].active_parents.contains(parent)
            <==> after[parent].active) by {
        assert(tasks[child].parents.contains(parent));
    }
}

/// A read of an output keeps the graph in order.
pub proof fn lemma_output_read_graph(before: BackendView, task: TaskId, reader: Option<TaskId>)
    requires
        graph_inv(before.tasks),
        before.tasks.contains_key(task),
        reader matches Some(id) ==> before.tasks.contains_key(id),
    ensures
        graph_inv(before.after_output_read(task, reader).tasks),
{
    let tasks = before.tasks;
    let after = before.after_output_read(task, reader).tasks;
    let writer = tasks[task];
    if !writer.output_ready() {
        assert(same_edges(writer, writer.awaited()));
        assert(same_family(writer, writer.awaited()));
        lemma_local_change(tasks, task, writer.awaited());
    } else if let Some(id) = reader {
        let dependency = Dependency::OnOutput(task);
        assert(same_family_everywhere(tasks, after));
        lemma_family_frame(tasks, after);
        assert forall|other: TaskId| #[trigger] after.contains_key(other) implies run_inv(after[other]) && links_inv(
            after[other],
        ) by {
            assert(tasks.contains_key(other));
        }
        assert forall|other: TaskId, slot: Option<usize>| #[trigger]
            after.contains_key(other) implies #[trigger] after[other].cell_readers(slot) == if other == task && slot
            is None {
            tasks[other].cell_readers(slot).insert(id)
        } else {
            tasks[other].cell_readers(slot)
        } by {}
        assert forall|reading: TaskId, held: Dependency|
            after.contains_key(reading) && #[trigger] after[reading].dependencies.contains(held) implies after.contains_key(
            held.writer(),
        ) && after[held.writer()].cell_readers(held.slot()).contains(reading) by {
            if reading == id && held == dependency {
                assert(after[task].cell_readers(None).contains(id));
            } else {
                assert(tasks[reading].dependencies.contains(held));
                assert(tasks[held.writer()].cell_readers(held.slot()).contains(reading));
                assert(after.contains_key(held.writer()));
            }
        }
        assert forall|writing: TaskId, slot: Option<usize>, reading: TaskId|
            after.contains_key(writing) && #[trigger] after[writing].cell_readers(slot).contains(reading) implies after.contains_key(
            reading,
        ) && after[reading].dependencies.contains(Dependency::on(writing, slot)) by {
            assert(after.contains_key(writing));
            if writing == task && slot is None && reading == id {
            } else {
                assert(tasks[writing].cell_readers(slot).contains(reading));
            }
        }
    }
}

/// A read of a slot keeps the graph in order.
pub proof fn lemma_slot_read_graph(before: BackendView, task: TaskId, index: usize, reader: Option<TaskId>)
    requires
        graph_inv(before.tasks),
        before.slot_error(task, index) is None,
        reader matches Some(id) ==> before.tasks.contains_key(id),
    ensures
        graph_inv(before.after_slot_read(task, index, reader).tasks),
{
    let tasks = before.tasks;
    let after = before.after_slot_read(task, index, reader).tasks;
    let writer = tasks[task];
    if writer.slots[index as int].content is None {
        let waiting = writer.slot_awaited(index);
        assert(same_edges(writer, waiting));
        assert(same_family(writer, waiting));
        assert(run_inv(waiting)) by {
            assert forall|i: int| 0 <= i < waiting.slots.len() && (#[trigger] waiting.slots[i]).content
                is Some implies !waiting.slots[i].waiters by {
                if i != index {
                    assert(waiting.slots[i] == writer.slots[i]);
                }
            }
            assert forall|i: int| 0 <= i < waiting.slots.len() && (#[trigger] waiting.slots[i]).content
                is None implies waiting.slots[i].readers == Set::<TaskId>::empty() by {
                assert(waiting.slots[i].readers == writer.slots[i].readers);
            }
        }
        lemma_local_change(tasks, task, waiting);
    } else if let Some(id) = reader {
        let dependency = Dependency::OnSlot(task, index);
        assert(same_family_everywhere(tasks, after));
        lemma_family_frame(tasks, after);
        assert forall|other: TaskId| #[trigger] after.contains_key(other) implies run_inv(after[other]) && links_inv(
            after[other],
        ) by {
            assert(tasks.contains_key(other));
            assert forall|i: int| 0 <= i < after[other].slots.len() implies (#[trigger] after[other].slots[i]).content
                == tasks[other].slots[i].content && after[other].slots[i].waiters == tasks[other].slots[i].waiters by {}
            assert forall|i: int| 0 <= i < after[other].slots.len() && (#[trigger] after[other].slots[i]).content
                is None implies after[other].slots[i].readers == Set::<TaskId>::empty() by {
                if !(other == task && i == index) {
                    assert(after[other].slots[i].readers == tasks[other].slots[i].readers);
                }
            }
        }
        assert forall|other: TaskId, slot: Option<usize>| #[trigger]
            after.contains_key(other) implies #[trigger] after[other].cell_readers(slot) == if other == task && slot
            == Some(index) {
            tasks[other].cell_readers(slot).insert(id)
        } else {
            tasks[other].cell_readers(slot)
        } by {}
        assert forall|reading: TaskId, held: Dependency|
            after.contains_key(reading) && #[trigger] after[reading].dependencies.contains(held) implies after.contains_key(
            held.writer(),
        ) && after[held.writer()].cell_readers(held.slot()).contains(reading) by {
            if reading == id && held == dependency {
                assert(after[task].cell_readers(Some(index)).contains(id));
            } else {
                assert(tasks[reading].dependencies.contains(held));
                assert(tasks[held.writer()].cell_readers(held.slot()).contains(reading));
                assert(after.contains_key(held.writer()));
            }
        }
        assert forall|writing: TaskId, slot: Option<usize>, reading: TaskId|
            after.contains_key(writing) && #[trigger] after[writing].cell_readers(slot).contains(reading) implies after.contains_key(
            reading,
        ) && after[reading].dependencies.contains(Dependency::on(writing, slot)) by {
            assert(after.contains_key(writing));
            if writing == task && slot == Some(index) && reading == id {
            } else {
                assert(tasks[writing].cell_readers(slot).contains(reading));
            }
        }
    }
}

/// The active count of a task with finitely many parents is positive exactly
/// when the task is anchored or has an active parent.
pub proof fn lemma_count_positive(task: TaskView)
    requires
        task.active_parents.subset_of(task.parents),
        task.parents.finite(),
    ensures
        task.active_parents.finite(),
        task.active_count() > 0 <==> task.anchored || exists|parent: TaskId| task.active_parents.contains(parent),
{
    vstd::set_lib::lemma_len_subset(task.active_parents, task.parents);
    if task.active_parents.len() > 0 {
        assert(task.active_parents.contains(task.active_parents.choose()));
    }
    if exists|parent: TaskId| task.active_parents.contains(parent) {
        let parent = choose|parent: TaskId| task.active_parents.contains(parent);
        if task.active_parents.len() == 0 {
            task.active_parents.lemma_len0_is_empty();
            assert(task.active_parents =~= Set::<TaskId>::empty());
        }
    }
}

/// An assignment to a slot keeps the graph in order.
pub proof fn lemma_slot_write_graph(before: BackendView, task: TaskId, index: usize, content: Value)
    requires
        graph_inv(before.tasks),
        before.slot_error(task, index) is None,
    ensures
        graph_inv(before.after_slot_write(task, index, content).tasks),
{
    let tasks = before.tasks;
    let after = before.after_slot_write(task, index, content).tasks;
    let writer = tasks[task];
    let dependency = Dependency::OnSlot(task, index);
    let dropped = writer.assignment_drops(index, content);
    let written = tasks.insert(task, writer.slot_assigned(index, content, task));
    assert(same_family_everywhere(tasks, after));
    lemma_family_frame(tasks, after);
    assert forall|other: TaskId, slot: Option<usize>| #[trigger]
        after.contains_key(other) implies #[trigger] after[other].cell_readers(slot) == if other == task && slot
        == Some(index) && writer.slots[index as int].content != Some(content) {
        Set::<TaskId>::empty()
    } else {
        tasks[other].cell_readers(slot)
    } by {}
    assert forall|other: TaskId| #[trigger] after.contains_key(other) implies run_inv(after[other]) && links_inv(
        after[other],
    ) by {
        assert(tasks.contains_key(other));
        assert forall|i: int| 0 <= i < after[other].slots.len() implies ((#[trigger] after[other].slots[i]).content
            is Some ==> !after[other].slots[i].waiters) && (after[other].slots[i].content is None
            ==> after[other].slots[i].readers == Set::<TaskId>::empty()) by {
            if !(other == task && i == index) {
                assert(after[other].slots[i] == tasks[other].slots[i]);
            }
        }
    }
    assert forall|reading: TaskId, held: Dependency|
        after.contains_key(reading) && #[trigger] after[reading].dependencies.contains(held) implies after.contains_key(
        held.writer(),
    ) && after[held.writer()].cell_readers(held.slot()).contains(reading) by {
        assert(tasks[reading].dependencies.contains(held));
        assert(tasks[held.writer()].cell_readers(held.slot()).contains(reading));
        assert(after.contains_key(held.writer()));
    }
    assert forall|writing: TaskId, slot: Option<usize>, reading: TaskId|
        after.contains_key(writing) && #[trigger] after[writing].cell_readers(slot).contains(reading) implies after.contains_key(
        reading,
    ) && after[reading].dependencies.contains(Dependency::on(writing, slot)) by {
        assert(after.contains_key(writing));
        assert(tasks[writing].cell_readers(slot).contains(reading));
    }
}

/// What holds of the tasks but for one task that has just got its first
/// active parent and is not active yet.
pub open spec fn graph_inv_but(tasks: Map<TaskId, TaskView>, start: TaskId) -> bool {
    &&& forall|id: TaskId|
        #[trigger] tasks.contains_key(id) ==> run_inv(tasks[id]) && (id != start ==> links_inv(tasks[id]))
    &&& tasks.contains_key(start)
    &&& links_inv(TaskView { active: true, ..tasks[start] })
    &&& edges_inv(tasks)
    &&& family_inv(tasks)
}

/// The spreading of activity from a task that has just got its first active
/// parent puts the graph in order.
pub proof fn lemma_activated_graph(tasks: Map<TaskId, TaskView>, start: TaskId)
    requires
        graph_inv_but(tasks, start),
        !tasks[start].active,
    ensures
        graph_inv(activated(tasks, start)),
{
    let after = activated(tasks, start);
    lemma_start_wakes(tasks, start);
    assert(same_edges_everywhere(tasks, after));
    lemma_edges_frame(tasks, after);
    assert forall|id: TaskId| #[trigger] after.contains_key(id) implies after[id].active_parents.subset_of(
        after[id].parents,
    ) by {
        assert forall|parent: TaskId| after[id].active_parents.contains(parent) implies after[id].parents.contains(
            parent,
        ) by {
            if !tasks[id].active_parents.contains(parent) {
                assert(tasks[parent].children.contains(id));
            } else if id == start {
                assert((TaskView { active: true, ..tasks[start] }).active_parents.contains(parent));
            }
        }
    }
    assert forall|id: TaskId| #[trigger] after.contains_key(id) implies run_inv(after[id]) && links_inv(after[id]) by {
        assert(tasks.contains_key(id));
        let before = if id == start {
            TaskView { active: true, ..tasks[start] }
        } else {
            tasks[id]
        };
        assert(links_inv(before));
        lemma_count_positive(after[id]);
        lemma_count_positive(before);
        if after[id].active_count() > 0 && !after[id].active {
            assert(!after[id].anchored);
            let parent = choose|parent: TaskId| after[id].active_parents.contains(parent);
            if tasks[id].active_parents.contains(parent) {
                assert(before.active_parents.contains(parent));
                assert(before.active_count() > 0);
            } else {
                assert(wakes(tasks, start, parent));
                assert(tasks[parent].children.contains(id));
                lemma_path_extends(tasks, start, parent, id);
            }
        }
    }
    assert forall|parent: TaskId, child: TaskId|
        after.contains_key(parent) && #[trigger] after[parent].children.contains(child) implies after.contains_key(child)
            && after[child].parents.contains(parent) by {
        assert(tasks[parent].children.contains(child));
    }
    assert forall|child: TaskId, parent: TaskId|
        after.contains_key(child) && #[trigger] after[child].parents.contains(parent) implies after.contains_key(parent)
            && after[parent].children.contains(child) && (after[child].active_parents.contains(parent)
            <==> after[parent].active) by {
        assert(tasks[child].parents.contains(parent));
        if wakes(tasks, start, parent) {
            assert(parents_among(tasks, woken(tasks, start), child).contains(parent));
        }
    }
}

/// Connecting a persistent child to a parent keeps the graph in order.
pub proof fn lemma_connected_graph(tasks: Map<TaskId, TaskView>, parent: TaskId, child: TaskId)
    requires
        graph_inv(tasks),
        tasks.contains_key(parent),
        tasks.contains_key(child),
        tasks[child].ty is Persistent,
    ensures
        graph_inv(connected(tasks, parent, child)),
{
    let joined = linked(tasks, parent, child);
    let added = !tasks[parent].children.contains(child);
    assert(same_edges_everywhere(tasks, joined));
    lemma_edges_frame(tasks, joined);
    assert forall|id: TaskId| #[trigger] joined.contains_key(id) implies run_inv(joined[id]) by {
        assert(tasks.contains_key(id));
    }
    assert(family_inv(joined)) by {
        assert forall|p: TaskId, c: TaskId|
            joined.contains_key(p) && #[trigger] joined[p].children.contains(c) implies joined.contains_key(c)
                && joined[c].parents.contains(p) by {
            if !(p == parent && c == child) {
                assert(tasks[p].children.contains(c));
            }
        }
        assert forall|c: TaskId, p: TaskId|
            joined.contains_key(c) && #[trigger] joined[c].parents.contains(p) implies joined.contains_key(p)
                && joined[p].children.contains(c) && (joined[c].active_parents.contains(p) <==> joined[p].active) by {
            if !(p == parent && c == child) {
                assert(tasks[c].parents.contains(p));
            } else if !added {
                assert(tasks[p].children.contains(c));
                assert(tasks[c].parents.contains(p));
            }
        }
    }
    assert forall|id: TaskId| #[trigger] joined.contains_key(id) && id != child implies links_inv(joined[id]) by {
        assert(tasks.contains_key(id));
    }
    let woken_child = TaskView { active: true, ..joined[child] };
    assert(links_inv(woken_child) && (!link_wakes(tasks, parent, child) ==> links_inv(joined[child]))) by {
        assert(links_inv(tasks[child]));
        lemma_count_positive(tasks[child]);
        lemma_count_positive(joined[child]);
        if joined[child].active_count() > 0 && !joined[child].active {
            let credited = choose|p: TaskId| joined[child].active_parents.contains(p);
            if tasks[child].active_parents.contains(credited) {
                assert(tasks[child].active_count() > 0);
            }
        }
    }
    if link_wakes(tasks, parent, child) {
        lemma_activated_graph(joined, child);
    }
}

/// Storing the outcome of a run that still counts keeps the graph in order.
pub proof fn lemma_stored_graph(tasks: Map<TaskId, TaskView>, task: TaskId, epoch: u64, outcome: Outcome)
    requires
        graph_inv(tasks),
        tasks.contains_key(task),
    ensures
        graph_inv(
            scrubbed(
                tasks.insert(task, tasks[task].completed(epoch, outcome)),
                tasks[task].completion_drops(epoch, outcome),
                Dependency::OnOutput(task),
            ),
        ),
{
    let record = tasks[task];
    let after = scrubbed(
        tasks.insert(task, record.completed(epoch, outcome)),
        record.completion_drops(epoch, outcome),
        Dependency::OnOutput(task),
    );
    assert(same_family_everywhere(tasks, after));
    lemma_family_frame(tasks, after);
    assert forall|other: TaskId, slot: Option<usize>| #[trigger]
        after.contains_key(other) implies #[trigger] after[other].cell_readers(slot) == if other == task && slot
        is None && record.completes(epoch) && record.output.content != Some(outcome) {
        Set::<TaskId>::empty()
    } else {
        tasks[other].cell_readers(slot)
    } by {}
    assert forall|other: TaskId| #[trigger] after.contains_key(other) implies run_inv(after[other]) && links_inv(
        after[other],
    ) by {
        assert(tasks.contains_key(other));
    }
    assert forall|reading: TaskId, held: Dependency|
        after.contains_key(reading) && #[trigger] after[reading].dependencies.contains(held) implies after.contains_key(
        held.writer(),
    ) && after[held.writer()].cell_readers(held.slot()).contains(reading) by {
        assert(tasks[reading].dependencies.contains(held));
        assert(tasks[held.writer()].cell_readers(held.slot()).contains(reading));
        assert(after.contains_key(held.writer()));
    }
    assert forall|writing: TaskId, slot: Option<usize>, reading: TaskId|
        after.contains_key(writing) && #[trigger] after[writing].cell_readers(slot).contains(reading) implies after.contains_key(
        reading,
    ) && after[reading].dependencies.contains(Dependency::on(writing, slot)) by {
        assert(after.contains_key(writing));
        assert(tasks[writing].cell_readers(slot).contains(reading));
    }
}

/// Giving up dependencies keeps the graph in order.
pub proof fn lemma_unregistered_graph(tasks: Map<TaskId, TaskView>, reader: TaskId, gone: Set<Dependency>)
    requires
        graph_inv(tasks),
        tasks.contains_key(reader),
    ensures
        graph_inv(unregistered(tasks, reader, gone)),
{
    let after = unregistered(tasks, reader, gone);
    assert(same_family_everywhere(tasks, after));
    lemma_family_frame(tasks, after);
    assert forall|other: TaskId, slot: Option<usize>| #[trigger]
        after.contains_key(other) implies #[trigger] after[other].cell_readers(slot) == if gone.contains(
        Dependency::on(other, slot),
    ) {
        tasks[other].cell_readers(slot).remove(reader)
    } else {
        tasks[other].cell_readers(slot)
    } by {
        match slot {
            Some(index) => {
                if index < tasks[other].slots.len() {
                    assert((index as int) as usize == index);
                } else {
                    assert(Set::<TaskId>::empty().remove(reader) =~= Set::<TaskId>::empty());
                }
            },
            None => {},
        }
    }
    assert forall|other: TaskId| #[trigger] after.contains_key(other) implies run_inv(after[other]) && links_inv(
        after[other],
    ) by {
        assert(tasks.contains_key(other));
        assert(run_inv(tasks[other]));
        if tasks[other].output.content is None {
            assert(after[other].output.readers =~= Set::<TaskId>::empty());
        }
        assert forall|i: int| 0 <= i < after[other].slots.len() implies ((#[trigger] after[other].slots[i]).content
            is Some ==> !after[other].slots[i].waiters) && (after[other].slots[i].content is None
            ==> after[other].slots[i].readers == Set::<TaskId>::empty()) by {
            assert(after[other].slots[i].content == tasks[other].slots[i].content);
            assert(after[other].slots[i].waiters == tasks[other].slots[i].waiters);
            if tasks[other].slots[i].content is None {
                assert(after[other].slots[i].readers =~= Set::<TaskId>::empty());
            }
        }
    }
    assert forall|reading: TaskId, held: Dependency|
        after.contains_key(reading) && #[trigger] after[reading].dependencies.contains(held) implies after.contains_key(
        held.writer(),
    ) && after[held.writer()].cell_readers(held.slot()).contains(reading) by {
        assert(tasks[reading].dependencies.contains(held));
        assert(tasks[held.writer()].cell_readers(held.slot()).contains(reading));
        assert(after.contains_key(held.writer()));
        assert(Dependency::on(held.writer(), held.slot()) == held);
    }
    assert forall|writing: TaskId, slot: Option<usize>, reading: TaskId|
        after.contains_key(writing) && #[trigger] after[writing].cell_readers(slot).contains(reading) implies after.contains_key(
        reading,
    ) && after[reading].dependencies.contains(Dependency::on(writing, slot)) by {
        assert(after.contains_key(writing));
        assert(tasks[writing].cell_readers(slot).contains(reading));
    }
}

/// Giving up children keeps the graph in order.
pub proof fn lemma_pruned_graph(tasks: Map<TaskId, TaskView>, parent: TaskId, gone: Set<TaskId>)
    requires
        graph_inv(tasks),
        tasks.contains_key(parent),
    ensures
        graph_inv(pruned(tasks, parent, gone)),
{
    let after = pruned(tasks, parent, gone);
    assert(same_edges_everywhere(tasks, after));
    lemma_edges_frame(tasks, after);
    assert forall|id: TaskId| #[trigger] after.contains_key(id) implies run_inv(after[id]) && links_inv(after[id]) by {
        assert(tasks.contains_key(id));
        assert(links_inv(tasks[id]));
        lemma_count_positive(tasks[id]);
        assert(after[id].parents.subset_of(tasks[id].parents));
        vstd::set_lib::lemma_len_subset(after[id].parents, tasks[id].parents);
        lemma_count_positive(after[id]);
        if after[id].active_count() > 0 && !after[id].anchored {
            let credited = choose|p: TaskId| after[id].active_parents.contains(p);
            assert(tasks[id].active_parents.contains(credited));
        }
        if tasks[id].ty is Transient {
            assert(after[id].parents =~= Set::<TaskId>::empty());
        }
    }
    assert forall|p: TaskId, c: TaskId|
        after.contains_key(p) && #[trigger] after[p].children.contains(c) implies after.contains_key(c)
            && after[c].parents.contains(p) by {
        assert(tasks[p].children.contains(c));
    }
    assert forall|c: TaskId, p: TaskId|
        after.contains_key(c) && #[trigger] after[c].parents.contains(p) implies after.contains_key(p)
            && after[p].children.contains(c) && (after[c].active_parents.contains(p) <==> after[p].active) by {
        assert(tasks[c].parents.contains(p));
    }
}

/// Abandoning the slots that a run no longer maps keeps the graph in order.
pub proof fn lemma_remapped_graph(tasks: Map<TaskId, TaskView>, task: TaskId, next: Seq<SlotMapping>)
    requires
        graph_inv(tasks),
        tasks.contains_key(task),
        slots_fit(tasks),
    ensures
        graph_inv(remapped(tasks, task, next)),
{
    let count = tasks[task].slots.len() as int;
    let emptied = abandoned_before(tasks, task, next, count);
    let after = remapped(tasks, task, next);
    assert(same_family_everywhere(tasks, after));
    lemma_family_frame(tasks, after);
    assert forall|other: TaskId, slot: Option<usize>| #[trigger]
        after.contains_key(other) implies #[trigger] after[other].cell_readers(slot) == if other == task && (slot
        matches Some(index) && tasks[task].abandons(next, index as int)) {
        Set::<TaskId>::empty()
    } else {
        tasks[other].cell_readers(slot)
    } by {}
    assert forall|other: TaskId| #[trigger] after.contains_key(other) implies run_inv(after[other]) && links_inv(
        after[other],
    ) by {
        assert(tasks.contains_key(other));
        assert(run_inv(tasks[other]));
        assert forall|i: int| 0 <= i < after[other].slots.len() implies ((#[trigger] after[other].slots[i]).content
            is Some ==> !after[other].slots[i].waiters) && (after[other].slots[i].content is None
            ==> after[other].slots[i].readers == Set::<TaskId>::empty()) by {
            if !(other == task && tasks[task].abandons(next, i)) {
                assert(after[other].slots[i] == tasks[other].slots[i]);
            }
        }
    }
    assert forall|reading: TaskId, held: Dependency|
        after.contains_key(reading) && #[trigger] after[reading].dependencies.contains(held) implies after.contains_key(
        held.writer(),
    ) && after[held.writer()].cell_readers(held.slot()).contains(reading) by {
        assert(tasks[reading].dependencies.contains(held));
        assert(tasks[held.writer()].cell_readers(held.slot()).contains(reading));
        assert(after.contains_key(held.writer()));
        match held {
            Dependency::OnSlot(writer, index) => {
                if writer == task && tasks[task].abandons(next, index as int) {
                    assert(abandoned_dependencies(tasks, task, next, count, reading).contains(held));
                }
            },
            Dependency::OnOutput(_) => {},
        }
    }
    assert forall|writing: TaskId, slot: Option<usize>, reading: TaskId|
        after.contains_key(writing) && #[trigger] after[writing].cell_readers(slot).contains(reading) implies after.contains_key(
        reading,
    ) && after[reading].dependencies.contains(Dependency::on(writing, slot)) by {
        assert(after.contains_key(writing));
        assert(tasks[writing].cell_readers(slot).contains(reading));
    }
}

/// Deactivating tasks that are active with an active count of zero keeps
/// the graph in order.
pub proof fn lemma_deactivated_graph(tasks: Map<TaskId, TaskView>, gone: Set<TaskId>)
    requires
        graph_inv(tasks),
        forall|id: TaskId| #[trigger] gone.contains(id) ==> tasks.contains_key(id) && tasks[id].idle(),
    ensures
        graph_inv(deactivated(tasks, gone)),
{
    let after = deactivated(tasks, gone);
    assert(same_edges_everywhere(tasks, after));
    lemma_edges_frame(tasks, after);
    assert forall|id: TaskId| #[trigger] after.contains_key(id) implies run_inv(after[id]) && links_inv(after[id]) by {
        assert(tasks.contains_key(id));
        assert(links_inv(tasks[id]));
        lemma_count_positive(tasks[id]);
        lemma_count_positive(after[id]);
        if after[id].active_count() > 0 && !after[id].anchored {
            let credited = choose|p: TaskId| after[id].active_parents.contains(p);
            assert(tasks[id].active_parents.contains(credited));
        }
    }
    assert forall|p: TaskId, c: TaskId|
        after.contains_key(p) && #[trigger] after[p].children.contains(c) implies after.contains_key(c)
            && after[c].parents.contains(p) by {
        assert(tasks[p].children.contains(c));
    }
    assert forall|c: TaskId, p: TaskId|
        after.contains_key(c) && #[trigger] after[c].parents.contains(p) implies after.contains_key(p)
            && after[p].children.contains(c) && (after[c].active_parents.contains(p) <==> after[p].active) by {
        assert(tasks[c].parents.contains(p));
        if gone.contains(p) {
            assert(parents_among(tasks, gone, c).contains(p));
        }
    }
}

/// The release of an anchor keeps the graph in order.
pub proof fn lemma_released_graph(tasks: Map<TaskId, TaskView>, task: TaskId)
    requires
        graph_inv(tasks),
        tasks.contains_key(task),
    ensures
        graph_inv(tasks.insert(task, TaskView { anchored: false, ..tasks[task] })),
{
    let released = TaskView { anchored: false, ..tasks[task] };
    let after = tasks.insert(task, released);
    assert(same_edges_everywhere(tasks, after));
    lemma_edges_frame(tasks, after);
    assert forall|p: TaskId, c: TaskId|
        after.contains_key(p) && #[trigger] after[p].children.contains(c) implies after.contains_key(c)
            && after[c].parents.contains(p) by {
        assert(tasks[p].children.contains(c));
    }
    assert forall|c: TaskId, p: TaskId|
        after.contains_key(c) && #[trigger] after[c].parents.contains(p) implies after.contains_key(p)
            && after[p].children.contains(c) && (after[c].active_parents.contains(p) <==> after[p].active) by {
        assert(tasks[c].parents.contains(p));
    }
}

/// Taking every trace of a task that has left the store from the tasks that
/// are left keeps the graph in order.
pub proof fn lemma_purged_graph(tasks: Map<TaskId, TaskView>, gone: TaskId)
    requires
        graph_inv(tasks),
        tasks.contains_key(gone),
        slots_fit(tasks),
    ensures
        graph_inv(purged(tasks.remove(gone), gone, tasks[gone])),
{
    let victim = tasks[gone];
    let rest = tasks.remove(gone);
    let after = purged(rest, gone, victim);
    let pairs = reader_pairs(gone, victim, victim.slots.len() as int);
    assert forall|other: TaskId, slot: Option<usize>| #[trigger]
        after.contains_key(other) implies #[trigger] after[other].cell_readers(slot) == if victim.dependencies.contains(
        Dependency::on(other, slot),
    ) {
        tasks[other].cell_readers(slot).remove(gone)
    } else {
        tasks[other].cell_readers(slot)
    } by {
        match slot {
            Some(index) => {
                if index < tasks[other].slots.len() {
                    assert((index as int) as usize == index);
                } else {
                    assert(Set::<TaskId>::empty().remove(gone) =~= Set::<TaskId>::empty());
                }
            },
            None => {},
        }
    }
    assert forall|other: TaskId| #[trigger] after.contains_key(other) implies run_inv(after[other]) && links_inv(
        after[other],
    ) by {
        assert(tasks.contains_key(other));
        assert(run_inv(tasks[other]) && links_inv(tasks[other]));
        if tasks[other].output.content is None {
            assert(after[other].output.readers =~= Set::<TaskId>::empty());
        }
        assert forall|i: int| 0 <= i < after[other].slots.len() implies ((#[trigger] after[other].slots[i]).content
            is Some ==> !after[other].slots[i].waiters) && (after[other].slots[i].content is None
            ==> after[other].slots[i].readers == Set::<TaskId>::empty()) by {
            assert(after[other].slots[i].content == tasks[other].slots[i].content);
            assert(after[other].slots[i].waiters == tasks[other].slots[i].waiters);
            if tasks[other].slots[i].content is None {
                assert(after[other].slots[i].readers =~= Set::<TaskId>::empty());
            }
        }
        lemma_count_positive(tasks[other]);
        assert(after[other].parents.subset_of(tasks[other].parents));
        vstd::set_lib::lemma_len_subset(after[other].parents, tasks[other].parents);
        lemma_count_positive(after[other]);
        if after[other].active_count() > 0 && !after[other].anchored {
            let credited = choose|p: TaskId| after[other].active_parents.contains(p);
            assert(tasks[other].active_parents.contains(credited));
        }
        if tasks[other].ty is Transient {
            assert(after[other].parents =~= Set::<TaskId>::empty());
        }
    }
    assert forall|reading: TaskId, held: Dependency|
        after.contains_key(reading) && #[trigger] after[reading].dependencies.contains(held) implies after.contains_key(
        held.writer(),
    ) && after[held.writer()].cell_readers(held.slot()).contains(reading) by {
        assert(tasks[reading].dependencies.contains(held));
        assert(tasks[held.writer()].cell_readers(held.slot()).contains(reading));
        assert(Dependency::on(held.writer(), held.slot()) == held);
        if held.writer() == gone {
            assert(pairs.contains((reading, held)));
        }
    }
    assert forall|writing: TaskId, slot: Option<usize>, reading: TaskId|
        after.contains_key(writing) && #[trigger] after[writing].cell_readers(slot).contains(reading) implies after.contains_key(
        reading,
    ) && after[reading].dependencies.contains(Dependency::on(writing, slot)) by {
        assert(after.contains_key(writing));
        assert(tasks[writing].cell_readers(slot).contains(reading));
        assert(!pairs.contains((reading, Dependency::on(writing, slot))));
    }
    assert forall|p: TaskId, c: TaskId|
        after.contains_key(p) && #[trigger] after[p].children.contains(c) implies after.contains_key(c)
            && after[c].parents.contains(p) by {
        assert(tasks[p].children.contains(c));
        assert(tasks[c].parents.contains(p));
    }
    assert forall|c: TaskId, p: TaskId|
        after.contains_key(c) && #[trigger] after[c].parents.contains(p) implies after.contains_key(p)
            && after[p].children.contains(c) && (after[c].active_parents.contains(p) <==> after[p].active) by {
        assert(tasks[c].parents.contains(p));
        assert(tasks[p].children.contains(c));
    }
}

/// Whether nothing relates the task to another.
pub open spec fn isolated(task: TaskView) -> bool {
    &&& task.dependencies == Set::<Dependency>::empty()
    &&& task.children == Set::<TaskId>::empty()
    &&& task.parents == Set::<TaskId>::empty()
    &&& task.output.readers == Set::<TaskId>::empty()
    &&& forall|i: int| 0 <= i < task.slots.len() ==> (#[trigger] task.slots[i]).readers == Set::<TaskId>::empty()
}

/// Dropping a task that nothing relates to another keeps the graph in order.
pub proof fn lemma_dropped_graph(tasks: Map<TaskId, TaskView>, id: TaskId)
    requires
        graph_inv(tasks),
        tasks.contains_key(id),
        isolated(tasks[id]),
    ensures
        graph_inv(tasks.remove(id)),
{
    let after = tasks.remove(id);
    assert forall|slot: Option<usize>| #[trigger] tasks[id].cell_readers(slot) == Set::<TaskId>::empty() by {}
    assert forall|reading: TaskId, held: Dependency|
        after.contains_key(reading) && #[trigger] after[reading].dependencies.contains(held) implies after.contains_key(
        held.writer(),
    ) && after[held.writer()].cell_readers(held.slot()).contains(reading) by {
        assert(tasks[reading].dependencies.contains(held));
        assert(tasks[held.writer()].cell_readers(held.slot()).contains(reading));
    }
    assert forall|writing: TaskId, slot: Option<usize>, reading: TaskId|
        after.contains_key(writing) && #[trigger] after[writing].cell_readers(slot).contains(reading) implies after.contains_key(
        reading,
    ) && after[reading].dependencies.contains(Dependency::on(writing, slot)) by {
        assert(tasks[writing].cell_readers(slot).contains(reading));
        assert(tasks[reading].dependencies.contains(Dependency::on(writing, slot)));
    }
    assert forall|p: TaskId, c: TaskId|
        after.contains_key(p) && #[trigger] after[p].children.contains(c) implies after.contains_key(c)
            && after[c].parents.contains(p) by {
        assert(tasks[p].children.contains(c));
        assert(tasks[c].parents.contains(p));
    }
    assert forall|c: TaskId, p: TaskId|
        after.contains_key(c) && #[trigger] after[c].parents.contains(p) implies after.contains_key(p)
            && after[p].children.contains(c) && (after[c].active_parents.contains(p) <==> after[p].active) by {
        assert(tasks[c].parents.contains(p));
        assert(tasks[p].children.contains(c));
    }
}

/// The end of a run keeps the graph in order.
pub proof fn lemma_completion_graph(
    before: BackendView,
    task: TaskId,
    epoch: u64,
    next: Option<Seq<SlotMapping>>,
    outcome: Outcome,
)
    requires
        graph_inv(before.tasks),
        before.tasks.contains_key(task),
        slots_fit(before.tasks),
        !before.completion_blocked(task, epoch),
    ensures
        graph_inv(before.after_completion(task, epoch, next, outcome).tasks),
{
    let record = before.tasks[task];
    if !record.completes(epoch) {
        let ended = record.completed(epoch, outcome);
        assert(same_edges(record, ended));
        assert(same_family(record, ended));
        lemma_local_change(before.tasks, task, ended);
    } else {
        let stages = before.completion_stages(task, epoch, next, outcome);
        lemma_stored_graph(before.tasks, task, epoch, outcome);
        lemma_unregistered_graph(stages.stored, task, stages.stored[task].stale_dependencies());
        lemma_pruned_graph(stages.read, task, stages.read[task].stale_children());
        match next {
            Some(table) => {
                assert forall|id: TaskId| #[trigger] stages.kept.contains_key(id) implies stages.kept[id].slots.len()
                    <= usize::MAX by {
                    assert(before.tasks.contains_key(id));
                    assert(stages.kept[id].slots.len() == before.tasks[id].slots.len());
                }
                lemma_remapped_graph(stages.kept, task, table);
            },
            None => {},
        }
    }
}

/// Every listener listens to a cell that someone is marked to wait for: the
/// output of a stored task that is not done, or a slot of a stored task that
/// is empty.
pub open spec fn listeners_inv(tasks: Map<TaskId, TaskView>, listeners: Set<WaitHandle>) -> bool {
    forall|handle: WaitHandle|
        #[trigger] listeners.contains(handle) ==> tasks.contains_key(handle.task) && tasks[handle.task].awaits(
            handle.slot,
        )
}

/// Whether whoever waits for a cell of the first record waits for it in the
/// second as well.
pub open spec fn waiters_kept(a: TaskView, b: TaskView) -> bool {
    &&& a.output.waiters ==> b.output.waiters
    &&& a.slots.len() <= b.slots.len()
    &&& forall|i: int| 0 <= i < a.slots.len() ==> ((#[trigger] a.slots[i]).waiters ==> b.slots[i].waiters)
}

/// Whether every task of the first map is a task of the second, and whoever
/// waits for a cell of it still does.
pub open spec fn waiters_kept_everywhere(a: Map<TaskId, TaskView>, b: Map<TaskId, TaskView>) -> bool {
    forall|id: TaskId| #[trigger] a.contains_key(id) ==> b.contains_key(id) && waiters_kept(a[id], b[id])
}

/// Listeners stay in order as long as nobody who waits is forgotten.
pub proof fn lemma_listeners_frame(a: Map<TaskId, TaskView>, b: Map<TaskId, TaskView>, listeners: Set<WaitHandle>)
    requires
        listeners_inv(a, listeners),
        waiters_kept_everywhere(a, b),
    ensures
        listeners_inv(b, listeners),
{
    assert forall|handle: WaitHandle| #[trigger] listeners.contains(handle) implies b.contains_key(handle.task)
        && b[handle.task].awaits(handle.slot) by {
        assert(a.contains_key(handle.task));
        assert(waiters_kept(a[handle.task], b[handle.task]));
        match handle.slot {
            Some(index) => {
                assert(a[handle.task].slots[index as int].waiters);
            },
            None => {},
        }
    }
}

/// A change of one record that forgets nobody who waits keeps the listeners
/// in order.
pub proof fn lemma_listeners_local(
    tasks: Map<TaskId, TaskView>,
    listeners: Set<WaitHandle>,
    id: TaskId,
    task: TaskView,
)
    requires
        listeners_inv(tasks, listeners),
        tasks.contains_key(id) ==> waiters_kept(tasks[id], task),
    ensures
        listeners_inv(tasks.insert(id, task), listeners),
{
    assert(waiters_kept_everywhere(tasks, tasks.insert(id, task)));
    lemma_listeners_frame(tasks, tasks.insert(id, task), listeners);
}

/// Fewer listeners are in order where more are.
pub proof fn lemma_listeners_fewer(tasks: Map<TaskId, TaskView>, listeners: Set<WaitHandle>, fewer: Set<WaitHandle>)
    requires
        listeners_inv(tasks, listeners),
        fewer.subset_of(listeners),
    ensures
        listeners_inv(tasks, fewer),
{
}

/// A read of an output keeps the listeners in order.
pub proof fn lemma_output_read_listeners(before: BackendView, task: TaskId, reader: Option<TaskId>)
    requires
        listeners_inv(before.tasks, before.listeners),
        before.tasks.contains_key(task),
        reader matches Some(id) ==> before.tasks.contains_key(id),
    ensures
        listeners_inv(before.after_output_read(task, reader).tasks, before.after_output_read(task, reader).listeners),
{
    let after = before.after_output_read(task, reader);
    assert(waiters_kept_everywhere(before.tasks, after.tasks));
    lemma_listeners_frame(before.tasks, after.tasks, before.listeners);
}

/// A read of a slot keeps the listeners in order.
pub proof fn lemma_slot_read_listeners(before: BackendView, task: TaskId, index: usize, reader: Option<TaskId>)
    requires
        listeners_inv(before.tasks, before.listeners),
        before.slot_error(task, index) is None,
        reader matches Some(id) ==> before.tasks.contains_key(id),
    ensures
        listeners_inv(
            before.after_slot_read(task, index, reader).tasks,
            before.after_slot_read(task, index, reader).listeners,
        ),
{
    let after = before.after_slot_read(task, index, reader);
    assert(waiters_kept_everywhere(before.tasks, after.tasks));
    lemma_listeners_frame(before.tasks, after.tasks, before.listeners);
}

/// An assignment to a slot keeps the listeners in order.
pub proof fn lemma_slot_write_listeners(before: BackendView, task: TaskId, index: usize, content: Value)
    requires
        listeners_inv(before.tasks, before.listeners),
        before.slot_error(task, index) is None,
    ensures
        listeners_inv(
            before.after_slot_write(task, index, content).tasks,
            before.after_slot_write(task, index, content).listeners,
        ),
{
    let after = before.after_slot_write(task, index, content);
    let target = WaitHandle { task, slot: Some(index) };
    assert forall|handle: WaitHandle| #[trigger] after.listeners.contains(handle) implies after.tasks.contains_key(
        handle.task,
    ) && after.tasks[handle.task].awaits(handle.slot) by {
        assert(before.listeners.contains(handle));
        assert(before.tasks[handle.task].awaits(handle.slot));
        if handle == target {
            assert(before.tasks[task].slots[index as int].waiters);
        } else {
            match handle.slot {
                Some(at) => {
                    assert(after.tasks[handle.task].slots[at as int].waiters == before.tasks[handle.task].slots[at as int].waiters);
                },
                None => {},
            }
        }
    }
}

/// The end of a run keeps the listeners in order.
pub proof fn lemma_completion_listeners(
    before: BackendView,
    task: TaskId,
    epoch: u64,
    next: Option<Seq<SlotMapping>>,
    outcome: Outcome,
)
    requires
        listeners_inv(before.tasks, before.listeners),
        before.tasks.contains_key(task),
    ensures
        listeners_inv(
            before.after_completion(task, epoch, next, outcome).tasks,
            before.after_completion(task, epoch, next, outcome).listeners,
        ),
{
    let after = before.after_completion(task, epoch, next, outcome);
    let record = before.tasks[task];
    let target = WaitHandle { task, slot: None };
    if record.completes(epoch) {
        let stages = before.completion_stages(task, epoch, next, outcome);
        assert forall|id: TaskId, slot: Option<usize>| #[trigger]
            before.tasks.contains_key(id) && #[trigger] before.tasks[id].awaits(slot) && !(id == task && slot
            is None) implies stages.mapped.contains_key(id) && stages.mapped[id].awaits(slot) by {
            assert(stages.stored.contains_key(id));
            assert(stages.read.contains_key(id));
            assert(stages.kept.contains_key(id));
            match slot {
                Some(index) => {
                    assert(stages.stored[id].slots[index as int].waiters);
                    assert(stages.read[id].slots[index as int].waiters);
                    assert(stages.kept[id].slots[index as int].waiters);
                },
                None => {
                    assert(stages.kept[id].output.waiters);
                },
            }
        }
        assert forall|handle: WaitHandle| #[trigger] after.listeners.contains(handle) implies after.tasks.contains_key(
            handle.task,
        ) && after.tasks[handle.task].awaits(handle.slot) by {
            assert(before.listeners.contains(handle));
            assert(before.tasks[handle.task].awaits(handle.slot));
            if handle == target {
                assert(record.output.waiters);
            }
        }
    } else {
        assert(waiters_kept(record, record.completed(epoch, outcome)));
        lemma_listeners_local(before.tasks, before.listeners, task, record.completed(epoch, outcome));
    }
}

/// The removal of a task keeps the listeners in order.
pub proof fn lemma_removed_listeners(before: BackendView, id: TaskId)
    requires
        listeners_inv(before.tasks, before.listeners),
    ensures
        listeners_inv(before.removed(id).tasks, before.removed(id).listeners),
{
    let after = before.removed(id);
    if before.removes(id) {
        assert forall|handle: WaitHandle| #[trigger] after.listeners.contains(handle) implies after.tasks.contains_key(
            handle.task,
        ) && after.tasks[handle.task].awaits(handle.slot) by {
            assert(before.listeners.contains(handle));
            assert(before.tasks[handle.task].awaits(handle.slot));
            if handle.task == id {
                assert(waited(id, before.tasks[id]).contains(handle));
            } else {
                match handle.slot {
                    Some(at) => {
                        assert(after.tasks[handle.task].slots[at as int].waiters == before.tasks[handle.task].slots[at as int].waiters);
                    },
                    None => {},
                }
            }
        }
    }
}

/// The invalidation of a set of tasks keeps the listeners in order.
pub proof fn lemma_invalidated_listeners(tasks: Map<TaskId, TaskView>, ids: Set<TaskId>, listeners: Set<WaitHandle>)
    requires
        listeners_inv(tasks, listeners),
    ensures
        listeners_inv(invalidated(tasks, ids), listeners),
{
    assert(waiters_kept_everywhere(tasks, invalidated(tasks, ids)));
    lemma_listeners_frame(tasks, invalidated(tasks, ids), listeners);
}

/// Connecting a child to a parent keeps the listeners in order.
pub proof fn lemma_connected_listeners(
    tasks: Map<TaskId, TaskView>,
    parent: TaskId,
    child: TaskId,
    listeners: Set<WaitHandle>,
)
    requires
        listeners_inv(tasks, listeners),
    ensures
        listeners_inv(connected(tasks, parent, child), listeners),
{
    let joined = linked(tasks, parent, child);
    assert(waiters_kept_everywhere(tasks, joined));
    assert(waiters_kept_everywhere(joined, activated(joined, child)));
    lemma_listeners_frame(tasks, joined, listeners);
    lemma_listeners_frame(joined, activated(joined, child), listeners);
}

/// Deactivating tasks keeps the listeners in order.
pub proof fn lemma_deactivated_listeners(tasks: Map<TaskId, TaskView>, gone: Set<TaskId>, listeners: Set<WaitHandle>)
    requires
        listeners_inv(tasks, listeners),
    ensures
        listeners_inv(deactivated(tasks, gone), listeners),
{
    assert(waiters_kept_everywhere(tasks, deactivated(tasks, gone)));
    lemma_listeners_frame(tasks, deactivated(tasks, gone), listeners);
}

/// Dropping a task that nobody listens to keeps the listeners in order.
pub proof fn lemma_dropped_listeners(tasks: Map<TaskId, TaskView>, id: TaskId, listeners: Set<WaitHandle>)
    requires
        listeners_inv(tasks, listeners),
        forall|handle: WaitHandle| #[trigger] listeners.contains(handle) ==> handle.task != id,
    ensures
        listeners_inv(tasks.remove(id), listeners),
{
}

} // verus!
