//! How activity spreads from parents to children.
//!
//! A task is kept alive by its active parents and by an anchor. When a task
//! turns active, it counts towards the active count of each of its children,
//! and a child that was inactive turns active in turn.

use crate::backend::MemoryBackend;
use crate::ids::{ids_to_vec, lemma_take_all, lemma_take_to_set};
use crate::task::{TaskState, TaskView};
use crate::value::TaskId;
use vstd::prelude::*;
use vstd::set_lib::{lemma_int_range, set_int_range};

verus! {

/// Whether `path` leads from task to child through inactive tasks only.
pub open spec fn dormant_path(tasks: Map<TaskId, TaskView>, path: Seq<TaskId>) -> bool {
    &&& path.len() > 0
    &&& forall|i: int| 0 <= i < path.len() ==> tasks.contains_key(#[trigger] path[i]) && !tasks[path[i]].active
    &&& forall|i: int| 0 <= i < path.len() - 1 ==> tasks[#[trigger] path[i]].children.contains(path[i + 1])
}

/// Whether `id` turns active when `start` does: a path of inactive tasks
/// leads from `start` to `id`.
pub open spec fn wakes(tasks: Map<TaskId, TaskView>, start: TaskId, id: TaskId) -> bool {
    exists|path: Seq<TaskId>| #[trigger] dormant_path(tasks, path) && path[0] == start && path.last() == id
}

/// The parents of `id` among `awake`.
pub open spec fn parents_among(tasks: Map<TaskId, TaskView>, awake: Set<TaskId>, id: TaskId) -> Set<TaskId> {
    Set::new(|parent: TaskId| awake.contains(parent) && tasks.contains_key(parent) && tasks[parent].children.contains(id))
}

/// The tasks that turn active when `start` does.
pub open spec fn woken(tasks: Map<TaskId, TaskView>, start: TaskId) -> Set<TaskId> {
    Set::new(|id: TaskId| wakes(tasks, start, id))
}

/// The tasks after the inactive task `start` turned active: every task that
/// a path of inactive tasks leads to from `start` is active, and each of
/// them counts as an active parent of its children.
pub open spec fn activated(tasks: Map<TaskId, TaskView>, start: TaskId) -> Map<TaskId, TaskView> {
    Map::new(
        |id: TaskId| tasks.contains_key(id),
        |id: TaskId|
            TaskView {
                active: tasks[id].active || wakes(tasks, start, id),
                active_parents: tasks[id].active_parents.union(parents_among(tasks, woken(tasks, start), id)),
                ..tasks[id]
            },
    )
}

/// The tasks for which a run is asked for when `start` turns active: the
/// dirty ones among those that turn active.
pub open spec fn activation_schedules(tasks: Map<TaskId, TaskView>, start: TaskId) -> Set<TaskId> {
    Set::new(|id: TaskId| wakes(tasks, start, id) && tasks[id].state is Dirty)
}

/// The tasks with `child` recorded as a child of `parent`. A new child gets
/// `parent` as a parent, and as an active parent where `parent` is active.
pub open spec fn linked(tasks: Map<TaskId, TaskView>, parent: TaskId, child: TaskId) -> Map<TaskId, TaskView> {
    let with_child = tasks.insert(parent, tasks[parent].with_child(child));
    if tasks[parent].children.contains(child) {
        with_child
    } else {
        with_child.insert(child, with_child[child].with_parent(parent, tasks[parent].active))
    }
}

/// Whether recording `child` as a child of `parent` turns `child` active: it
/// is a new child, `parent` is active, and `child` is not.
pub open spec fn link_wakes(tasks: Map<TaskId, TaskView>, parent: TaskId, child: TaskId) -> bool {
    !tasks[parent].children.contains(child) && tasks[parent].active && !linked(tasks, parent, child)[child].active
}

/// The tasks after `child` was connected to `parent`.
pub open spec fn connected(tasks: Map<TaskId, TaskView>, parent: TaskId, child: TaskId) -> Map<TaskId, TaskView> {
    if link_wakes(tasks, parent, child) {
        activated(linked(tasks, parent, child), child)
    } else {
        linked(tasks, parent, child)
    }
}

/// The tasks for which a run is asked for when `child` is connected to
/// `parent`.
pub open spec fn connection_schedules(tasks: Map<TaskId, TaskView>, parent: TaskId, child: TaskId) -> Set<TaskId> {
    if link_wakes(tasks, parent, child) {
        activation_schedules(linked(tasks, parent, child), child)
    } else {
        Set::empty()
    }
}

/// The tasks while activity spreads from `current`: the tasks of `awake` are
/// active, those of `done` count as active parents of their children, and
/// `current` counts as an active parent of the tasks of `credited`.
pub open spec fn spreading(
    tasks: Map<TaskId, TaskView>,
    awake: Set<TaskId>,
    done: Set<TaskId>,
    current: TaskId,
    credited: Set<TaskId>,
) -> Map<TaskId, TaskView> {
    Map::new(
        |id: TaskId| tasks.contains_key(id),
        |id: TaskId|
            TaskView {
                active: tasks[id].active || awake.contains(id),
                active_parents: tasks[id].active_parents.union(parents_among(tasks, done, id)).union(
                    if credited.contains(id) {
                        set![current]
                    } else {
                        Set::empty()
                    },
                ),
                ..tasks[id]
            },
    )
}

/// Whether every inactive child of a task of `done` is in `awake`.
pub open spec fn closed_under_children(tasks: Map<TaskId, TaskView>, done: Set<TaskId>, awake: Set<TaskId>) -> bool {
    forall|parent: TaskId, child: TaskId|
        #![trigger done.contains(parent), tasks[parent].children.contains(child)]
        done.contains(parent) && tasks.contains_key(parent) && tasks[parent].children.contains(child)
            && tasks.contains_key(child) && !tasks[child].active ==> awake.contains(child)
}

/// A set that holds `start` and every inactive child of each of its tasks
/// holds every task on a path of inactive tasks from `start`.
pub proof fn lemma_closed_holds_path(
    tasks: Map<TaskId, TaskView>,
    start: TaskId,
    done: Set<TaskId>,
    path: Seq<TaskId>,
    i: int,
)
    requires
        done.contains(start),
        closed_under_children(tasks, done, done),
        dormant_path(tasks, path),
        path[0] == start,
        0 <= i < path.len(),
    ensures
        done.contains(path[i]),
    decreases i,
{
    if i > 0 {
        lemma_closed_holds_path(tasks, start, done, path, i - 1);
        assert(tasks[path[i - 1]].children.contains(path[i]));
    }
}

/// A path of inactive tasks that is made longer by an inactive child of its
/// last task is a path of inactive tasks.
pub proof fn lemma_path_extends(tasks: Map<TaskId, TaskView>, start: TaskId, from: TaskId, child: TaskId)
    requires
        wakes(tasks, start, from),
        tasks[from].children.contains(child),
        tasks.contains_key(child),
        !tasks[child].active,
    ensures
        wakes(tasks, start, child),
{
    let path = choose|path: Seq<TaskId>| #[trigger] dormant_path(tasks, path) && path[0] == start && path.last() == from;
    let longer = path.push(child);
    assert forall|i: int| 0 <= i < longer.len() implies tasks.contains_key(#[trigger] longer[i])
        && !tasks[longer[i]].active by {
        if i < path.len() {
            assert(longer[i] == path[i]);
        }
    }
    assert forall|i: int| 0 <= i < longer.len() - 1 implies tasks[#[trigger] longer[i]].children.contains(
        longer[i + 1],
    ) by {
        assert(longer[i] == path[i]);
        if i < path.len() - 1 {
            assert(longer[i + 1] == path[i + 1]);
        }
    }
    assert(dormant_path(tasks, longer));
}

/// An inactive task turns active when it does.
pub proof fn lemma_start_wakes(tasks: Map<TaskId, TaskView>, start: TaskId)
    requires
        tasks.contains_key(start),
        !tasks[start].active,
    ensures
        wakes(tasks, start, start),
{
    let path = seq![start];
    assert(dormant_path(tasks, path));
}

/// One step of the spreading: `current` counts as an active parent of `child`
/// too, and `child` is active from now on.
pub proof fn lemma_spread_credit(
    tasks: Map<TaskId, TaskView>,
    awake: Set<TaskId>,
    done: Set<TaskId>,
    current: TaskId,
    credited: Set<TaskId>,
    child: TaskId,
)
    ensures
        ({
            let before = spreading(tasks, awake, done, current, credited);
            let after = spreading(tasks, awake.insert(child), done, current, credited.insert(child));
            let same = spreading(tasks, awake, done, current, credited.insert(child));
            &&& tasks.contains_key(child) ==> after == before.insert(
                child,
                TaskView {
                    active: true,
                    active_parents: before[child].active_parents.insert(current),
                    ..before[child]
                },
            )
            &&& tasks.contains_key(child) && before[child].active ==> same == before.insert(
                child,
                TaskView { active_parents: before[child].active_parents.insert(current), ..before[child] },
            )
            &&& !tasks.contains_key(child) ==> same == before
        }),
{
    let before = spreading(tasks, awake, done, current, credited);
    let after = spreading(tasks, awake.insert(child), done, current, credited.insert(child));
    let same = spreading(tasks, awake, done, current, credited.insert(child));
    if tasks.contains_key(child) {
        assert(after =~~= before.insert(
            child,
            TaskView { active: true, active_parents: before[child].active_parents.insert(current), ..before[child] },
        ));
        if before[child].active {
            assert(same =~~= before.insert(
                child,
                TaskView { active_parents: before[child].active_parents.insert(current), ..before[child] },
            ));
        }
    } else {
        assert(same =~~= before);
    }
}

/// The end of one round of the spreading: `current`, which counts as an
/// active parent of each of its children, is done.
pub proof fn lemma_spread_round(
    tasks: Map<TaskId, TaskView>,
    awake: Set<TaskId>,
    done: Set<TaskId>,
    current: TaskId,
    start: TaskId,
)
    requires
        tasks.contains_key(current),
    ensures
        spreading(tasks, awake, done.insert(current), start, Set::empty()) == spreading(
            tasks,
            awake,
            done,
            current,
            tasks[current].children,
        ),
{
    let credited = tasks[current].children;
    let finished = done.insert(current);
    assert forall|id: TaskId| #[trigger] tasks.contains_key(id) implies parents_among(tasks, finished, id).union(
        Set::empty(),
    ) =~= parents_among(tasks, done, id).union(
        if credited.contains(id) {
            set![current]
        } else {
            Set::empty()
        },
    ) by {}
    assert(spreading(tasks, awake, finished, start, Set::empty()) =~~= spreading(tasks, awake, done, current, credited));
}

/// The end of the spreading: the tasks that are done are those that `start`
/// wakes.
pub proof fn lemma_spread_end(tasks: Map<TaskId, TaskView>, done: Set<TaskId>, start: TaskId)
    requires
        done == woken(tasks, start),
    ensures
        spreading(tasks, done, done, start, Set::empty()) == activated(tasks, start),
{
    assert forall|id: TaskId| #[trigger] tasks.contains_key(id) implies parents_among(tasks, done, id).union(
        Set::empty(),
    ) =~= parents_among(tasks, woken(tasks, start), id) by {}
    assert(spreading(tasks, done, done, start, Set::empty()) =~~= activated(tasks, start));
}

/// What holds while activity spreads from `start`: `awake` are the tasks
/// that have turned active, `done` those among them whose children have been
/// seen to, `worklist` those whose children are still to be seen to, and
/// `current` the one whose children are being seen to.
#[verifier::opaque]
pub open spec fn spread_inv(
    tasks: Map<TaskId, TaskView>,
    start: TaskId,
    awake: Set<TaskId>,
    done: Set<TaskId>,
    worklist: Seq<TaskId>,
    schedule: Seq<TaskId>,
    dormant: Set<int>,
    current: Option<TaskId>,
) -> bool {
    &&& tasks.contains_key(start)
    &&& worklist.no_duplicates()
    &&& forall|k: int|
        0 <= k < worklist.len() ==> awake.contains(#[trigger] worklist[k]) && !done.contains(worklist[k]) && Some(
            worklist[k],
        ) != current
    &&& forall|id: TaskId|
        #[trigger] awake.contains(id) ==> done.contains(id) || worklist.contains(id) || Some(id) == current
    &&& current matches Some(task) ==> awake.contains(task) && !done.contains(task)
    &&& forall|id: TaskId| #[trigger] done.contains(id) ==> awake.contains(id)
    &&& forall|id: TaskId| #[trigger] awake.contains(id) ==> wakes(tasks, start, id)
    &&& awake.contains(start)
    &&& closed_under_children(tasks, done, awake)
    &&& dormant.finite()
    &&& forall|id: TaskId|
        tasks.contains_key(id) && !tasks[id].active && !awake.contains(id) ==> #[trigger] dormant.contains(id as int)
    &&& schedule.no_duplicates()
    &&& forall|id: TaskId| #[trigger] schedule.contains(id) <==> awake.contains(id) && tasks[id].state is Dirty
}

/// The spreading starts with `start` awake and on the worklist.
pub proof fn lemma_spread_init(tasks: Map<TaskId, TaskView>, start: TaskId, bound: nat) -> (dormant: Set<int>)
    requires
        tasks.contains_key(start),
        !tasks[start].active,
        forall|id: TaskId| #[trigger] tasks.contains_key(id) ==> id < bound,
    ensures
        spread_inv(
            tasks,
            start,
            set![start],
            Set::empty(),
            seq![start],
            if tasks[start].state is Dirty {
                seq![start]
            } else {
                Seq::empty()
            },
            dormant,
            None,
        ),
        dormant.finite(),
{
    reveal(spread_inv);
    let dormant = set_int_range(0, bound as int).remove(start as int);
    lemma_int_range(0, bound as int);
    lemma_start_wakes(tasks, start);
    let worklist = seq![start];
    assert(worklist[0] == start);
    let schedule = if tasks[start].state is Dirty {
        seq![start]
    } else {
        Seq::<TaskId>::empty()
    };
    assert forall|id: TaskId| #[trigger] schedule.contains(id) <==> set![start].contains(id) && tasks[id].state
        is Dirty by {
        if tasks[start].state is Dirty {
            assert(schedule[0] == start);
        }
    }
    dormant
}

/// Taking the last task from the worklist makes it the current one.
pub proof fn lemma_spread_pop(
    tasks: Map<TaskId, TaskView>,
    start: TaskId,
    awake: Set<TaskId>,
    done: Set<TaskId>,
    worklist: Seq<TaskId>,
    schedule: Seq<TaskId>,
    dormant: Set<int>,
)
    requires
        spread_inv(tasks, start, awake, done, worklist, schedule, dormant, None),
        worklist.len() > 0,
    ensures
        spread_inv(tasks, start, awake, done, worklist.drop_last(), schedule, dormant, Some(worklist.last())),
        tasks.contains_key(worklist.last()),
        !tasks[worklist.last()].active,
        awake.contains(worklist.last()),
        dormant.finite(),
{
    reveal(spread_inv);
    let current = worklist.last();
    let rest = worklist.drop_last();
    assert(awake.contains(worklist[worklist.len() - 1]));
    let path = choose|path: Seq<TaskId>| #[trigger] dormant_path(tasks, path) && path[0] == start && path.last() == current;
    assert(tasks.contains_key(path[path.len() - 1]));
    assert forall|k: int| 0 <= k < rest.len() implies awake.contains(#[trigger] rest[k]) && !done.contains(rest[k])
        && Some(rest[k]) != Some(current) by {
        assert(rest[k] == worklist[k]);
    }
    assert forall|id: TaskId| #[trigger] awake.contains(id) implies done.contains(id) || rest.contains(id) || Some(id)
        == Some(current) by {
        if !done.contains(id) && id != current {
            let k = choose|k: int| 0 <= k < worklist.len() && worklist[k] == id;
            assert(rest[k] == id);
        }
    }
}

/// An inactive child of the current task that was not awake turns awake and
/// joins the worklist; a run of it is asked for where it is dirty.
pub proof fn lemma_spread_push(
    tasks: Map<TaskId, TaskView>,
    start: TaskId,
    awake: Set<TaskId>,
    done: Set<TaskId>,
    worklist: Seq<TaskId>,
    schedule: Seq<TaskId>,
    dormant: Set<int>,
    current: TaskId,
    child: TaskId,
)
    requires
        spread_inv(tasks, start, awake, done, worklist, schedule, dormant, Some(current)),
        tasks.contains_key(current),
        tasks[current].children.contains(child),
        tasks.contains_key(child),
        !tasks[child].active,
        !awake.contains(child),
    ensures
        spread_inv(
            tasks,
            start,
            awake.insert(child),
            done,
            worklist.push(child),
            if tasks[child].state is Dirty {
                schedule.push(child)
            } else {
                schedule
            },
            dormant.remove(child as int),
            Some(current),
        ),
        dormant.remove(child as int).len() + 1 == dormant.len(),
        dormant.remove(child as int).finite(),
{
    reveal(spread_inv);
    lemma_path_extends(tasks, start, current, child);
    let awake_next = awake.insert(child);
    let worklist_next = worklist.push(child);
    let schedule_next = if tasks[child].state is Dirty {
        schedule.push(child)
    } else {
        schedule
    };
    assert(dormant.contains(child as int));
    assert forall|k: int| 0 <= k < worklist_next.len() implies awake_next.contains(#[trigger] worklist_next[k])
        && !done.contains(worklist_next[k]) && Some(worklist_next[k]) != Some(current) by {
        if k < worklist.len() {
            assert(worklist_next[k] == worklist[k]);
        }
    }
    assert forall|id: TaskId| #[trigger] awake_next.contains(id) implies done.contains(id) || worklist_next.contains(id)
        || Some(id) == Some(current) by {
        if id == child {
            assert(worklist_next[worklist.len() as int] == child);
        } else if !done.contains(id) && id != current {
            let k = choose|k: int| 0 <= k < worklist.len() && worklist[k] == id;
            assert(worklist_next[k] == id);
        }
    }
    assert(!worklist.contains(child));
    assert forall|id: TaskId| #[trigger] schedule_next.contains(id) <==> awake_next.contains(id) && tasks[id].state
        is Dirty by {
        if schedule_next.contains(id) {
            let k = choose|k: int| 0 <= k < schedule_next.len() && schedule_next[k] == id;
            if k < schedule.len() {
                assert(schedule[k] == id);
                assert(schedule.contains(id));
            }
        }
        if awake_next.contains(id) && tasks[id].state is Dirty {
            if id == child {
                assert(schedule_next[schedule.len() as int] == id);
            } else {
                assert(schedule.contains(id));
                let k = choose|k: int| 0 <= k < schedule.len() && schedule[k] == id;
                assert(schedule_next[k] == id);
            }
        }
    }
    assert(!schedule.contains(child));
    assert(closed_under_children(tasks, done, awake_next));
}

/// Once every inactive child of the current task is awake, the current task
/// is done.
pub proof fn lemma_spread_finish(
    tasks: Map<TaskId, TaskView>,
    start: TaskId,
    awake: Set<TaskId>,
    done: Set<TaskId>,
    worklist: Seq<TaskId>,
    schedule: Seq<TaskId>,
    dormant: Set<int>,
    current: TaskId,
)
    requires
        spread_inv(tasks, start, awake, done, worklist, schedule, dormant, Some(current)),
        forall|child: TaskId|
            #[trigger] tasks[current].children.contains(child) && tasks.contains_key(child) && !tasks[child].active
                ==> awake.contains(child),
    ensures
        spread_inv(tasks, start, awake, done.insert(current), worklist, schedule, dormant, None),
{
    reveal(spread_inv);
    let finished = done.insert(current);
    assert forall|parent: TaskId, child: TaskId|
        #![trigger finished.contains(parent), tasks[parent].children.contains(child)]
        finished.contains(parent) && tasks.contains_key(parent) && tasks[parent].children.contains(child)
            && tasks.contains_key(child) && !tasks[child].active implies awake.contains(child) by {
        if parent != current {
            assert(done.contains(parent));
        }
    }
}

/// When the worklist is empty, the tasks that are awake are those that
/// `start` wakes, all of them are done, and runs were asked for of the dirty
/// ones among them.
pub proof fn lemma_spread_done(
    tasks: Map<TaskId, TaskView>,
    start: TaskId,
    awake: Set<TaskId>,
    done: Set<TaskId>,
    schedule: Seq<TaskId>,
    dormant: Set<int>,
)
    requires
        spread_inv(tasks, start, awake, done, Seq::empty(), schedule, dormant, None),
    ensures
        awake == done,
        done == woken(tasks, start),
        schedule.no_duplicates(),
        schedule.to_set() == activation_schedules(tasks, start),
{
    reveal(spread_inv);
    assert forall|id: TaskId| #[trigger] awake.contains(id) implies done.contains(id) by {
        assert(!Seq::<TaskId>::empty().contains(id));
    }
    assert(awake =~= done);
    assert forall|id: TaskId| wakes(tasks, start, id) implies done.contains(id) by {
        let path = choose|path: Seq<TaskId>| #[trigger] dormant_path(tasks, path) && path[0] == start && path.last() == id;
        lemma_closed_holds_path(tasks, start, done, path, path.len() - 1);
    }
    assert(done =~= woken(tasks, start));
    assert(schedule.to_set() =~= activation_schedules(tasks, start));
}

impl MemoryBackend {
    /// Turns the inactive task `start` active and spreads the activity to
    /// every task that it reaches through inactive tasks. The result lists
    /// the dirty tasks among them, each once: runs of them are asked for.
    pub(crate) fn activate(&mut self, start: TaskId) -> (schedule: Vec<TaskId>)
        requires
            old(self).wf(),
            old(self)@.tasks.contains_key(start),
            !old(self)@.tasks[start].active,
        ensures
            final(self).wf(),
            final(self)@ == old(self)@.with_tasks(activated(old(self)@.tasks, start)),
            schedule@.no_duplicates(),
            schedule@.to_set() == activation_schedules(old(self)@.tasks, start),
    {
        let ghost tasks = self@.tasks;
        let ghost bound = self.task_bound();
        let mut schedule: Vec<TaskId> = Vec::new();
        let mut worklist: Vec<TaskId> = Vec::new();
        match self.task_mut(start) {
            None => {},
            Some(record) => {
                record.set_active(true);
                if let TaskState::Dirty = record.state() {
                    schedule.push(start);
                }
            },
        }
        worklist.push(start);
        let ghost mut awake: Set<TaskId> = set![start];
        let ghost mut done: Set<TaskId> = Set::empty();
        let ghost mut dormant: Set<int> = Set::empty();
        proof {
            dormant = lemma_spread_init(tasks, start, bound);
            assert(self@.tasks =~~= spreading(tasks, awake, done, start, Set::empty()));
            assert(worklist@ =~= seq![start]);
            assert(schedule@ =~= if tasks[start].state is Dirty {
                seq![start]
            } else {
                Seq::<TaskId>::empty()
            });
        }
        while worklist.len() > 0
            invariant
                self.wf(),
                self@ == old(self)@.with_tasks(spreading(tasks, awake, done, start, Set::empty())),
                tasks == old(self)@.tasks,
                spread_inv(tasks, start, awake, done, worklist@, schedule@, dormant, None),
                dormant.finite(),
            decreases dormant.len(), worklist@.len(),
        {
            let ghost queued = worklist@;
            let ghost dormant_before = dormant;
            proof {
                lemma_spread_pop(tasks, start, awake, done, worklist@, schedule@, dormant);
            }
            let current = worklist.pop().unwrap();
            assert(worklist@ =~= queued.drop_last());
            let children = match self.get_task(current) {
                Some(record) => ids_to_vec(record.children()),
                None => Vec::new(),
            };
            let ghost mut credited: Set<TaskId> = Set::empty();
            let ghost mut pushed: nat = 0;
            let mut j: usize = 0;
            proof {
                lemma_take_all(children@);
                assert(self@.tasks =~~= spreading(tasks, awake, done, current, credited));
            }
            while j < children.len()
                invariant
                    self.wf(),
                    j <= children@.len(),
                    children@.to_set() == tasks[current].children,
                    credited == children@.take(j as int).to_set(),
                    self@ == old(self)@.with_tasks(spreading(tasks, awake, done, current, credited)),
                    tasks == old(self)@.tasks,
                    tasks.contains_key(current),
                    spread_inv(tasks, start, awake, done, worklist@, schedule@, dormant, Some(current)),
                    worklist@.len() == queued.len() - 1 + pushed,
                    dormant.len() + pushed == dormant_before.len(),
                    dormant.finite(),
                    forall|child: TaskId|
                        #[trigger] credited.contains(child) && tasks.contains_key(child) && !tasks[child].active
                            ==> awake.contains(child),
                decreases children@.len() - j,
            {
                let child = children[j];
                let mut wake = false;
                let mut dirty = false;
                match self.task_mut(child) {
                    None => {},
                    Some(record) => {
                        record.credit(current);
                        if !record.is_active() {
                            record.set_active(true);
                            wake = true;
                            if let TaskState::Dirty = record.state() {
                                dirty = true;
                            }
                        }
                    },
                }
                if wake {
                    proof {
                        assert(children@.to_set().contains(child));
                        lemma_spread_push(tasks, start, awake, done, worklist@, schedule@, dormant, current, child);
                    }
                    worklist.push(child);
                    if dirty {
                        schedule.push(child);
                    }
                }
                proof {
                    lemma_take_to_set(children@, j as int);
                    lemma_spread_credit(tasks, awake, done, current, credited, child);
                    if wake {
                        awake = awake.insert(child);
                        dormant = dormant.remove(child as int);
                        pushed = pushed + 1;
                    }
                    credited = credited.insert(child);
                }
                j += 1;
            }
            proof {
                lemma_take_all(children@);
                lemma_spread_finish(tasks, start, awake, done, worklist@, schedule@, dormant, current);
                lemma_spread_round(tasks, awake, done, current, start);
                done = done.insert(current);
            }
        }
        proof {
            assert(worklist@ =~= Seq::<TaskId>::empty());
            lemma_spread_done(tasks, start, awake, done, schedule@, dormant);
            lemma_spread_end(tasks, done, start);
        }
        schedule
    }

    /// Records `child` as a child of `parent`. A new child gets `parent` as a
    /// parent; where `parent` is active it counts towards the child's active
    /// count, and a child that was inactive turns active with all that it
    /// reaches. The result lists the dirty tasks among those that turned
    /// active, each once: runs of them are asked for.
    pub(crate) fn connect_task_child(&mut self, parent: TaskId, child: TaskId) -> (schedule: Vec<TaskId>)
        requires
            old(self).wf(),
            old(self)@.tasks.contains_key(parent),
            old(self)@.tasks.contains_key(child),
        ensures
            final(self).wf(),
            final(self)@ == old(self)@.with_tasks(connected(old(self)@.tasks, parent, child)),
            schedule@.no_duplicates(),
            schedule@.to_set() == connection_schedules(old(self)@.tasks, parent, child),
    {
        let mut added = false;
        let mut parent_active = false;
        match self.task_mut(parent) {
            None => {},
            Some(record) => {
                added = record.add_child(child);
                parent_active = record.is_active();
            },
        }
        let mut wake = false;
        if added {
            match self.task_mut(child) {
                None => {},
                Some(record) => {
                    record.add_parent(parent, parent_active);
                    wake = parent_active && !record.is_active();
                },
            }
        }
        proof {
            assert(self@.tasks =~~= linked(old(self)@.tasks, parent, child));
        }
        if wake {
            self.activate(child)
        } else {
            let schedule: Vec<TaskId> = Vec::new();
            assert(schedule@.to_set() =~= Set::<TaskId>::empty());
            schedule
        }
    }
}

} // verus!
