//! The plain values that pass between tasks and the engine.

use vstd::prelude::*;

verus! {

/// The id of a task: its place in the task store.
pub type TaskId = usize;

/// The id of a background job: its place in the job store.
pub type BackgroundJobId = usize;

/// A value that a task publishes. The engine never looks inside a value: it
/// only tells whether two of them are the same. `tag` names the kind of
/// payload and `payload` stands for its content.
#[derive(Clone, Copy, Debug, PartialEq, Eq, Structural)]
pub struct Value {
    pub tag: u64,
    pub payload: u64,
}

/// What a run of a task's body ended with. A failure is a value like any
/// other: it is stored, read and compared as a success is.
#[derive(Clone, Copy, Debug, PartialEq, Eq, Structural)]
pub enum Outcome {
    Success(Value),
    Failure(Value),
}

/// What a reader has read of another task: that task's output, or one of its
/// slots.
#[derive(Clone, Copy, Debug, PartialEq, Eq, Structural)]
pub enum Dependency {
    OnOutput(TaskId),
    OnSlot(TaskId, usize),
}

impl Dependency {
    /// The task that owns what was read.
    pub open spec fn writer(self) -> TaskId {
        match self {
            Dependency::OnOutput(task) => task,
            Dependency::OnSlot(task, _) => task,
        }
    }

    /// The index of the slot that was read; `None` for the output.
    pub open spec fn slot(self) -> Option<usize> {
        match self {
            Dependency::OnOutput(_) => None,
            Dependency::OnSlot(_, index) => Some(index),
        }
    }

    /// The dependency on the given cell of `writer`: its output, or its slot
    /// at the given index.
    pub open spec fn on(writer: TaskId, slot: Option<usize>) -> Dependency {
        match slot {
            None => Dependency::OnOutput(writer),
            Some(index) => Dependency::OnSlot(writer, index),
        }
    }

    /// The task that owns what was read.
    pub fn task(&self) -> (task: TaskId)
        ensures
            task == self.writer(),
    {
        match self {
            Dependency::OnOutput(task) => *task,
            Dependency::OnSlot(task, _) => *task,
        }
    }

    /// The index of the slot that was read; `None` for the output.
    pub fn cell(&self) -> (slot: Option<usize>)
        ensures
            slot == self.slot(),
    {
        match self {
            Dependency::OnOutput(_) => None,
            Dependency::OnSlot(_, index) => Some(*index),
        }
    }
}

/// Names what a suspended reader waits for: the output of `task`, or its slot
/// at the given index.
#[derive(Clone, Copy, Debug, PartialEq, Eq, Hash, Structural)]
pub struct WaitHandle {
    pub task: TaskId,
    pub slot: Option<usize>,
}

/// What a read found: the value, or nothing yet and a listener to await the
/// next write with.
#[derive(Debug)]
pub enum Read<T> {
    Ready(T),
    Pending(event_listener::EventListener),
}

/// A request that the engine cannot serve because it names something that
/// does not exist.
#[derive(Clone, Copy, Debug, PartialEq, Eq, Structural)]
pub enum InternalError {
    /// No task is stored under this id.
    UnknownTask(TaskId),
    /// The task has no slot at this index.
    UnknownSlot(TaskId, usize),
    /// Every task id is in use.
    OutOfTaskIds,
    /// Every background job id is in use.
    OutOfJobIds,
}

} // verus!
