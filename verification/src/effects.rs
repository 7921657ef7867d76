//! What an operation of the engine leaves for the executor to do.

use crate::value::{BackgroundJobId, TaskId, WaitHandle};
use vstd::prelude::*;

verus! {

/// The work that an operation hands to the executor. The engine itself runs
/// no task: it says what is to be run and notified, and whom it has woken.
pub struct Effects {
    /// Tasks for which a run is asked for.
    pub schedule: Vec<TaskId>,
    /// Tasks to invalidate, because something that they have read changed.
    pub notify: Vec<TaskId>,
    /// What suspended readers were woken for: the listeners of these outputs
    /// and slots have been notified.
    pub wake: Vec<WaitHandle>,
    /// Background jobs to run.
    pub background_jobs: Vec<BackgroundJobId>,
}

impl Effects {
    /// Whether nothing is left to do.
    pub open spec fn is_empty(&self) -> bool {
        &&& self.schedule@.len() == 0
        &&& self.notify@.len() == 0
        &&& self.wake@.len() == 0
        &&& self.background_jobs@.len() == 0
    }

    /// Nothing to do.
    pub fn new() -> (effects: Self)
        ensures
            effects.is_empty(),
    {
        Effects { schedule: Vec::new(), notify: Vec::new(), wake: Vec::new(), background_jobs: Vec::new() }
    }
}

} // verus!
