//! Deferred work that the engine hands to the executor.

use crate::value::TaskId;
use std::collections::HashSet;
use vstd::prelude::*;

verus! {

/// A piece of deferred work, with the tasks that it is about.
pub enum BackgroundJob {
    /// Remove these tasks, as far as they have settled at an active count of
    /// zero.
    RemoveTasks(HashSet<TaskId>),
    /// Take the activity from these tasks, as far as they are active with an
    /// active count of zero.
    DeactivateTasks(Vec<TaskId>),
}

/// A background job as plain values: its kind and the tasks that it is
/// about.
pub enum BackgroundJobView {
    RemoveTasks(Set<TaskId>),
    DeactivateTasks(Set<TaskId>),
}

impl View for BackgroundJob {
    type V = BackgroundJobView;

    open spec fn view(&self) -> BackgroundJobView {
        match self {
            BackgroundJob::RemoveTasks(tasks) => BackgroundJobView::RemoveTasks(tasks@),
            BackgroundJob::DeactivateTasks(tasks) => BackgroundJobView::DeactivateTasks(tasks@.to_set()),
        }
    }
}

} // verus!
