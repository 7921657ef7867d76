//! The output cell of a task.

use crate::ids::drain_ids;
use crate::value::{Outcome, TaskId};
use std::collections::HashSet;
use vstd::prelude::*;

verus! {

/// What an output cell holds.
#[verifier::ext_equal]
pub struct OutputView {
    /// The outcome of the last run that was stored, if any.
    pub content: Option<Outcome>,
    /// The tasks that have read the content and are to be told when it changes.
    pub readers: Set<TaskId>,
    /// Whether a reader found the cell not ready and waits to be woken.
    pub waiters: bool,
    /// The epoch of the run that stored or confirmed the content.
    pub epoch: u64,
}

/// What a write left for the caller to do.
pub struct Written {
    /// The tasks that had read the old content, each once. They are no longer
    /// readers and are to be invalidated. Empty when the content did not
    /// change.
    pub readers: Vec<TaskId>,
    /// Whether suspended readers are to be woken.
    pub wake: bool,
}

/// The single output value of a task, with the readers that depend on it.
pub struct Output {
    content: Option<Outcome>,
    readers: HashSet<TaskId>,
    waiters: bool,
    epoch: u64,
}

impl Output {
    pub closed spec fn view(&self) -> OutputView {
        OutputView { content: self.content, readers: self.readers@, waiters: self.waiters, epoch: self.epoch }
    }

    /// An empty cell: no content, no reader, nobody waiting.
    pub open spec fn empty() -> OutputView {
        OutputView { content: None, readers: Set::empty(), waiters: false, epoch: 0 }
    }

    /// The cell after `value` was written in `epoch`. Equal content stays as
    /// it is with its readers; other content replaces it and drops the
    /// readers. Either way nobody is left waiting.
    pub open spec fn written(before: OutputView, value: Outcome, epoch: u64) -> OutputView {
        if before.content == Some(value) {
            OutputView { waiters: false, epoch, ..before }
        } else {
            OutputView { content: Some(value), readers: Set::empty(), waiters: false, epoch }
        }
    }

    /// An empty cell.
    pub fn new() -> (output: Self)
        ensures
            output@ == Self::empty(),
    {
        Output { content: None, readers: HashSet::new(), waiters: false, epoch: 0 }
    }

    /// The content, if any.
    pub fn content(&self) -> (content: Option<Outcome>)
        ensures
            content == self@.content,
    {
        self.content
    }

    /// The epoch of the run that stored or confirmed the content.
    pub fn epoch(&self) -> (epoch: u64)
        ensures
            epoch == self@.epoch,
    {
        self.epoch
    }

    /// The tasks that depend on the content.
    pub fn readers(&self) -> (readers: &HashSet<TaskId>)
        ensures
            readers@ == self@.readers,
    {
        &self.readers
    }

    /// Reads the content for `reader`. Where there is content, `reader` joins
    /// the readers. Where there is none, the result is `None` and the cell
    /// remembers that someone waits.
    pub fn read(&mut self, reader: TaskId) -> (content: Option<Outcome>)
        ensures
            content == old(self)@.content,
            content is Some ==> final(self)@ == (OutputView { readers: old(self)@.readers.insert(reader), ..old(self)@ }),
            content is None ==> final(self)@ == (OutputView { waiters: true, ..old(self)@ }),
    {
        if self.content.is_some() {
            self.readers.insert(reader);
        } else {
            self.waiters = true;
        }
        self.content
    }

    /// Reads the content without recording a reader. Where there is none, the
    /// result is `None` and the cell remembers that someone waits.
    pub fn read_untracked(&mut self) -> (content: Option<Outcome>)
        ensures
            content == old(self)@.content,
            content is Some ==> final(self)@ == old(self)@,
            content is None ==> final(self)@ == (OutputView { waiters: true, ..old(self)@ }),
    {
        if self.content.is_none() {
            self.waiters = true;
        }
        self.content
    }

    /// Remembers that someone waits for the next write.
    pub fn wait(&mut self)
        ensures
            final(self)@ == (OutputView { waiters: true, ..old(self)@ }),
    {
        self.waiters = true;
    }

    /// Writes `value`, produced in `epoch`. Content equal to `value` stays
    /// and keeps its readers: nothing is to be invalidated. Other content is
    /// replaced, and the readers of the old content are dropped and handed to
    /// the caller. Whoever waited is to be woken either way.
    pub fn write(&mut self, value: Outcome, epoch: u64) -> (written: Written)
        ensures
            final(self)@ == Self::written(old(self)@, value, epoch),
            written.wake == old(self)@.waiters,
            written.readers@.no_duplicates(),
            written.readers@.to_set() == (if old(self)@.content == Some(value) {
                Set::<TaskId>::empty()
            } else {
                old(self)@.readers
            }),
            old(self)@.content == Some(value) ==> written.readers@.len() == 0,
    {
        let wake = self.waiters;
        self.waiters = false;
        self.epoch = epoch;
        let unchanged = match self.content {
            Some(current) => current == value,
            None => false,
        };
        if unchanged {
            let readers: Vec<TaskId> = Vec::new();
            assert(readers@.to_set() =~= Set::<TaskId>::empty());
            Written { readers, wake }
        } else {
            self.content = Some(value);
            let readers = drain_ids(&mut self.readers);
            Written { readers, wake }
        }
    }

    /// Whether someone waits for the next write.
    pub fn has_waiters(&self) -> (waiters: bool)
        ensures
            waiters == self@.waiters,
    {
        self.waiters
    }

    /// Adds `reader` to the readers.
    pub fn add_reader(&mut self, reader: TaskId)
        ensures
            final(self)@ == (OutputView { readers: old(self)@.readers.insert(reader), ..old(self)@ }),
    {
        self.readers.insert(reader);
    }

    /// Takes `reader` out of the readers.
    pub fn remove_reader(&mut self, reader: TaskId)
        ensures
            final(self)@ == (OutputView { readers: old(self)@.readers.remove(reader), ..old(self)@ }),
    {
        self.readers.remove(&reader);
    }
}

} // verus!
