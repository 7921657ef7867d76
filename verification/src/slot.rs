//! A slot: one of the indexed values that a task publishes while it runs.

use crate::ids::drain_ids;
use crate::output::Written;
use crate::value::{TaskId, Value};
use std::collections::HashSet;
use vstd::prelude::*;

verus! {

/// What a slot holds.
#[verifier::ext_equal]
pub struct SlotView {
    /// The value, if one was assigned and the slot was not abandoned since.
    pub content: Option<Value>,
    /// The task that assigned the content.
    pub writer: Option<TaskId>,
    /// The tasks that have read the content and are to be told when it changes.
    pub readers: Set<TaskId>,
    /// Whether a reader found the slot empty and waits to be woken.
    pub waiters: bool,
}

/// A value published under an index, with the readers that depend on it.
pub struct Slot {
    content: Option<Value>,
    writer: Option<TaskId>,
    readers: HashSet<TaskId>,
    waiters: bool,
}

impl Slot {
    pub closed spec fn view(&self) -> SlotView {
        SlotView { content: self.content, writer: self.writer, readers: self.readers@, waiters: self.waiters }
    }

    /// An empty slot: no content, no writer, no reader, nobody waiting.
    pub open spec fn empty() -> SlotView {
        SlotView { content: None, writer: None, readers: Set::empty(), waiters: false }
    }

    /// The slot after `writer` assigned `content`. Equal content stays as it
    /// is with its readers; other content replaces it and drops the readers.
    /// Either way nobody is left waiting.
    pub open spec fn assigned(before: SlotView, content: Value, writer: TaskId) -> SlotView {
        if before.content == Some(content) {
            SlotView { waiters: false, ..before }
        } else {
            SlotView { content: Some(content), writer: Some(writer), readers: Set::empty(), waiters: false }
        }
    }

    /// The slot after it was abandoned: empty, but for those who wait.
    pub open spec fn abandoned(before: SlotView) -> SlotView {
        SlotView { content: None, writer: None, readers: Set::empty(), waiters: before.waiters }
    }

    /// An empty slot.
    pub fn new() -> (slot: Self)
        ensures
            slot@ == Self::empty(),
    {
        Slot { content: None, writer: None, readers: HashSet::new(), waiters: false }
    }

    /// The content, if any.
    pub fn content(&self) -> (content: Option<Value>)
        ensures
            content == self@.content,
    {
        self.content
    }

    /// The task that assigned the content.
    pub fn writer(&self) -> (writer: Option<TaskId>)
        ensures
            writer == self@.writer,
    {
        self.writer
    }

    /// The tasks that depend on the content.
    pub fn readers(&self) -> (readers: &HashSet<TaskId>)
        ensures
            readers@ == self@.readers,
    {
        &self.readers
    }

    /// Reads the content for `reader`. Where there is content, `reader` joins
    /// the readers. Where there is none, the result is `None` and the slot
    /// remembers that someone waits.
    pub fn read_content(&mut self, reader: TaskId) -> (content: Option<Value>)
        ensures
            content == old(self)@.content,
            content is Some ==> final(self)@ == (SlotView { readers: old(self)@.readers.insert(reader), ..old(self)@ }),
            content is None ==> final(self)@ == (SlotView { waiters: true, ..old(self)@ }),
    {
        if self.content.is_some() {
            self.readers.insert(reader);
        } else {
            self.waiters = true;
        }
        self.content
    }

    /// Reads the content without recording a reader. Where there is none, the
    /// result is `None`, no reader is recorded, and the slot remembers that
    /// someone waits.
    pub fn read_content_untracked(&mut self) -> (content: Option<Value>)
        ensures
            content == old(self)@.content,
            content is Some ==> final(self)@ == old(self)@,
            content is None ==> final(self)@ == (SlotView { waiters: true, ..old(self)@ }),
    {
        if self.content.is_none() {
            self.waiters = true;
        }
        self.content
    }

    /// Assigns `content` for `writer`. Content equal to the one held stays
    /// and keeps its readers: nothing is to be invalidated. Other content is
    /// replaced, and the readers of the old content are dropped and handed to
    /// the caller. Whoever waited is to be woken either way.
    pub fn assign(&mut self, content: Value, writer: TaskId) -> (written: Written)
        ensures
            final(self)@ == Self::assigned(old(self)@, content, writer),
            written.wake == old(self)@.waiters,
            written.readers@.no_duplicates(),
            written.readers@.to_set() == (if old(self)@.content == Some(content) {
                Set::<TaskId>::empty()
            } else {
                old(self)@.readers
            }),
            old(self)@.content == Some(content) ==> written.readers@.len() == 0,
    {
        let wake = self.waiters;
        self.waiters = false;
        let unchanged = match self.content {
            Some(current) => current == content,
            None => false,
        };
        if unchanged {
            let readers: Vec<TaskId> = Vec::new();
            assert(readers@.to_set() =~= Set::<TaskId>::empty());
            Written { readers, wake }
        } else {
            self.content = Some(content);
            self.writer = Some(writer);
            let readers = drain_ids(&mut self.readers);
            Written { readers, wake }
        }
    }

    /// Abandons the slot: the content goes, and the readers are dropped and
    /// handed to the caller, each once. Those who wait go on waiting.
    pub fn abandon(&mut self) -> (readers: Vec<TaskId>)
        ensures
            final(self)@ == Self::abandoned(old(self)@),
            readers@.no_duplicates(),
            readers@.to_set() == old(self)@.readers,
    {
        self.content = None;
        self.writer = None;
        drain_ids(&mut self.readers)
    }

    /// Whether someone waits for the next write.
    pub fn has_waiters(&self) -> (waiters: bool)
        ensures
            waiters == self@.waiters,
    {
        self.waiters
    }

    /// Adds `reader` to the readers.
    pub fn add_reader(&mut self, reader: TaskId)
        ensures
            final(self)@ == (SlotView { readers: old(self)@.readers.insert(reader), ..old(self)@ }),
    {
        self.readers.insert(reader);
    }

    /// Takes `reader` out of the readers.
    pub fn remove_reader(&mut self, reader: TaskId)
        ensures
            final(self)@ == (SlotView { readers: old(self)@.readers.remove(reader), ..old(self)@ }),
    {
        self.readers.remove(&reader);
    }
}

} // verus!
