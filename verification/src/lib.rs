//! An in-memory engine for incremental computation: tasks, their outputs and
//! slots, the dependencies between them, and the bookkeeping that decides
//! which tasks stay alive.
//!
//! [`backend::MemoryBackend`] holds the tasks and offers the operations that
//! an executor calls. The engine runs no task itself: each operation changes
//! the records and says, in its [`effects::Effects`], what the executor is to
//! run and to notify. What every operation keeps in order is stated in
//! [`invariants`], and what follows from that in [`laws`].

pub mod activation;
pub mod backend;
pub mod background_job;
pub mod cache;
pub mod chunked_vec;
pub mod completion;
pub mod deactivation;
pub mod dependency_set;
pub mod effects;
pub mod id_factory;
pub mod ids;
pub mod invariants;
pub mod jobs;
pub mod laws;
pub mod output;
pub mod reconcile;
pub mod removal;
pub mod slot;
pub mod slot_mappings;
pub mod store;
pub mod task;
pub mod task_type;
pub mod value;
pub mod wait_list;
