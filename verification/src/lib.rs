//! A small task manager library: a flat store of tasks linked by identifier,
//! with status toggling gated on subtask completion, deletion with referential
//! cleanup, and a text codec that round-trips the whole store.

use vstd::prelude::*;

pub mod codec;
pub mod store;

verus! {

/// Completion state of a task.
#[derive(Clone, Copy, Debug, PartialEq, Eq, Structural)]
pub enum Status {
    Todo,
    Done,
}

/// The commands a caller of the store can issue, as a closed set of variants.
#[derive(Clone, Copy, Debug, PartialEq, Eq, Structural)]
pub enum Action {
    PickAction,
    Add,
    AddSubtask,
    MakeSubtask,
    Toggle,
    Delete,
    Display,
    Quit,
}

/// Why a store operation was refused.
#[derive(Clone, Copy, Debug, PartialEq, Eq, Structural)]
pub enum TaskError {
    /// The identifier resolves to no task in the store.
    NotFound,
    /// A status toggle was attempted while a direct subtask is still `Todo`.
    BlockedByIncompleteSubtasks,
    /// The durable artifact could not be written or read.
    PersistenceFailure,
    /// The durable artifact exists but does not parse.
    MalformedPersistedState,
}

/// A unit of work: identity, free-form text, status, and an ordered list of
/// by-identifier references to its subtasks. A subtask reference is a weak
/// link into the same store, never a second copy of the task.
pub struct Task {
    pub id: u128,
    pub name: String,
    pub description: String,
    pub status: Status,
    pub subtasks: Vec<u128>,
}

/// The mathematical value of a [`Task`]: the same fields over `Seq`.
pub ghost struct TaskModel {
    pub id: u128,
    pub name: Seq<char>,
    pub description: Seq<char>,
    pub status: Status,
    pub subtasks: Seq<u128>,
}

impl View for Task {
    type V = TaskModel;

    open spec fn view(&self) -> TaskModel {
        TaskModel {
            id: self.id,
            name: self.name@,
            description: self.description@,
            status: self.status,
            subtasks: self.subtasks@,
        }
    }
}

} // verus!
