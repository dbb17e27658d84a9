use vstd::prelude::*;

verus! {

/// One to-do record: what to do, and whether it is done.
pub struct Task {
    pub description: String,
    pub completed: bool,
}

/// The mathematical value of a [`Task`]: its text as a sequence of
/// characters, and its completion flag.
pub ghost struct TaskView {
    pub description: Seq<char>,
    pub completed: bool,
}

impl View for Task {
    type V = TaskView;

    open spec fn view(&self) -> TaskView {
        TaskView { description: self.description@, completed: self.completed }
    }
}

/// The task values of a task vector, in order.
pub open spec fn views_of(ts: Seq<Task>) -> Seq<TaskView> {
    ts.map_values(|t: Task| t@)
}

/// Why a store operation was refused or failed.
#[derive(Clone, Copy, Debug, PartialEq, Eq, Structural)]
pub enum TaskError {
    /// A user-supplied display index outside `1..=len(collection)`.
    InvalidIndex,
    /// An empty description.
    InvalidInput,
    /// Persisted text that does not parse as a task collection.
    CorruptStore,
    /// The backing file could not be read or written. The in-memory
    /// operations never produce this; callers that do the file I/O do.
    IoFailure,
}

} // verus!
