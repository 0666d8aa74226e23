use vstd::prelude::*;

verus! {

/// The mathematical value of a task: its text as a sequence of characters
/// and its creation time in whole seconds since the Unix epoch.
pub struct TaskView {
    pub text: Seq<char>,
    pub created_at: u64,
}

/// One journal entry: a human-readable text (content unconstrained, may be
/// empty) and the moment of creation, in whole seconds since the Unix epoch.
/// A task has no identity of its own; it is identified by its 1-based
/// position in the journal at the moment of a query.
#[derive(Debug)]
pub struct Task {
    pub text: String,
    pub created_at: u64,
}

impl View for Task {
    type V = TaskView;

    open spec fn view(&self) -> TaskView {
        TaskView { text: self.text@, created_at: self.created_at }
    }
}

/// The views of a sequence of tasks, element by element.
pub open spec fn tasks_view(ts: Seq<Task>) -> Seq<TaskView> {
    ts.map_values(|t: Task| t@)
}

} // verus!
