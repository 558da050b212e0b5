use vstd::prelude::*;

verus! {

/// Mathematical value of one task; the contracts of the store and of the
/// document codec speak of tasks through this form.
pub ghost struct TaskModel {
    pub id: u64,
    pub description: Seq<char>,
    pub completed: bool,
    pub created_at: u64,
}

/// One unit of work: an identifier assigned by the store, caller-supplied
/// text (any text, the empty string included), a completion flag that only
/// ever moves from false to true, and the creation time in whole seconds
/// since the Unix epoch (clamped to zero for clocks set before it).
#[derive(Debug)]
pub struct Task {
    pub id: u64,
    pub description: String,
    pub completed: bool,
    pub created_at: u64,
}

impl View for Task {
    type V = TaskModel;

    open spec fn view(&self) -> TaskModel {
        TaskModel {
            id: self.id,
            description: self.description@,
            completed: self.completed,
            created_at: self.created_at,
        }
    }
}

impl Task {
    /// An identical task; the store hands copies out of `list_tasks`.
    pub fn duplicate(&self) -> (r: Task)
        ensures
            r@ == self@,
    {
        Task {
            id: self.id,
            description: self.description.clone(),
            completed: self.completed,
            created_at: self.created_at,
        }
    }
}

/// A task the store may hold: a positive identifier that leaves room for a
/// strictly larger successor counter.
pub open spec fn wf_task(t: TaskModel) -> bool {
    1 <= t.id < u64::MAX
}

/// The view of each task of a sequence.
pub open spec fn views_of(ts: Seq<Task>) -> Seq<TaskModel> {
    ts.map_values(|t: Task| t@)
}

} // verus!
