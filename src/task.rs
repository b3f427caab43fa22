//! Tasks, their identities, and the schedulers and input bridge built on them.
use vstd::prelude::*;

pub mod executor;
pub mod keyboard;
pub mod simple_executor;

verus! {

/// The identity of a spawned task.
#[derive(Clone, Copy, Debug, PartialEq, Eq, Structural)]
pub struct TaskId(pub u64);

/// Outcome of polling a task once.
#[derive(Clone, Copy, Debug, PartialEq, Eq, Structural)]
pub enum TaskPoll {
    Ready,
    Pending,
}

/// A unit of cooperative work: a computation that suspends `suspensions`
/// more times before it completes.
#[derive(Clone, Copy, Debug, PartialEq, Eq, Structural)]
pub struct Task {
    pub id: TaskId,
    pub suspensions: u64,
}

impl Task {
    pub fn new(id: TaskId, suspensions: u64) -> (r: Task)
        ensures
            r == (Task { id, suspensions }),
    {
        Task { id, suspensions }
    }

    /// Resumes the computation: it completes when no suspension is left, and
    /// otherwise runs to its next suspension point.
    pub fn poll(&mut self) -> (r: TaskPoll)
        ensures
            final(self).id == old(self).id,
            old(self).suspensions == 0 ==> r == TaskPoll::Ready && *final(self) == *old(self),
            old(self).suspensions > 0 ==> {
                &&& r == TaskPoll::Pending
                &&& final(self).suspensions == old(self).suspensions - 1
            },
    {
        if self.suspensions == 0 {
            TaskPoll::Ready
        } else {
            self.suspensions = self.suspensions - 1;
            TaskPoll::Pending
        }
    }
}

/// The identities of `tasks`, in order.
pub open spec fn task_ids(tasks: Seq<Task>) -> Seq<TaskId> {
    tasks.map_values(|t: Task| t.id)
}

} // verus!
