//! The wake-driven executor: tasks are polled only when their identity is in
//! the ready queue, and a pending task waits there until it is woken.
use vstd::prelude::*;

use std::collections::VecDeque;

use crate::task::{Task, TaskId, TaskPoll};

verus! {

/// What one scheduling step did.
#[derive(Clone, Copy, Debug, PartialEq, Eq, Structural)]
pub enum Step {
    /// The ready queue was empty: the processor may wait for an interrupt.
    Idle,
    /// The identity at the front belonged to a task that had completed.
    Stale(TaskId),
    /// The task was polled with this outcome.
    Polled(TaskId, TaskPoll),
}

/// The identity a step concerns, if any.
pub open spec fn step_id(s: Step) -> Option<TaskId> {
    match s {
        Step::Idle => None,
        Step::Stale(id) => Some(id),
        Step::Polled(id, _) => Some(id),
    }
}

/// `tasks` holds a task with identity `id`.
pub open spec fn has_task(tasks: Seq<Task>, id: TaskId) -> bool {
    exists|i: int| 0 <= i < tasks.len() && tasks[i].id == id
}

/// One scheduling step on identity `id`: the step reported and the task
/// table after it.
pub open spec fn step_on(tasks: Seq<Task>, id: TaskId) -> (Step, Seq<Task>) {
    if has_task(tasks, id) {
        let i = choose|i: int| 0 <= i < tasks.len() && tasks[i].id == id;
        let t = tasks[i];
        if t.suspensions == 0 {
            (Step::Polled(id, TaskPoll::Ready), tasks.remove(i))
        } else {
            (Step::Polled(id, TaskPoll::Pending), tasks.update(i, Task { id, suspensions: (t.suspensions - 1) as u64 }))
        }
    } else {
        (Step::Stale(id), tasks)
    }
}

/// Steps on each of `ids` in turn: the steps reported and the final table.
pub open spec fn steps_on(tasks: Seq<Task>, ids: Seq<TaskId>) -> (Seq<Step>, Seq<Task>)
    decreases ids.len(),
{
    if ids.len() == 0 {
        (Seq::empty(), tasks)
    } else {
        let prev = steps_on(tasks, ids.drop_last());
        let last = step_on(prev.1, ids.last());
        (prev.0.push(last.0), last.1)
    }
}

/// A scheduler over a table of tasks and a queue of identities ready to run.
pub struct Executor {
    tasks: Vec<Task>,
    ready_queue: VecDeque<TaskId>,
    next_id: u64,
}

impl Executor {
    pub closed spec fn tasks(&self) -> Seq<Task> {
        self.tasks@
    }

    pub closed spec fn ready(&self) -> Seq<TaskId> {
        self.ready_queue@
    }

    pub closed spec fn next_id(&self) -> u64 {
        self.next_id
    }

    /// Identities are below the next one to hand out, the table holds each
    /// identity once, and the ready queue holds each identity at most once.
    pub open spec fn wf(&self) -> bool {
        &&& forall|i: int| 0 <= i < self.tasks().len() ==> (#[trigger] self.tasks()[i]).id.0 < self.next_id()
        &&& forall|i: int| 0 <= i < self.ready().len() ==> (#[trigger] self.ready()[i]).0 < self.next_id()
        &&& forall|i: int, j: int|
            0 <= i < j < self.tasks().len() ==> #[trigger] self.tasks()[i].id != #[trigger] self.tasks()[j].id
        &&& self.ready().no_duplicates()
    }

    /// An executor with no tasks.
    pub fn new() -> (r: Self)
        ensures
            r.wf(),
            r.tasks() == Seq::<Task>::empty(),
            r.ready() == Seq::<TaskId>::empty(),
            r.next_id() == 0,
    {
        Executor { tasks: Vec::new(), ready_queue: VecDeque::new(), next_id: 0 }
    }

    /// Gives a computation that suspends `suspensions` times a fresh identity
    /// and marks it ready; nothing is polled yet.
    pub fn spawn(&mut self, suspensions: u64) -> (r: TaskId)
        requires
            old(self).wf(),
            old(self).next_id() < u64::MAX,
        ensures
            final(self).wf(),
            r == TaskId(old(self).next_id()),
            final(self).next_id() == old(self).next_id() + 1,
            final(self).tasks() == old(self).tasks().push(Task { id: r, suspensions }),
            final(self).ready() == old(self).ready().push(r),
    {
        let id = TaskId(self.next_id);
        self.next_id = self.next_id + 1;
        self.tasks.push(Task { id, suspensions });
        self.ready_queue.push_back(id);
        proof {
            assert forall|i: int, j: int| 0 <= i < self.ready().len() && 0 <= j < self.ready().len() && i != j implies self.ready()[i] != self.ready()[j] by {
                if j == self.ready().len() - 1 {
                    assert(self.ready()[i] == old(self).ready()[i]);
                } else if i == self.ready().len() - 1 {
                    assert(self.ready()[j] == old(self).ready()[j]);
                }
            }
            assert forall|i: int| 0 <= i < self.tasks().len() implies (#[trigger] self.tasks()[i]).id.0 < self.next_id() by {
                if i < old(self).tasks().len() {
                    assert(self.tasks()[i] == old(self).tasks()[i]);
                }
            }
            assert forall|i: int| 0 <= i < self.ready().len() implies (#[trigger] self.ready()[i]).0 < self.next_id() by {
                if i < old(self).ready().len() {
                    assert(self.ready()[i] == old(self).ready()[i]);
                }
            }
            assert forall|i: int, j: int| 0 <= i < j < self.tasks().len() implies #[trigger] self.tasks()[i].id != #[trigger] self.tasks()[j].id by {
                assert(self.tasks()[i] == old(self).tasks()[i]);
                if j < old(self).tasks().len() {
                    assert(self.tasks()[j] == old(self).tasks()[j]);
                }
            }
        }
        id
    }

    /// Number of tasks that have not completed.
    pub fn live_tasks(&self) -> (r: usize)
        ensures
            r == self.tasks().len(),
    {
        self.tasks.len()
    }

    /// Whether `id` is already waiting in the ready queue.
    fn is_queued(&self, id: TaskId) -> (r: bool)
        ensures
            r == self.ready().contains(id),
    {
        let mut i: usize = 0;
        while i < self.ready_queue.len()
            invariant
                i <= self.ready().len(),
                forall|j: int| 0 <= j < i ==> self.ready()[j] != id,
            decreases self.ready().len() - i,
        {
            if self.ready_queue[i] == id {
                return true;
            }
            i = i + 1;
        }
        false
    }

    /// The wake handle of task `id`: marks it ready, once however often it
    /// is woken before its next poll.
    pub fn wake(&mut self, id: TaskId)
        requires
            old(self).wf(),
            id.0 < old(self).next_id(),
        ensures
            final(self).wf(),
            final(self).tasks() == old(self).tasks(),
            final(self).next_id() == old(self).next_id(),
            final(self).ready() == if old(self).ready().contains(id) {
                old(self).ready()
            } else {
                old(self).ready().push(id)
            },
    {
        if !self.is_queued(id) {
            self.ready_queue.push_back(id);
            proof {
                assert forall|i: int, j: int| 0 <= i < self.ready().len() && 0 <= j < self.ready().len() && i != j implies self.ready()[i] != self.ready()[j] by {
                    if j == self.ready().len() - 1 {
                        assert(self.ready()[i] == old(self).ready()[i]);
                        if old(self).ready()[i] == id {
                            assert(old(self).ready().contains(id));
                        }
                    } else if i == self.ready().len() - 1 {
                        assert(self.ready()[j] == old(self).ready()[j]);
                        if old(self).ready()[j] == id {
                            assert(old(self).ready().contains(id));
                        }
                    }
                }
                assert forall|i: int| 0 <= i < self.ready().len() implies (#[trigger] self.ready()[i]).0 < self.next_id() by {
                    if i < old(self).ready().len() {
                        assert(self.ready()[i] == old(self).ready()[i]);
                    }
                }
                assert(self.ready().no_duplicates());
                assert(self.tasks() == old(self).tasks());
            }
        }
    }

    /// Index of the task with identity `id`, if it has not completed.
    fn find_task(&self, id: TaskId) -> (r: Option<usize>)
        ensures
            r matches Some(i) ==> i < self.tasks().len() && self.tasks()[i as int].id == id,
            r.is_none() ==> !has_task(self.tasks(), id),
    {
        let mut i: usize = 0;
        while i < self.tasks.len()
            invariant
                i <= self.tasks().len(),
                forall|j: int| 0 <= j < i ==> self.tasks()[j].id != id,
            decreases self.tasks().len() - i,
        {
            if self.tasks[i].id == id {
                return Some(i);
            }
            i = i + 1;
        }
        None
    }

    /// Takes the identity at the front of the ready queue and polls its task:
    /// a completed task leaves the table, a pending one stays out of the
    /// queue until woken, and an identity whose task is gone is skipped.
    pub fn run_next(&mut self) -> (r: Step)
        requires
            old(self).wf(),
        ensures
            final(self).wf(),
            final(self).next_id() == old(self).next_id(),
            old(self).ready().len() == 0 ==> r == Step::Idle && final(self).tasks() == old(self).tasks()
                && final(self).ready() == old(self).ready(),
            old(self).ready().len() > 0 ==> (r, final(self).tasks()) == step_on(old(self).tasks(), old(self).ready()[0]),
            old(self).ready().len() > 0 ==> {
                let id = old(self).ready()[0];
                &&& final(self).ready() == old(self).ready().drop_first()
                &&& !has_task(old(self).tasks(), id) ==> r == Step::Stale(id) && final(self).tasks() == old(self).tasks()
                &&& forall|i: int| 0 <= i < old(self).tasks().len() && (#[trigger] old(self).tasks()[i]).id == id ==> {
                    let t = old(self).tasks()[i];
                    if t.suspensions == 0 {
                        r == Step::Polled(id, TaskPoll::Ready) && final(self).tasks() == old(self).tasks().remove(i)
                    } else {
                        r == Step::Polled(id, TaskPoll::Pending) && final(self).tasks() == old(self).tasks().update(
                            i,
                            Task { id, suspensions: (t.suspensions - 1) as u64 },
                        )
                    }
                }
            },
    {
        let id = match self.ready_queue.pop_front() {
            Some(id) => id,
            None => return Step::Idle,
        };
        assert forall|i: int, j: int| 0 <= i < j < self.ready().len() implies self.ready()[i] != self.ready()[j] by {
            assert(self.ready()[i] == old(self).ready()[i + 1]);
            assert(self.ready()[j] == old(self).ready()[j + 1]);
        }
        match self.find_task(id) {
            None => Step::Stale(id),
            Some(i) => {
                let mut task = self.tasks[i];
                let outcome = task.poll();
                match outcome {
                    TaskPoll::Ready => {
                        self.tasks.remove(i);
                        assert forall|a: int, b: int| 0 <= a < b < self.tasks().len() implies
                            self.tasks()[a].id != self.tasks()[b].id by {
                            let a0 = if a < i { a } else { a + 1 };
                            let b0 = if b < i { b } else { b + 1 };
                            assert(self.tasks()[a] == old(self).tasks()[a0]);
                            assert(self.tasks()[b] == old(self).tasks()[b0]);
                        }
                        assert forall|k: int| 0 <= k < self.tasks().len() implies (#[trigger] self.tasks()[k]).id.0 < self.next_id() by {
                            let k0 = if k < i { k } else { k + 1 };
                            assert(self.tasks()[k] == old(self).tasks()[k0]);
                        }
                    },
                    TaskPoll::Pending => {
                        self.tasks.set(i, task);
                        assert(task == Task { id, suspensions: task.suspensions });
                    },
                }
                proof {
                    assert forall|k: int| 0 <= k < old(self).tasks().len() && (#[trigger] old(self).tasks()[k]).id == id implies k == i by {
                        if k != i {
                            if k < i {
                                assert(old(self).tasks()[k].id != old(self).tasks()[i as int].id);
                            } else {
                                assert(old(self).tasks()[i as int].id != old(self).tasks()[k].id);
                            }
                        }
                    }
                }
                Step::Polled(id, outcome)
            },
        }
    }

    /// Runs scheduling steps until the ready queue is empty: the identities
    /// that were ready are taken in queue order, one step each, as
    /// `run_next` takes them. Afterwards the processor may
    /// wait for the next interrupt.
    pub fn run_ready(&mut self) -> (r: Vec<Step>)
        requires
            old(self).wf(),
        ensures
            final(self).wf(),
            final(self).ready() == Seq::<TaskId>::empty(),
            final(self).next_id() == old(self).next_id(),
            r@.len() == old(self).ready().len(),
            forall|i: int| 0 <= i < r@.len() ==> step_id(#[trigger] r@[i]) == Some(old(self).ready()[i]),
            (r@, final(self).tasks()) == steps_on(old(self).tasks(), old(self).ready()),
    {
        let mut steps: Vec<Step> = Vec::new();
        while self.ready_queue.len() > 0
            invariant
                self.wf(),
                self.next_id() == old(self).next_id(),
                steps@.len() + self.ready().len() == old(self).ready().len(),
                self.ready() == old(self).ready().skip(steps@.len() as int),
                forall|i: int| 0 <= i < steps@.len() ==> step_id(#[trigger] steps@[i]) == Some(old(self).ready()[i]),
                (steps@, self.tasks()) == steps_on(old(self).tasks(), old(self).ready().take(steps@.len() as int)),
            decreases self.ready().len(),
        {
            let ghost before = self.tasks();
            let step = self.run_next();
            proof {
                let id = old(self).ready()[steps@.len() as int];
                if has_task(before, id) {
                    let k = choose|k: int| 0 <= k < before.len() && before[k].id == id;
                    assert(before[k].id == id);
                }
            }
            steps.push(step);
            assert(self.ready() =~= old(self).ready().skip(steps@.len() as int));
            proof {
                let n = steps@.len() as int;
                assert(old(self).ready().take(n).drop_last() =~= old(self).ready().take(n - 1));
            }
        }
        assert(self.ready() =~= Seq::<TaskId>::empty());
        assert(old(self).ready().take(steps@.len() as int) =~= old(self).ready());
        steps
    }
}

} // verus!
