//! A round-robin executor: tasks are polled in turn until all complete.
use vstd::prelude::*;

use std::collections::VecDeque;

use crate::task::{task_ids, Task, TaskId, TaskPoll};

verus! {

broadcast use vstd::seq_lib::group_to_multiset_ensures;

/// Polls still owed to `tasks` before every one completes.
pub open spec fn remaining_polls(tasks: Seq<Task>) -> nat
    decreases tasks.len(),
{
    if tasks.len() == 0 {
        0
    } else {
        tasks[0].suspensions as nat + 1 + remaining_polls(tasks.drop_first())
    }
}

proof fn lemma_remaining_polls_push(tasks: Seq<Task>, t: Task)
    ensures
        remaining_polls(tasks.push(t)) == remaining_polls(tasks) + t.suspensions + 1,
    decreases tasks.len(),
{
    if tasks.len() > 0 {
        lemma_remaining_polls_push(tasks.drop_first(), t);
        assert(tasks.push(t).drop_first() =~= tasks.drop_first().push(t));
        assert(tasks.push(t)[0] == tasks[0]);
        assert(remaining_polls(tasks.push(t)) == tasks[0].suspensions as nat + 1 + remaining_polls(tasks.drop_first().push(t)));
    } else {
        assert(tasks.push(t).drop_first() =~= Seq::<Task>::empty());
        assert(tasks.push(t)[0] == t);
        assert(remaining_polls(tasks.push(t)) == t.suspensions as nat + 1 + remaining_polls(Seq::<Task>::empty()));
    }
}

/// The identities of `tasks` in the order they complete when the front task
/// is polled each time and a pending one goes to the back.
pub open spec fn round_robin(tasks: Seq<Task>) -> Seq<TaskId>
    decreases remaining_polls(tasks),
    via round_robin_decreases
{
    if tasks.len() == 0 {
        Seq::empty()
    } else {
        let t = tasks[0];
        if t.suspensions == 0 {
            seq![t.id] + round_robin(tasks.drop_first())
        } else {
            round_robin(tasks.drop_first().push(Task { id: t.id, suspensions: (t.suspensions - 1) as u64 }))
        }
    }
}

#[via_fn]
proof fn round_robin_decreases(tasks: Seq<Task>) {
    if tasks.len() > 0 {
        let t = tasks[0];
        if t.suspensions != 0 {
            lemma_remaining_polls_push(tasks.drop_first(), Task { id: t.id, suspensions: (t.suspensions - 1) as u64 });
        }
    }
}

/// An executor with a first-in first-out queue of tasks; a task that is
/// still pending goes to the back of the queue.
pub struct SimpleExecutor {
    task_queue: VecDeque<Task>,
    completed: Vec<TaskId>,
}

impl SimpleExecutor {
    /// The tasks waiting to be polled, front first.
    pub closed spec fn queue(&self) -> Seq<Task> {
        self.task_queue@
    }

    /// The identities of the tasks that completed, in order.
    pub closed spec fn finished(&self) -> Seq<TaskId> {
        self.completed@
    }

    /// An executor with no tasks.
    pub fn new() -> (r: Self)
        ensures
            r.queue() == Seq::<Task>::empty(),
            r.finished() == Seq::<TaskId>::empty(),
    {
        SimpleExecutor { task_queue: VecDeque::new(), completed: Vec::new() }
    }

    /// Queues a task; nothing is polled yet.
    pub fn spawn(&mut self, task: Task)
        ensures
            final(self).queue() == old(self).queue().push(task),
            final(self).finished() == old(self).finished(),
    {
        self.task_queue.push_back(task);
    }

    /// The identities of the tasks that completed, in order.
    pub fn completed(&self) -> (r: &Vec<TaskId>)
        ensures
            r@ == self.finished(),
    {
        &self.completed
    }

    /// Polls the task at the front of the queue until none is left: one
    /// that completes is recorded, one that is pending is queued again.
    pub fn run(&mut self)
        ensures
            final(self).queue() == Seq::<Task>::empty(),
            final(self).finished() == old(self).finished() + round_robin(old(self).queue()),
            final(self).finished().to_multiset() == old(self).finished().to_multiset().add(
                task_ids(old(self).queue()).to_multiset(),
            ),
    {
        loop
            invariant
                self.finished().to_multiset().add(task_ids(self.queue()).to_multiset())
                    == old(self).finished().to_multiset().add(task_ids(old(self).queue()).to_multiset()),
                self.finished() + round_robin(self.queue()) == old(self).finished() + round_robin(old(self).queue()),
            decreases remaining_polls(self.queue()),
        {
            let ghost q0 = self.queue();
            let ghost c0 = self.finished();
            match self.task_queue.pop_front() {
                Some(task) => {
                    let mut task = task;
                    assert(task_ids(q0) =~= seq![task.id] + task_ids(q0.drop_first()));
                    assert(task_ids(q0.drop_first()) =~= task_ids(q0).remove(0));
                    match task.poll() {
                        TaskPoll::Ready => {
                            self.completed.push(task.id);
                            assert(self.finished() + round_robin(self.queue()) =~= c0 + round_robin(q0));
                            assert(self.finished().to_multiset().add(task_ids(self.queue()).to_multiset())
                                =~= c0.to_multiset().add(task_ids(q0).to_multiset()));
                        },
                        TaskPoll::Pending => {
                            self.task_queue.push_back(task);
                            proof {
                                lemma_remaining_polls_push(q0.drop_first(), task);
                                assert(task_ids(self.queue()) =~= task_ids(q0.drop_first()).push(task.id));
                                assert(task == Task { id: q0[0].id, suspensions: (q0[0].suspensions - 1) as u64 });
                                assert(round_robin(self.queue()) == round_robin(q0));
                            }
                            assert(self.finished().to_multiset().add(task_ids(self.queue()).to_multiset())
                                =~= c0.to_multiset().add(task_ids(q0).to_multiset()));
                        },
                    }
                },
                None => {
                    assert(task_ids(self.queue()) =~= Seq::<TaskId>::empty());
                    assert(self.finished() + round_robin(self.queue()) =~= self.finished());
                    assert(self.finished().to_multiset() =~= self.finished().to_multiset().add(
                        task_ids(self.queue()).to_multiset()));
                    return;
                },
            }
        }
    }
}

} // verus!
