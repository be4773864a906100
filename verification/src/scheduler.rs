//! Task scheduler for worker load balancing.

use vstd::prelude::*;

use std::collections::VecDeque;

verus! {

/// A unit of distributed work over a range of agents.
#[derive(Debug, Clone)]
pub enum Task {
    /// Simulate physics for an agent range.
    Physics { agent_start: usize, agent_end: usize },
    /// Simulate sensors for an agent range.
    Sensors { agent_start: usize, agent_end: usize },
    /// Simulate communications for an agent range.
    Communications { agent_start: usize, agent_end: usize },
    /// Run AI inference for an agent range.
    AI { agent_start: usize, agent_end: usize },
}

/// First-in, first-out scheduler feeding a pool of workers.
pub struct Scheduler {
    pub task_queue: VecDeque<Task>,
    pub num_workers: usize,
}

impl Scheduler {
    /// An empty scheduler for the given number of workers.
    pub fn new(num_workers: usize) -> (r: Self)
        ensures
            r.task_queue@ =~= Seq::<Task>::empty(),
            r.num_workers == num_workers,
    {
        Scheduler { task_queue: VecDeque::new(), num_workers }
    }

    /// Append a task to the queue.
    pub fn submit(&mut self, task: Task)
        ensures
            final(self).task_queue@ == old(self).task_queue@.push(task),
            final(self).num_workers == old(self).num_workers,
    {
        self.task_queue.push_back(task);
    }

    /// Take the oldest queued task, if any.
    pub fn get_task(&mut self) -> (r: Option<Task>)
        ensures
            old(self).task_queue@.len() == 0 ==> r.is_none() && final(self).task_queue@
                == old(self).task_queue@,
            old(self).task_queue@.len() > 0 ==> r == Some(old(self).task_queue@.first())
                && final(self).task_queue@ == old(self).task_queue@.drop_first(),
            final(self).num_workers == old(self).num_workers,
    {
        self.task_queue.pop_front()
    }

    /// Whether no work is queued.
    pub fn is_idle(&self) -> (r: bool)
        ensures
            r == (self.task_queue@.len() == 0),
    {
        self.task_queue.len() == 0
    }

    /// Number of queued tasks.
    pub fn queue_len(&self) -> (r: usize)
        ensures
            r == self.task_queue@.len(),
    {
        self.task_queue.len()
    }
}

} // verus!
