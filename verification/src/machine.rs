//! A single processing unit and the tasks currently assigned to it.

use vstd::prelude::*;
use crate::sums::{all_pos, sum_seq, swap_removed, lemma_sum_seq_take_succ, lemma_sum_seq_take_bounds};

verus! {

/// A machine: a collection of task durations. Its load (makespan) is their
/// sum.
pub struct Machine {
    tasks: Vec<i32>,
}

impl View for Machine {
    type V = Seq<i32>;

    closed spec fn view(&self) -> Seq<i32> {
        self.tasks@
    }
}

/// Well-formed machine contents: durations are positive and the total fits
/// an `i32`, so the load can be computed without overflow.
pub open spec fn machine_wf(s: Seq<i32>) -> bool {
    all_pos(s) && sum_seq(s) <= i32::MAX
}

impl Machine {
    /// A machine with no tasks.
    pub fn new() -> (m: Machine)
        ensures
            m@ == Seq::<i32>::empty(),
            m@.len() == 0,
    {
        Machine { tasks: Vec::new() }
    }

    /// A machine holding exactly the given tasks.
    pub fn from_tasks(tasks: Vec<i32>) -> (m: Machine)
        ensures
            m@ == tasks@,
    {
        Machine { tasks }
    }

    /// The load of this machine: the sum of its task durations. An empty
    /// machine has load 0.
    pub fn makespan(&self) -> (total: i32)
        requires
            machine_wf(self@),
        ensures
            total == sum_seq(self@),
    {
        let mut acc: i32 = 0;
        let mut i: usize = 0;
        while i < self.tasks.len()
            invariant
                machine_wf(self@),
                i <= self.tasks.len(),
                acc == sum_seq(self@.take(i as int)),
            decreases self.tasks.len() - i,
        {
            proof {
                lemma_sum_seq_take_succ(self@, i as int);
                lemma_sum_seq_take_bounds(self@, i as int);
                lemma_sum_seq_take_bounds(self@, i as int + 1);
            }
            acc = acc + self.tasks[i];
            i = i + 1;
        }
        proof {
            assert(self@.take(self.tasks.len() as int) =~= self@);
        }
        acc
    }

    /// The number of tasks on this machine.
    pub fn task_count(&self) -> (n: usize)
        ensures
            n == self@.len(),
    {
        self.tasks.len()
    }

    /// The duration of the task at the given position.
    pub fn task_at(&self, i: usize) -> (t: i32)
        requires
            i < self@.len(),
        ensures
            t == self@[i as int],
    {
        self.tasks[i]
    }

    /// Appends a task to this machine.
    pub fn add_task(&mut self, t: i32)
        ensures
            final(self)@ == old(self)@.push(t),
    {
        self.tasks.push(t);
    }

    /// Removes and returns the task at the given position, moving the last
    /// task into its slot (swap-with-last-and-pop).
    pub fn remove_task(&mut self, i: usize) -> (t: i32)
        requires
            i < old(self)@.len(),
        ensures
            t == old(self)@[i as int],
            final(self)@ == swap_removed(old(self)@, i as int),
    {
        self.tasks.swap_remove(i)
    }
}

impl Clone for Machine {
    /// A clone holds the same tasks in the same order.
    fn clone(&self) -> (m: Self)
        ensures
            m@ == self@,
    {
        let mut ts: Vec<i32> = Vec::new();
        let mut i: usize = 0;
        while i < self.tasks.len()
            invariant
                i <= self.tasks.len(),
                ts@ =~= self.tasks@.take(i as int),
            decreases self.tasks.len() - i,
        {
            ts.push(self.tasks[i]);
            i = i + 1;
        }
        proof {
            assert(self.tasks@.take(self.tasks.len() as int) =~= self.tasks@);
        }
        Machine { tasks: ts }
    }
}

} // verus!
