//! The job queue: an ordered list of solver requests.

use vstd::prelude::*;

verus! {

/// One request to the solver: an identifier handed out by the pool and the
/// flags that say what to do with it.
#[derive(Clone, Copy, Debug, PartialEq, Eq, Structural)]
pub struct Job {
    /// The identifier the request is about.
    pub id: usize,
    /// The verb and the selection mode, combined with bitwise or.
    pub flags: u32,
}

/// An ordered, index-addressable list of jobs. Duplicate and conflicting
/// entries are legal; the order of insertion is kept.
pub struct Queue {
    jobs: Vec<Job>,
}

impl View for Queue {
    type V = Seq<Job>;

    closed spec fn view(&self) -> Seq<Job> {
        self.jobs@
    }
}

impl Queue {
    /// An empty queue.
    pub fn new() -> (q: Queue)
        ensures
            q@ == Seq::<Job>::empty(),
    {
        Queue { jobs: Vec::new() }
    }

    /// Appends one job at the end of the queue.
    pub fn push(&mut self, job: Job)
        ensures
            final(self)@ == old(self)@.push(job),
    {
        self.jobs.push(job);
    }

    /// Appends the job made of an identifier and flags at the end of the
    /// queue.
    pub fn push_id_with_flags(&mut self, id: usize, flags: u32)
        ensures
            final(self)@ == old(self)@.push(Job { id, flags }),
    {
        self.push(Job { id, flags });
    }

    /// Removes every job.
    pub fn clear(&mut self)
        ensures
            final(self)@ == Seq::<Job>::empty(),
    {
        self.jobs.clear();
    }

    /// The number of jobs.
    pub fn len(&self) -> (n: usize)
        ensures
            n == self@.len(),
    {
        self.jobs.len()
    }

    /// Whether the queue holds no job.
    pub fn is_empty(&self) -> (b: bool)
        ensures
            b == (self@.len() == 0),
    {
        self.jobs.len() == 0
    }

    /// The job at `index`, or `None` past the end.
    pub fn get(&self, index: usize) -> (job: Option<Job>)
        ensures
            job == (if index < self@.len() { Some(self@[index as int]) } else { None }),
    {
        if index < self.jobs.len() {
            Some(self.jobs[index])
        } else {
            None
        }
    }

    /// Replaces the job at `index`. Returns `false`, and changes nothing,
    /// when `index` is past the end.
    pub fn set(&mut self, index: usize, id: usize, flags: u32) -> (done: bool)
        ensures
            done == (index < old(self)@.len()),
            done ==> final(self)@ == old(self)@.update(index as int, Job { id, flags }),
            !done ==> final(self)@ == old(self)@,
    {
        if index < self.jobs.len() {
            self.jobs.set(index, Job { id, flags });
            true
        } else {
            false
        }
    }
}

impl Default for Queue {
    fn default() -> (q: Queue)
        ensures
            q@ == Seq::<Job>::empty(),
    {
        Queue::new()
    }
}

} // verus!
