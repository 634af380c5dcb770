//! A queue of screening jobs run one after another, and the decisions taken
//! as jobs are added, removed, started, stopped and finished.

use vstd::prelude::*;

verus! {

/// Where the queue stands.
#[derive(Clone, Copy, Debug, PartialEq, Eq, Structural)]
pub enum WorklistState {
    Idle,
    Processing,
    /// Processing, but no further job is to be started.
    StopRequested,
}

/// Jobs waiting to run, each with the id given when it was added.
pub struct Worklist<J> {
    pub jobs: Vec<(u64, J)>,
    pub state: WorklistState,
    /// The job being run while processing.
    pub current: usize,
    /// Number of jobs when processing started.
    pub total_at_start: usize,
    /// The id the next added job gets.
    pub next_id: u64,
}

impl<J> Worklist<J> {
    /// An idle, empty queue whose first job gets id 1.
    pub fn new() -> (r: Worklist<J>)
        ensures
            r.jobs@.len() == 0,
            r.state == WorklistState::Idle,
            r.current == 0,
            r.total_at_start == 0,
            r.next_id == 1,
    {
        Worklist { jobs: Vec::new(), state: WorklistState::Idle, current: 0, total_at_start: 0, next_id: 1 }
    }

    /// Adds `job` at the end of the queue and returns its id.
    pub fn add(&mut self, job: J) -> (id: u64)
        requires
            old(self).next_id < u64::MAX,
        ensures
            id == old(self).next_id,
            final(self).jobs@ == old(self).jobs@.push((id, job)),
            final(self).next_id == old(self).next_id + 1,
            final(self).state == old(self).state,
            final(self).current == old(self).current,
            final(self).total_at_start == old(self).total_at_start,
    {
        let id = self.next_id;
        self.jobs.push((id, job));
        self.next_id = id + 1;
        id
    }

    /// Removes the job at `index`, unless there is none or it is the job
    /// being run; while processing, the current job keeps its place.
    pub fn remove(&mut self, index: usize) -> (removed: bool)
        ensures
            removed == (index < old(self).jobs@.len() && !(old(self).state == WorklistState::Processing
                && index == old(self).current)),
            removed ==> final(self).jobs@ == old(self).jobs@.remove(index as int),
            !removed ==> final(self).jobs@ == old(self).jobs@,
            final(self).current == if removed && old(self).state == WorklistState::Processing && index < old(self).current {
                (old(self).current - 1) as usize
            } else {
                old(self).current
            },
            final(self).state == old(self).state,
            final(self).total_at_start == old(self).total_at_start,
            final(self).next_id == old(self).next_id,
    {
        if index >= self.jobs.len() {
            return false;
        }
        if self.state == WorklistState::Processing && index == self.current {
            return false;
        }
        let _ = self.jobs.remove(index);
        if self.state == WorklistState::Processing && index < self.current {
            self.current = self.current - 1;
        }
        true
    }

    /// Asks that no further job be started once the current one is done.
    pub fn request_stop(&mut self)
        ensures
            final(self).state == if old(self).state == WorklistState::Processing {
                WorklistState::StopRequested
            } else {
                old(self).state
            },
            final(self).jobs@ == old(self).jobs@,
            final(self).current == old(self).current,
            final(self).total_at_start == old(self).total_at_start,
            final(self).next_id == old(self).next_id,
    {
        if self.state == WorklistState::Processing {
            self.state = WorklistState::StopRequested;
        }
    }

    /// Decides what runs next: the index of the job to start, or `None`
    /// (the queue going idle) when no job is left or a stop was requested.
    pub fn next_job(&mut self) -> (r: Option<usize>)
        ensures
            old(self).current >= old(self).jobs@.len() || old(self).state == WorklistState::StopRequested ==> {
                &&& r is None
                &&& final(self).state == WorklistState::Idle
            },
            !(old(self).current >= old(self).jobs@.len() || old(self).state == WorklistState::StopRequested) ==> {
                &&& r == Some(old(self).current)
                &&& final(self).state == old(self).state
            },
            final(self).jobs@ == old(self).jobs@,
            final(self).current == old(self).current,
            final(self).total_at_start == old(self).total_at_start,
            final(self).next_id == old(self).next_id,
    {
        if self.current >= self.jobs.len() || self.state == WorklistState::StopRequested {
            self.state = WorklistState::Idle;
            return None;
        }
        Some(self.current)
    }

    /// Starts processing from the first job: the index of the job to start,
    /// or `None` when the queue is empty or already processing (nothing changes then).
    pub fn start(&mut self) -> (r: Option<usize>)
        ensures
            old(self).jobs@.len() == 0 || old(self).state == WorklistState::Processing ==> {
                &&& r is None
                &&& *final(self) == *old(self)
            },
            !(old(self).jobs@.len() == 0 || old(self).state == WorklistState::Processing) ==> {
                &&& r == Some(0usize)
                &&& final(self).state == WorklistState::Processing
                &&& final(self).current == 0
                &&& final(self).total_at_start == old(self).jobs@.len()
                &&& final(self).jobs@ == old(self).jobs@
                &&& final(self).next_id == old(self).next_id
            },
    {
        if self.jobs.len() == 0 || self.state == WorklistState::Processing {
            return None;
        }
        self.state = WorklistState::Processing;
        self.current = 0;
        self.total_at_start = self.jobs.len();
        self.next_job()
    }

    /// Takes the job being run out of the queue once it is done; the next job
    /// then stands at the same index.
    pub fn finish_current(&mut self) -> (r: (u64, J))
        requires
            old(self).current < old(self).jobs@.len(),
        ensures
            r == old(self).jobs@[old(self).current as int],
            final(self).jobs@ == old(self).jobs@.remove(old(self).current as int),
            final(self).state == old(self).state,
            final(self).current == old(self).current,
            final(self).total_at_start == old(self).total_at_start,
            final(self).next_id == old(self).next_id,
    {
        self.jobs.remove(self.current)
    }
}

} // verus!
