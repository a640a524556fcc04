//! The job table: pipelines started by the shell, their processes and
//! what became of them.

use vstd::prelude::*;
use vstd::string::*;
use crate::text::{push_char, push_int, push_str, push_decimal};

verus! {

/// What waiting reported for one process.
#[derive(Debug, Clone, Copy, PartialEq, Eq, Structural)]
pub enum ProcEvent {
    /// Exited with this status.
    Exited(i32),
    /// Killed by this signal.
    Signaled(i32),
    /// Stopped by a signal.
    Stopped,
    /// Continued after a stop.
    Continued,
}

/// What is known of one process of a job.
#[derive(Debug, Clone, Copy, PartialEq, Eq, Structural)]
pub enum ProcState {
    Running,
    Stopped,
    /// Finished, with its exit code.
    Done(i32),
}

/// A job's status, as `jobs` shows it.
#[derive(Debug, Clone, Copy, PartialEq, Eq, Structural)]
pub enum JobStatus {
    Running,
    Stopped,
    /// Every process finished; the code is the last stage's.
    Done(i32),
}

/// Signal number of `SIGTSTP`.
pub const SIGTSTP: i32 = 20;

/// The exit code for a process killed by signal `sig`: `128 + sig`.
pub open spec fn signal_code(sig: i32) -> i32 {
    if sig > i32::MAX - 128 { i32::MAX } else if sig < 0 { 128 } else { (128 + sig) as i32 }
}

pub fn signal_exit_code(sig: i32) -> (r: i32)
    ensures
        r == signal_code(sig),
{
    if sig > i32::MAX - 128 {
        i32::MAX
    } else if sig < 0 {
        128
    } else {
        128 + sig
    }
}

/// The state a process is in after `e`.
pub open spec fn state_after(e: ProcEvent) -> ProcState {
    match e {
        ProcEvent::Exited(c) => ProcState::Done(c),
        ProcEvent::Signaled(s) => ProcState::Done(signal_code(s)),
        ProcEvent::Stopped => ProcState::Stopped,
        ProcEvent::Continued => ProcState::Running,
    }
}

pub fn state_after_event(e: ProcEvent) -> (r: ProcState)
    ensures
        r == state_after(e),
{
    match e {
        ProcEvent::Exited(c) => ProcState::Done(c),
        ProcEvent::Signaled(s) => ProcState::Done(signal_exit_code(s)),
        ProcEvent::Stopped => ProcState::Stopped,
        ProcEvent::Continued => ProcState::Running,
    }
}

/// A job's status from its processes': stopped if any is stopped, done
/// when all are done, running otherwise.
pub open spec fn status_of(states: Seq<ProcState>) -> JobStatus {
    if exists|i: int| 0 <= i < states.len() && states[i] == ProcState::Stopped {
        JobStatus::Stopped
    } else if states.len() > 0 && forall|i: int| 0 <= i < states.len() ==> (#[trigger] states[i]) is Done {
        JobStatus::Done(states.last()->Done_0)
    } else {
        JobStatus::Running
    }
}

/// The first position at or after `k` whose process is not finished.
pub open spec fn first_pending_from(states: Seq<ProcState>, k: int) -> Option<int>
    decreases states.len() - k,
{
    if k < 0 || k >= states.len() {
        None
    } else if !(states[k] is Done) {
        Some(k)
    } else {
        first_pending_from(states, k + 1)
    }
}

/// The first position whose process is not finished.
pub open spec fn first_pending(states: Seq<ProcState>) -> Option<int> {
    first_pending_from(states, 0)
}

/// Index of the first unfinished process of `job`.
fn first_pending_index(job: &Job) -> (r: Option<usize>)
    requires
        job.wf(),
    ensures
        match r {
            Some(k) => first_pending(job.states@) == Some(k as int) && k < job.pids@.len(),
            None => first_pending(job.states@) is None,
        },
{
    let mut k: usize = 0;
    while k < job.states.len()
        invariant
            job.wf(),
            0 <= k <= job.states@.len(),
            first_pending(job.states@) == first_pending_from(job.states@, k as int),
        decreases job.states@.len() - k,
    {
        match job.states[k] {
            ProcState::Done(_) => {},
            _ => {
                return Some(k);
            },
        }
        k += 1;
    }
    None
}

/// A pipeline started by the shell.
#[derive(Debug)]
pub struct Job {
    pub id: usize,
    /// Process group of the pipeline: its first process's pid.
    pub pgid: i32,
    /// Pids of the stages, in order.
    pub pids: Vec<i32>,
    /// State of each stage's process.
    pub states: Vec<ProcState>,
    /// The command line, for display.
    pub command: String,
}

impl Job {
    pub open spec fn wf(&self) -> bool {
        &&& self.pids@.len() >= 1
        &&& self.states@.len() == self.pids@.len()
        &&& self.pgid == self.pids@[0]
    }

    pub open spec fn status_spec(&self) -> JobStatus {
        status_of(self.states@)
    }

    /// The job's status.
    pub fn status(&self) -> (r: JobStatus)
        requires
            self.wf(),
        ensures
            r == self.status_spec(),
    {
        let n = self.states.len();
        let mut i: usize = 0;
        let mut all_done = true;
        while i < n
            invariant
                n == self.states@.len(),
                0 <= i <= n,
                forall|j: int| 0 <= j < i ==> self.states@[j] != ProcState::Stopped,
                all_done == forall|j: int| 0 <= j < i ==> (#[trigger] self.states@[j]) is Done,
            decreases n - i,
        {
            match self.states[i] {
                ProcState::Stopped => {
                    return JobStatus::Stopped;
                },
                ProcState::Running => {
                    all_done = false;
                },
                ProcState::Done(_) => {},
            }
            i += 1;
        }
        if all_done {
            match self.states[n - 1] {
                ProcState::Done(c) => JobStatus::Done(c),
                _ => JobStatus::Running,
            }
        } else {
            JobStatus::Running
        }
    }
}

/// The jobs of a session.
#[derive(Debug)]
pub struct JobTable {
    jobs: Vec<Job>,
    next_id: usize,
}

impl JobTable {
    pub closed spec fn jobs(&self) -> Seq<Job> {
        self.jobs@
    }

    pub closed spec fn next(&self) -> nat {
        self.next_id as nat
    }

    /// Ids are unique and below the next id; each job is well formed.
    pub closed spec fn wf(&self) -> bool {
        &&& forall|i: int| 0 <= i < self.jobs@.len() ==> (#[trigger] self.jobs@[i]).wf() && self.jobs@[i].id
            < self.next_id && self.jobs@[i].id >= 1
        &&& forall|i: int, j: int|
            0 <= i < j < self.jobs@.len() ==> (#[trigger] self.jobs@[i]).id != (#[trigger] self.jobs@[j]).id
        &&& self.next_id >= 1
    }

    /// What the table's invariant says of its jobs: each is well formed,
    /// ids are unique, at least 1 and below `next()`.
    pub proof fn lemma_wf(&self)
        requires
            self.wf(),
        ensures
            forall|i: int| 0 <= i < self.jobs().len() ==> (#[trigger] self.jobs()[i]).wf() && self.jobs()[i].id
                < self.next() && self.jobs()[i].id >= 1,
            forall|i: int, j: int|
                0 <= i < j < self.jobs().len() ==> (#[trigger] self.jobs()[i]).id != (#[trigger] self.jobs()[j]).id,
            self.next() >= 1,
    {
        assert forall|i: int| 0 <= i < self.jobs().len() implies (#[trigger] self.jobs()[i]).wf() && self.jobs()[i].id
            < self.next() && self.jobs()[i].id >= 1 by {
            assert(self.jobs@[i] == self.jobs()[i]);
        }
        assert forall|i: int, j: int| 0 <= i < j < self.jobs().len() implies (#[trigger] self.jobs()[i]).id != (
        #[trigger] self.jobs()[j]).id by {
            assert(self.jobs@[i] == self.jobs()[i] && self.jobs@[j] == self.jobs()[j]);
        }
    }

    /// Whether a job with this id is in the table.
    pub open spec fn has_job(&self, id: usize) -> bool {
        exists|i: int| 0 <= i < self.jobs().len() && (#[trigger] self.jobs()[i]).id == id
    }

    /// An empty table; ids start at 1.
    pub fn new() -> (r: Self)
        ensures
            r.wf(),
            r.jobs().len() == 0,
            r.next() == 1,
    {
        JobTable { jobs: Vec::new(), next_id: 1 }
    }

    /// Whether another job id is left to hand out.
    pub fn can_add(&self) -> (r: bool)
        ensures
            r == (self.next() < usize::MAX),
    {
        self.next_id < usize::MAX
    }

    /// Number of jobs.
    pub fn len(&self) -> (r: usize)
        ensures
            r == self.jobs().len(),
    {
        self.jobs.len()
    }

    /// Records a started pipeline: its process group is its first
    /// process's, and every process is running. Returns the new job's id.
    pub fn add_job(&mut self, pgid: i32, command: String, pids: Vec<i32>) -> (r: usize)
        requires
            old(self).wf(),
            pids@.len() >= 1,
            pgid == pids@[0],
            old(self).next() < usize::MAX,
        ensures
            final(self).wf(),
            !old(self).has_job(r),
            final(self).jobs() == old(self).jobs().push(final(self).jobs().last()),
            final(self).jobs().last().id == r,
            final(self).jobs().last().pgid == pids@[0],
            final(self).jobs().last().pids@ == pids@,
            final(self).jobs().last().command@ == command@,
            final(self).jobs().last().status_spec() == JobStatus::Running,
            final(self).next() == old(self).next() + 1,
            r == old(self).next(),
    {
        let id = self.next_id;
        let n = pids.len();
        let mut states: Vec<ProcState> = Vec::new();
        let mut i: usize = 0;
        while i < n
            invariant
                0 <= i <= n,
                states@.len() == i,
                forall|j: int| 0 <= j < i ==> states@[j] == ProcState::Running,
            decreases n - i,
        {
            states.push(ProcState::Running);
            i += 1;
        }
        let job = Job { id, pgid, pids, states, command };
        proof {
            assert(job.states@[0] == ProcState::Running);
            assert(!(job.states@[0] is Done));
            assert(!exists|i: int| 0 <= i < job.states@.len() && job.states@[i] == ProcState::Stopped);
            assert(!old(self).has_job(id));
        }
        self.jobs.push(job);
        self.next_id = id + 1;
        id
    }

    /// Index of job `id`, if present.
    fn index_of(&self, id: usize) -> (r: Option<usize>)
        ensures
            match r {
                Some(i) => i < self.jobs@.len() && self.jobs@[i as int].id == id,
                None => !self.has_job(id),
            },
    {
        let mut i: usize = 0;
        while i < self.jobs.len()
            invariant
                0 <= i <= self.jobs@.len(),
                forall|j: int| 0 <= j < i ==> self.jobs@[j].id != id,
            decreases self.jobs@.len() - i,
        {
            if self.jobs[i].id == id {
                return Some(i);
            }
            i += 1;
        }
        None
    }

    /// Job `id`, if present.
    pub fn get(&self, id: usize) -> (r: Option<&Job>)
        ensures
            r.is_some() == self.has_job(id),
            r matches Some(j) ==> j.id == id && self.jobs().contains(*j),
    {
        match self.index_of(id) {
            Some(i) => {
                assert(self.jobs()[i as int].id == id);
                Some(&self.jobs[i])
            },
            None => None,
        }
    }

    /// All jobs, oldest first.
    pub fn list(&self) -> (r: &Vec<Job>)
        ensures
            r@ == self.jobs(),
    {
        &self.jobs
    }

    /// The newest job's id.
    pub fn most_recent(&self) -> (r: Option<usize>)
        ensures
            r is None == (self.jobs().len() == 0),
            r matches Some(id) ==> id == self.jobs().last().id,
    {
        if self.jobs.len() == 0 {
            None
        } else {
            Some(self.jobs[self.jobs.len() - 1].id)
        }
    }

    /// Removes job `id`, returning it.
    pub fn remove(&mut self, id: usize) -> (r: Option<Job>)
        requires
            old(self).wf(),
        ensures
            final(self).wf(),
            r.is_some() == old(self).has_job(id),
            !final(self).has_job(id),
            r is None ==> final(self).jobs() == old(self).jobs(),
            r matches Some(j) ==> j.id == id && exists|i: int|
                0 <= i < old(self).jobs().len() && old(self).jobs()[i] == j && final(self).jobs() == old(
                    self,
                ).jobs().remove(i),
    {
        match self.index_of(id) {
            Some(i) => {
                let ghost old_jobs = self.jobs@;
                assert(old_jobs[i as int].id == id);
                assert(old(self).jobs()[i as int].id == id);
                let j = self.jobs.remove(i);
                proof {
                    assert(old(self).jobs()[i as int] == j && self.jobs() == old(self).jobs().remove(i as int));
                    assert forall|t: int| 0 <= t < self.jobs@.len() implies (#[trigger] self.jobs@[t]).id != id by {
                        if t < i {
                            assert(self.jobs@[t] == old_jobs[t]);
                        } else {
                            assert(self.jobs@[t] == old_jobs[t + 1]);
                        }
                    }
                    assert forall|a: int, b: int| 0 <= a < b < self.jobs@.len() implies (
                    #[trigger] self.jobs@[a]).id != (#[trigger] self.jobs@[b]).id by {
                        let a2 = if a < i { a } else { a + 1 };
                        let b2 = if b < i { b } else { b + 1 };
                        assert(self.jobs@[a] == old_jobs[a2] && self.jobs@[b] == old_jobs[b2]);
                    }
                    assert forall|t: int| 0 <= t < self.jobs@.len() implies (#[trigger] self.jobs@[t]).wf()
                        && self.jobs@[t].id < self.next_id && self.jobs@[t].id >= 1 by {
                        if t < i {
                            assert(self.jobs@[t] == old_jobs[t]);
                        } else {
                            assert(self.jobs@[t] == old_jobs[t + 1]);
                        }
                    }
                }
                Some(j)
            },
            None => None,
        }
    }

    /// Records what waiting reported for process `pid`. Returns whether
    /// some job holds that process.
    pub fn update_status(&mut self, pid: i32, event: ProcEvent) -> (r: bool)
        requires
            old(self).wf(),
        ensures
            final(self).wf(),
            final(self).jobs().len() == old(self).jobs().len(),
            forall|i: int| 0 <= i < final(self).jobs().len() ==> {
                &&& (#[trigger] final(self).jobs()[i]).id == old(self).jobs()[i].id
                &&& final(self).jobs()[i].pgid == old(self).jobs()[i].pgid
                &&& final(self).jobs()[i].pids@ == old(self).jobs()[i].pids@
                &&& final(self).jobs()[i].command@ == old(self).jobs()[i].command@
                &&& final(self).jobs()[i].states@.len() == old(self).jobs()[i].states@.len()
            },
            forall|i: int, k: int|
                0 <= i < final(self).jobs().len() && 0 <= k < final(self).jobs()[i].states@.len()
                    ==> #[trigger] final(self).jobs()[i].states@[k] == if old(self).jobs()[i].pids@[k] == pid {
                    state_after(event)
                } else {
                    old(self).jobs()[i].states@[k]
                },
            r == exists|i: int, k: int|
                0 <= i < old(self).jobs().len() && 0 <= k < old(self).jobs()[i].pids@.len()
                    && old(self).jobs()[i].pids@[k] == pid,
    {
        let st = state_after_event(event);
        let mut found = false;
        let mut i: usize = 0;
        let ghost old_jobs = self.jobs@;
        while i < self.jobs.len()
            invariant
                0 <= i <= self.jobs@.len(),
                self.jobs@.len() == old_jobs.len(),
                self.next_id == old(self).next_id,
                old_jobs == old(self).jobs@,
                st == state_after(event),
                forall|t: int| 0 <= t < self.jobs@.len() ==> {
                    &&& (#[trigger] self.jobs@[t]).id == old_jobs[t].id
                    &&& self.jobs@[t].pgid == old_jobs[t].pgid
                    &&& self.jobs@[t].pids@ == old_jobs[t].pids@
                    &&& self.jobs@[t].command@ == old_jobs[t].command@
                    &&& self.jobs@[t].states@.len() == old_jobs[t].states@.len()
                    &&& (t >= i ==> self.jobs@[t].states@ == old_jobs[t].states@)
                },
                forall|t: int, k: int|
                    0 <= t < i && 0 <= k < self.jobs@[t].states@.len() ==> #[trigger] self.jobs@[t].states@[k] == if old_jobs[t].pids@[k]
                        == pid {
                        st
                    } else {
                        old_jobs[t].states@[k]
                    },
                found == exists|t: int, k: int|
                    0 <= t < i && 0 <= k < old_jobs[t].pids@.len() && old_jobs[t].pids@[k] == pid,
                forall|t: int| 0 <= t < old_jobs.len() ==> (#[trigger] old_jobs[t]).wf() && old_jobs[t].id < old(
                    self,
                ).next_id && old_jobs[t].id >= 1,
            decreases self.jobs@.len() - i,
        {
            let ghost prev = self.jobs@;
            let mut job = self.jobs.remove(i);
            let ghost before = job;
            assert(before == prev[i as int]);
            assert(before.states@ == old_jobs[i as int].states@);
            let ghost found0 = found;
            let mut k: usize = 0;
            while k < job.pids.len()
                invariant
                    0 <= k <= job.pids@.len(),
                    job.pids@ == before.pids@,
                    job.id == before.id,
                    job.pgid == before.pgid,
                    job.command@ == before.command@,
                    job.states@.len() == before.states@.len(),
                    before.wf(),
                    forall|q: int| 0 <= q < job.states@.len() ==> #[trigger] job.states@[q] == if q < k && before.pids@[q] == pid {
                        st
                    } else {
                        before.states@[q]
                    },
                    found == (found0 || exists|q: int| 0 <= q < k && before.pids@[q] == pid),
                decreases job.pids@.len() - k,
            {
                if job.pids[k] == pid {
                    job.states.set(k, st);
                    found = true;
                }
                k += 1;
            }
            let ghost after = job;
            self.jobs.insert(i, job);
            proof {
                assert(self.jobs@ =~= prev.update(i as int, after));
                assert(found == exists|t: int, k: int|
                    0 <= t < i + 1 && 0 <= k < old_jobs[t].pids@.len() && old_jobs[t].pids@[k] == pid) by {
                    if found0 {
                        let (t, k) = choose|t: int, k: int|
                            0 <= t < i && 0 <= k < old_jobs[t].pids@.len() && old_jobs[t].pids@[k] == pid;
                        assert(0 <= t < i + 1 && 0 <= k < old_jobs[t].pids@.len() && old_jobs[t].pids@[k] == pid);
                    } else if exists|q: int| 0 <= q < before.pids@.len() && before.pids@[q] == pid {
                        let q = choose|q: int| 0 <= q < before.pids@.len() && before.pids@[q] == pid;
                        assert(0 <= i < i + 1 && 0 <= q < old_jobs[i as int].pids@.len() && old_jobs[i as int].pids@[q]
                            == pid);
                    } else {
                        if exists|t: int, k: int|
                            0 <= t < i + 1 && 0 <= k < old_jobs[t].pids@.len() && old_jobs[t].pids@[k] == pid {
                            let (t, k) = choose|t: int, k: int|
                                0 <= t < i + 1 && 0 <= k < old_jobs[t].pids@.len() && old_jobs[t].pids@[k] == pid;
                            if t < i {
                                assert(found0);
                            } else {
                                assert(before.pids@[k] == pid);
                            }
                        }
                    }
                }
                assert forall|t: int| 0 <= t < self.jobs@.len() implies {
                    &&& (#[trigger] self.jobs@[t]).id == old_jobs[t].id
                    &&& self.jobs@[t].pgid == old_jobs[t].pgid
                    &&& self.jobs@[t].pids@ == old_jobs[t].pids@
                    &&& self.jobs@[t].command@ == old_jobs[t].command@
                    &&& self.jobs@[t].states@.len() == old_jobs[t].states@.len()
                    &&& (t >= i + 1 ==> self.jobs@[t].states@ == old_jobs[t].states@)
                } by {
                    if t != i {
                        assert(self.jobs@[t] == prev[t]);
                    }
                }
                assert forall|t: int, k: int|
                    0 <= t < i + 1 && 0 <= k < self.jobs@[t].states@.len() implies #[trigger] self.jobs@[t].states@[k]
                        == if old_jobs[t].pids@[k] == pid {
                        st
                    } else {
                        old_jobs[t].states@[k]
                    } by {
                    if t != i {
                        assert(self.jobs@[t] == prev[t]);
                    } else {
                        assert(self.jobs@[t] == after);
                        assert(after.states@[k] == if k < k + 1 && before.pids@[k] == pid { st } else { before.states@[k] });
                    }
                }
            }
            i += 1;
        }
        proof {
            assert forall|t: int| 0 <= t < self.jobs@.len() implies (#[trigger] self.jobs@[t]).wf() && self.jobs@[t].id
                < self.next_id && self.jobs@[t].id >= 1 by {
                assert(old_jobs[t].wf());
            }
            assert forall|a: int, b: int| 0 <= a < b < self.jobs@.len() implies (#[trigger] self.jobs@[a]).id != (
            #[trigger] self.jobs@[b]).id by {
                assert(old_jobs[a].id != old_jobs[b].id);
            }
        }
        found
    }

    /// Removes the jobs whose every process has finished, returning them
    /// oldest first; the others stay, in order.
    pub fn reap(&mut self) -> (r: Vec<Job>)
        requires
            old(self).wf(),
        ensures
            final(self).wf(),
            final(self).jobs() == old(self).jobs().filter(|j: Job| !(j.status_spec() is Done)),
            r@ == old(self).jobs().filter(|j: Job| j.status_spec() is Done),
    {
        let ghost f = |j: Job| !(j.status_spec() is Done);
        let ghost g = |j: Job| j.status_spec() is Done;
        let ghost old_jobs = self.jobs@;
        let mut kept: Vec<Job> = Vec::new();
        let mut done: Vec<Job> = Vec::new();
        let mut i: usize = 0;
        let n0 = self.jobs.len();
        while self.jobs.len() > 0
            invariant
                old_jobs == old(self).jobs@,
                n0 == old_jobs.len(),
                self.next_id == old(self).next_id,
                f == (|j: Job| !(j.status_spec() is Done)),
                g == (|j: Job| j.status_spec() is Done),
                0 <= i <= old_jobs.len(),
                self.jobs@ == old_jobs.subrange(i as int, old_jobs.len() as int),
                kept@ == old_jobs.subrange(0, i as int).filter(f),
                done@ == old_jobs.subrange(0, i as int).filter(g),
                forall|t: int| 0 <= t < old_jobs.len() ==> (#[trigger] old_jobs[t]).wf(),
            decreases self.jobs@.len(),
        {
            assert(i < old_jobs.len());
            let job = self.jobs.remove(0);
            assert(job == old_jobs[i as int]);
            let st = job.status();
            let is_done = match st {
                JobStatus::Done(_) => true,
                _ => false,
            };
            proof {
                let sub = old_jobs.subrange(0, i + 1);
                assert(sub.drop_last() =~= old_jobs.subrange(0, i as int));
                assert(sub.last() == job);
                reveal(Seq::filter);
            }
            if is_done {
                done.push(job);
            } else {
                kept.push(job);
            }
            proof {
                assert(self.jobs@ =~= old_jobs.subrange(i + 1, old_jobs.len() as int));
            }
            i += 1;
        }
        proof {
            assert(old_jobs.subrange(0, i as int) =~= old_jobs);
            old_jobs.filter_lemma(f);
        }
        self.jobs = kept;
        proof {
            assert forall|t: int| 0 <= t < self.jobs@.len() implies (#[trigger] self.jobs@[t]).wf() && self.jobs@[t].id
                < self.next_id && self.jobs@[t].id >= 1 by {
                lemma_filter_subset(old_jobs, f);
                assert(old_jobs.contains(self.jobs@[t]));
                let w = choose|w: int| 0 <= w < old_jobs.len() && old_jobs[w] == self.jobs@[t];
                assert(old(self).jobs@[w].wf() && old(self).jobs@[w].id < old(self).next_id && old(self).jobs@[w].id >= 1);
            }
            lemma_filter_keeps_distinct_ids(old_jobs, f);
        }
        done
    }

    /// Marks the stopped processes of job `id` as running, as after
    /// sending it `SIGCONT`; every other job and every other state stays.
    /// Returns whether the job exists.
    pub fn mark_continued(&mut self, id: usize) -> (r: bool)
        requires
            old(self).wf(),
        ensures
            final(self).wf(),
            r == old(self).has_job(id),
            final(self).next() == old(self).next(),
            final(self).jobs().len() == old(self).jobs().len(),
            forall|i: int| 0 <= i < final(self).jobs().len() && old(self).jobs()[i].id != id ==> #[trigger] final(self).jobs()[i]
                == old(self).jobs()[i],
            forall|i: int| 0 <= i < final(self).jobs().len() && old(self).jobs()[i].id == id ==> {
                &&& (#[trigger] final(self).jobs()[i]).id == id
                &&& final(self).jobs()[i].pgid == old(self).jobs()[i].pgid
                &&& final(self).jobs()[i].pids@ == old(self).jobs()[i].pids@
                &&& final(self).jobs()[i].command@ == old(self).jobs()[i].command@
                &&& final(self).jobs()[i].states@.len() == old(self).jobs()[i].states@.len()
                &&& forall|k: int| 0 <= k < final(self).jobs()[i].states@.len() ==> #[trigger] final(self).jobs()[i].states@[k]
                    == (if old(self).jobs()[i].states@[k] == ProcState::Stopped {
                    ProcState::Running
                } else {
                    old(self).jobs()[i].states@[k]
                })
            },
    {
        let i = match self.index_of(id) {
            None => {
                return false;
            },
            Some(i) => i,
        };
        assert(old(self).jobs()[i as int].id == id);
        let ghost prev = self.jobs@;
        let mut job = self.jobs.remove(i);
        let ghost before = job;
        assert(before == prev[i as int]);
        let mut k: usize = 0;
        while k < job.states.len()
            invariant
                0 <= k <= job.states@.len(),
                job.pids@ == before.pids@,
                job.id == before.id,
                job.pgid == before.pgid,
                job.command@ == before.command@,
                job.states@.len() == before.states@.len(),
                forall|q: int| 0 <= q < job.states@.len() ==> #[trigger] job.states@[q] == if q < k {
                    if before.states@[q] == ProcState::Stopped {
                        ProcState::Running
                    } else {
                        before.states@[q]
                    }
                } else {
                    before.states@[q]
                },
            decreases job.states@.len() - k,
        {
            if job.states[k] == ProcState::Stopped {
                job.states.set(k, ProcState::Running);
            }
            k += 1;
        }
        let ghost after = job;
        self.jobs.insert(i, job);
        proof {
            assert(self.jobs@ =~= prev.update(i as int, after));
            assert forall|t: int| 0 <= t < self.jobs@.len() implies (#[trigger] self.jobs@[t]).wf() && self.jobs@[t].id
                < self.next_id && self.jobs@[t].id >= 1 by {
                if t != i {
                    assert(self.jobs@[t] == prev[t]);
                }
            }
            assert forall|a: int, b: int| 0 <= a < b < self.jobs@.len() implies (#[trigger] self.jobs@[a]).id != (
            #[trigger] self.jobs@[b]).id by {
                assert(prev[a].id != prev[b].id);
            }
            assert forall|t: int| 0 <= t < self.jobs@.len() && prev[t].id != id implies #[trigger] self.jobs@[t] == prev[t] by {
                if t == i {
                    assert(prev[t].id == id);
                }
            }
            assert forall|t: int| 0 <= t < self.jobs@.len() && prev[t].id == id implies t == i by {
                if t != i {
                    assert(prev[t].id != prev[i as int].id);
                }
            }
        }
        true
    }

    /// The next process of job `id` to wait for: the first whose state is
    /// not Done. `None` when the job is gone, stopped, or finished.
    pub fn next_to_wait(&self, id: usize) -> (r: Option<i32>)
        requires
            self.wf(),
        ensures
            !self.has_job(id) ==> r is None,
            self.has_job(id) ==> ({
                let i = choose|i: int| 0 <= i < self.jobs().len() && (#[trigger] self.jobs()[i]).id == id;
                let j = self.jobs()[i];
                if j.status_spec() == JobStatus::Stopped {
                    r is None
                } else {
                    match first_pending(j.states@) {
                        Some(k) => r == Some(j.pids@[k]),
                        None => r is None,
                    }
                }
            }),
    {
        let i = match self.index_of(id) {
            Some(i) => i,
            None => {
                return None;
            },
        };
        proof {
            let c = choose|c: int| 0 <= c < self.jobs().len() && (#[trigger] self.jobs()[c]).id == id;
            if c != i {
                assert(self.jobs()[c].id != self.jobs()[i as int].id);
            }
        }
        let job = &self.jobs[i];
        if job.status() == JobStatus::Stopped {
            return None;
        }
        match first_pending_index(job) {
            Some(k) => Some(job.pids[k]),
            None => None,
        }
    }

    /// After waiting on foreground job `id`: `None` while some process
    /// still runs. Otherwise the wait is over: a finished job leaves the
    /// table and gives its last stage's code; a stopped job stays, marked
    /// stopped, and gives `128 + SIGTSTP`.
    pub fn finish_foreground(&mut self, id: usize) -> (r: Option<i32>)
        requires
            old(self).wf(),
            old(self).has_job(id),
        ensures
            final(self).wf(),
            ({
                let i = choose|i: int| 0 <= i < old(self).jobs().len() && (#[trigger] old(self).jobs()[i]).id == id;
                let j = old(self).jobs()[i];
                match j.status_spec() {
                    JobStatus::Running => r is None && final(self).jobs() == old(self).jobs(),
                    JobStatus::Stopped => r == Some(signal_code(SIGTSTP)) && final(self).jobs() == old(self).jobs(),
                    JobStatus::Done(c) => r == Some(c) && !final(self).has_job(id) && final(self).jobs() == old(
                        self,
                    ).jobs().remove(i),
                }
            }),
    {
        let i = match self.index_of(id) {
            Some(i) => i,
            None => {
                return None;
            },
        };
        proof {
            let c = choose|c: int| 0 <= c < old(self).jobs().len() && (#[trigger] old(self).jobs()[c]).id == id;
            if c != i {
                assert(old(self).jobs()[c].id != old(self).jobs()[i as int].id);
            }
        }
        let st = self.jobs[i].status();
        match st {
            JobStatus::Running => None,
            JobStatus::Stopped => Some(signal_exit_code(SIGTSTP)),
            JobStatus::Done(c) => {
                let removed = self.remove(id);
                proof {
                    let w = choose|w: int| 0 <= w < old(self).jobs().len() && old(self).jobs()[w] == removed->Some_0
                        && self.jobs() == old(self).jobs().remove(w);
                    if w != i {
                        assert(old(self).jobs()[w].id != old(self).jobs()[i as int].id);
                    }
                }
                Some(c)
            },
        }
    }
}

proof fn lemma_filter_subset<A>(s: Seq<A>, f: spec_fn(A) -> bool)
    ensures
        forall|i: int| 0 <= i < s.filter(f).len() ==> s.contains(#[trigger] s.filter(f)[i]),
    decreases s.len(),
{
    reveal(Seq::filter);
    if s.len() > 0 {
        let d = s.drop_last();
        lemma_filter_subset(d, f);
        let fs = s.filter(f);
        assert forall|i: int| 0 <= i < fs.len() implies s.contains(#[trigger] fs[i]) by {
            if f(s.last()) && i == fs.len() - 1 {
                assert(s[s.len() - 1] == fs[i]);
            } else {
                assert(fs[i] == d.filter(f)[i]);
                let k = choose|k: int| 0 <= k < d.len() && d[k] == d.filter(f)[i];
                assert(s[k] == fs[i]);
            }
        }
    }
}

proof fn lemma_filter_keeps_distinct_ids(s: Seq<Job>, f: spec_fn(Job) -> bool)
    requires
        forall|a: int, b: int| 0 <= a < b < s.len() ==> (#[trigger] s[a]).id != (#[trigger] s[b]).id,
    ensures
        forall|a: int, b: int| 0 <= a < b < s.filter(f).len() ==> (#[trigger] s.filter(f)[a]).id != (
        #[trigger] s.filter(f)[b]).id,
    decreases s.len(),
{
    reveal(Seq::filter);
    if s.len() > 0 {
        let d = s.drop_last();
        assert forall|a: int, b: int| 0 <= a < b < d.len() implies (#[trigger] d[a]).id != (#[trigger] d[b]).id by {
            assert(d[a] == s[a] && d[b] == s[b]);
        }
        lemma_filter_keeps_distinct_ids(d, f);
        d.filter_lemma(f);
        if f(s.last()) {
            let fs = s.filter(f);
            assert(fs == d.filter(f).push(s.last()));
            assert forall|a: int, b: int| 0 <= a < b < fs.len() implies (#[trigger] fs[a]).id != (#[trigger] fs[b]).id by {
                if b == fs.len() - 1 {
                    assert(fs[a] == d.filter(f)[a]);
                    lemma_filter_subset(d, f);
                    assert(d.contains(d.filter(f)[a]));
                    let k = choose|k: int| 0 <= k < d.len() && d[k] == fs[a];
                    assert(s[k] == fs[a]);
                    assert(s[k].id != s[s.len() - 1].id);
                } else {
                    assert(fs[a] == d.filter(f)[a] && fs[b] == d.filter(f)[b]);
                }
            }
        }
    }
}

/// The word `jobs` shows for a status.
pub fn status_text(st: JobStatus) -> (r: String)
    ensures
        st == JobStatus::Running ==> r@ == "Running"@,
        st == JobStatus::Stopped ==> r@ == "Stopped"@,
        st matches JobStatus::Done(c) ==> r@ == "Done("@ + crate::text::int_text(c as int) + seq![')'],
{
    match st {
        JobStatus::Running => String::from_str("Running"),
        JobStatus::Stopped => String::from_str("Stopped"),
        JobStatus::Done(c) => {
            let mut s = String::from_str("Done(");
            push_int(&mut s, c as i64);
            push_char(&mut s, ')');
            assert(s@ =~= "Done("@ + crate::text::int_text(c as int) + seq![')']);
            s
        },
    }
}

/// The line `jobs` prints for a job: `[id] status command`.
pub fn format_job(job: &Job) -> (r: String)
    requires
        job.wf(),
    ensures
        r@ == seq!['['] + crate::text::decimal(job.id as nat) + seq![']', ' '] + status_word(job.status_spec())
            + seq![' '] + job.command@,
{
    let mut s = String::new();
    push_char(&mut s, '[');
    push_decimal(&mut s, job.id as u128);
    push_char(&mut s, ']');
    push_char(&mut s, ' ');
    let st = status_text(job.status());
    push_str(&mut s, st.as_str());
    push_char(&mut s, ' ');
    push_str(&mut s, job.command.as_str());
    proof {
        reveal_strlit("Running");
        reveal_strlit("Stopped");
        reveal_strlit("Done(");
    }
    assert(s@ =~= seq!['['] + crate::text::decimal(job.id as nat) + seq![']', ' '] + status_word(job.status_spec())
        + seq![' '] + job.command@);
    s
}

/// The word shown for a status.
pub open spec fn status_word(st: JobStatus) -> Seq<char> {
    match st {
        JobStatus::Running => "Running"@,
        JobStatus::Stopped => "Stopped"@,
        JobStatus::Done(c) => "Done("@ + crate::text::int_text(c as int) + seq![')'],
    }
}

} // verus!
