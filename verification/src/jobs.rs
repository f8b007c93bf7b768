//! The job table: a fixed number of slots, each empty or holding one job,
//! and the counter from which job ids are handed out.

use vstd::prelude::*;
use vstd::string::StringExecFns;
use crate::table::{
    job_line,
    lemma_added_foreground,
    lemma_first_is,
    lemma_first_none,
    lemma_max_jid_bounds,
    lemma_removed_foreground,
    lemma_unseated,
    listing_upto,
    max_jid_upto,
    slot_matches,
    unseated_slot,
    JobListView,
    JobView,
    Probe,
};
use crate::text::{decimal_string, trim};

verus! {

/// Number of slots in a job table.
pub const MAX_NUM_JOBS: usize = 16;

/// Largest job id that is handed out; the counter goes back to 1 after it.
pub const MAX_JOBID: i32 = 65536;

/// The run state of a job.
#[derive(Debug, Copy, Clone, PartialEq, Eq, Structural)]
pub enum JobState {
    /// The job runs in the foreground.
    FG,
    /// The job runs in the background.
    BG,
    /// The job was stopped by a signal.
    Stop,
}

/// What can go wrong when the job table is changed or consulted.
#[derive(Debug, Copy, Clone, PartialEq, Eq, Structural)]
pub enum JobListError {
    /// Every slot of the table holds a job.
    TooManyJobs,
    /// The system reported a change of a process that is no job.
    InconsistentState,
    /// No job has this process id.
    NoSuchPid(i32),
    /// No job has this job id.
    NoSuchJid(i32),
}

/// One job under the shell's control.
pub struct JobStruct {
    pid: i32,
    jid: i32,
    state: JobState,
    cmdline: String,
}

impl View for JobStruct {
    type V = JobView;

    closed spec fn view(&self) -> JobView {
        JobView { pid: self.pid, jid: self.jid, state: self.state, cmdline: self.cmdline@ }
    }
}

impl JobStruct {
    /// The id that the shell gave the job.
    pub fn jid(&self) -> (r: i32)
        ensures
            r == self@.jid,
    {
        self.jid
    }

    /// The id of the job's process.
    pub fn pid(&self) -> (r: i32)
        ensures
            r == self@.pid,
    {
        self.pid
    }

    /// The run state of the job.
    pub fn state(&self) -> (r: JobState)
        ensures
            r == self@.state,
    {
        self.state
    }

    /// The command line that started the job.
    pub fn cmdline(&self) -> (r: &str)
        ensures
            r@ == self@.cmdline,
    {
        self.cmdline.as_str()
    }

    /// Sets the run state and leaves the rest of the job as it is. The
    /// other jobs of a table are out of reach from here: see the lookups
    /// of `JobList` for what that means for the foreground.
    pub fn set_state(&mut self, state: JobState)
        ensures
            final(self)@ == (JobView { state: state, ..old(self)@ }),
    {
        self.state = state;
    }
}

/// A controller for all the active jobs of one shell.
pub struct JobList {
    jobvec: [Option<JobStruct>; MAX_NUM_JOBS],
    nextjid: i32,
}

/// The content of one slot.
spec fn slot_view(slot: Option<JobStruct>) -> Option<JobView> {
    match slot {
        Some(j) => Some(j@),
        None => None,
    }
}

impl View for JobList {
    type V = JobListView;

    closed spec fn view(&self) -> JobListView {
        JobListView {
            slots: Seq::new(MAX_NUM_JOBS as nat, |i: int| slot_view(self.jobvec@[i])),
            next_jid: self.nextjid,
        }
    }
}

impl JobList {
    /// An empty table whose counter stands at 1.
    pub fn new() -> (r: Self)
        ensures
            r@.wf(),
            r@.lacks(Probe::Foreground),
            r@.next_jid == 1,
            forall|i: int| 0 <= i < MAX_NUM_JOBS ==> (#[trigger] r@.slots[i]) is None,
    {
        JobList {
            jobvec: [
                None, None, None, None, None, None, None, None,
                None, None, None, None, None, None, None, None,
            ],
            nextjid: 1,
        }
    }

    /// A table has `MAX_NUM_JOBS` slots, whatever they hold.
    pub proof fn lemma_slots_len(&self)
        ensures
            self@.slots.len() == MAX_NUM_JOBS,
    {
    }

    /// The lowest slot that matches the probe.
    fn scan(&self, probe: Probe) -> (r: Option<usize>)
        ensures
            self@.slots.len() == MAX_NUM_JOBS,
            match r {
                Some(i) => self@.first(probe) == Some(i as int) && self@.is_first(i as int, probe),
                None => self@.first(probe) is None && self@.lacks(probe),
            },
    {
        let mut i: usize = 0;
        while i < MAX_NUM_JOBS
            invariant
                i <= MAX_NUM_JOBS,
                forall|k: int| 0 <= k < i ==> !slot_matches(#[trigger] self@.slots[k], probe),
            decreases MAX_NUM_JOBS - i,
        {
            let hit = match &self.jobvec[i] {
                None => match probe {
                    Probe::Free => true,
                    _ => false,
                },
                Some(j) => match probe {
                    Probe::Free => false,
                    Probe::Pid(pid) => j.pid == pid,
                    Probe::Jid(jid) => j.jid == jid,
                    Probe::Foreground => j.state == JobState::FG,
                },
            };
            assert(hit == slot_matches(self@.slots[i as int], probe));
            if hit {
                proof {
                    lemma_first_is(self@, i as int, probe);
                }
                return Some(i);
            }
            i += 1;
        }
        proof {
            lemma_first_none(self@, probe);
        }
        None
    }

    /// Whether every slot holds a job.
    pub fn is_full(&self) -> (r: bool)
        ensures
            r == (self@.first(Probe::Free) is None),
    {
        self.scan(Probe::Free).is_none()
    }

    /// The largest job id that is currently allocated, 0 for an empty table.
    pub fn maxjid(&self) -> (r: i32)
        ensures
            r == self@.max_jid(),
    {
        let mut m: i32 = 0;
        let mut i: usize = 0;
        while i < MAX_NUM_JOBS
            invariant
                i <= MAX_NUM_JOBS,
                self@.slots.len() == MAX_NUM_JOBS,
                m == max_jid_upto(self@.slots, i as int),
            decreases MAX_NUM_JOBS - i,
        {
            match &self.jobvec[i] {
                Some(j) => {
                    if j.jid > m {
                        m = j.jid;
                    }
                },
                None => {},
            }
            i += 1;
        }
        m
    }

    /// Takes every job that is in the foreground out of it: such a job
    /// runs in the background afterwards.
    pub fn unseat_foreground(&mut self)
        ensures
            final(self)@ == old(self)@.unseated(),
            final(self)@.lacks(Probe::Foreground),
            old(self)@.wf() ==> final(self)@.wf(),
    {
        let mut i: usize = 0;
        while i < MAX_NUM_JOBS
            invariant
                i <= MAX_NUM_JOBS,
                self@.next_jid == old(self)@.next_jid,
                self@.slots.len() == MAX_NUM_JOBS,
                old(self)@.slots.len() == MAX_NUM_JOBS,
                forall|k: int|
                    0 <= k < i ==> (#[trigger] self@.slots[k]) == unseated_slot(
                        old(self)@.slots[k],
                    ),
                forall|k: int|
                    i <= k < MAX_NUM_JOBS ==> (#[trigger] self@.slots[k]) == old(self)@.slots[k],
            decreases MAX_NUM_JOBS - i,
        {
            let ghost before = self@;
            match self.jobvec[i].as_mut() {
                Some(job) => {
                    if job.state == JobState::FG {
                        job.set_state(JobState::BG);
                    }
                },
                None => {},
            }
            assert(self@.slots[i as int] == unseated_slot(before.slots[i as int]));
            assert forall|k: int| 0 <= k < i implies (#[trigger] self@.slots[k]) == unseated_slot(
                old(self)@.slots[k],
            ) by {
                assert(self@.slots[k] == before.slots[k]);
            }
            assert forall|k: int| i < k < MAX_NUM_JOBS implies (#[trigger] self@.slots[k]) == old(
                self,
            )@.slots[k] by {
                assert(self@.slots[k] == before.slots[k]);
            }
            i += 1;
        }
        assert(self@ =~= old(self)@.unseated());
        proof {
            lemma_unseated(old(self)@);
        }
    }

    /// Stores a job in the lowest empty slot under the counter's value,
    /// which is returned, and moves the counter on. A job that is stored
    /// in the foreground takes the place of the one that was there, which
    /// goes to the background. A full table is left as it is.
    pub fn addjob(&mut self, pid: i32, state: JobState, cmdline: &str) -> (r: Result<
        i32,
        JobListError,
    >)
        ensures
            match old(self)@.first(Probe::Free) {
                Some(i) => r == Ok::<i32, JobListError>(old(self)@.next_jid) && final(self)@ == old(
                    self,
                )@.added(i, pid, state, cmdline@),
                None => r == Err::<i32, JobListError>(JobListError::TooManyJobs) && final(self)@
                    == old(self)@,
            },
            old(self)@.at_most_one_fg() ==> final(self)@.at_most_one_fg(),
            r is Ok && state == JobState::FG ==> final(self)@.at_most_one_fg() && final(self)@
                .only_foreground(pid),
            old(self)@.wf() ==> final(self)@.wf(),
    {
        match self.scan(Probe::Free) {
            Some(i) => {
                let jid = self.nextjid;
                proof {
                    lemma_unseated(old(self)@);
                    lemma_added_foreground(old(self)@, i as int, pid, state, cmdline@);
                }
                match state {
                    JobState::FG => self.unseat_foreground(),
                    _ => {},
                }
                assert(self@ == old(self)@.cleared_for(state));
                self.jobvec[i] = Some(
                    JobStruct { pid: pid, jid: jid, state: state, cmdline: cmdline.to_owned() },
                );
                if self.nextjid >= MAX_JOBID {
                    self.nextjid = 1;
                } else {
                    self.nextjid = self.nextjid + 1;
                }
                assert(self@ =~= old(self)@.added(i as int, pid, state, cmdline@));
                Ok(jid)
            },
            None => Err(JobListError::TooManyJobs),
        }
    }

    /// Clears the lowest slot that holds a job with this process id and
    /// sets the counter to the id after the largest that is still live.
    pub fn deletejob(&mut self, pid: i32) -> (r: Result<(), JobListError>)
        ensures
            match old(self)@.first(Probe::Pid(pid)) {
                Some(i) => r == Ok::<(), JobListError>(()) && final(self)@ == old(self)@.removed(i),
                None => r == Err::<(), JobListError>(JobListError::NoSuchPid(pid)) && final(self)@
                    == old(self)@,
            },
            old(self)@.at_most_one_fg() ==> final(self)@.at_most_one_fg(),
            old(self)@.wf() ==> final(self)@.wf(),
    {
        match self.scan(Probe::Pid(pid)) {
            Some(i) => {
                self.jobvec[i] = None;
                assert(self@.slots =~= old(self)@.slots.update(i as int, None));
                let m = self.maxjid();
                if m >= MAX_JOBID {
                    self.nextjid = 1;
                } else {
                    self.nextjid = m + 1;
                }
                proof {
                    lemma_max_jid_bounds(old(self)@.slots.update(i as int, None), MAX_NUM_JOBS as int);
                    lemma_removed_foreground(old(self)@, i as int, 0);
                }
                assert(self@ =~= old(self)@.removed(i as int));
                Ok(())
            },
            None => Err(JobListError::NoSuchPid(pid)),
        }
    }

    /// The process id of the lowest job that is in the foreground.
    pub fn fgpid(&self) -> (r: Option<i32>)
        ensures
            r == match self@.job(Probe::Foreground) {
                Some(j) => Some(j.pid),
                None => None,
            },
    {
        match self.scan(Probe::Foreground) {
            Some(i) => match &self.jobvec[i] {
                Some(j) => Some(j.pid),
                None => None,
            },
            None => None,
        }
    }

    /// The lowest job with this process id, to read or to change. The
    /// table ends as it was, but for what the caller makes of that job.
    /// A job cannot see the table: at most one job stays in the
    /// foreground where the caller puts this one there only if it was
    /// there, or if none was (`lemma_with_job_foreground`). `addjob` and
    /// `do_bgfg` take care of that themselves.
    pub fn getjob_pid(&mut self, pid: i32) -> (r: Option<&mut JobStruct>)
        ensures
            match old(self)@.first(Probe::Pid(pid)) {
                Some(i) => r is Some && Some(r->0@) == old(self)@.slots[i] && final(self)@
                    =~= old(self)@.with_job(i, final(r->0)@),
                None => r is None && final(self)@ == old(self)@,
            },
    {
        match self.scan(Probe::Pid(pid)) {
            Some(i) => {
                let r = self.jobvec[i].as_mut();
                assert(r is Some);
                r
            },
            None => None,
        }
    }

    /// The lowest job with this job id, to read or to change. The table
    /// ends as it was, but for what the caller makes of that job. A job
    /// cannot see the table: at most one job stays in the foreground
    /// where the caller puts this one there only if it was there, or if
    /// none was (`lemma_with_job_foreground`). `addjob` and `do_bgfg` take
    /// care of that themselves.
    pub fn getjob_jid(&mut self, jid: i32) -> (r: Option<&mut JobStruct>)
        ensures
            match old(self)@.first(Probe::Jid(jid)) {
                Some(i) => r is Some && Some(r->0@) == old(self)@.slots[i] && final(self)@
                    =~= old(self)@.with_job(i, final(r->0)@),
                None => r is None && final(self)@ == old(self)@,
            },
    {
        match self.scan(Probe::Jid(jid)) {
            Some(i) => {
                let r = self.jobvec[i].as_mut();
                assert(r is Some);
                r
            },
            None => None,
        }
    }

    /// The job id of the lowest job with this process id.
    pub fn pid2jid(&self, pid: i32) -> (r: Option<i32>)
        ensures
            r == match self@.job(Probe::Pid(pid)) {
                Some(j) => Some(j.jid),
                None => None,
            },
    {
        match self.scan(Probe::Pid(pid)) {
            Some(i) => match &self.jobvec[i] {
                Some(j) => Some(j.jid),
                None => None,
            },
            None => None,
        }
    }

    /// The process id of the lowest job with this job id.
    pub fn jid2pid(&self, jid: i32) -> (r: Option<i32>)
        ensures
            r == match self@.job(Probe::Jid(jid)) {
                Some(j) => Some(j.pid),
                None => None,
            },
    {
        match self.scan(Probe::Jid(jid)) {
            Some(i) => match &self.jobvec[i] {
                Some(j) => Some(j.pid),
                None => None,
            },
            None => None,
        }
    }

    /// One line for each live job, in the order of the slots: see
    /// `job_line`.
    pub fn listjobs(&self) -> (r: Result<String, JobListError>)
        ensures
            r is Ok,
            r->Ok_0@ == self@.listing(),
    {
        let mut output = String::new();
        let mut i: usize = 0;
        while i < MAX_NUM_JOBS
            invariant
                i <= MAX_NUM_JOBS,
                self@.slots.len() == MAX_NUM_JOBS,
                output@ == listing_upto(self@.slots, i as int),
            decreases MAX_NUM_JOBS - i,
        {
            match &self.jobvec[i] {
                Some(job) => {
                    let ghost before = output@;
                    let label = match job.state {
                        JobState::BG => "Running",
                        JobState::FG => "Foreground",
                        JobState::Stop => "Stopped",
                    };
                    output.append("[");
                    output.append(decimal_string(job.jid).as_str());
                    output.append("] (");
                    output.append(decimal_string(job.pid).as_str());
                    output.append(") ");
                    output.append(label);
                    output.append(" ");
                    output.append(trim(job.cmdline.as_str()));
                    output.append("\n");
                    assert(output@ =~= before + job_line(job@));
                },
                None => {
                    assert(output@ + Seq::<char>::empty() =~= output@);
                },
            }
            i += 1;
        }
        Ok(output)
    }
}

} // verus!
