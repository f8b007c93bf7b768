//! What the shell does when a child changes state: the job table is
//! brought up to date and, where a signal ended or stopped the job, a
//! message is made for the handler to write.
//!
//! The handler asks the system for one outstanding change after another
//! and hands each to `reap`, until `reap` says that none is left. A
//! change that is about a process which is no job cannot be taken in:
//! the handler asks `consistent` first and gives up on such a change.

use vstd::prelude::*;
use vstd::string::StringSliceAdditionalSpecFns;
use vstd::utf8::is_ascii_chars;
use crate::jobs::{JobList, JobListError, JobState};
use crate::table::{
    lemma_first_found,
    lemma_removed_distinct,
    lemma_removed_foreground,
    lemma_removed_gone,
    lemma_with_state_foreground,
    slot_matches,
    JobListView,
    Probe,
};
use crate::sigsafe::{
    decimal,
    format_string_int,
    lemma_decimal,
    lemma_substituted_at,
    lemma_with_int_chained,
    padded,
    with_int,
    KIND_INT,
    MSGBUF_LEN,
    PERCENT,
};

verus! {

/// One answer of the system to the question whether a child changed
/// state.
#[derive(Debug, Copy, Clone, PartialEq, Eq, Structural)]
pub enum ChildStatus {
    /// The process with this id has exited.
    Exited(i32),
    /// The process with this id was ended by the signal with this number.
    Signaled(i32, i32),
    /// The process with this id was stopped by the signal with this number.
    Stopped(i32, i32),
    /// The process with this id was resumed.
    Continued(i32),
    /// No child has changed state.
    StillAlive,
}

/// What the handler does after a change was taken in.
#[derive(Debug, Copy, Clone, PartialEq, Eq)]
pub enum Reaped {
    /// Nothing to write; ask for the next change.
    Recorded,
    /// Write this message, then ask for the next change.
    Report([u8; MSGBUF_LEN]),
    /// No change is outstanding: the handler returns.
    Drained,
}

/// The template of the message for a job that a signal ended.
pub open spec fn terminated_template() -> Seq<u8> {
    "Job [%d] (%d) terminated by signal %d\n".spec_bytes()
}

/// The template of the message for a job that a signal stopped.
pub open spec fn stopped_template() -> Seq<u8> {
    "Job [%d] (%d) stopped by signal %d\n".spec_bytes()
}

/// A template with its first three `%d` replaced by a job id, a process
/// id and a signal number.
pub open spec fn report(template: Seq<u8>, jid: i32, pid: i32, signal: i32) -> Seq<u8> {
    with_int(with_int(with_int(template, jid as int), pid as int), signal as int)
}

/// The job table after a change of a child's state was taken in: a job
/// that ended has left it, a job that was stopped is marked as stopped.
/// A change that is about no job of the table leaves it as it is.
pub open spec fn reaped_table(t: JobListView, status: ChildStatus) -> JobListView {
    match status {
        ChildStatus::Exited(pid) | ChildStatus::Signaled(pid, _) => match t.first(Probe::Pid(pid)) {
            Some(i) => t.removed(i),
            None => t,
        },
        ChildStatus::Stopped(pid, _) => match t.first(Probe::Pid(pid)) {
            Some(i) => t.with_state(i, JobState::Stop),
            None => t,
        },
        ChildStatus::Continued(_) | ChildStatus::StillAlive => t,
    }
}

/// The process that a change of state is about.
pub open spec fn subject(status: ChildStatus) -> Option<i32> {
    match status {
        ChildStatus::Exited(pid) => Some(pid),
        ChildStatus::Signaled(pid, _) => Some(pid),
        ChildStatus::Stopped(pid, _) => Some(pid),
        ChildStatus::Continued(pid) => Some(pid),
        ChildStatus::StillAlive => None,
    }
}

/// Fills in the three numbers of a report.
fn report_message(template: &[u8], jid: i32, pid: i32, signal: i32) -> (r: [u8; MSGBUF_LEN])
    ensures
        r@ == report(template@, jid, pid, signal),
{
    let msg = format_string_int(template, jid);
    let msg = format_string_int(msg.as_slice(), pid);
    format_string_int(msg.as_slice(), signal)
}

/// Whether a change of a child's state can be taken in: it is about no
/// process at all, or about a process that is a job of the table.
pub open spec fn reapable(t: JobListView, status: ChildStatus) -> bool {
    match subject(status) {
        Some(pid) => t.job(Probe::Pid(pid)) is Some,
        None => true,
    }
}

/// Tells whether a change of a child's state can be taken in. A change
/// that is about a process which is no job of the table shows that the
/// table and the system have come apart.
pub fn consistent(jobs: &JobList, status: ChildStatus) -> (r: Result<(), JobListError>)
    ensures
        r == if reapable(jobs@, status) {
            Ok::<(), JobListError>(())
        } else {
            Err::<(), JobListError>(JobListError::InconsistentState)
        },
{
    let known = match status {
        ChildStatus::Exited(pid) => jobs.pid2jid(pid).is_some(),
        ChildStatus::Signaled(pid, _) => jobs.pid2jid(pid).is_some(),
        ChildStatus::Stopped(pid, _) => jobs.pid2jid(pid).is_some(),
        ChildStatus::Continued(pid) => jobs.pid2jid(pid).is_some(),
        ChildStatus::StillAlive => true,
    };
    if known {
        Ok(())
    } else {
        Err(JobListError::InconsistentState)
    }
}

/// Takes in one change of a child's state.
///
/// A job that exited or was ended by a signal leaves the table; a job
/// that was stopped is marked as stopped; a job that was resumed stays as
/// it is. For a job that a signal ended or stopped a message is returned.
///
/// The change must be about a job of the table, if it is about a process
/// at all: `consistent` tells. Nothing can be done for a process that is
/// no job, and the caller is to give up then.
pub fn reap(jobs: &mut JobList, status: ChildStatus) -> (r: Reaped)
    requires
        reapable(old(jobs)@, status),
    ensures
        final(jobs)@ == reaped_table(old(jobs)@, status),
        match subject(status) {
            None => r matches Reaped::Drained,
            Some(pid) => {
                let job = old(jobs)@.job(Probe::Pid(pid))->0;
                match status {
                    ChildStatus::Signaled(_, signal) => r matches Reaped::Report(msg) && msg@
                        == report(terminated_template(), job.jid, job.pid, signal),
                    ChildStatus::Stopped(_, signal) => r matches Reaped::Report(msg) && msg@
                        == report(stopped_template(), job.jid, job.pid, signal),
                    _ => r matches Reaped::Recorded,
                }
            },
        },
        old(jobs)@.at_most_one_fg() ==> final(jobs)@.at_most_one_fg(),
        old(jobs)@.wf() ==> final(jobs)@.wf(),
{
    proof {
        if subject(status) is Some {
            let pid = subject(status)->0;
            lemma_first_found(old(jobs)@, Probe::Pid(pid));
            let i = old(jobs)@.first(Probe::Pid(pid))->0;
            lemma_removed_foreground(old(jobs)@, i, 0);
            lemma_with_state_foreground(old(jobs)@, i, JobState::Stop, 0);
        }
    }
    match status {
        ChildStatus::Exited(pid) => {
            jobs.deletejob(pid).unwrap();
            Reaped::Recorded
        },
        ChildStatus::Signaled(pid, signal) => {
            let jid = jobs.getjob_pid(pid).unwrap().jid();
            assert(jobs@ =~= old(jobs)@);
            jobs.deletejob(pid).unwrap();
            let template = "Job [%d] (%d) terminated by signal %d\n".as_bytes();
            Reaped::Report(report_message(template, jid, pid, signal))
        },
        ChildStatus::Stopped(pid, signal) => {
            let job = jobs.getjob_pid(pid).unwrap();
            job.set_state(JobState::Stop);
            let jid = job.jid();
            assert(jobs@ =~= reaped_table(old(jobs)@, status));
            let template = "Job [%d] (%d) stopped by signal %d\n".as_bytes();
            Reaped::Report(report_message(template, jid, pid, signal))
        },
        ChildStatus::Continued(_) => Reaped::Recorded,
        ChildStatus::StillAlive => Reaped::Drained,
    }
}

/// The text of a report: four fixed parts with a job id, a process id and
/// a signal number between them.
pub open spec fn report_text(
    parts: (Seq<u8>, Seq<u8>, Seq<u8>, Seq<u8>),
    jid: i32,
    pid: i32,
    signal: i32,
) -> Seq<u8> {
    parts.0 + decimal(jid as int) + parts.1 + decimal(pid as int) + parts.2 + decimal(
        signal as int,
    ) + parts.3
}

/// The fixed parts of the message for a job that a signal ended.
pub open spec fn terminated_parts() -> (Seq<u8>, Seq<u8>, Seq<u8>, Seq<u8>) {
    (
        "Job [".spec_bytes(),
        "] (".spec_bytes(),
        ") terminated by signal ".spec_bytes(),
        "\n".spec_bytes(),
    )
}

/// The fixed parts of the message for a job that a signal stopped.
pub open spec fn stopped_parts() -> (Seq<u8>, Seq<u8>, Seq<u8>, Seq<u8>) {
    ("Job [".spec_bytes(), "] (".spec_bytes(), ") stopped by signal ".spec_bytes(), "\n".spec_bytes())
}

/// A template of four parts without `%`, with `%d` between them, is
/// filled in by three replacements in a row with the three numbers in
/// their order, where the buffer has room for the longest numbers.
pub proof fn lemma_report_of_parts(
    parts: (Seq<u8>, Seq<u8>, Seq<u8>, Seq<u8>),
    jid: i32,
    pid: i32,
    signal: i32,
)
    requires
        forall|k: int| 0 <= k < parts.0.len() ==> parts.0[k] != PERCENT,
        forall|k: int| 0 <= k < parts.1.len() ==> parts.1[k] != PERCENT,
        forall|k: int| 0 <= k < parts.2.len() ==> parts.2[k] != PERCENT,
        parts.0.len() + parts.1.len() + parts.2.len() + parts.3.len() + 33 <= MSGBUF_LEN,
    ensures
        report(
            parts.0 + seq![PERCENT, KIND_INT] + parts.1 + seq![PERCENT, KIND_INT] + parts.2
                + seq![PERCENT, KIND_INT] + parts.3,
            jid,
            pid,
            signal,
        ) == padded(report_text(parts, jid, pid, signal)),
{
    let (a, b, c, d) = parts;
    let ph = seq![PERCENT, KIND_INT];
    let dj = decimal(jid as int);
    let dp = decimal(pid as int);
    let ds = decimal(signal as int);
    lemma_decimal(jid);
    lemma_decimal(pid);
    lemma_decimal(signal);
    let t = a + ph + b + ph + c + ph + d;
    let post1 = b + ph + c + ph + d;
    assert(t =~= a + ph + post1);
    lemma_substituted_at(a, KIND_INT, dj, post1);
    let s1 = a + dj + post1;
    assert(with_int(t, jid as int) == padded(s1));
    lemma_with_int_chained(s1, pid as int);
    let pre2 = a + dj + b;
    let post2 = c + ph + d;
    assert(s1 =~= pre2 + ph + post2);
    lemma_substituted_at(pre2, KIND_INT, dp, post2);
    let s2 = pre2 + dp + post2;
    assert(with_int(padded(s1), pid as int) == padded(s2));
    lemma_with_int_chained(s2, signal as int);
    let pre3 = pre2 + dp + c;
    assert(s2 =~= pre3 + ph + d);
    lemma_substituted_at(pre3, KIND_INT, ds, d);
    assert(pre3 + ds + d =~= report_text(parts, jid, pid, signal));
}

/// What a report holds: `Job [`, the job id, `] (`, the process id,
/// `) terminated by signal ` or `) stopped by signal `, the number of the
/// signal and a line feed, followed by zeros.
pub proof fn lemma_report_text(jid: i32, pid: i32, signal: i32)
    ensures
        report(terminated_template(), jid, pid, signal) == padded(
            report_text(terminated_parts(), jid, pid, signal),
        ),
        report(stopped_template(), jid, pid, signal) == padded(
            report_text(stopped_parts(), jid, pid, signal),
        ),
{
    broadcast use vstd::utf8::is_ascii_chars_encode_utf8;

    reveal_strlit("Job [%d] (%d) terminated by signal %d\n");
    reveal_strlit("Job [%d] (%d) stopped by signal %d\n");
    reveal_strlit("Job [");
    reveal_strlit("] (");
    reveal_strlit(") terminated by signal ");
    reveal_strlit(") stopped by signal ");
    reveal_strlit("\n");
    let ph = seq![PERCENT, KIND_INT];
    let a = "Job [".spec_bytes();
    let b = "] (".spec_bytes();
    let c = ") terminated by signal ".spec_bytes();
    let e = ") stopped by signal ".spec_bytes();
    let d = "\n".spec_bytes();
    assert(is_ascii_chars("Job [%d] (%d) terminated by signal %d\n"@));
    assert(is_ascii_chars("Job [%d] (%d) stopped by signal %d\n"@));
    assert(is_ascii_chars("Job ["@));
    assert(is_ascii_chars("] ("@));
    assert(is_ascii_chars(") terminated by signal "@));
    assert(is_ascii_chars(") stopped by signal "@));
    assert(is_ascii_chars("\n"@));
    assert(terminated_template() =~= a + ph + b + ph + c + ph + d);
    assert(stopped_template() =~= a + ph + b + ph + e + ph + d);
    lemma_report_of_parts(terminated_parts(), jid, pid, signal);
    lemma_report_of_parts(stopped_parts(), jid, pid, signal);
}

/// The job table after a sequence of changes of children's states was
/// taken in, one after the other.
pub open spec fn reaped_all(t: JobListView, statuses: Seq<ChildStatus>) -> JobListView
    decreases statuses.len(),
{
    if statuses.len() == 0 {
        t
    } else {
        reaped_table(reaped_all(t, statuses.drop_last()), statuses.last())
    }
}

/// Whether a change of state is the end of the process with this id.
pub open spec fn ends(status: ChildStatus, pid: i32) -> bool {
    match status {
        ChildStatus::Exited(p) => p == pid,
        ChildStatus::Signaled(p, _) => p == pid,
        _ => false,
    }
}

/// Taking in a change of a child's state brings no job into the table
/// and none into the foreground, and leaves distinct process ids
/// distinct.
pub proof fn lemma_reaped_table(t: JobListView, status: ChildStatus, pid: i32)
    ensures
        t.pids_distinct() ==> reaped_table(t, status).pids_distinct(),
        t.jids_distinct() ==> reaped_table(t, status).jids_distinct(),
        t.lacks(Probe::Pid(pid)) ==> reaped_table(t, status).lacks(Probe::Pid(pid)),
        t.pids_distinct() && ends(status, pid) ==> reaped_table(t, status).lacks(Probe::Pid(pid)),
        t.at_most_one_fg() ==> reaped_table(t, status).at_most_one_fg(),
        t.lacks(Probe::Foreground) ==> reaped_table(t, status).lacks(Probe::Foreground),
        t.only_foreground(pid) ==> reaped_table(t, status).only_foreground(pid),
{
    let u = reaped_table(t, status);
    match status {
        ChildStatus::Exited(p) | ChildStatus::Signaled(p, _) => {
            lemma_first_found(t, Probe::Pid(p));
            if t.pids_distinct() {
                lemma_removed_gone(t, p);
            }
            if t.first(Probe::Pid(p)) is Some {
                let i = t.first(Probe::Pid(p))->0;
                lemma_removed_distinct(t, i);
                lemma_removed_foreground(t, i, pid);
                if t.lacks(Probe::Pid(pid)) {
                    assert forall|k: int| 0 <= k < u.slots.len() implies !slot_matches(
                        #[trigger] u.slots[k],
                        Probe::Pid(pid),
                    ) by {
                        if k != i {
                            assert(!slot_matches(t.slots[k], Probe::Pid(pid)));
                        }
                    }
                }
            }
        },
        ChildStatus::Stopped(p, _) => {
            lemma_first_found(t, Probe::Pid(p));
            if t.first(Probe::Pid(p)) is Some {
                let i = t.first(Probe::Pid(p))->0;
                lemma_with_state_foreground(t, i, JobState::Stop, pid);
                assert(forall|k: int| 0 <= k < t.slots.len() && k != i ==> u.slots[k] == t.slots[k]);
                assert(u.slots[i] is Some && u.slots[i]->0.pid == t.slots[i]->0.pid
                    && u.slots[i]->0.jid == t.slots[i]->0.jid);
                if t.pids_distinct() {
                    assert forall|a: int, b: int|
                        0 <= a < u.slots.len() && 0 <= b < u.slots.len() && (
                        #[trigger] u.slots[a]) is Some && (#[trigger] u.slots[b]) is Some
                            && u.slots[a]->0.pid == u.slots[b]->0.pid implies a == b by {
                        assert(t.slots[a] is Some && t.slots[b] is Some);
                    }
                }
                if t.jids_distinct() {
                    assert forall|a: int, b: int|
                        0 <= a < u.slots.len() && 0 <= b < u.slots.len() && (
                        #[trigger] u.slots[a]) is Some && (#[trigger] u.slots[b]) is Some
                            && u.slots[a]->0.jid == u.slots[b]->0.jid implies a == b by {
                        assert(t.slots[a] is Some && t.slots[b] is Some);
                    }
                }
                if t.lacks(Probe::Pid(pid)) {
                    assert forall|k: int| 0 <= k < u.slots.len() implies !slot_matches(
                        #[trigger] u.slots[k],
                        Probe::Pid(pid),
                    ) by {
                        assert(!slot_matches(t.slots[k], Probe::Pid(pid)));
                    }
                }
            }
        },
        _ => {},
    }
}

/// One run of the handler takes in every change that is outstanding: a
/// job whose end is among the changes, at whatever place, is no longer in
/// the table when the run is over.
pub proof fn lemma_reaped_all(t: JobListView, statuses: Seq<ChildStatus>, k: int, pid: i32)
    requires
        t.pids_distinct(),
        0 <= k < statuses.len(),
        ends(statuses[k], pid),
    ensures
        reaped_all(t, statuses).pids_distinct(),
        reaped_all(t, statuses).lacks(Probe::Pid(pid)),
    decreases statuses.len(),
{
    let before = statuses.drop_last();
    lemma_reaped_all_distinct(t, before);
    if k == statuses.len() - 1 {
        lemma_reaped_table(reaped_all(t, before), statuses.last(), pid);
    } else {
        assert(before[k] == statuses[k]);
        lemma_reaped_all(t, before, k, pid);
        lemma_reaped_table(reaped_all(t, before), statuses.last(), pid);
    }
}

proof fn lemma_reaped_all_distinct(t: JobListView, statuses: Seq<ChildStatus>)
    requires
        t.pids_distinct(),
    ensures
        reaped_all(t, statuses).pids_distinct(),
    decreases statuses.len(),
{
    if statuses.len() > 0 {
        lemma_reaped_all_distinct(t, statuses.drop_last());
        lemma_reaped_table(reaped_all(t, statuses.drop_last()), statuses.last(), 0);
    }
}

} // verus!
