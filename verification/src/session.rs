//! The discipline by which the shell keeps at most one job in the
//! foreground, as a model of one session.
//!
//! A job that comes to the foreground, newly started or brought forward
//! by `fg`, takes the place of the job that was there, and the shell
//! waits until it has left the foreground. The model holds for every
//! order of events: it does not rest on the shell reading no command line
//! while it waits.

use vstd::prelude::*;
use crate::dispatch::{in_foreground, probe_of, resumed_state, resumed_table, Target};
use crate::jobs::JobState;
use crate::table::{
    applied,
    lemma_added_foreground,
    lemma_empty_table,
    lemma_first_found,
    lemma_first_is,
    lemma_moved_to,
    slot_matches,
    JobListView,
    Probe,
    TableOp,
};
use crate::reaper::{ends, lemma_reaped_table, reaped_table, subject, ChildStatus};

verus! {

/// The state of a session: the job table, and the process for which the
/// shell waits, if it waits.
pub ghost struct Session {
    pub table: JobListView,
    pub waiting: Option<i32>,
}

/// What happens in a session.
pub ghost enum Event {
    /// A child was started and recorded as a job.
    Started { pid: i32, state: JobState, cmdline: Seq<char> },
    /// `fg` (with `to_fg`) or `bg` was carried out on a target.
    Resumed { to_fg: bool, target: Target },
    /// A change of a child's state was taken in.
    Child { status: ChildStatus },
}

/// The process for which the shell waits after the table has changed:
/// the candidate, while it is the foreground job.
pub open spec fn wait_for(table: JobListView, candidate: Option<i32>) -> Option<i32> {
    match candidate {
        Some(pid) => if in_foreground(table, pid) {
            Some(pid)
        } else {
            None
        },
        None => None,
    }
}

/// The session after an event. A job that comes to the foreground, newly
/// started or brought forward by `fg`, is the one for which the shell
/// waits from then on; any other event leaves the shell waiting for the
/// job it waited for, while that job is in the foreground.
pub open spec fn after(s: Session, e: Event) -> Session {
    match e {
        Event::Child { status } => {
            let table = reaped_table(s.table, status);
            Session { table: table, waiting: wait_for(table, s.waiting) }
        },
        Event::Started { pid, state, cmdline } => {
            let table = applied(s.table, TableOp::Add { pid: pid, state: state, cmdline: cmdline });
            Session {
                table: table,
                waiting: wait_for(
                    table,
                    if state == JobState::FG && s.table.first(Probe::Free) is Some {
                        Some(pid)
                    } else {
                        s.waiting
                    },
                ),
            }
        },
        Event::Resumed { to_fg, target } => {
            let table = resumed_table(s.table, to_fg, target);
            Session {
                table: table,
                waiting: wait_for(
                    table,
                    match s.table.job(probe_of(target)) {
                        Some(job) => if to_fg {
                            Some(job.pid)
                        } else {
                            s.waiting
                        },
                        None => s.waiting,
                    },
                ),
            }
        },
    }
}

/// The session after a sequence of events.
pub open spec fn after_all(s: Session, events: Seq<Event>) -> Session
    decreases events.len(),
{
    if events.len() == 0 {
        s
    } else {
        after(after_all(s, events.drop_last()), events.last())
    }
}

/// While the shell waits for no job, no job is in the foreground; while
/// it waits for one, no other job is.
pub open spec fn orderly(s: Session) -> bool {
    &&& s.table.at_most_one_fg()
    &&& match s.waiting {
        Some(pid) => s.table.only_foreground(pid),
        None => s.table.lacks(Probe::Foreground),
    }
}

/// A session that begins with an empty table and waits for no job is
/// orderly.
pub proof fn lemma_begins_orderly(t: JobListView)
    requires
        forall|i: int| 0 <= i < t.slots.len() ==> (#[trigger] t.slots[i]) is None,
    ensures
        orderly(Session { table: t, waiting: None }),
{
    lemma_empty_table(t);
}

/// Where no job but the one waited for can be in the foreground and that
/// one is not the foreground job, no job is in the foreground.
pub proof fn lemma_wait_over(t: JobListView, pid: i32)
    requires
        t.only_foreground(pid),
        !in_foreground(t, pid),
    ensures
        t.lacks(Probe::Foreground),
{
    lemma_first_found(t, Probe::Foreground);
}

/// An event leaves an orderly session orderly.
pub proof fn lemma_after_orderly(s: Session, e: Event)
    requires
        orderly(s),
    ensures
        orderly(after(s, e)),
{
    let t = s.table;
    let u = after(s, e).table;
    match e {
        Event::Child { status } => {
            match s.waiting {
                Some(pid) => {
                    lemma_reaped_table(t, status, pid);
                },
                None => {
                    lemma_reaped_table(t, status, 0);
                },
            }
        },
        Event::Started { pid, state, cmdline } => {
            lemma_first_found(t, Probe::Free);
            if t.first(Probe::Free) is Some {
                lemma_added_foreground(t, t.first(Probe::Free)->0, pid, state, cmdline);
            }
        },
        Event::Resumed { to_fg, target } => {
            lemma_first_found(t, probe_of(target));
            if t.first(probe_of(target)) is Some {
                lemma_moved_to(t, t.first(probe_of(target))->0, resumed_state(to_fg));
            }
        },
    }
    if after(s, e).waiting is None && s.waiting is Some {
        if u.only_foreground(s.waiting->0) && !in_foreground(u, s.waiting->0) {
            lemma_wait_over(u, s.waiting->0);
        }
    }
}

/// Whatever happens in a session that began orderly, at most one job is
/// in the foreground, and none while the shell reads a command line.
pub proof fn lemma_at_most_one_foreground(s: Session, events: Seq<Event>)
    requires
        orderly(s),
    ensures
        orderly(after_all(s, events)),
        after_all(s, events).table.at_most_one_fg(),
        after_all(s, events).waiting is None ==> after_all(s, events).table.lacks(
            Probe::Foreground,
        ),
    decreases events.len(),
{
    if events.len() > 0 {
        lemma_at_most_one_foreground(s, events.drop_last());
        lemma_after_orderly(after_all(s, events.drop_last()), events.last());
    }
}

/// `fg` on a job of the table makes the shell wait for that job, whatever
/// it waited for before, and that job is then the only one in the
/// foreground.
pub proof fn lemma_fg_starts_wait(s: Session, target: Target)
    requires
        s.table.job(probe_of(target)) is Some,
    ensures
        after(s, Event::Resumed { to_fg: true, target: target }).waiting == Some(
            s.table.job(probe_of(target))->0.pid,
        ),
        after(s, Event::Resumed { to_fg: true, target: target }).table.at_most_one_fg(),
        after(s, Event::Resumed { to_fg: true, target: target }).table.only_foreground(
            s.table.job(probe_of(target))->0.pid,
        ),
{
    lemma_first_found(s.table, probe_of(target));
    lemma_moved_to(s.table, s.table.first(probe_of(target))->0, JobState::FG);
}

/// While the shell waits for a job, a change of the state of another
/// process leaves it waiting.
pub proof fn lemma_wait_goes_on(s: Session, status: ChildStatus, pid: i32)
    requires
        orderly(s),
        s.waiting == Some(pid),
        in_foreground(s.table, pid),
        subject(status) != Some(pid),
    ensures
        after(s, Event::Child { status: status }).waiting == Some(pid),
{
    let fg = Probe::Foreground;
    let t = s.table;
    let u = reaped_table(t, status);
    lemma_first_found(t, fg);
    let i = t.first(fg)->0;
    if subject(status) is Some {
        let q = subject(status)->0;
        lemma_first_found(t, Probe::Pid(q));
        if t.first(Probe::Pid(q)) is Some {
            let j = t.first(Probe::Pid(q))->0;
            assert(j != i);
            assert(forall|m: int| 0 <= m < t.slots.len() && m != j ==> u.slots[m] == t.slots[m]);
            assert(!slot_matches(u.slots[j], fg));
            assert(u.is_first(i, fg)) by {
                assert forall|m: int| 0 <= m < i implies !slot_matches(
                    #[trigger] u.slots[m],
                    fg,
                ) by {
                    assert(!slot_matches(t.slots[m], fg));
                }
            }
            lemma_first_is(u, i, fg);
        }
    }
}

/// The wait for a job is over once the end of its process was taken in,
/// and the job is then no longer in the table.
pub proof fn lemma_wait_ends(s: Session, status: ChildStatus, pid: i32)
    requires
        orderly(s),
        s.waiting == Some(pid),
        s.table.pids_distinct(),
        ends(status, pid),
    ensures
        after(s, Event::Child { status: status }).waiting is None,
        after(s, Event::Child { status: status }).table.lacks(Probe::Pid(pid)),
        after(s, Event::Child { status: status }).table.lacks(Probe::Foreground),
{
    let u = reaped_table(s.table, status);
    lemma_reaped_table(s.table, status, pid);
    if in_foreground(u, pid) {
        lemma_first_found(u, Probe::Foreground);
        let i = u.first(Probe::Foreground)->0;
        assert(slot_matches(u.slots[i], Probe::Pid(pid)));
    }
    lemma_wait_over(u, pid);
}

} // verus!
