use minishell::jobs::{JobList, JobListError, JobState};
use minishell::reaper::{consistent, reap, ChildStatus, Reaped};
use minishell::sigsafe::MSGBUF_LEN;

fn padded(text: &[u8]) -> [u8; MSGBUF_LEN] {
    let mut out = [0u8; MSGBUF_LEN];
    out[..text.len()].copy_from_slice(text);
    out
}

fn run_handler(jobs: &mut JobList, pending: &[ChildStatus]) -> Vec<[u8; MSGBUF_LEN]> {
    let mut written = Vec::new();
    let mut next = 0;
    loop {
        let status = if next < pending.len() {
            pending[next]
        } else {
            ChildStatus::StillAlive
        };
        next += 1;
        if let Err(e) = consistent(jobs, status) {
            panic!("{:?}", e);
        }
        match reap(jobs, status) {
            Reaped::Recorded => {}
            Reaped::Report(msg) => written.push(msg),
            Reaped::Drained => return written,
        }
    }
}

#[test]
fn one_handler_run_takes_in_two_exits() {
    let mut jobs = JobList::new();
    assert_eq!(jobs.addjob(100, JobState::BG, "a &\n"), Ok(1));
    assert_eq!(jobs.addjob(200, JobState::BG, "b &\n"), Ok(2));
    assert_eq!(jobs.addjob(300, JobState::BG, "c &\n"), Ok(3));
    let written = run_handler(
        &mut jobs,
        &[ChildStatus::Exited(100), ChildStatus::Exited(300)],
    );
    assert!(written.is_empty());
    assert_eq!(jobs.pid2jid(100), None);
    assert_eq!(jobs.pid2jid(300), None);
    assert_eq!(jobs.pid2jid(200), Some(2));
    assert_eq!(jobs.listjobs(), Ok(String::from("[2] (200) Running b &\n")));
}

#[test]
fn job_ended_by_signal_is_removed_and_reported() {
    let mut jobs = JobList::new();
    assert_eq!(jobs.addjob(100, JobState::BG, "a &\n"), Ok(1));
    assert_eq!(jobs.addjob(1058514, JobState::FG, "b\n"), Ok(2));
    assert_eq!(
        reap(&mut jobs, ChildStatus::Signaled(1058514, 2)),
        Reaped::Report(padded(b"Job [2] (1058514) terminated by signal 2\n"))
    );
    assert_eq!(jobs.pid2jid(1058514), None);
    assert_eq!(jobs.fgpid(), None);
    assert_eq!(jobs.addjob(7, JobState::BG, "c &\n"), Ok(2));
}

#[test]
fn stopped_job_is_marked_and_reported() {
    let mut jobs = JobList::new();
    assert_eq!(jobs.addjob(100, JobState::FG, "a\n"), Ok(1));
    assert_eq!(
        reap(&mut jobs, ChildStatus::Stopped(100, 20)),
        Reaped::Report(padded(b"Job [1] (100) stopped by signal 20\n"))
    );
    assert_eq!(jobs.getjob_pid(100).unwrap().state(), JobState::Stop);
    assert_eq!(jobs.fgpid(), None);
    assert_eq!(jobs.pid2jid(100), Some(1));
}

#[test]
fn resumed_job_stays_as_it_is() {
    let mut jobs = JobList::new();
    assert_eq!(jobs.addjob(100, JobState::Stop, "a\n"), Ok(1));
    assert_eq!(consistent(&jobs, ChildStatus::Continued(100)), Ok(()));
    assert_eq!(reap(&mut jobs, ChildStatus::Continued(100)), Reaped::Recorded);
    assert_eq!(jobs.getjob_pid(100).unwrap().state(), JobState::Stop);
}

#[test]
fn no_outstanding_change_ends_the_run() {
    let mut jobs = JobList::new();
    assert_eq!(jobs.addjob(100, JobState::BG, "a\n"), Ok(1));
    assert_eq!(consistent(&jobs, ChildStatus::StillAlive), Ok(()));
    assert_eq!(reap(&mut jobs, ChildStatus::StillAlive), Reaped::Drained);
    assert_eq!(jobs.pid2jid(100), Some(1));
}

#[test]
fn change_of_an_unknown_process_is_inconsistent() {
    let mut jobs = JobList::new();
    assert_eq!(consistent(&jobs, ChildStatus::Exited(100)), Err(JobListError::InconsistentState));
    assert_eq!(consistent(&jobs, ChildStatus::StillAlive), Ok(()));
    assert_eq!(jobs.addjob(100, JobState::BG, "a\n"), Ok(1));
    for status in [
        ChildStatus::Exited(5),
        ChildStatus::Signaled(5, 9),
        ChildStatus::Stopped(5, 19),
        ChildStatus::Continued(5),
    ] {
        assert_eq!(consistent(&jobs, status), Err(JobListError::InconsistentState));
    }
    for status in [
        ChildStatus::Continued(100),
        ChildStatus::Stopped(100, 19),
        ChildStatus::Signaled(100, 9),
        ChildStatus::Exited(100),
    ] {
        assert_eq!(consistent(&jobs, status), Ok(()));
    }
    assert_eq!(reap(&mut jobs, ChildStatus::Exited(100)), Reaped::Recorded);
    assert_eq!(
        consistent(&jobs, ChildStatus::Exited(100)),
        Err(JobListError::InconsistentState)
    );
}

#[test]
fn second_exit_of_one_process_is_inconsistent() {
    let mut jobs = JobList::new();
    assert_eq!(jobs.addjob(100, JobState::BG, "a\n"), Ok(1));
    assert_eq!(jobs.addjob(200, JobState::BG, "b\n"), Ok(2));
    let pending = [ChildStatus::Exited(100), ChildStatus::Exited(100), ChildStatus::Exited(200)];
    let mut taken_in = 0;
    let mut failure = None;
    for status in pending {
        if let Err(e) = consistent(&jobs, status) {
            failure = Some(e);
            break;
        }
        assert_eq!(reap(&mut jobs, status), Reaped::Recorded);
        taken_in += 1;
    }
    assert_eq!(taken_in, 1);
    assert_eq!(failure, Some(JobListError::InconsistentState));
    assert_eq!(jobs.pid2jid(200), Some(2));
}

#[test]
fn mixed_changes_in_one_run() {
    let mut jobs = JobList::new();
    assert_eq!(jobs.addjob(11, JobState::BG, "a &\n"), Ok(1));
    assert_eq!(jobs.addjob(22, JobState::BG, "b &\n"), Ok(2));
    assert_eq!(jobs.addjob(33, JobState::FG, "c\n"), Ok(3));
    let written = run_handler(
        &mut jobs,
        &[
            ChildStatus::Stopped(33, 20),
            ChildStatus::Exited(11),
            ChildStatus::Signaled(22, 15),
        ],
    );
    assert_eq!(
        written,
        vec![
            padded(b"Job [3] (33) stopped by signal 20\n"),
            padded(b"Job [2] (22) terminated by signal 15\n"),
        ]
    );
    assert_eq!(jobs.listjobs(), Ok(String::from("[3] (33) Stopped c\n")));
}
