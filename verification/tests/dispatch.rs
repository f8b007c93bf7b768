use minishell::dispatch::{
    builtin_cmd, do_bgfg, eval, exit_status, foreground_group, job_started, leave_status,
    parse_shell_args, parse_target, process_group, waitfg, BgFgOutcome, Builtin, Plan, ShellArgs,
    Started, Target,
};
use minishell::jobs::{JobList, JobListError, JobState};
use minishell::parser::ParseFailReason;
use minishell::reaper::{reap, ChildStatus, Reaped};

fn args(items: &[&str]) -> Vec<String> {
    items.iter().map(|s| String::from(*s)).collect()
}

fn foreground_jobs(jobs: &mut JobList, pids: &[i32]) -> usize {
    let mut n = 0;
    for pid in pids {
        if let Some(job) = jobs.getjob_pid(*pid) {
            if job.state() == JobState::FG {
                n += 1;
            }
        }
    }
    n
}

#[test]
fn empty_line_is_nothing_to_do() {
    assert_eq!(eval(&JobList::new(), "\n"), Plan::Nothing);
    assert_eq!(eval(&JobList::new(), ""), Plan::Nothing);
}

#[test]
fn unmatched_quote_is_a_parse_failure() {
    assert_eq!(
        eval(&JobList::new(), "run 'unterminated\n"),
        Plan::ParseFailure(ParseFailReason::Unmatched('\''))
    );
}

#[test]
fn line_with_marker_only_has_no_program() {
    assert_eq!(eval(&JobList::new(), " & \n"), Plan::NoProgram);
}

#[test]
fn builtin_commands_are_recognised() {
    assert_eq!(eval(&JobList::new(), "jobs\n"), Plan::Jobs);
    assert_eq!(eval(&JobList::new(), "quit\n"), Plan::Quit);
    assert_eq!(eval(&JobList::new(), "jobs &\n"), Plan::Jobs);
    assert_eq!(
        eval(&JobList::new(), "fg %1\n"),
        Plan::BgFg {
            to_fg: true,
            argv: args(&["fg", "%1"])
        }
    );
    assert_eq!(
        eval(&JobList::new(), "bg 1234\n"),
        Plan::BgFg {
            to_fg: false,
            argv: args(&["bg", "1234"])
        }
    );
    assert_eq!(builtin_cmd(&args(&["jobs"])), Some(Builtin::Jobs));
    assert_eq!(builtin_cmd(&args(&["quit", "now"])), Some(Builtin::Quit));
    assert_eq!(builtin_cmd(&args(&["fg"])), Some(Builtin::Fg));
    assert_eq!(builtin_cmd(&args(&["bg"])), Some(Builtin::Bg));
    assert_eq!(builtin_cmd(&args(&["Jobs"])), None);
    assert_eq!(builtin_cmd(&args(&["/bin/ls", "jobs"])), None);
    assert_eq!(builtin_cmd(&args(&[])), None);
}

#[test]
fn other_lines_start_a_program() {
    assert_eq!(
        eval(&JobList::new(), "/bin/sleep 10\n"),
        Plan::Launch {
            state: JobState::FG,
            argv: args(&["/bin/sleep", "10"])
        }
    );
    assert_eq!(
        eval(&JobList::new(), "/bin/echo 'a b' &\n"),
        Plan::Launch {
            state: JobState::BG,
            argv: args(&["/bin/echo", "a b"])
        }
    );
}

#[test]
fn full_table_starts_no_program() {
    let mut jobs = JobList::new();
    for k in 0..16 {
        assert_eq!(
            eval(&jobs, "/bin/sleep 10 &\n"),
            Plan::Launch {
                state: JobState::BG,
                argv: args(&["/bin/sleep", "10"])
            }
        );
        assert!(!jobs.is_full());
        assert_eq!(
            job_started(&mut jobs, 50 + k, JobState::BG, "/bin/sleep 10 &\n"),
            Started::Announce(1 + k)
        );
    }
    assert!(jobs.is_full());
    assert_eq!(eval(&jobs, "/bin/sleep 10 &\n"), Plan::TableFull);
    assert_eq!(eval(&jobs, "/bin/sleep 10\n"), Plan::TableFull);
    assert_eq!(eval(&jobs, "jobs\n"), Plan::Jobs);
    assert_eq!(eval(&jobs, "\n"), Plan::Nothing);
    assert_eq!(reap(&mut jobs, ChildStatus::Exited(55)), Reaped::Recorded);
    assert!(matches!(eval(&jobs, "/bin/sleep 10\n"), Plan::Launch { .. }));
}

#[test]
fn targets_are_process_ids_or_job_ids() {
    assert_eq!(parse_target("1234"), Some(Target::Pid(1234)));
    assert_eq!(parse_target("%5"), Some(Target::Jid(5)));
    assert_eq!(parse_target("%"), Some(Target::Jid(0)));
    assert_eq!(parse_target(""), Some(Target::Pid(0)));
    assert_eq!(parse_target("%%1"), None);
    assert_eq!(parse_target("12x"), None);
    assert_eq!(parse_target("-1"), None);
    assert_eq!(parse_target("%1é"), None);
    assert_eq!(parse_target("2147483648"), None);
}

#[test]
fn bgfg_reports_what_is_wrong_with_its_argument() {
    let mut jobs = JobList::new();
    assert_eq!(jobs.addjob(100, JobState::Stop, "a\n"), Ok(1));
    assert_eq!(do_bgfg(&mut jobs, true, &args(&["fg"])), BgFgOutcome::MissingTarget);
    assert_eq!(do_bgfg(&mut jobs, false, &args(&[])), BgFgOutcome::MissingTarget);
    assert_eq!(
        do_bgfg(&mut jobs, true, &args(&["fg", "one"])),
        BgFgOutcome::BadTarget
    );
    assert_eq!(
        do_bgfg(&mut jobs, true, &args(&["fg", "101"])),
        BgFgOutcome::NotFound(JobListError::NoSuchPid(101))
    );
    assert_eq!(
        do_bgfg(&mut jobs, false, &args(&["bg", "%2"])),
        BgFgOutcome::NotFound(JobListError::NoSuchJid(2))
    );
    assert_eq!(jobs.getjob_pid(100).unwrap().state(), JobState::Stop);
}

#[test]
fn bg_sets_job_running_in_background() {
    let mut jobs = JobList::new();
    assert_eq!(jobs.addjob(100, JobState::Stop, "a\n"), Ok(1));
    assert_eq!(jobs.addjob(200, JobState::Stop, "b c\n"), Ok(2));
    assert_eq!(
        do_bgfg(&mut jobs, false, &args(&["bg", "%2"])),
        BgFgOutcome::Resumed {
            jid: 2,
            pid: 200,
            foreground: false,
            cmdline: String::from("b c\n")
        }
    );
    assert_eq!(jobs.getjob_pid(200).unwrap().state(), JobState::BG);
    assert_eq!(jobs.getjob_pid(100).unwrap().state(), JobState::Stop);
    assert_eq!(
        do_bgfg(&mut jobs, false, &args(&["bg", "100", "ignored"])),
        BgFgOutcome::Resumed {
            jid: 1,
            pid: 100,
            foreground: false,
            cmdline: String::from("a\n")
        }
    );
    assert_eq!(jobs.getjob_pid(100).unwrap().state(), JobState::BG);
}

#[test]
fn at_most_one_job_in_foreground_over_fg_and_bg() {
    let mut jobs = JobList::new();
    let pids = [100, 200, 300];
    assert_eq!(job_started(&mut jobs, 100, JobState::BG, "a &\n"), Started::Announce(1));
    assert_eq!(job_started(&mut jobs, 200, JobState::BG, "b &\n"), Started::Announce(2));
    assert_eq!(foreground_jobs(&mut jobs, &pids), 0);

    assert_eq!(
        do_bgfg(&mut jobs, true, &args(&["fg", "%1"])),
        BgFgOutcome::Resumed {
            jid: 1,
            pid: 100,
            foreground: true,
            cmdline: String::from("a &\n")
        }
    );
    assert!(waitfg(&jobs, 100));
    assert_eq!(foreground_jobs(&mut jobs, &pids), 1);

    assert!(matches!(
        reap(&mut jobs, ChildStatus::Stopped(100, 20)),
        Reaped::Report(_)
    ));
    assert!(!waitfg(&jobs, 100));
    assert_eq!(foreground_jobs(&mut jobs, &pids), 0);

    assert!(matches!(
        do_bgfg(&mut jobs, true, &args(&["fg", "200"])),
        BgFgOutcome::Resumed { jid: 2, pid: 200, foreground: true, .. }
    ));
    assert!(waitfg(&jobs, 200));
    assert_eq!(jobs.fgpid(), Some(200));
    assert_eq!(foreground_jobs(&mut jobs, &pids), 1);

    assert_eq!(reap(&mut jobs, ChildStatus::Exited(200)), Reaped::Recorded);
    assert!(!waitfg(&jobs, 200));
    assert_eq!(foreground_jobs(&mut jobs, &pids), 0);

    assert!(matches!(
        do_bgfg(&mut jobs, false, &args(&["bg", "%1"])),
        BgFgOutcome::Resumed { jid: 1, pid: 100, foreground: false, .. }
    ));
    assert_eq!(foreground_jobs(&mut jobs, &pids), 0);

    assert_eq!(job_started(&mut jobs, 300, JobState::FG, "c\n"), Started::Wait(300));
    assert!(waitfg(&jobs, 300));
    assert_eq!(foreground_jobs(&mut jobs, &pids), 1);
    assert_eq!(jobs.getjob_pid(100).unwrap().state(), JobState::BG);
}

#[test]
fn fg_waits_until_background_job_ends() {
    let mut jobs = JobList::new();
    let state = match eval(&jobs, "/bin/sleep 100 &\n") {
        Plan::Launch { state, .. } => state,
        other => panic!("{:?}", other),
    };
    let jid = match job_started(&mut jobs, 4711, state, "/bin/sleep 100 &\n") {
        Started::Announce(jid) => jid,
        other => panic!("{:?}", other),
    };
    assert_eq!(jobs.listjobs(), Ok(String::from("[1] (4711) Running /bin/sleep 100 &\n")));

    let (to_fg, argv) = match eval(&jobs, &format!("fg %{}\n", jid)) {
        Plan::BgFg { to_fg, argv } => (to_fg, argv),
        other => panic!("{:?}", other),
    };
    let pid = match do_bgfg(&mut jobs, to_fg, &argv) {
        BgFgOutcome::Resumed { pid, foreground: true, .. } => pid,
        other => panic!("{:?}", other),
    };
    assert_eq!(pid, 4711);
    assert_eq!(process_group(pid), Some(-4711));
    assert!(waitfg(&jobs, pid));
    assert_eq!(reap(&mut jobs, ChildStatus::StillAlive), Reaped::Drained);
    assert!(waitfg(&jobs, pid));
    assert_eq!(reap(&mut jobs, ChildStatus::Exited(4711)), Reaped::Recorded);
    assert_eq!(reap(&mut jobs, ChildStatus::StillAlive), Reaped::Drained);
    assert!(!waitfg(&jobs, pid));

    assert_eq!(eval(&jobs, "jobs\n"), Plan::Jobs);
    assert_eq!(jobs.listjobs(), Ok(String::new()));
}

#[test]
fn started_job_is_recorded() {
    let mut jobs = JobList::new();
    assert_eq!(job_started(&mut jobs, 10, JobState::FG, "a\n"), Started::Wait(10));
    assert_eq!(jobs.pid2jid(10), Some(1));
    assert_eq!(job_started(&mut jobs, 20, JobState::BG, "b &\n"), Started::Announce(2));
    assert_eq!(jobs.getjob_pid(20).unwrap().cmdline(), "b &\n");
    for k in 0..14 {
        assert_eq!(
            job_started(&mut jobs, 30 + k, JobState::BG, "c &\n"),
            Started::Announce(3 + k)
        );
    }
    assert_eq!(job_started(&mut jobs, 99, JobState::BG, "d &\n"), Started::TableFull);
    assert_eq!(job_started(&mut jobs, 99, JobState::FG, "d\n"), Started::TableFull);
    assert_eq!(jobs.pid2jid(99), None);
}

#[test]
fn waiting_goes_on_while_the_job_is_in_foreground() {
    let mut jobs = JobList::new();
    assert!(!waitfg(&jobs, 10));
    assert_eq!(jobs.addjob(10, JobState::BG, "a &\n"), Ok(1));
    assert!(!waitfg(&jobs, 10));
    assert_eq!(jobs.addjob(20, JobState::FG, "b\n"), Ok(2));
    assert!(waitfg(&jobs, 20));
    assert!(!waitfg(&jobs, 10));
}

#[test]
fn signals_go_to_the_foreground_group() {
    let mut jobs = JobList::new();
    assert_eq!(foreground_group(&jobs), None);
    assert_eq!(jobs.addjob(10, JobState::BG, "a &\n"), Ok(1));
    assert_eq!(foreground_group(&jobs), None);
    assert_eq!(jobs.addjob(20, JobState::FG, "b\n"), Ok(2));
    assert_eq!(foreground_group(&jobs), Some(-20));
    assert_eq!(process_group(1), Some(-1));
    assert_eq!(process_group(0), Some(0));
    assert_eq!(process_group(-7), Some(7));
    assert_eq!(process_group(i32::MIN), None);
    assert_eq!(process_group(i32::MAX), Some(-i32::MAX));
}

#[test]
fn shell_arguments_set_the_flags() {
    assert_eq!(
        parse_shell_args(&args(&["shell"])),
        ShellArgs::Run {
            verbose: false,
            emit_prompt: true
        }
    );
    assert_eq!(
        parse_shell_args(&args(&[])),
        ShellArgs::Run {
            verbose: false,
            emit_prompt: true
        }
    );
    assert_eq!(
        parse_shell_args(&args(&["shell", "-v", "-p", "-v"])),
        ShellArgs::Run {
            verbose: true,
            emit_prompt: false
        }
    );
    assert_eq!(
        parse_shell_args(&args(&["-h", "-p"])),
        ShellArgs::Run {
            verbose: false,
            emit_prompt: false
        }
    );
    assert_eq!(parse_shell_args(&args(&["shell", "-v", "-h", "-x"])), ShellArgs::Help);
    assert_eq!(parse_shell_args(&args(&["shell", "-p", "-x", "-h"])), ShellArgs::Usage);
    assert_eq!(parse_shell_args(&args(&["shell", "-vp"])), ShellArgs::Usage);
}

#[test]
fn shell_leaves_after_quit_and_after_a_bad_line() {
    let jobs = JobList::new();
    assert_eq!(exit_status(&eval(&jobs, "quit\n")), Some(0));
    assert_eq!(exit_status(&eval(&jobs, "echo 'open\n")), Some(1));
    assert_eq!(exit_status(&eval(&jobs, "\n")), None);
    assert_eq!(exit_status(&eval(&jobs, "jobs\n")), None);
    assert_eq!(exit_status(&eval(&jobs, "fg %1\n")), None);
    assert_eq!(exit_status(&eval(&jobs, "/bin/ls\n")), None);
    assert_eq!(exit_status(&eval(&jobs, "&\n")), None);
    assert_eq!(exit_status(&Plan::TableFull), None);
}

#[test]
fn shell_leaves_at_once_for_help_and_unknown_arguments() {
    assert_eq!(leave_status(parse_shell_args(&args(&["shell", "-h"]))), Some(0));
    assert_eq!(leave_status(parse_shell_args(&args(&["shell", "-x"]))), Some(1));
    assert_eq!(leave_status(parse_shell_args(&args(&["shell", "-v"]))), None);
}

#[test]
fn fg_takes_the_place_of_the_foreground_job() {
    let mut jobs = JobList::new();
    let pids = [100, 200, 300];
    assert_eq!(job_started(&mut jobs, 100, JobState::FG, "a\n"), Started::Wait(100));
    assert_eq!(job_started(&mut jobs, 200, JobState::BG, "b &\n"), Started::Announce(2));
    assert_eq!(job_started(&mut jobs, 300, JobState::Stop, "c\n"), Started::Announce(3));

    assert!(matches!(
        do_bgfg(&mut jobs, true, &args(&["fg", "%2"])),
        BgFgOutcome::Resumed { jid: 2, pid: 200, foreground: true, .. }
    ));
    assert_eq!(foreground_jobs(&mut jobs, &pids), 1);
    assert_eq!(jobs.fgpid(), Some(200));
    assert_eq!(jobs.getjob_pid(100).unwrap().state(), JobState::BG);
    assert_eq!(jobs.getjob_pid(300).unwrap().state(), JobState::Stop);
    assert!(waitfg(&jobs, 200));
    assert!(!waitfg(&jobs, 100));

    assert!(matches!(
        do_bgfg(&mut jobs, true, &args(&["fg", "300"])),
        BgFgOutcome::Resumed { jid: 3, pid: 300, foreground: true, .. }
    ));
    assert_eq!(foreground_jobs(&mut jobs, &pids), 1);
    assert_eq!(jobs.fgpid(), Some(300));
    assert_eq!(jobs.getjob_pid(200).unwrap().state(), JobState::BG);

    assert!(matches!(
        do_bgfg(&mut jobs, true, &args(&["fg", "300"])),
        BgFgOutcome::Resumed { jid: 3, pid: 300, foreground: true, .. }
    ));
    assert_eq!(foreground_jobs(&mut jobs, &pids), 1);
    assert_eq!(jobs.fgpid(), Some(300));
}

#[test]
fn fg_that_finds_no_job_unseats_nothing() {
    let mut jobs = JobList::new();
    assert_eq!(job_started(&mut jobs, 100, JobState::FG, "a\n"), Started::Wait(100));
    assert_eq!(
        do_bgfg(&mut jobs, true, &args(&["fg", "%7"])),
        BgFgOutcome::NotFound(JobListError::NoSuchJid(7))
    );
    assert_eq!(do_bgfg(&mut jobs, true, &args(&["fg", "x"])), BgFgOutcome::BadTarget);
    assert_eq!(do_bgfg(&mut jobs, true, &args(&["fg"])), BgFgOutcome::MissingTarget);
    assert_eq!(jobs.fgpid(), Some(100));
}

#[test]
fn bg_leaves_the_foreground_job_alone() {
    let mut jobs = JobList::new();
    assert_eq!(job_started(&mut jobs, 100, JobState::FG, "a\n"), Started::Wait(100));
    assert_eq!(job_started(&mut jobs, 200, JobState::Stop, "b\n"), Started::Announce(2));
    assert!(matches!(
        do_bgfg(&mut jobs, false, &args(&["bg", "%2"])),
        BgFgOutcome::Resumed { jid: 2, pid: 200, foreground: false, .. }
    ));
    assert_eq!(jobs.fgpid(), Some(100));
    assert_eq!(jobs.getjob_pid(200).unwrap().state(), JobState::BG);
    assert!(matches!(
        do_bgfg(&mut jobs, false, &args(&["bg", "100"])),
        BgFgOutcome::Resumed { jid: 1, pid: 100, foreground: false, .. }
    ));
    assert_eq!(jobs.fgpid(), None);
}

#[test]
fn job_started_in_foreground_takes_the_place_of_the_foreground_job() {
    let mut jobs = JobList::new();
    let pids = [100, 200, 300];
    assert_eq!(job_started(&mut jobs, 100, JobState::FG, "a\n"), Started::Wait(100));
    assert_eq!(job_started(&mut jobs, 200, JobState::FG, "b\n"), Started::Wait(200));
    assert_eq!(foreground_jobs(&mut jobs, &pids), 1);
    assert_eq!(jobs.fgpid(), Some(200));
    assert_eq!(jobs.getjob_pid(100).unwrap().state(), JobState::BG);
    assert_eq!(job_started(&mut jobs, 300, JobState::BG, "c &\n"), Started::Announce(3));
    assert_eq!(foreground_jobs(&mut jobs, &pids), 1);
    assert_eq!(jobs.fgpid(), Some(200));
}
