//! What the shell decides for one command line: nothing, a built-in
//! command, or a program to start; and what it decides for the built-in
//! commands `fg` and `bg`, once a child was started, while it waits for
//! the foreground job, and when a signal is to be passed on.
//!
//! Nothing here starts a process, sends a signal or prints: each function
//! says what is to be done, and brings the job table up to date.

use vstd::prelude::*;
use vstd::slice::slice_subrange;
use vstd::utf8::encode_utf8;
use crate::jobs::{JobList, JobListError, JobState};
use crate::table::{
    applied,
    lemma_added_foreground,
    lemma_first_found,
    lemma_moved_to,
    lemma_unseated,
    lemma_unseated_first,
    JobListView,
    Probe,
    TableOp,
};
use crate::parser::{
    decimal_value,
    first_non_digit,
    parse_numerical,
    parsed,
    parseline,
    ParseFailReason,
    ParseResult,
};
use crate::sigsafe::PERCENT;
use crate::text::same_text;

verus! {

/// The commands that the shell carries out itself.
#[derive(Debug, Copy, Clone, PartialEq, Eq, Structural)]
pub enum Builtin {
    Jobs,
    Quit,
    Fg,
    Bg,
}

/// The built-in command of this name.
pub open spec fn builtin_of(name: Seq<char>) -> Option<Builtin> {
    if name == "jobs"@ {
        Some(Builtin::Jobs)
    } else if name == "quit"@ {
        Some(Builtin::Quit)
    } else if name == "fg"@ {
        Some(Builtin::Fg)
    } else if name == "bg"@ {
        Some(Builtin::Bg)
    } else {
        None
    }
}

/// The built-in command that the first argument names, if it names one.
pub fn builtin_cmd(argv: &Vec<String>) -> (r: Option<Builtin>)
    ensures
        r == if argv@.len() == 0 {
            None
        } else {
            builtin_of(argv@[0]@)
        },
{
    if argv.len() == 0 {
        return None;
    }
    let name = argv[0].as_str();
    if same_text(name, "jobs") {
        Some(Builtin::Jobs)
    } else if same_text(name, "quit") {
        Some(Builtin::Quit)
    } else if same_text(name, "fg") {
        Some(Builtin::Fg)
    } else if same_text(name, "bg") {
        Some(Builtin::Bg)
    } else {
        None
    }
}

/// The job that `fg` or `bg` is asked to resume: by process id, or by job
/// id.
#[derive(Debug, Copy, Clone, PartialEq, Eq, Structural)]
pub enum Target {
    Pid(i32),
    Jid(i32),
}

/// The number that a sequence of ASCII decimal digits denotes, where it
/// is one that an `i32` holds.
pub open spec fn number_of(s: Seq<u8>) -> Option<i32> {
    if first_non_digit(s) is None && decimal_value(s) <= i32::MAX {
        Some(decimal_value(s) as i32)
    } else {
        None
    }
}

/// The job that the bytes of an argument name: a job id behind `%`, else
/// a process id.
pub open spec fn target_of(arg: Seq<u8>) -> Option<Target> {
    if arg.len() > 0 && arg[0] == PERCENT {
        match number_of(arg.skip(1)) {
            Some(jid) => Some(Target::Jid(jid)),
            None => None,
        }
    } else {
        match number_of(arg) {
            Some(pid) => Some(Target::Pid(pid)),
            None => None,
        }
    }
}

/// What a scan of the job table looks for to find a target.
pub open spec fn probe_of(target: Target) -> Probe {
    match target {
        Target::Pid(pid) => Probe::Pid(pid),
        Target::Jid(jid) => Probe::Jid(jid),
    }
}

/// Reads the argument of `fg` or `bg`: a decimal process id, or `%` and a
/// decimal job id.
pub fn parse_target(arg: &str) -> (r: Option<Target>)
    ensures
        r == target_of(encode_utf8(arg@)),
{
    let bytes = arg.as_bytes();
    if bytes.len() > 0 && bytes[0] == PERCENT {
        let number = slice_subrange(bytes, 1, bytes.len());
        assert(number@ == bytes@.skip(1));
        match parse_numerical(number) {
            Ok(jid) => Some(Target::Jid(jid)),
            Err(_) => None,
        }
    } else {
        match parse_numerical(bytes) {
            Ok(pid) => Some(Target::Pid(pid)),
            Err(_) => None,
        }
    }
}

/// How a call of `fg` or `bg` ended.
#[derive(Debug, Clone, PartialEq, Eq)]
pub enum BgFgOutcome {
    /// The command was given no argument.
    MissingTarget,
    /// The argument is neither a process id nor `%` and a job id.
    BadTarget,
    /// No job has the process id or the job id that the argument names:
    /// the error says which.
    NotFound(JobListError),
    /// The job was found and its state set. Its process group is to be
    /// sent the signal to continue; then the shell waits for the job, if
    /// it went to the foreground, or announces it.
    Resumed { jid: i32, pid: i32, foreground: bool, cmdline: String },
}

/// The state that `fg` or `bg` gives a job.
pub open spec fn resumed_state(to_fg: bool) -> JobState {
    if to_fg {
        JobState::FG
    } else {
        JobState::BG
    }
}

/// The job table after `fg` (with `to_fg`) or `bg` was carried out on a
/// target: the state of the job is set, where the job is found. Before a
/// job comes to the foreground, the job that was there goes to the
/// background.
pub open spec fn resumed_table(t: JobListView, to_fg: bool, target: Target) -> JobListView {
    match t.first(probe_of(target)) {
        Some(i) => t.moved_to(i, resumed_state(to_fg)),
        None => t,
    }
}

/// Carries out `fg` (with `to_fg`) or `bg` on the job that the second
/// argument names. The table changes only where the job is found: its
/// state becomes foreground or background, and with `fg` every other job
/// that was in the foreground is taken out of it first and runs in the
/// background. So a second job never comes into the foreground.
pub fn do_bgfg(jobs: &mut JobList, to_fg: bool, argv: &Vec<String>) -> (r: BgFgOutcome)
    ensures
        argv@.len() <= 1 ==> r == BgFgOutcome::MissingTarget && final(jobs)@ == old(jobs)@,
        argv@.len() > 1 ==> match target_of(encode_utf8(argv@[1]@)) {
            None => r == BgFgOutcome::BadTarget && final(jobs)@ == old(jobs)@,
            Some(target) => final(jobs)@ == resumed_table(old(jobs)@, to_fg, target) && match old(
                jobs,
            )@.job(probe_of(target)) {
                None => r == BgFgOutcome::NotFound(
                    match target {
                        Target::Pid(pid) => JobListError::NoSuchPid(pid),
                        Target::Jid(jid) => JobListError::NoSuchJid(jid),
                    },
                ),
                Some(job) => {
                    &&& r matches BgFgOutcome::Resumed { jid, pid, foreground, cmdline }
                    &&& jid == job.jid
                    &&& pid == job.pid
                    &&& foreground == to_fg
                    &&& cmdline@ == job.cmdline
                },
            },
        },
        old(jobs)@.at_most_one_fg() ==> final(jobs)@.at_most_one_fg(),
        match r {
            BgFgOutcome::Resumed { pid, foreground, .. } => foreground ==> final(jobs)@
                .at_most_one_fg() && final(jobs)@.only_foreground(pid),
            _ => true,
        },
        old(jobs)@.wf() ==> final(jobs)@.wf(),
{
    if argv.len() <= 1 {
        return BgFgOutcome::MissingTarget;
    }
    let target = match parse_target(argv[1].as_str()) {
        Some(target) => target,
        None => {
            return BgFgOutcome::BadTarget;
        },
    };
    let known = match target {
        Target::Pid(pid) => jobs.pid2jid(pid).is_some(),
        Target::Jid(jid) => jobs.jid2pid(jid).is_some(),
    };
    if !known {
        return BgFgOutcome::NotFound(
            match target {
                Target::Pid(pid) => JobListError::NoSuchPid(pid),
                Target::Jid(jid) => JobListError::NoSuchJid(jid),
            },
        );
    }
    proof {
        lemma_first_found(old(jobs)@, probe_of(target));
        lemma_unseated_first(old(jobs)@, probe_of(target));
        lemma_unseated(old(jobs)@);
        lemma_moved_to(
            old(jobs)@,
            old(jobs)@.first(probe_of(target))->0,
            resumed_state(to_fg),
        );
    }
    if to_fg {
        jobs.unseat_foreground();
    }
    assert(jobs@ == old(jobs)@.cleared_for(resumed_state(to_fg)));
    let job = match target {
        Target::Pid(pid) => jobs.getjob_pid(pid),
        Target::Jid(jid) => jobs.getjob_jid(jid),
    }.unwrap();
    let jid = job.jid();
    let pid = job.pid();
    let cmdline = job.cmdline().to_owned();
    job.set_state(
        if to_fg {
            JobState::FG
        } else {
            JobState::BG
        },
    );
    assert(jobs@ =~= resumed_table(old(jobs)@, to_fg, target));
    BgFgOutcome::Resumed { jid: jid, pid: pid, foreground: to_fg, cmdline: cmdline }
}

/// What is to be done for one command line.
#[derive(Debug, Clone, PartialEq)]
pub enum Plan {
    /// The line is empty: nothing is done.
    Nothing,
    /// The line cannot be parsed.
    ParseFailure(ParseFailReason),
    /// The line holds the background marker and no program.
    NoProgram,
    /// List the jobs.
    Jobs,
    /// Leave the shell.
    Quit,
    /// Carry out `fg` (with `to_fg`) or `bg` with these arguments.
    BgFg { to_fg: bool, argv: Vec<String> },
    /// The line names a program, but the job table has no room for one
    /// more job.
    TableFull,
    /// Start the program that the first argument names, as a job in this
    /// state.
    Launch { state: JobState, argv: Vec<String> },
}

/// Decides what is to be done for one command line. A built-in command
/// is recognised by the first argument; any other line starts a program,
/// in the background where the line ends in `&`, provided that the job
/// table has an empty slot.
pub fn eval(jobs: &JobList, cmdline: &str) -> (r: Plan)
    ensures
        match parsed(cmdline@) {
            Err(ParseFailReason::EmptyLine) => r == Plan::Nothing,
            Err(e) => r == Plan::ParseFailure(e),
            Ok((state, args)) => if args.len() == 0 {
                r == Plan::NoProgram
            } else {
                match builtin_of(args[0]) {
                    Some(Builtin::Jobs) => r == Plan::Jobs,
                    Some(Builtin::Quit) => r == Plan::Quit,
                    Some(Builtin::Fg) => r matches Plan::BgFg { to_fg, argv } && to_fg
                        && argv.deep_view() == args,
                    Some(Builtin::Bg) => r matches Plan::BgFg { to_fg, argv } && !to_fg
                        && argv.deep_view() == args,
                    None => if jobs@.first(Probe::Free) is None {
                        r == Plan::TableFull
                    } else {
                        r matches Plan::Launch { state: s, argv } && s == state
                            && argv.deep_view() == args
                    },
                }
            },
        },
{
    let ParseResult(state, argv) = match parseline(cmdline) {
        Ok(result) => result,
        Err(ParseFailReason::EmptyLine) => {
            return Plan::Nothing;
        },
        Err(e) => {
            return Plan::ParseFailure(e);
        },
    };
    if argv.len() == 0 {
        return Plan::NoProgram;
    }
    assert(argv.deep_view()[0] == argv@[0]@);
    match builtin_cmd(&argv) {
        Some(Builtin::Jobs) => Plan::Jobs,
        Some(Builtin::Quit) => Plan::Quit,
        Some(Builtin::Fg) => Plan::BgFg { to_fg: true, argv: argv },
        Some(Builtin::Bg) => Plan::BgFg { to_fg: false, argv: argv },
        None => if jobs.is_full() {
            Plan::TableFull
        } else {
            Plan::Launch { state: state, argv: argv }
        },
    }
}

/// The status with which the shell leaves after a command line, if it
/// leaves: 0 after `quit`, 1 after a line that cannot be parsed.
pub open spec fn exit_status_of(plan: Plan) -> Option<i32> {
    match plan {
        Plan::Quit => Some(0),
        Plan::ParseFailure(_) => Some(1),
        _ => None,
    }
}

/// The status with which the shell leaves after a command line, if it
/// leaves.
pub fn exit_status(plan: &Plan) -> (r: Option<i32>)
    ensures
        r == exit_status_of(*plan),
{
    match plan {
        Plan::Quit => Some(0),
        Plan::ParseFailure(_) => Some(1),
        _ => None,
    }
}

/// What the shell does once a child was started.
#[derive(Debug, Copy, Clone, PartialEq, Eq, Structural)]
pub enum Started {
    /// The job runs in the foreground: wait for the process with this id.
    Wait(i32),
    /// The job does not run in the foreground: announce it under this
    /// job id.
    Announce(i32),
    /// The job table is full and the job was not recorded.
    TableFull,
}

/// Records a child that was just started as a job, and says what the
/// shell does next. A job that starts in the foreground takes the place
/// of the one that was there, which goes to the background: so a second
/// job never comes into the foreground.
pub fn job_started(jobs: &mut JobList, pid: i32, state: JobState, cmdline: &str) -> (r: Started)
    ensures
        final(jobs)@ == applied(
            old(jobs)@,
            TableOp::Add { pid: pid, state: state, cmdline: cmdline@ },
        ),
        r == if old(jobs)@.first(Probe::Free) is None {
            Started::TableFull
        } else if state == JobState::FG {
            Started::Wait(pid)
        } else {
            Started::Announce(old(jobs)@.next_jid)
        },
        old(jobs)@.at_most_one_fg() ==> final(jobs)@.at_most_one_fg(),
        r matches Started::Wait(_) ==> final(jobs)@.at_most_one_fg() && final(jobs)@
            .only_foreground(pid),
        old(jobs)@.wf() ==> final(jobs)@.wf(),
{
    proof {
        lemma_first_found(old(jobs)@, Probe::Free);
        if old(jobs)@.first(Probe::Free) is Some {
            lemma_added_foreground(
                old(jobs)@,
                old(jobs)@.first(Probe::Free)->0,
                pid,
                state,
                cmdline@,
            );
        }
    }
    match jobs.addjob(pid, state, cmdline) {
        Ok(jid) => match state {
            JobState::FG => Started::Wait(pid),
            _ => Started::Announce(jid),
        },
        Err(_) => Started::TableFull,
    }
}

/// Whether the lowest foreground job of the table is the process with
/// this id.
pub open spec fn in_foreground(t: JobListView, pid: i32) -> bool {
    t.job(Probe::Foreground) matches Some(job) && job.pid == pid
}

/// Whether the shell goes on waiting for the process with this id: it
/// does while that process is the foreground job.
pub fn waitfg(jobs: &JobList, pid: i32) -> (r: bool)
    ensures
        r == in_foreground(jobs@, pid),
{
    match jobs.fgpid() {
        Some(fg) => fg == pid,
        None => false,
    }
}

/// The id by which a signal reaches the whole process group of a
/// process: the negated process id. The smallest `i32` has none.
pub open spec fn group_of(pid: i32) -> Option<i32> {
    if pid == i32::MIN {
        None
    } else {
        Some((-pid) as i32)
    }
}

/// The id by which a signal reaches the process group of a process.
pub fn process_group(pid: i32) -> (r: Option<i32>)
    ensures
        r == group_of(pid),
{
    if pid == i32::MIN {
        None
    } else {
        Some(-pid)
    }
}

/// Where an interrupt or a stop request from the terminal is passed on
/// to: the process group of the foreground job, if there is one.
pub fn foreground_group(jobs: &JobList) -> (r: Option<i32>)
    ensures
        r == match jobs@.job(Probe::Foreground) {
            Some(job) => group_of(job.pid),
            None => None,
        },
{
    match jobs.fgpid() {
        Some(pid) => process_group(pid),
        None => None,
    }
}

/// What the arguments of the shell itself ask for.
#[derive(Debug, Copy, Clone, PartialEq, Eq, Structural)]
pub enum ShellArgs {
    /// Run, with these settings.
    Run { verbose: bool, emit_prompt: bool },
    /// Print the usage and leave with success.
    Help,
    /// An argument is not known: print the usage and leave with an error.
    Usage,
}

/// The status with which the shell leaves at once, if its arguments make
/// it leave: 0 after the usage was asked for, 1 after an unknown argument.
pub fn leave_status(args: ShellArgs) -> (r: Option<i32>)
    ensures
        r == match args {
            ShellArgs::Help => Some(0i32),
            ShellArgs::Usage => Some(1i32),
            ShellArgs::Run { .. } => None,
        },
{
    match args {
        ShellArgs::Help => Some(0),
        ShellArgs::Usage => Some(1),
        ShellArgs::Run { .. } => None,
    }
}

/// What the arguments from index `i` on ask for, given the settings that
/// the arguments before them made.
pub open spec fn shell_args_from(
    args: Seq<Seq<char>>,
    i: int,
    verbose: bool,
    emit_prompt: bool,
) -> ShellArgs
    decreases args.len() - i,
{
    if i < 0 || i >= args.len() {
        ShellArgs::Run { verbose: verbose, emit_prompt: emit_prompt }
    } else if args[i] == "-h"@ {
        ShellArgs::Help
    } else if args[i] == "-v"@ {
        shell_args_from(args, i + 1, true, emit_prompt)
    } else if args[i] == "-p"@ {
        shell_args_from(args, i + 1, verbose, false)
    } else {
        ShellArgs::Usage
    }
}

/// Reads the arguments of the shell, the first of which is its own name:
/// `-v` asks for diagnostics, `-p` for no prompt, `-h` for the usage. The
/// first `-h` or unknown argument decides.
pub fn parse_shell_args(args: &Vec<String>) -> (r: ShellArgs)
    ensures
        r == shell_args_from(args.deep_view(), 1, false, true),
{
    let mut verbose = false;
    let mut emit_prompt = true;
    let mut i: usize = 1;
    while i < args.len()
        invariant
            1 <= i,
            shell_args_from(args.deep_view(), 1, false, true) == shell_args_from(
                args.deep_view(),
                i as int,
                verbose,
                emit_prompt,
            ),
        decreases args.len() - i,
    {
        let arg = args[i].as_str();
        assert(args.deep_view()[i as int] == arg@);
        if same_text(arg, "-h") {
            return ShellArgs::Help;
        } else if same_text(arg, "-v") {
            verbose = true;
        } else if same_text(arg, "-p") {
            emit_prompt = false;
        } else {
            return ShellArgs::Usage;
        }
        i += 1;
    }
    ShellArgs::Run { verbose: verbose, emit_prompt: emit_prompt }
}

} // verus!
