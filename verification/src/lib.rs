//! Job control for a small interactive shell.
//!
//! * [`jobs`]: the table of running and stopped jobs.
//! * [`table`]: the mathematical model of that table, and what holds of
//!   it whatever is added and removed.
//! * [`reaper`]: what is done when a child changes state.
//! * [`dispatch`]: what is done for a command line, for `fg` and `bg`,
//!   and while a foreground job runs.
//! * [`session`]: why at most one job is in the foreground.
//! * [`sigsafe`]: message formatting that is safe in a signal handler.
//! * [`parser`]: the command line parser.
//! * [`text`]: helpers on strings.
//!
//! The library decides and keeps the books; it starts no process, sends
//! no signal and writes nothing. The program around it does that, and
//! touches the job table only while the signals are blocked whose
//! handlers touch it too.

pub mod dispatch;
pub mod jobs;
pub mod parser;
pub mod reaper;
pub mod session;
pub mod sigsafe;
pub mod table;
pub mod text;
