//! ZeroSh: a verified job-control core for an interactive shell.
//!
//! The shell is split into three long-lived actors: an input actor that
//! reads lines, a signal relay that forwards OS signals, and a worker that
//! owns the job table, the process table and terminal control.  This crate
//! holds the worker core as a pure, verified state machine: it turns each
//! command line or signal into table updates plus a small set of actions
//! (spawn a pipeline, send a signal to a process group, move terminal
//! control, reply to the prompt loop) that the surrounding program carries
//! out against the OS.
//!
//! - [`parse`] turns a raw command line into pipeline stages.
//! - [`worker`] is the state machine itself.
//! - [`model`] is the mathematical model the contracts speak of.
//! - [`laws`] proves the global properties: table integrity, foreground
//!   exclusivity, idempotent reaping, and the stop/resume round trip.

use vstd::prelude::*;

pub mod laws;
pub mod model;
pub mod parse;
pub mod worker;

verus! {

/// Configuration for one shell session: where the input history is kept.
#[derive(Debug)]
pub struct Shell {
    pub log_file: String,
}

impl Shell {
    /// Builds a shell configuration that records history in `log_file`.
    pub fn new(log_file: String) -> (s: Self)
        ensures
            s.log_file == log_file,
    {
        Shell { log_file }
    }
}

/// The prompt shown before each command: a cheerful face after success,
/// a grim one after failure.
pub open spec fn prompt_spec(last_exit_code: i32) -> Seq<char> {
    if last_exit_code == 0 {
        "ZeroSh \u{1F642} %>"@
    } else {
        "ZeroSh \u{1F480} %>"@
    }
}

/// Renders the prompt for the given last exit status.
pub fn prompt(last_exit_code: i32) -> (p: String)
    ensures
        p@ == prompt_spec(last_exit_code),
{
    if last_exit_code == 0 {
        "ZeroSh \u{1F642} %>".to_owned()
    } else {
        "ZeroSh \u{1F480} %>".to_owned()
    }
}

} // verus!
