//! The worker: the shell's job-control engine.
//!
//! The worker owns the job table, the process table and terminal
//! control.  It is a pure state machine: each entry point consumes one
//! command line, signal or child status report, updates the tables, and
//! returns a [`Directive`] or outcome telling the surrounding program
//! what to do against the OS (spawn a pipeline, send a signal to a
//! process group, move terminal control, reply to the prompt loop).
//! Every transition is specified against the ghost model in [`crate::model`].

use vstd::prelude::*;

use crate::model::{
    inv_model, job_label, find_pid, find_job, has_pid, has_job_id, lemma_find_job,
    lemma_find_pid, lemma_reap_preserves_inv, lemma_register_preserves_inv,
    lemma_remove_index, lemma_resume_preserves_inv, max_id, next_id, drop_procs_of,
    procs_for, pstate_of, reap_model, register_model, resume_model, resume_procs,
    valid_status, ChildStatus, JobM, JobState, ModelW, NoticeM, PState, ProcM,
};
use crate::parse::{
    builtin_of, builtin_of_s, job_ref, job_ref_s, opt_view, parse, parse_num, parse_num_s,
    parse_s, plan_view, BuiltinName, ParseError, PlanS, SpawnPlan,
};

verus! {

/// The signal number the relay sends for an interrupt request (Ctrl-C).
pub const SIGINT: i32 = 2;

/// The signal number the relay sends for a stop request (Ctrl-Z).
pub const SIGTSTP: i32 = 20;

/// The signal number the relay sends when a child changed state.
pub const SIGCHLD: i32 = 17;

/// One tracked OS process.
#[derive(Clone, Copy, Debug)]
pub struct Proc {
    pub pid: i32,
    pub job: u64,
    pub st: PState,
}

/// One tracked job: a pipeline invoked as one command line.
#[derive(Debug)]
pub struct Job {
    pub id: u64,
    pub pgid: i32,
    pub bg: bool,
    pub cmd: String,
    pub last: i32,
}

/// The reply owed to the prompt loop after each command.
#[derive(Clone, Copy, Debug, PartialEq, Eq, Structural)]
pub enum Reply {
    /// Keep reading commands; `code` drives the prompt's status glyph.
    Continue { code: i32 },
    /// Leave the shell with this exit code.
    Quit { code: i32 },
}

/// Why a command was answered without doing what it asked.
#[derive(Clone, Copy, Debug, PartialEq, Eq, Structural)]
pub enum Note {
    /// The line was malformed.
    ParseFailed { err: ParseError },
    /// The argument of `exit` is not a usable code.
    BadExitCode,
    /// `exit` was refused because jobs are still tracked; a second
    /// consecutive `exit` will force it.
    ExitRefused,
    /// `fg`/`bg` needs a `%N` job reference.
    BadJobArg,
    /// No tracked job has this id.
    UnknownJob { id: u64 },
    /// `bg` on a job that is not stopped.
    AlreadyRunning { id: u64 },
}

/// What the surrounding program must do for one command.
#[derive(Debug)]
pub enum Directive {
    /// Nothing external: send this reply, showing `note` first if any.
    Reply { reply: Reply, note: Option<Note> },
    /// Display the rows of [`Worker::jobs_list`], then reply
    /// `Continue { code: 0 }`.
    ShowJobs,
    /// Spawn the pipeline, then call [`Worker::on_spawned`] or
    /// [`Worker::on_spawn_failed`].
    Spawn { plan: SpawnPlan },
    /// Change directory (`None` means the home fallback), then call
    /// [`Worker::on_cd_result`].
    ChangeDir { dir: Option<String> },
    /// Send `SIGCONT` to the group if `send_cont`, give it the
    /// terminal, then feed child reports to [`Worker::on_child`] until
    /// one yields a reply code.
    ResumeFg { pgid: i32, send_cont: bool },
    /// Send `SIGCONT` to the group, then reply `Continue { code: 0 }`.
    ResumeBg { pgid: i32 },
}

/// What to do with a forwarded OS signal.
#[derive(Clone, Copy, Debug, PartialEq, Eq, Structural)]
pub enum SignalDisposition {
    /// Send the same signal to this process group.
    Forward { pgid: i32 },
    /// Collect pending child status changes and feed them to
    /// [`Worker::on_child`].
    Drain,
    /// Swallow the signal.
    Ignore,
}

/// The follow-up after registering a freshly spawned pipeline.
#[derive(Clone, Copy, Debug, PartialEq, Eq, Structural)]
pub struct SpawnedOutcome {
    /// The job id given to the pipeline.
    pub job_id: u64,
    /// Whether terminal control must now be given to the new group.
    pub take_terminal: bool,
    /// The reply owed right away (a background job), if any.
    pub reply: Option<Reply>,
}

/// A queued completion notice for a background job.
#[derive(Debug)]
pub struct Notice {
    pub job: u64,
    pub code: i32,
    pub cmd: String,
}

/// The outcome of one child status report.
#[derive(Debug)]
pub struct ReapOutcome {
    /// The foreground job finished or stopped: reclaim the terminal and
    /// reply `Continue` with this code.
    pub reply: Option<i32>,
    /// A background job finished: queue this notice for the next prompt.
    pub notice: Option<Notice>,
}

/// One row of the `jobs` listing.
#[derive(Debug)]
pub struct JobRow {
    pub id: u64,
    pub state: JobState,
    pub cmd: String,
}

/// Ghost image of one process entry.
pub open spec fn pm(p: Proc) -> ProcM {
    ProcM { pid: p.pid as int, job: p.job as int, st: p.st }
}

/// Ghost image of the process table.
pub open spec fn procs_model(v: Seq<Proc>) -> Seq<ProcM> {
    Seq::new(v.len(), |k: int| pm(v[k]))
}

/// Ghost image of one job entry.
pub open spec fn jm(j: Job) -> JobM {
    JobM { id: j.id as int, pgid: j.pgid as int, bg: j.bg, cmd: j.cmd@, last: j.last as int }
}

/// Ghost image of the job table.
pub open spec fn jobs_model(v: Seq<Job>) -> Seq<JobM> {
    Seq::new(v.len(), |k: int| jm(v[k]))
}

/// Ghost image of an optional reply code.
pub open spec fn opt_code(o: Option<i32>) -> Option<int> {
    match o {
        Some(c) => Some(c as int),
        None => None,
    }
}

/// Ghost image of an optional notice.
pub open spec fn opt_notice(o: Option<Notice>) -> Option<NoticeM> {
    match o {
        Some(n) => Some(NoticeM { job: n.job as int, code: n.code as int, cmd: n.cmd@ }),
        None => None,
    }
}

/// The pids of a pipeline as ghost integers.
pub open spec fn pids_int(v: Seq<i32>) -> Seq<int> {
    Seq::new(v.len(), |k: int| v[k] as int)
}

/// The state with the pending exit warning cleared; every command other
/// than a refused `exit` clears it.
pub open spec fn cleared(m: ModelW) -> ModelW {
    ModelW { jobs: m.jobs, procs: m.procs, fg: m.fg, warned: false }
}

/// The argument of `cd`, if any.
pub open spec fn cd_arg_s(p: PlanS) -> Option<Seq<char>> {
    if p.stages[0].len() >= 2 {
        Some(p.stages[0][1])
    } else {
        None
    }
}

/// The code requested by `exit`: 0 by default, or its first argument
/// when that is a decimal that fits an `i32`.
pub open spec fn exit_code_s(p: PlanS) -> Option<int> {
    if p.stages[0].len() == 1 {
        Some(0)
    } else {
        match parse_num_s(p.stages[0][1]) {
            Some(v) => if v <= i32::MAX {
                Some(v)
            } else {
                None
            },
            None => None,
        }
    }
}

/// The job id referenced by `fg`/`bg`, if its first argument is `%N`.
pub open spec fn fg_arg_s(p: PlanS) -> Option<int> {
    if p.stages[0].len() >= 2 {
        job_ref_s(p.stages[0][1])
    } else {
        None
    }
}

/// Everything one command does: how the state moves from `m0` to `m1`
/// and which directive comes back, for every parse of `line`.
pub open spec fn command_post(m0: ModelW, line: Seq<char>, m1: ModelW, d: Directive) -> bool {
    match parse_s(line) {
        Err(e) => m1 == cleared(m0) && d == (Directive::Reply {
            reply: Reply::Continue { code: 1 },
            note: Some(Note::ParseFailed { err: e }),
        }),
        Ok(p) => match builtin_of_s(p) {
            None => m1 == cleared(m0) && (d matches Directive::Spawn { plan } && plan_view(plan)
                == p),
            Some(BuiltinName::Jobs) => m1 == cleared(m0) && d is ShowJobs,
            Some(BuiltinName::Cd) => m1 == cleared(m0) && (d matches Directive::ChangeDir { dir }
                && opt_view(dir) == cd_arg_s(p)),
            Some(BuiltinName::Exit) => match exit_code_s(p) {
                None => m1 == cleared(m0) && d == (Directive::Reply {
                    reply: Reply::Continue { code: 1 },
                    note: Some(Note::BadExitCode),
                }),
                Some(c) => if m0.jobs.len() == 0 || m0.warned {
                    m1 == cleared(m0) && d == (Directive::Reply {
                        reply: Reply::Quit { code: c as i32 },
                        note: None,
                    })
                } else {
                    m1 == (ModelW { jobs: m0.jobs, procs: m0.procs, fg: m0.fg, warned: true })
                        && d == (Directive::Reply {
                        reply: Reply::Continue { code: 1 },
                        note: Some(Note::ExitRefused),
                    })
                },
            },
            Some(BuiltinName::Fg) => match fg_arg_s(p) {
                None => m1 == cleared(m0) && d == (Directive::Reply {
                    reply: Reply::Continue { code: 1 },
                    note: Some(Note::BadJobArg),
                }),
                Some(n) => if !has_job_id(m0.jobs, n) {
                    m1 == cleared(m0) && (d matches Directive::Reply { reply, note } && reply
                        == (Reply::Continue { code: 1 }) && (note matches Some(
                        Note::UnknownJob { id },
                    ) && id as int == n))
                } else {
                    m1 == resume_model(m0, n, true) && (d matches Directive::ResumeFg {
                        pgid,
                        send_cont,
                    } && pgid as int == m0.jobs[find_job(m0.jobs, n, 0)].pgid && send_cont == (
                    job_label(m0.procs, n) is Stopped))
                },
            },
            Some(BuiltinName::Bg) => match fg_arg_s(p) {
                None => m1 == cleared(m0) && d == (Directive::Reply {
                    reply: Reply::Continue { code: 1 },
                    note: Some(Note::BadJobArg),
                }),
                Some(n) => if !has_job_id(m0.jobs, n) {
                    m1 == cleared(m0) && (d matches Directive::Reply { reply, note } && reply
                        == (Reply::Continue { code: 1 }) && (note matches Some(
                        Note::UnknownJob { id },
                    ) && id as int == n))
                } else if job_label(m0.procs, n) is Stopped {
                    m1 == resume_model(m0, n, false) && (d matches Directive::ResumeBg { pgid }
                        && pgid as int == m0.jobs[find_job(m0.jobs, n, 0)].pgid)
                } else {
                    m1 == cleared(m0) && (d matches Directive::Reply { reply, note } && reply
                        == (Reply::Continue { code: 1 }) && (note matches Some(
                        Note::AlreadyRunning { id },
                    ) && id as int == n))
                },
            },
        },
    }
}

/// Index of the first tracked process with this pid, or the length.
fn find_pid_exec(procs: &Vec<Proc>, pid: i32) -> (k: usize)
    ensures
        k as int == find_pid(procs_model(procs@), pid as int, 0),
        k <= procs@.len(),
{
    let n = procs.len();
    let mut i: usize = 0;
    while i < n
        invariant
            n == procs@.len(),
            i <= n,
            find_pid(procs_model(procs@), pid as int, 0) == find_pid(
                procs_model(procs@),
                pid as int,
                i as int,
            ),
        decreases n - i,
    {
        proof {
            assert(procs_model(procs@)[i as int] == pm(procs@[i as int]));
        }
        if procs[i].pid == pid {
            return i;
        }
        i = i + 1;
    }
    n
}

/// Index of the first tracked job with this id, or the length.
fn find_job_exec(jobs: &Vec<Job>, id: u64) -> (k: usize)
    ensures
        k as int == find_job(jobs_model(jobs@), id as int, 0),
        k <= jobs@.len(),
{
    let n = jobs.len();
    let mut i: usize = 0;
    while i < n
        invariant
            n == jobs@.len(),
            i <= n,
            find_job(jobs_model(jobs@), id as int, 0) == find_job(
                jobs_model(jobs@),
                id as int,
                i as int,
            ),
        decreases n - i,
    {
        proof {
            assert(jobs_model(jobs@)[i as int] == jm(jobs@[i as int]));
        }
        if jobs[i].id == id {
            return i;
        }
        i = i + 1;
    }
    n
}

/// The aggregate state of job `jid`, read off the process table.
fn job_label_exec(procs: &Vec<Proc>, jid: u64) -> (s: JobState)
    ensures
        s == job_label(procs_model(procs@), jid as int),
{
    let n = procs.len();
    let mut any_run = false;
    let mut any_stop = false;
    let mut any_unfin = false;
    let mut i: usize = 0;
    while i < n
        invariant
            n == procs@.len(),
            i <= n,
            crate::model::running_from(procs_model(procs@), jid as int, 0) == (any_run
                || crate::model::running_from(procs_model(procs@), jid as int, i as int)),
            crate::model::stopped_from(procs_model(procs@), jid as int, 0) == (any_stop
                || crate::model::stopped_from(procs_model(procs@), jid as int, i as int)),
            crate::model::unfinished_from(procs_model(procs@), jid as int, 0) == (any_unfin
                || crate::model::unfinished_from(procs_model(procs@), jid as int, i as int)),
        decreases n - i,
    {
        proof {
            assert(procs_model(procs@)[i as int] == pm(procs@[i as int]));
        }
        let p = procs[i];
        if p.job == jid {
            match p.st {
                PState::Running => {
                    any_run = true;
                    any_unfin = true;
                },
                PState::Stopped => {
                    any_stop = true;
                    any_unfin = true;
                },
                _ => {},
            }
        }
        i = i + 1;
    }
    if !any_unfin {
        JobState::Done
    } else if !any_run && any_stop {
        JobState::Stopped
    } else {
        JobState::Running
    }
}

/// Marks every stopped member of job `jid` running again; members that
/// already finished keep their final state.
fn mark_running(procs: &mut Vec<Proc>, jid: u64)
    ensures
        procs_model(final(procs)@) == resume_procs(procs_model(old(procs)@), jid as int),
{
    let n = procs.len();
    let mut i: usize = 0;
    while i < n
        invariant
            n == procs@.len(),
            n == old(procs)@.len(),
            i <= n,
            forall|x: int| i <= x < n ==> procs@[x] == old(procs)@[x],
            forall|x: int|
                0 <= x < i ==> procs@[x] == (if old(procs)@[x].job == jid && old(
                    procs,
                )@[x].st is Stopped {
                    Proc { pid: old(procs)@[x].pid, job: jid, st: PState::Running }
                } else {
                    old(procs)@[x]
                }),
        decreases n - i,
    {
        let p = procs[i];
        if p.job == jid && p.st == PState::Stopped {
            procs.set(i, Proc { pid: p.pid, job: jid, st: PState::Running });
        }
        i = i + 1;
    }
    proof {
        assert(procs_model(procs@) =~= resume_procs(procs_model(old(procs)@), jid as int));
    }
}

/// The worker state: the two tables, terminal ownership, and whether an
/// `exit` was just refused.
#[derive(Debug)]
pub struct Worker {
    jobs: Vec<Job>,
    procs: Vec<Proc>,
    fg: Option<i32>,
    warned: bool,
}

impl Worker {
    /// The ghost image of this worker.
    pub closed spec fn model(&self) -> ModelW {
        ModelW {
            jobs: jobs_model(self.jobs@),
            procs: procs_model(self.procs@),
            fg: match self.fg {
                Some(g) => Some(g as int),
                None => None,
            },
            warned: self.warned,
        }
    }

    /// A fresh worker: no jobs, no processes, the shell owns the terminal.
    pub fn new() -> (w: Worker)
        ensures
            w.model() == (ModelW { jobs: Seq::empty(), procs: Seq::empty(), fg: None, warned: false }),
            inv_model(w.model()),
    {
        let w = Worker { jobs: Vec::new(), procs: Vec::new(), fg: None, warned: false };
        proof {
            assert(jobs_model(w.jobs@) =~= Seq::<JobM>::empty());
            assert(procs_model(w.procs@) =~= Seq::<ProcM>::empty());
        }
        w
    }

    /// What to do with a forwarded OS signal: `SIGCHLD` asks for a
    /// drain of pending child reports; `SIGINT`/`SIGTSTP` are forwarded
    /// to the foreground group if one exists and swallowed otherwise;
    /// anything else is ignored.
    pub fn on_signal(&self, sig: i32) -> (d: SignalDisposition)
        ensures
            sig == SIGCHLD ==> d == SignalDisposition::Drain,
            (sig == SIGINT || sig == SIGTSTP) && self.model().fg is Some ==> (d
                matches SignalDisposition::Forward { pgid } && pgid as int == self.model().fg->0),
            (sig == SIGINT || sig == SIGTSTP) && self.model().fg is None ==> d
                == SignalDisposition::Ignore,
            !(sig == SIGCHLD || sig == SIGINT || sig == SIGTSTP) ==> d
                == SignalDisposition::Ignore,
    {
        if sig == SIGCHLD {
            SignalDisposition::Drain
        } else if sig == SIGINT || sig == SIGTSTP {
            match self.fg {
                Some(g) => SignalDisposition::Forward { pgid: g },
                None => SignalDisposition::Ignore,
            }
        } else {
            SignalDisposition::Ignore
        }
    }

    /// The reply after the surrounding program performed `cd`.
    pub fn on_cd_result(&self, ok: bool) -> (r: Reply)
        ensures
            r == (if ok {
                Reply::Continue { code: 0 }
            } else {
                Reply::Continue { code: 1 }
            }),
    {
        if ok {
            Reply::Continue { code: 0 }
        } else {
            Reply::Continue { code: 1 }
        }
    }

    /// End of input: leave at once, as a forced `exit`.
    pub fn on_eof(&self) -> (r: Reply)
        ensures
            r == (Reply::Quit { code: 0 }),
    {
        Reply::Quit { code: 0 }
    }

    /// A pipeline could not be fully spawned; the surrounding program
    /// has already terminated and reaped the partial siblings, and
    /// nothing was registered, so the tables are untouched.
    pub fn on_spawn_failed(&self) -> (r: Reply)
        ensures
            r == (Reply::Continue { code: 127 }),
    {
        Reply::Continue { code: 127 }
    }

    /// The foreground wait found no children left to wait for at all
    /// (every tracked process was already collected elsewhere): return
    /// the terminal to the shell and carry on with a failure code.
    pub fn on_no_children(&mut self) -> (r: Reply)
        requires
            inv_model(old(self).model()),
        ensures
            inv_model(final(self).model()),
            final(self).model() == (ModelW {
                jobs: old(self).model().jobs,
                procs: old(self).model().procs,
                fg: None,
                warned: old(self).model().warned,
            }),
            r == (Reply::Continue { code: 1 }),
    {
        self.fg = None;
        Reply::Continue { code: 1 }
    }

    /// Whether some tracked process has this pid; lets the surrounding
    /// program test [`Worker::on_spawned`]'s freshness precondition.
    pub fn tracks_pid(&self, pid: i32) -> (b: bool)
        ensures
            b == has_pid(self.model().procs, pid as int),
    {
        find_pid_exec(&self.procs, pid) < self.procs.len()
    }

    /// The `jobs` listing: id, aggregate state and command line of
    /// every tracked job, in table order.
    pub fn jobs_list(&self) -> (rows: Vec<JobRow>)
        ensures
            rows@.len() == self.model().jobs.len(),
            forall|k: int|
                0 <= k < rows@.len() ==> (#[trigger] rows@[k]).id as int == self.model().jobs[k].id
                    && rows@[k].cmd@ == self.model().jobs[k].cmd && rows@[k].state == job_label(
                    self.model().procs,
                    self.model().jobs[k].id,
                ),
    {
        let n = self.jobs.len();
        let mut rows: Vec<JobRow> = Vec::new();
        let mut i: usize = 0;
        while i < n
            invariant
                n == self.jobs@.len(),
                i <= n,
                rows@.len() == i,
                forall|k: int|
                    0 <= k < i ==> (#[trigger] rows@[k]).id as int == jobs_model(self.jobs@)[k].id
                        && rows@[k].cmd@ == jobs_model(self.jobs@)[k].cmd && rows@[k].state
                        == job_label(procs_model(self.procs@), jobs_model(self.jobs@)[k].id),
            decreases n - i,
        {
            proof {
                assert(jobs_model(self.jobs@)[i as int] == jm(self.jobs@[i as int]));
            }
            let state = job_label_exec(&self.procs, self.jobs[i].id);
            rows.push(JobRow { id: self.jobs[i].id, state, cmd: self.jobs[i].cmd.clone() });
            i = i + 1;
        }
        rows
    }

    /// Handles one command line: parses it, runs a builtin or hands
    /// back a spawn plan, exactly as [`command_post`] prescribes.
    pub fn on_command(&mut self, line: &str) -> (d: Directive)
        requires
            inv_model(old(self).model()),
            old(self).model().fg is None,
        ensures
            inv_model(final(self).model()),
            command_post(old(self).model(), line@, final(self).model(), d),
    {
        let ghost m0 = self.model();
        let prior_warned = self.warned;
        self.warned = false;
        proof {
            assert(self.model() == cleared(m0));
        }
        let plan = match parse(line) {
            Err(e) => {
                return Directive::Reply {
                    reply: Reply::Continue { code: 1 },
                    note: Some(Note::ParseFailed { err: e }),
                };
            },
            Ok(p) => p,
        };
        let ghost p = plan_view(plan);
        let b = builtin_of(&plan);
        match b {
            None => Directive::Spawn { plan },
            Some(BuiltinName::Jobs) => Directive::ShowJobs,
            Some(BuiltinName::Cd) => {
                proof {
                    assert(p.stages[0] == crate::parse::word_views(plan.stages@[0].argv@));
                }
                let dir = if plan.stages[0].argv.len() >= 2 {
                    Some(plan.stages[0].argv[1].clone())
                } else {
                    None
                };
                Directive::ChangeDir { dir }
            },
            Some(BuiltinName::Exit) => {
                proof {
                    assert(p.stages[0] == crate::parse::word_views(plan.stages@[0].argv@));
                }
                let code_opt: Option<i32> = if plan.stages[0].argv.len() == 1 {
                    Some(0)
                } else {
                    match parse_num(plan.stages[0].argv[1].as_str()) {
                        Some(v) => if v <= i32::MAX as u64 {
                            Some(v as i32)
                        } else {
                            None
                        },
                        None => None,
                    }
                };
                match code_opt {
                    None => Directive::Reply {
                        reply: Reply::Continue { code: 1 },
                        note: Some(Note::BadExitCode),
                    },
                    Some(c) => {
                        if self.jobs.len() == 0 || prior_warned {
                            Directive::Reply { reply: Reply::Quit { code: c }, note: None }
                        } else {
                            self.warned = true;
                            Directive::Reply {
                                reply: Reply::Continue { code: 1 },
                                note: Some(Note::ExitRefused),
                            }
                        }
                    },
                }
            },
            Some(BuiltinName::Fg) | Some(BuiltinName::Bg) => {
                let to_fg = match b {
                    Some(BuiltinName::Fg) => true,
                    _ => false,
                };
                proof {
                    assert(p.stages[0] == crate::parse::word_views(plan.stages@[0].argv@));
                }
                let nopt = if plan.stages[0].argv.len() >= 2 {
                    job_ref(plan.stages[0].argv[1].as_str())
                } else {
                    None
                };
                let n = match nopt {
                    None => {
                        return Directive::Reply {
                            reply: Reply::Continue { code: 1 },
                            note: Some(Note::BadJobArg),
                        };
                    },
                    Some(n) => n,
                };
                let ji = find_job_exec(&self.jobs, n);
                proof {
                    lemma_find_job(m0.jobs, n as int, 0);
                }
                if ji == self.jobs.len() {
                    return Directive::Reply {
                        reply: Reply::Continue { code: 1 },
                        note: Some(Note::UnknownJob { id: n }),
                    };
                }
                let pgid = self.jobs[ji].pgid;
                let lab = job_label_exec(&self.procs, n);
                if to_fg {
                    mark_running(&mut self.procs, n);
                    self.fg = Some(pgid);
                    proof {
                        assert(self.model() == resume_model(m0, n as int, true));
                        lemma_resume_preserves_inv(m0, n as int, true);
                    }
                    Directive::ResumeFg { pgid, send_cont: lab == JobState::Stopped }
                } else {
                    if lab == JobState::Stopped {
                        mark_running(&mut self.procs, n);
                        proof {
                            assert(self.model() == resume_model(m0, n as int, false));
                            lemma_resume_preserves_inv(m0, n as int, false);
                        }
                        Directive::ResumeBg { pgid }
                    } else {
                        Directive::Reply {
                            reply: Reply::Continue { code: 1 },
                            note: Some(Note::AlreadyRunning { id: n }),
                        }
                    }
                }
            },
        }
    }

    /// Registers a pipeline whose processes were all spawned: a new job
    /// under a fresh id, its group led by the first pid; a foreground
    /// job takes the terminal, a background one is answered at once.
    pub fn on_spawned(&mut self, cmd: String, background: bool, pids: &Vec<i32>) -> (out:
        SpawnedOutcome)
        requires
            inv_model(old(self).model()),
            old(self).model().fg is None,
            pids@.len() >= 1,
            forall|k: int| 0 <= k < pids@.len() ==> #[trigger] pids@[k] > 0,
            forall|a: int, b: int| 0 <= a < b < pids@.len() ==> pids@[a] != pids@[b],
            forall|k: int|
                0 <= k < pids@.len() ==> !has_pid(
                    old(self).model().procs,
                    #[trigger] pids@[k] as int,
                ),
            next_id(old(self).model().jobs) <= u64::MAX,
        ensures
            inv_model(final(self).model()),
            final(self).model() == register_model(
                old(self).model(),
                cmd@,
                background,
                pids_int(pids@),
            ),
            out.job_id as int == next_id(old(self).model().jobs),
            out.take_terminal == !background,
            out.reply == (if background {
                Some(Reply::Continue { code: 0 })
            } else {
                None::<Reply>
            }),
    {
        let ghost m0 = self.model();
        let nj = self.jobs.len();
        let mut mx: u64 = 0;
        let mut i: usize = 0;
        proof {
            assert(m0.jobs.take(0) =~= Seq::<JobM>::empty());
        }
        while i < nj
            invariant
                nj == self.jobs@.len(),
                i <= nj,
                m0.jobs == jobs_model(self.jobs@),
                mx as int == max_id(m0.jobs.take(i as int)),
            decreases nj - i,
        {
            proof {
                assert(m0.jobs.take((i + 1) as int).drop_last() =~= m0.jobs.take(i as int));
                assert(m0.jobs[i as int] == jm(self.jobs@[i as int]));
            }
            if self.jobs[i].id > mx {
                mx = self.jobs[i].id;
            }
            i = i + 1;
        }
        proof {
            assert(m0.jobs.take(nj as int) =~= m0.jobs);
        }
        let jid = mx + 1;
        let pgid = pids[0];
        let lastp = pids[pids.len() - 1];
        let ghost jobs0 = self.jobs@;
        self.jobs.push(Job { id: jid, pgid, bg: background, cmd, last: lastp });
        proof {
            assert(jobs_model(self.jobs@) =~= m0.jobs.push(
                JobM {
                    id: jid as int,
                    pgid: pgid as int,
                    bg: background,
                    cmd: self.jobs@[jobs0.len() as int].cmd@,
                    last: lastp as int,
                },
            ));
        }
        let np = pids.len();
        let ghost procs0 = self.procs@;
        let ghost jobs1 = self.jobs@;
        let ghost fg0 = self.fg;
        let ghost warned0 = self.warned;
        let mut k: usize = 0;
        while k < np
            invariant
                np == pids@.len(),
                self.procs@.len() == procs0.len() + k,
                k <= np,
                self.jobs@ == jobs1,
                self.fg == fg0,
                self.warned == warned0,
                forall|x: int| 0 <= x < procs0.len() ==> self.procs@[x] == procs0[x],
                forall|x: int|
                    procs0.len() <= x < procs0.len() + k ==> self.procs@[x] == (Proc {
                        pid: pids@[x - procs0.len()],
                        job: jid,
                        st: PState::Running,
                    }),
        decreases np - k,
        {
            self.procs.push(Proc { pid: pids[k], job: jid, st: PState::Running });
            k = k + 1;
        }
        proof {
            assert(procs_model(self.procs@) =~= m0.procs + procs_for(
                pids_int(pids@),
                jid as int,
            ));
        }
        let out = if background {
            SpawnedOutcome {
                job_id: jid,
                take_terminal: false,
                reply: Some(Reply::Continue { code: 0 }),
            }
        } else {
            self.fg = Some(pgid);
            SpawnedOutcome { job_id: jid, take_terminal: true, reply: None }
        };
        proof {
            assert(pids_int(pids@)[0] == pids@[0] as int);
            assert(pids_int(pids@)[pids_int(pids@).len() - 1] == pids@[pids@.len() - 1] as int);
            assert(jid as int == next_id(m0.jobs));
            assert(self.model().procs =~= register_model(m0, cmd@, background, pids_int(pids@)).procs);
            assert(self.model().jobs =~= register_model(m0, cmd@, background, pids_int(pids@)).jobs);
            assert(self.model() == register_model(m0, cmd@, background, pids_int(pids@)));
            assert forall|a: int, b: int|
                0 <= a < b < pids_int(pids@).len() implies pids_int(pids@)[a] != pids_int(
                pids@,
            )[b] by {
                assert(pids@[a] != pids@[b]);
            }
            lemma_register_preserves_inv(m0, cmd@, background, pids_int(pids@));
        }
        out
    }

    /// Applies one child status report, exactly as
    /// [`reap_model`] prescribes: an unknown pid is ignored
    /// (a delivery gap, never fatal), a known one updates its entry and
    /// the owning job's aggregate.
    pub fn on_child(&mut self, pid: i32, st: ChildStatus) -> (out: ReapOutcome)
        requires
            inv_model(old(self).model()),
            valid_status(st),
        ensures
            inv_model(final(self).model()),
            final(self).model() == reap_model(old(self).model(), pid as int, st).m,
            opt_code(out.reply) == reap_model(old(self).model(), pid as int, st).reply,
            opt_notice(out.notice) == reap_model(old(self).model(), pid as int, st).notice,
    {
        let ghost m0 = self.model();
        proof {
            lemma_reap_preserves_inv(m0, pid as int, st);
            lemma_find_pid(m0.procs, pid as int, 0);
        }
        let k = find_pid_exec(&self.procs, pid);
        if k == self.procs.len() {
            return ReapOutcome { reply: None, notice: None };
        }
        let pold = self.procs[k];
        let jid = pold.job;
        let newst = match st {
            ChildStatus::Exited { code } => PState::Exited(code),
            ChildStatus::Signaled { sig } => PState::Signaled(sig),
            ChildStatus::Stopped { sig: _ } => PState::Stopped,
        };
        self.procs.set(k, Proc { pid: pold.pid, job: jid, st: newst });
        let ghost ps2 = m0.procs.update(
            k as int,
            ProcM { pid: m0.procs[k as int].pid, job: jid as int, st: pstate_of(st) },
        );
        proof {
            assert(procs_model(self.procs@) =~= ps2);
        }
        let ji = find_job_exec(&self.jobs, jid);
        proof {
            lemma_find_job(m0.jobs, jid as int, 0);
        }
        if ji == self.jobs.len() {
            return ReapOutcome { reply: None, notice: None };
        }
        let jpgid = self.jobs[ji].pgid;
        let jlast = self.jobs[ji].last;
        let isfg = match self.fg {
            Some(g) => g == jpgid,
            None => false,
        };
        let lab = job_label_exec(&self.procs, jid);
        match lab {
            JobState::Done => {
                // the job is finished: compute its code, report, evict
                let lk = find_pid_exec(&self.procs, jlast);
                let code: i32 = if lk < self.procs.len() {
                    proof {
                        if lk as int != k as int {
                            assert(ps2[lk as int] == m0.procs[lk as int]);
                        }
                    }
                    match self.procs[lk].st {
                        PState::Exited(c) => c,
                        PState::Signaled(s) => 128 + s,
                        _ => 0,
                    }
                } else {
                    0
                };
                let jcmd = self.jobs[ji].cmd.clone();
                self.jobs.remove(ji);
                proof {
                    lemma_remove_index(m0.jobs, ji as int);
                    lemma_remove_index(jobs_model(old(self).jobs@), ji as int);
                    assert(jobs_model(self.jobs@) =~= m0.jobs.remove(ji as int));
                }
                let n2 = self.procs.len();
                let mut newp: Vec<Proc> = Vec::new();
                let mut i: usize = 0;
                proof {
                    assert(ps2.take(0) =~= Seq::<ProcM>::empty());
                    assert(procs_model(newp@) =~= drop_procs_of(ps2.take(0), jid as int));
                }
                while i < n2
                    invariant
                        n2 == self.procs@.len(),
                        i <= n2,
                        procs_model(self.procs@) == ps2,
                        procs_model(newp@) == drop_procs_of(ps2.take(i as int), jid as int),
                    decreases n2 - i,
                {
                    let ghost prefix = ps2.take(i as int);
                    proof {
                        assert(ps2.take((i + 1) as int).drop_last() =~= prefix);
                        assert(ps2.take((i + 1) as int).last() == ps2[i as int]);
                        assert(ps2[i as int] == pm(self.procs@[i as int]));
                    }
                    let pr = self.procs[i];
                    if pr.job != jid {
                        newp.push(pr);
                        proof {
                            assert(procs_model(newp@) =~= drop_procs_of(
                                ps2.take((i + 1) as int),
                                jid as int,
                            ));
                        }
                    } else {
                        proof {
                            assert(procs_model(newp@) =~= drop_procs_of(
                                ps2.take((i + 1) as int),
                                jid as int,
                            ));
                        }
                    }
                    i = i + 1;
                }
                proof {
                    assert(ps2.take(n2 as int) =~= ps2);
                }
                self.procs = newp;
                if isfg {
                    self.fg = None;
                    proof {
                        assert(self.model() == reap_model(m0, pid as int, st).m);
                    }
                    ReapOutcome { reply: Some(code), notice: None }
                } else {
                    proof {
                        assert(self.model() == reap_model(m0, pid as int, st).m);
                    }
                    ReapOutcome {
                        reply: None,
                        notice: Some(Notice { job: jid, code, cmd: jcmd }),
                    }
                }
            },
            JobState::Stopped => {
                if isfg {
                    self.fg = None;
                    let ec: i32 = match st {
                        ChildStatus::Exited { code } => code,
                        ChildStatus::Signaled { sig } => 128 + sig,
                        ChildStatus::Stopped { sig } => 128 + sig,
                    };
                    proof {
                        assert(self.model() == reap_model(m0, pid as int, st).m);
                    }
                    ReapOutcome { reply: Some(ec), notice: None }
                } else {
                    proof {
                        assert(self.model() == reap_model(m0, pid as int, st).m);
                    }
                    ReapOutcome { reply: None, notice: None }
                }
            },
            JobState::Running => {
                proof {
                    assert(self.model() == reap_model(m0, pid as int, st).m);
                }
                ReapOutcome { reply: None, notice: None }
            },
        }
    }
}

} // verus!

