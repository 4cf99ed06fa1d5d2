//! The mathematical model of the worker: ghost images of the job and
//! process tables, the invariant that ties them together, and the
//! transition functions that the executable operations are proved
//! against.

use vstd::prelude::*;

verus! {

/// The state of one tracked OS process.
#[derive(Clone, Copy, Debug, PartialEq, Eq, Structural)]
pub enum PState {
    Running,
    Stopped,
    Exited(i32),
    Signaled(i32),
}

/// A state change reported for one child process by the OS.
#[derive(Clone, Copy, Debug, PartialEq, Eq, Structural)]
pub enum ChildStatus {
    Exited { code: i32 },
    Signaled { sig: i32 },
    Stopped { sig: i32 },
}

/// The aggregate state of a job.
#[derive(Clone, Copy, Debug, PartialEq, Eq, Structural)]
pub enum JobState {
    Running,
    Stopped,
    Done,
}

/// Ghost image of a process-table entry.
#[verifier::ext_equal]
pub ghost struct ProcM {
    pub pid: int,
    pub job: int,
    pub st: PState,
}

/// Ghost image of a job-table entry.
#[verifier::ext_equal]
pub ghost struct JobM {
    pub id: int,
    pub pgid: int,
    pub bg: bool,
    pub cmd: Seq<char>,
    pub last: int,
}

/// Ghost image of a completion notice for a background job.
#[verifier::ext_equal]
pub ghost struct NoticeM {
    pub job: int,
    pub code: int,
    pub cmd: Seq<char>,
}

/// Ghost image of the whole worker state.
#[verifier::ext_equal]
pub ghost struct ModelW {
    pub jobs: Seq<JobM>,
    pub procs: Seq<ProcM>,
    pub fg: Option<int>,
    pub warned: bool,
}

/// Ghost image of one reaping step: the new state, the reply owed to a
/// waiting foreground command, and the completion notice to queue.
#[verifier::ext_equal]
pub ghost struct ReapM {
    pub m: ModelW,
    pub reply: Option<int>,
    pub notice: Option<NoticeM>,
}

/// A process state that will never change again.
pub open spec fn finished(p: PState) -> bool {
    p is Exited || p is Signaled
}

/// Index of the first entry with this pid at or after `i`, or the length.
pub open spec fn find_pid(ps: Seq<ProcM>, pid: int, i: int) -> int
    decreases ps.len() - i,
{
    if i < 0 || i >= ps.len() {
        ps.len() as int
    } else if ps[i].pid == pid {
        i
    } else {
        find_pid(ps, pid, i + 1)
    }
}

/// Whether some entry has this pid.
pub open spec fn has_pid(ps: Seq<ProcM>, pid: int) -> bool {
    find_pid(ps, pid, 0) < ps.len()
}

/// Index of the first job with this id at or after `i`, or the length.
pub open spec fn find_job(js: Seq<JobM>, id: int, i: int) -> int
    decreases js.len() - i,
{
    if i < 0 || i >= js.len() {
        js.len() as int
    } else if js[i].id == id {
        i
    } else {
        find_job(js, id, i + 1)
    }
}

/// Whether some job has this id.
pub open spec fn has_job_id(js: Seq<JobM>, id: int) -> bool {
    find_job(js, id, 0) < js.len()
}

/// Whether some job owns this process group.
pub open spec fn has_job_pgid(js: Seq<JobM>, g: int) -> bool {
    exists|i: int| 0 <= i < js.len() && js[i].pgid == g
}

/// Whether job `jid` has a member with pid `pid`.
pub open spec fn member_with(ps: Seq<ProcM>, jid: int, pid: int) -> bool {
    exists|k: int| 0 <= k < ps.len() && ps[k].job == jid && ps[k].pid == pid
}

/// Whether some member of job `jid` at or after `i` is running.
pub open spec fn running_from(ps: Seq<ProcM>, jid: int, i: int) -> bool
    decreases ps.len() - i,
{
    if i < 0 || i >= ps.len() {
        false
    } else {
        (ps[i].job == jid && ps[i].st is Running) || running_from(ps, jid, i + 1)
    }
}

/// Whether some member of job `jid` at or after `i` is stopped.
pub open spec fn stopped_from(ps: Seq<ProcM>, jid: int, i: int) -> bool
    decreases ps.len() - i,
{
    if i < 0 || i >= ps.len() {
        false
    } else {
        (ps[i].job == jid && ps[i].st is Stopped) || stopped_from(ps, jid, i + 1)
    }
}

/// Whether some member of job `jid` at or after `i` has not finished.
pub open spec fn unfinished_from(ps: Seq<ProcM>, jid: int, i: int) -> bool
    decreases ps.len() - i,
{
    if i < 0 || i >= ps.len() {
        false
    } else {
        (ps[i].job == jid && !finished(ps[i].st)) || unfinished_from(ps, jid, i + 1)
    }
}

/// The aggregate state of job `jid`: Done once every member has exited
/// or been signaled, Stopped when some member is stopped and none still
/// runs, Running otherwise.
pub open spec fn job_label(ps: Seq<ProcM>, jid: int) -> JobState {
    if !unfinished_from(ps, jid, 0) {
        JobState::Done
    } else if !running_from(ps, jid, 0) && stopped_from(ps, jid, 0) {
        JobState::Stopped
    } else {
        JobState::Running
    }
}

/// The invariant of the worker state: job ids and process groups are
/// unique, pids are unique, every tracked process belongs to a tracked
/// job, every job's process group leader and last stage are members of
/// it, and the foreground group, if any, belongs to a tracked job.
pub open spec fn inv_model(m: ModelW) -> bool {
    &&& forall|a: int, b: int|
        0 <= a < b < m.jobs.len() ==> m.jobs[a].id != m.jobs[b].id && m.jobs[a].pgid
            != m.jobs[b].pgid
    &&& forall|k: int| 0 <= k < m.jobs.len() ==> m.jobs[k].id >= 1
    &&& forall|a: int, b: int| 0 <= a < b < m.procs.len() ==> m.procs[a].pid != m.procs[b].pid
    &&& forall|k: int| 0 <= k < m.procs.len() ==> m.procs[k].pid >= 1
    &&& forall|k: int| 0 <= k < m.procs.len() ==> has_job_id(m.jobs, m.procs[k].job)
    &&& forall|i: int| 0 <= i < m.jobs.len() ==> member_with(m.procs, m.jobs[i].id, m.jobs[i].pgid)
    &&& forall|i: int| 0 <= i < m.jobs.len() ==> member_with(m.procs, m.jobs[i].id, m.jobs[i].last)
    &&& forall|k: int|
        0 <= k < m.procs.len() ==> (match (#[trigger] m.procs[k]).st {
            PState::Signaled(s) => 0 <= s <= 64,
            _ => true,
        })
    &&& match m.fg {
        Some(g) => has_job_pgid(m.jobs, g),
        None => true,
    }
}

/// The signal numbers an OS status report may carry.
pub open spec fn valid_status(st: ChildStatus) -> bool {
    match st {
        ChildStatus::Exited { code: _ } => true,
        ChildStatus::Signaled { sig } => 0 <= sig <= 64,
        ChildStatus::Stopped { sig } => 0 <= sig <= 64,
    }
}

/// The process state recorded for a reported status change.
pub open spec fn pstate_of(st: ChildStatus) -> PState {
    match st {
        ChildStatus::Exited { code } => PState::Exited(code),
        ChildStatus::Signaled { sig } => PState::Signaled(sig),
        ChildStatus::Stopped { sig: _ } => PState::Stopped,
    }
}

/// The shell exit code a status change stands for, POSIX style:
/// 128 + signal for signaled or stopped, the program's code otherwise.
pub open spec fn event_code(st: ChildStatus) -> int {
    match st {
        ChildStatus::Exited { code } => code as int,
        ChildStatus::Signaled { sig } => 128 + sig,
        ChildStatus::Stopped { sig } => 128 + sig,
    }
}

/// The exit code a finished process state stands for.
pub open spec fn code_of_final(p: PState) -> int {
    match p {
        PState::Exited(c) => c as int,
        PState::Signaled(s) => 128 + s,
        _ => 0,
    }
}

/// The exit code of a finished job: the code of its last stage.
pub open spec fn job_exit_code(ps: Seq<ProcM>, last: int) -> int {
    let k = find_pid(ps, last, 0);
    if k < ps.len() {
        code_of_final(ps[k].st)
    } else {
        0
    }
}

/// The process table without the members of job `jid`, order kept.
pub open spec fn drop_procs_of(ps: Seq<ProcM>, jid: int) -> Seq<ProcM>
    decreases ps.len(),
{
    if ps.len() == 0 {
        ps
    } else {
        let r = drop_procs_of(ps.drop_last(), jid);
        if ps.last().job == jid {
            r
        } else {
            r.push(ps.last())
        }
    }
}

/// What one reported child status change does to the worker: an unknown
/// pid is ignored; otherwise the entry is updated and the owning job's
/// aggregate is recomputed.  A job that becomes Done is evicted; the
/// foreground job finishing or stopping returns the terminal to the
/// shell and yields the reply code, a background job finishing yields a
/// completion notice.
pub open spec fn reap_model(m: ModelW, pid: int, st: ChildStatus) -> ReapM {
    let k = find_pid(m.procs, pid, 0);
    if !(k < m.procs.len()) {
        ReapM { m, reply: None, notice: None }
    } else {
        let jid = m.procs[k].job;
        let ps2 = m.procs.update(k, ProcM { pid: m.procs[k].pid, job: jid, st: pstate_of(st) });
        let ji = find_job(m.jobs, jid, 0);
        if !(ji < m.jobs.len()) {
            ReapM {
                m: ModelW { jobs: m.jobs, procs: ps2, fg: m.fg, warned: m.warned },
                reply: None,
                notice: None,
            }
        } else {
            let job = m.jobs[ji];
            let isfg = m.fg == Some(job.pgid);
            if !unfinished_from(ps2, jid, 0) {
                let code = job_exit_code(ps2, job.last);
                let m2 = ModelW {
                    jobs: m.jobs.remove(ji),
                    procs: drop_procs_of(ps2, jid),
                    fg: if isfg {
                        None
                    } else {
                        m.fg
                    },
                    warned: m.warned,
                };
                if isfg {
                    ReapM { m: m2, reply: Some(code), notice: None }
                } else {
                    ReapM {
                        m: m2,
                        reply: None,
                        notice: Some(NoticeM { job: jid, code, cmd: job.cmd }),
                    }
                }
            } else if !running_from(ps2, jid, 0) && stopped_from(ps2, jid, 0) {
                if isfg {
                    ReapM {
                        m: ModelW { jobs: m.jobs, procs: ps2, fg: None, warned: m.warned },
                        reply: Some(event_code(st)),
                        notice: None,
                    }
                } else {
                    ReapM {
                        m: ModelW { jobs: m.jobs, procs: ps2, fg: m.fg, warned: m.warned },
                        reply: None,
                        notice: None,
                    }
                }
            } else {
                ReapM {
                    m: ModelW { jobs: m.jobs, procs: ps2, fg: m.fg, warned: m.warned },
                    reply: None,
                    notice: None,
                }
            }
        }
    }
}

/// The largest job id in use, or zero.
pub open spec fn max_id(js: Seq<JobM>) -> int
    decreases js.len(),
{
    if js.len() == 0 {
        0
    } else {
        let r = max_id(js.drop_last());
        if js.last().id > r {
            js.last().id
        } else {
            r
        }
    }
}

/// The id given to the next job.
pub open spec fn next_id(js: Seq<JobM>) -> int {
    max_id(js) + 1
}

/// Fresh running process entries for a newly spawned pipeline.
pub open spec fn procs_for(pids: Seq<int>, jid: int) -> Seq<ProcM> {
    Seq::new(pids.len(), |k: int| ProcM { pid: pids[k], job: jid, st: PState::Running })
}

/// What registering a freshly spawned pipeline does: a new job under a
/// fresh id whose process group is led by the first pid, one running
/// entry per pid, and, for a foreground job, terminal control moved to
/// the new group.
pub open spec fn register_model(m: ModelW, cmd: Seq<char>, bg: bool, pids: Seq<int>) -> ModelW {
    let jid = next_id(m.jobs);
    ModelW {
        jobs: m.jobs.push(
            JobM { id: jid, pgid: pids[0], bg, cmd, last: pids[pids.len() - 1] },
        ),
        procs: m.procs + procs_for(pids, jid),
        fg: if bg {
            m.fg
        } else {
            Some(pids[0])
        },
        warned: m.warned,
    }
}

/// What resuming job `jid` does: every member is marked running again,
/// and for `fg` the terminal is handed to the job's process group.
/// Any command also clears the pending exit warning.
/// The process table with every stopped member of job `jid` marked
/// running again; members that already exited or were signaled keep
/// their final state, which `SIGCONT` cannot undo.
pub open spec fn resume_procs(ps: Seq<ProcM>, jid: int) -> Seq<ProcM> {
    Seq::new(
        ps.len(),
        |k: int|
            if ps[k].job == jid && ps[k].st is Stopped {
                ProcM { pid: ps[k].pid, job: jid, st: PState::Running }
            } else {
                ps[k]
            },
    )
}

pub open spec fn resume_model(m: ModelW, jid: int, to_fg: bool) -> ModelW {
    let ji = find_job(m.jobs, jid, 0);
    if !(ji < m.jobs.len()) {
        ModelW { jobs: m.jobs, procs: m.procs, fg: m.fg, warned: false }
    } else {
        ModelW {
            jobs: m.jobs,
            procs: resume_procs(m.procs, jid),
            fg: if to_fg {
                Some(m.jobs[ji].pgid)
            } else {
                m.fg
            },
            warned: false,
        }
    }
}

/// `find_pid` returns either the first matching index or the length.
pub proof fn lemma_find_pid(ps: Seq<ProcM>, pid: int, i: int)
    requires
        0 <= i <= ps.len(),
    ensures
        i <= find_pid(ps, pid, i) <= ps.len(),
        find_pid(ps, pid, i) < ps.len() ==> ps[find_pid(ps, pid, i)].pid == pid,
        forall|j: int| i <= j < find_pid(ps, pid, i) ==> ps[j].pid != pid,
    decreases ps.len() - i,
{
    if i < ps.len() && ps[i].pid != pid {
        lemma_find_pid(ps, pid, i + 1);
    }
}

/// `find_job` returns either the first matching index or the length.
pub proof fn lemma_find_job(js: Seq<JobM>, id: int, i: int)
    requires
        0 <= i <= js.len(),
    ensures
        i <= find_job(js, id, i) <= js.len(),
        find_job(js, id, i) < js.len() ==> js[find_job(js, id, i)].id == id,
        forall|j: int| i <= j < find_job(js, id, i) ==> js[j].id != id,
    decreases js.len() - i,
{
    if i < js.len() && js[i].id != id {
        lemma_find_job(js, id, i + 1);
    }
}

/// A member search succeeds exactly when a matching entry exists.
pub proof fn lemma_running_iff(ps: Seq<ProcM>, jid: int, i: int)
    requires
        0 <= i <= ps.len(),
    ensures
        running_from(ps, jid, i) <==> exists|k: int|
            i <= k < ps.len() && ps[k].job == jid && ps[k].st is Running,
    decreases ps.len() - i,
{
    if i < ps.len() {
        lemma_running_iff(ps, jid, i + 1);
    }
}

/// A member search succeeds exactly when a matching entry exists.
pub proof fn lemma_stopped_iff(ps: Seq<ProcM>, jid: int, i: int)
    requires
        0 <= i <= ps.len(),
    ensures
        stopped_from(ps, jid, i) <==> exists|k: int|
            i <= k < ps.len() && ps[k].job == jid && ps[k].st is Stopped,
    decreases ps.len() - i,
{
    if i < ps.len() {
        lemma_stopped_iff(ps, jid, i + 1);
    }
}

/// A member search succeeds exactly when a matching entry exists.
pub proof fn lemma_unfinished_iff(ps: Seq<ProcM>, jid: int, i: int)
    requires
        0 <= i <= ps.len(),
    ensures
        unfinished_from(ps, jid, i) <==> exists|k: int|
            i <= k < ps.len() && ps[k].job == jid && !finished(ps[k].st),
    decreases ps.len() - i,
{
    if i < ps.len() {
        lemma_unfinished_iff(ps, jid, i + 1);
    }
}

/// No job id in use is larger than `max_id`, which is never negative.
pub proof fn lemma_max_id(js: Seq<JobM>)
    ensures
        forall|k: int| 0 <= k < js.len() ==> js[k].id <= max_id(js),
        max_id(js) >= 0,
    decreases js.len(),
{
    if js.len() > 0 {
        lemma_max_id(js.drop_last());
        assert(forall|k: int| 0 <= k < js.len() - 1 ==> js[k] == js.drop_last()[k]);
    }
}

/// An entry with a matching pid makes the search succeed.
pub proof fn lemma_has_pid_witness(ps: Seq<ProcM>, pid: int, w: int)
    requires
        0 <= w < ps.len(),
        ps[w].pid == pid,
    ensures
        has_pid(ps, pid),
{
    lemma_find_pid(ps, pid, 0);
}

/// A job with a matching id makes the search succeed.
pub proof fn lemma_has_job_id_witness(js: Seq<JobM>, id: int, w: int)
    requires
        0 <= w < js.len(),
        js[w].id == id,
    ensures
        has_job_id(js, id),
{
    lemma_find_job(js, id, 0);
}

/// Index arithmetic of removing one element.
pub proof fn lemma_remove_index<A>(js: Seq<A>, ji: int)
    requires
        0 <= ji < js.len(),
    ensures
        js.remove(ji).len() == js.len() - 1,
        forall|x: int| 0 <= x < ji ==> js.remove(ji)[x] == js[x],
        forall|x: int| ji <= x < js.len() - 1 ==> js.remove(ji)[x] == js[x + 1],
{
}

/// What dropping the members of one job keeps: exactly the other
/// entries, in order, with no pid invented and uniqueness kept.
pub proof fn lemma_drop_procs_of(ps: Seq<ProcM>, jid: int)
    requires
        forall|a: int, b: int| 0 <= a < b < ps.len() ==> ps[a].pid != ps[b].pid,
    ensures
        drop_procs_of(ps, jid).len() <= ps.len(),
        forall|k: int|
            0 <= k < drop_procs_of(ps, jid).len() ==> #[trigger] drop_procs_of(ps, jid)[k].job
                != jid,
        forall|k: int|
            0 <= k < drop_procs_of(ps, jid).len() ==> ps.contains(
                #[trigger] drop_procs_of(ps, jid)[k],
            ),
        forall|k: int|
            0 <= k < ps.len() && ps[k].job != jid ==> drop_procs_of(ps, jid).contains(
                #[trigger] ps[k],
            ),
        forall|a: int, b: int|
            0 <= a < b < drop_procs_of(ps, jid).len() ==> drop_procs_of(ps, jid)[a].pid
                != drop_procs_of(ps, jid)[b].pid,
    decreases ps.len(),
{
    if ps.len() > 0 {
        let pre = ps.drop_last();
        assert(forall|a: int, b: int| 0 <= a < b < pre.len() ==> pre[a].pid != pre[b].pid);
        lemma_drop_procs_of(pre, jid);
        let r0 = drop_procs_of(pre, jid);
        let r = drop_procs_of(ps, jid);
        assert forall|k: int| 0 <= k < pre.len() implies pre[k] == ps[k] by {}
        if ps.last().job == jid {
            assert(r == r0);
            assert forall|k: int| 0 <= k < ps.len() && ps[k].job != jid implies r.contains(
                ps[k],
            ) by {
                if k < ps.len() - 1 {
                    assert(pre[k] == ps[k]);
                    assert(r0.contains(pre[k]));
                }
            }
            assert forall|k: int| 0 <= k < r.len() implies ps.contains(r[k]) by {
                assert(pre.contains(r[k]));
                let w = choose|j: int| 0 <= j < pre.len() && pre[j] == r[k];
                assert(ps[w] == r[k]);
            }
        } else {
            assert(r == r0.push(ps.last()));
            // the new last element's pid is fresh among the kept ones
            assert forall|a: int, b: int| 0 <= a < b < r.len() implies r[a].pid != r[b].pid by {
                if b < r0.len() {
                } else {
                    assert(r[b] == ps.last());
                    assert(pre.contains(r0[a]));
                    let w = choose|j: int| 0 <= j < pre.len() && pre[j] == r0[a];
                    assert(ps[w].pid == r[a].pid);
                    assert(ps[w].pid != ps[ps.len() - 1].pid);
                }
            }
            assert forall|k: int| 0 <= k < r.len() implies ps.contains(r[k]) by {
                if k < r0.len() {
                    assert(pre.contains(r0[k]));
                    let w = choose|j: int| 0 <= j < pre.len() && pre[j] == r0[k];
                    assert(ps[w] == r[k]);
                } else {
                    assert(r[k] == ps[ps.len() - 1]);
                }
            }
            assert forall|k: int| 0 <= k < ps.len() && ps[k].job != jid implies r.contains(
                ps[k],
            ) by {
                if k < ps.len() - 1 {
                    assert(pre[k] == ps[k]);
                    assert(r0.contains(pre[k]));
                    let w = choose|j: int| 0 <= j < r0.len() && r0[j] == ps[k];
                    assert(r[w] == ps[k]);
                } else {
                    assert(r[r.len() - 1] == ps[k]);
                }
            }
        }
    }
}

/// Job-table integrity: one reported child status change keeps the
/// worker invariant, whatever the pid and status are.
#[verifier::rlimit(80)]
pub proof fn lemma_reap_preserves_inv(m: ModelW, pid: int, st: ChildStatus)
    requires
        inv_model(m),
        valid_status(st),
    ensures
        inv_model(reap_model(m, pid, st).m),
{
    let k = find_pid(m.procs, pid, 0);
    lemma_find_pid(m.procs, pid, 0);
    if k < m.procs.len() {
        let jid = m.procs[k].job;
        let ps2 = m.procs.update(k, ProcM { pid: m.procs[k].pid, job: jid, st: pstate_of(st) });
        assert(forall|x: int|
            0 <= x < ps2.len() ==> ps2[x].pid == m.procs[x].pid && ps2[x].job == m.procs[x].job);
        assert forall|x: int| 0 <= x < ps2.len() implies (match (#[trigger] ps2[x]).st {
            PState::Signaled(s) => 0 <= s <= 64,
            _ => true,
        }) by {
            if x != k {
                assert(ps2[x] == m.procs[x]);
            }
        }
        assert forall|i: int| 0 <= i < m.jobs.len() implies member_with(
            ps2,
            m.jobs[i].id,
            m.jobs[i].pgid,
        ) && member_with(ps2, m.jobs[i].id, m.jobs[i].last) by {
            let w1 = choose|w: int|
                0 <= w < m.procs.len() && m.procs[w].job == m.jobs[i].id && m.procs[w].pid
                    == m.jobs[i].pgid;
            assert(ps2[w1].job == m.jobs[i].id && ps2[w1].pid == m.jobs[i].pgid);
            let w2 = choose|w: int|
                0 <= w < m.procs.len() && m.procs[w].job == m.jobs[i].id && m.procs[w].pid
                    == m.jobs[i].last;
            assert(ps2[w2].job == m.jobs[i].id && ps2[w2].pid == m.jobs[i].last);
        }
        assert forall|x: int| 0 <= x < ps2.len() implies has_job_id(m.jobs, ps2[x].job) by {
            assert(has_job_id(m.jobs, m.procs[x].job));
        }
        let ji = find_job(m.jobs, jid, 0);
        lemma_find_job(m.jobs, jid, 0);
        if ji < m.jobs.len() {
            let job = m.jobs[ji];
            let isfg = m.fg == Some(job.pgid);
            if !unfinished_from(ps2, jid, 0) {
                let js2 = m.jobs.remove(ji);
                let pr2 = drop_procs_of(ps2, jid);
                lemma_drop_procs_of(ps2, jid);
                lemma_remove_index(m.jobs, ji);
                // uniqueness of the remaining job ids and process groups
                assert forall|a: int, b: int| 0 <= a < b < js2.len() implies js2[a].id != js2[b].id
                    && js2[a].pgid != js2[b].pgid by {
                    let a0 = if a < ji {
                        a
                    } else {
                        a + 1
                    };
                    let b0 = if b < ji {
                        b
                    } else {
                        b + 1
                    };
                    assert(js2[a] == m.jobs[a0] && js2[b] == m.jobs[b0]);
                }
                assert forall|x: int| 0 <= x < js2.len() implies js2[x].id >= 1 by {
                    let x0 = if x < ji {
                        x
                    } else {
                        x + 1
                    };
                    assert(js2[x] == m.jobs[x0]);
                }
                // every kept process still belongs to a kept job
                assert forall|x: int| 0 <= x < pr2.len() implies has_job_id(js2, pr2[x].job) by {
                    assert(ps2.contains(pr2[x]));
                    let w = choose|j: int| 0 <= j < ps2.len() && ps2[j] == pr2[x];
                    assert(has_job_id(m.jobs, m.procs[w].job));
                    lemma_find_job(m.jobs, pr2[x].job, 0);
                    let a = find_job(m.jobs, pr2[x].job, 0);
                    assert(m.jobs[a].id == pr2[x].job);
                    assert(pr2[x].job != jid);
                    assert(a != ji);
                    let a2 = if a < ji {
                        a
                    } else {
                        a - 1
                    };
                    assert(js2[a2] == m.jobs[a]);
                    lemma_has_job_id_witness(js2, pr2[x].job, a2);
                }
                // pids of kept processes stay positive, signals bounded
                assert forall|x: int| 0 <= x < pr2.len() implies pr2[x].pid >= 1 && (match pr2[x].st {
                    PState::Signaled(s) => 0 <= s <= 64,
                    _ => true,
                }) by {
                    assert(ps2.contains(pr2[x]));
                    let w = choose|j: int| 0 <= j < ps2.len() && ps2[j] == pr2[x];
                    assert(m.procs[w].pid >= 1);
                    assert(pr2[x].st == ps2[w].st);
                }
                // kept jobs keep their leader and last member
                assert forall|i: int| 0 <= i < js2.len() implies member_with(
                    pr2,
                    js2[i].id,
                    js2[i].pgid,
                ) && member_with(pr2, js2[i].id, js2[i].last) by {
                    let i0 = if i < ji {
                        i
                    } else {
                        i + 1
                    };
                    assert(js2[i] == m.jobs[i0]);
                    assert(js2[i].id != jid);
                    let w1 = choose|w: int|
                        0 <= w < ps2.len() && ps2[w].job == js2[i].id && ps2[w].pid == js2[i].pgid;
                    assert(pr2.contains(ps2[w1]));
                    let v1 = choose|v: int| 0 <= v < pr2.len() && pr2[v] == ps2[w1];
                    assert(pr2[v1].job == js2[i].id && pr2[v1].pid == js2[i].pgid);
                    let w2 = choose|w: int|
                        0 <= w < ps2.len() && ps2[w].job == js2[i].id && ps2[w].pid == js2[i].last;
                    assert(pr2.contains(ps2[w2]));
                    let v2 = choose|v: int| 0 <= v < pr2.len() && pr2[v] == ps2[w2];
                    assert(pr2[v2].job == js2[i].id && pr2[v2].pid == js2[i].last);
                }
                // the foreground group, if kept, still belongs to a kept job
                if !isfg && m.fg is Some {
                    let g = m.fg->0;
                    let a = choose|i: int| 0 <= i < m.jobs.len() && m.jobs[i].pgid == g;
                    assert(a != ji);
                    let a2 = if a < ji {
                        a
                    } else {
                        a - 1
                    };
                    assert(js2[a2] == m.jobs[a]);
                    assert(has_job_pgid(js2, g));
                }
            } else {
                // no eviction: tables keep their shape
                assert forall|a: int, b: int| 0 <= a < b < ps2.len() implies ps2[a].pid
                    != ps2[b].pid by {}
            }
        }
    }
}

/// Job-table integrity: registering a freshly spawned pipeline keeps
/// the worker invariant.
pub proof fn lemma_register_preserves_inv(m: ModelW, cmd: Seq<char>, bg: bool, pids: Seq<int>)
    requires
        inv_model(m),
        pids.len() >= 1,
        forall|k: int| 0 <= k < pids.len() ==> pids[k] >= 1,
        forall|a: int, b: int| 0 <= a < b < pids.len() ==> pids[a] != pids[b],
        forall|k: int| 0 <= k < pids.len() ==> !has_pid(m.procs, #[trigger] pids[k]),
    ensures
        inv_model(register_model(m, cmd, bg, pids)),
{
    let m2 = register_model(m, cmd, bg, pids);
    let jid = next_id(m.jobs);
    lemma_max_id(m.jobs);
    let nj = JobM { id: jid, pgid: pids[0], bg, cmd, last: pids[pids.len() - 1] };
    assert(m2.jobs == m.jobs.push(nj));
    // no existing pid equals any new pid
    assert forall|x: int, k: int|
        0 <= x < m.procs.len() && 0 <= k < pids.len() implies m.procs[x].pid != pids[k] by {
        if m.procs[x].pid == pids[k] {
            lemma_has_pid_witness(m.procs, pids[k], x);
        }
    }
    // job ids and process groups stay unique
    assert forall|a: int, b: int| 0 <= a < b < m2.jobs.len() implies m2.jobs[a].id != m2.jobs[b].id
        && m2.jobs[a].pgid != m2.jobs[b].pgid by {
        if b == m2.jobs.len() - 1 {
            assert(m2.jobs[a] == m.jobs[a]);
            assert(m2.jobs[b] == nj);
            assert(m.jobs[a].id <= max_id(m.jobs));
            let w = choose|w: int|
                0 <= w < m.procs.len() && m.procs[w].job == m.jobs[a].id && m.procs[w].pid
                    == m.jobs[a].pgid;
            assert(m.procs[w].pid != pids[0]);
        } else {
            assert(m2.jobs[a] == m.jobs[a] && m2.jobs[b] == m.jobs[b]);
        }
    }
    assert(m2.procs == m.procs + procs_for(pids, jid));
    assert forall|x: int| 0 <= x < m2.procs.len() implies m2.procs[x].pid >= 1 && has_job_id(
        m2.jobs,
        m2.procs[x].job,
    ) && (match m2.procs[x].st {
        PState::Signaled(s) => 0 <= s <= 64,
        _ => true,
    }) by {
        if x < m.procs.len() {
            assert(m2.procs[x] == m.procs[x]);
            lemma_find_job(m.jobs, m.procs[x].job, 0);
            let a = find_job(m.jobs, m.procs[x].job, 0);
            assert(m2.jobs[a] == m.jobs[a]);
            lemma_has_job_id_witness(m2.jobs, m2.procs[x].job, a);
        } else {
            assert(m2.procs[x] == procs_for(pids, jid)[x - m.procs.len()]);
            lemma_has_job_id_witness(m2.jobs, jid, m2.jobs.len() - 1);
        }
    }
    assert forall|a: int, b: int| 0 <= a < b < m2.procs.len() implies m2.procs[a].pid
        != m2.procs[b].pid by {
        if b < m.procs.len() {
            assert(m2.procs[a] == m.procs[a] && m2.procs[b] == m.procs[b]);
        } else if a < m.procs.len() {
            assert(m2.procs[a] == m.procs[a]);
            assert(m2.procs[b] == procs_for(pids, jid)[b - m.procs.len()]);
        } else {
            assert(m2.procs[a] == procs_for(pids, jid)[a - m.procs.len()]);
            assert(m2.procs[b] == procs_for(pids, jid)[b - m.procs.len()]);
        }
    }
    assert forall|i: int| 0 <= i < m2.jobs.len() implies member_with(
        m2.procs,
        m2.jobs[i].id,
        m2.jobs[i].pgid,
    ) && member_with(m2.procs, m2.jobs[i].id, m2.jobs[i].last) by {
        if i < m.jobs.len() {
            assert(m2.jobs[i] == m.jobs[i]);
            let w1 = choose|w: int|
                0 <= w < m.procs.len() && m.procs[w].job == m.jobs[i].id && m.procs[w].pid
                    == m.jobs[i].pgid;
            assert(m2.procs[w1] == m.procs[w1]);
            let w2 = choose|w: int|
                0 <= w < m.procs.len() && m.procs[w].job == m.jobs[i].id && m.procs[w].pid
                    == m.jobs[i].last;
            assert(m2.procs[w2] == m.procs[w2]);
        } else {
            assert(m2.jobs[i] == nj);
            assert(m2.procs[m.procs.len() as int] == procs_for(pids, jid)[0]);
            assert(m2.procs[m.procs.len() + pids.len() - 1] == procs_for(pids, jid)[
                pids.len() - 1]);
        }
    }
    if m2.fg is Some {
        let g = m2.fg->0;
        if bg {
            let a = choose|i: int| 0 <= i < m.jobs.len() && m.jobs[i].pgid == g;
            assert(m2.jobs[a] == m.jobs[a]);
            assert(has_job_pgid(m2.jobs, g));
        } else {
            assert(m2.jobs[m2.jobs.len() - 1].pgid == g);
            assert(has_job_pgid(m2.jobs, g));
        }
    }
}

/// Job-table integrity: resuming a job keeps the worker invariant.
pub proof fn lemma_resume_preserves_inv(m: ModelW, jid: int, to_fg: bool)
    requires
        inv_model(m),
    ensures
        inv_model(resume_model(m, jid, to_fg)),
{
    let ji = find_job(m.jobs, jid, 0);
    lemma_find_job(m.jobs, jid, 0);
    if ji < m.jobs.len() {
        let m2 = resume_model(m, jid, to_fg);
        assert(forall|x: int|
            0 <= x < m2.procs.len() ==> m2.procs[x].pid == m.procs[x].pid && m2.procs[x].job
                == m.procs[x].job);
        assert forall|x: int| 0 <= x < m2.procs.len() implies has_job_id(m2.jobs, m2.procs[x].job)
            && (match m2.procs[x].st {
            PState::Signaled(s) => 0 <= s <= 64,
            _ => true,
        }) by {
            assert(has_job_id(m.jobs, m.procs[x].job));
            if !(m.procs[x].job == jid && m.procs[x].st is Stopped) {
                assert(m2.procs[x] == m.procs[x]);
            }
        }
        assert forall|i: int| 0 <= i < m2.jobs.len() implies member_with(
            m2.procs,
            m2.jobs[i].id,
            m2.jobs[i].pgid,
        ) && member_with(m2.procs, m2.jobs[i].id, m2.jobs[i].last) by {
            let w1 = choose|w: int|
                0 <= w < m.procs.len() && m.procs[w].job == m.jobs[i].id && m.procs[w].pid
                    == m.jobs[i].pgid;
            assert(m2.procs[w1].job == m2.jobs[i].id && m2.procs[w1].pid == m2.jobs[i].pgid);
            let w2 = choose|w: int|
                0 <= w < m.procs.len() && m.procs[w].job == m.jobs[i].id && m.procs[w].pid
                    == m.jobs[i].last;
            assert(m2.procs[w2].job == m2.jobs[i].id && m2.procs[w2].pid == m2.jobs[i].last);
        }
        if to_fg {
            assert(has_job_pgid(m2.jobs, m.jobs[ji].pgid));
        }
    }
}

} // verus!
