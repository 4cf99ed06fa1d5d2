//! The global laws of the worker, proved over the ghost model.
//!
//! Job-table integrity (the invariant surviving every operation) is
//! proved by the preservation lemmas in [`crate::model`]; this module
//! states the remaining laws: foreground exclusivity, idempotent
//! reaping, and the stop/resume round trip.

use vstd::prelude::*;

use crate::model::{
    find_job, find_pid, finished, has_job_id, inv_model, job_label, lemma_drop_procs_of,
    lemma_find_job, lemma_find_pid, lemma_running_iff, lemma_stopped_iff, lemma_unfinished_iff,
    member_with, pstate_of, reap_model, resume_model, resume_procs, running_from, stopped_from,
    unfinished_from, ChildStatus, ModelW, PState, ProcM, ReapM,
};

verus! {

/// Whether process group `g` holds terminal control in state `m`.
pub open spec fn holds_terminal(m: ModelW, g: int) -> bool {
    m.fg == Some(g)
}

/// Foreground exclusivity: at any instant, at most one process group
/// holds terminal control.
pub proof fn lemma_foreground_exclusive(m: ModelW, g1: int, g2: int)
    requires
        holds_terminal(m, g1),
        holds_terminal(m, g2),
    ensures
        g1 == g2,
{
}

/// Foreground exclusivity, at the job table: the group holding the
/// terminal belongs to exactly one tracked job.
pub proof fn lemma_foreground_job_unique(m: ModelW, a: int, b: int)
    requires
        inv_model(m),
        m.fg is Some,
        0 <= a < m.jobs.len(),
        0 <= b < m.jobs.len(),
        m.jobs[a].pgid == m.fg->0,
        m.jobs[b].pgid == m.fg->0,
    ensures
        a == b,
{
    if a < b {
        assert(m.jobs[a].pgid != m.jobs[b].pgid);
    } else if b < a {
        assert(m.jobs[b].pgid != m.jobs[a].pgid);
    }
}

/// Two process tables that agree on pids are searched alike.
proof fn lemma_find_pid_same(a: Seq<ProcM>, b: Seq<ProcM>, pid: int, i: int)
    requires
        a.len() == b.len(),
        forall|x: int| 0 <= x < a.len() ==> a[x].pid == b[x].pid,
        0 <= i <= a.len(),
    ensures
        find_pid(a, pid, i) == find_pid(b, pid, i),
    decreases a.len() - i,
{
    if i < a.len() && a[i].pid != pid {
        lemma_find_pid_same(a, b, pid, i + 1);
    }
}

/// Idempotent reaping: delivering the same child status report twice,
/// with no new OS state change in between, moves the tables only once
/// and reports nothing the second time — no double eviction, no second
/// completion notice, no second reply.
pub proof fn lemma_reap_idempotent(m: ModelW, pid: int, st: ChildStatus)
    requires
        inv_model(m),
    ensures
        ({
            let r1 = reap_model(m, pid, st);
            reap_model(r1.m, pid, st) == (ReapM { m: r1.m, reply: None, notice: None })
        }),
{
    let r1 = reap_model(m, pid, st);
    let k = find_pid(m.procs, pid, 0);
    lemma_find_pid(m.procs, pid, 0);
    if !(k < m.procs.len()) {
        assert(r1.m == m);
        assert(reap_model(r1.m, pid, st) =~= (ReapM { m: r1.m, reply: None, notice: None }));
    } else {
        let jid = m.procs[k].job;
        let ps2 = m.procs.update(k, ProcM { pid: m.procs[k].pid, job: jid, st: pstate_of(st) });
        assert(forall|x: int|
            0 <= x < ps2.len() ==> ps2[x].pid == m.procs[x].pid && ps2[x].job == m.procs[x].job);
        lemma_find_pid_same(m.procs, ps2, pid, 0);
        let ji = find_job(m.jobs, jid, 0);
        lemma_find_job(m.jobs, jid, 0);
        if !(ji < m.jobs.len()) {
            // the second update writes the same entry back
            let k2 = find_pid(ps2, pid, 0);
            assert(k2 == k);
            let ps3 = ps2.update(k, ProcM { pid: ps2[k].pid, job: jid, st: pstate_of(st) });
            assert(ps3 =~= ps2);
            assert(reap_model(r1.m, pid, st).m =~= r1.m);
            assert(reap_model(r1.m, pid, st) =~= (ReapM { m: r1.m, reply: None, notice: None }));
        } else {
            let job = m.jobs[ji];
            let isfg = m.fg == Some(job.pgid);
            if !unfinished_from(ps2, jid, 0) {
                // the job was evicted: its pid is no longer tracked
                lemma_drop_procs_of(ps2, jid);
                let pr2 = r1.m.procs;
                lemma_find_pid(pr2, pid, 0);
                let k3 = find_pid(pr2, pid, 0);
                if k3 < pr2.len() {
                    assert(pr2[k3].pid == pid);
                    assert(ps2.contains(pr2[k3]));
                    let w = choose|j: int| 0 <= j < ps2.len() && ps2[j] == pr2[k3];
                    assert(ps2[w].pid == pid);
                    assert(w == k);
                    assert(pr2[k3].job != jid);
                    assert(false);
                }
                assert(reap_model(r1.m, pid, st) =~= (ReapM {
                    m: r1.m,
                    reply: None,
                    notice: None,
                }));
            } else {
                // the job stays: the second update rewrites the same entry
                let k2 = find_pid(ps2, pid, 0);
                assert(k2 == k);
                let ps3 = ps2.update(k, ProcM { pid: ps2[k].pid, job: jid, st: pstate_of(st) });
                assert(ps3 =~= ps2);
                assert(r1.m.procs == ps2);
                assert(r1.m.jobs == m.jobs);
                let isfg2 = r1.m.fg == Some(job.pgid);
                if !running_from(ps2, jid, 0) && stopped_from(ps2, jid, 0) {
                    if isfg {
                        assert(r1.m.fg is None);
                        assert(!isfg2);
                    }
                    assert(reap_model(r1.m, pid, st).m =~= r1.m);
                    assert(reap_model(r1.m, pid, st) =~= (ReapM {
                        m: r1.m,
                        reply: None,
                        notice: None,
                    }));
                } else {
                    assert(reap_model(r1.m, pid, st).m =~= r1.m);
                    assert(reap_model(r1.m, pid, st) =~= (ReapM {
                        m: r1.m,
                        reply: None,
                        notice: None,
                    }));
                }
            }
        }
    }
}

/// Resuming a tracked job that has not finished leaves it Running in
/// the `jobs` listing and, when brought to the foreground, hands its
/// group the terminal.
pub proof fn lemma_resume_runs(m: ModelW, jid: int, to_fg: bool)
    requires
        inv_model(m),
        has_job_id(m.jobs, jid),
        !(job_label(m.procs, jid) is Done),
    ensures
        job_label(resume_model(m, jid, to_fg).procs, jid) is Running,
        to_fg ==> resume_model(m, jid, to_fg).fg == Some(
            m.jobs[find_job(m.jobs, jid, 0)].pgid,
        ),
{
    let ji = find_job(m.jobs, jid, 0);
    lemma_find_job(m.jobs, jid, 0);
    let m1 = resume_model(m, jid, to_fg);
    // a job not yet Done has a member that is running or stopped
    lemma_unfinished_iff(m.procs, jid, 0);
    assert(unfinished_from(m.procs, jid, 0));
    let w = choose|x: int|
        0 <= x < m.procs.len() && m.procs[x].job == jid && !finished(m.procs[x].st);
    // after the resume that member runs either way
    assert(m1.procs[w].st is Running && m1.procs[w].job == jid);
    lemma_running_iff(m1.procs, jid, 0);
    lemma_unfinished_iff(m1.procs, jid, 0);
}

/// The stop/resume round trip: a Stopped job whose one still-live
/// process has pid `p` (any other pipeline members have already exited
/// or been signaled) brought to the foreground with `fg` is Running and
/// owns the terminal; when that process is then reported stopped again
/// (Ctrl-Z), the job is back in the table as Stopped with terminal
/// control returned — observable as such in the `jobs` listing.
pub proof fn lemma_fg_round_trip(m: ModelW, jid: int, p: int, sig: i32)
    requires
        inv_model(m),
        has_job_id(m.jobs, jid),
        job_label(m.procs, jid) is Stopped,
        member_with(m.procs, jid, p),
        forall|x: int|
            0 <= x < m.procs.len() && m.procs[x].job == jid && !finished(m.procs[x].st)
                ==> m.procs[x].pid == p,
    ensures
        ({
            let m1 = resume_model(m, jid, true);
            let m2 = reap_model(m1, p, ChildStatus::Stopped { sig }).m;
            &&& job_label(m1.procs, jid) is Running
            &&& m1.fg == Some(m.jobs[find_job(m.jobs, jid, 0)].pgid)
            &&& job_label(m2.procs, jid) is Stopped
            &&& has_job_id(m2.jobs, jid)
            &&& m2.fg is None
        }),
{
    let ji = find_job(m.jobs, jid, 0);
    lemma_find_job(m.jobs, jid, 0);
    let m1 = resume_model(m, jid, true);
    assert(m1.procs == resume_procs(m.procs, jid));
    assert(forall|x: int|
        0 <= x < m1.procs.len() ==> m1.procs[x].pid == m.procs[x].pid && m1.procs[x].job
            == m.procs[x].job);
    // the member with pid p is the stopped one the label comes from
    let w = choose|x: int| 0 <= x < m.procs.len() && m.procs[x].job == jid && m.procs[x].pid == p;
    lemma_stopped_iff(m.procs, jid, 0);
    assert(stopped_from(m.procs, jid, 0));
    let ws = choose|x: int|
        0 <= x < m.procs.len() && m.procs[x].job == jid && m.procs[x].st is Stopped;
    assert(m.procs[ws].pid == p);
    if ws < w {
        assert(m.procs[ws].pid != m.procs[w].pid);
    } else if w < ws {
        assert(m.procs[w].pid != m.procs[ws].pid);
    }
    assert(ws == w);
    assert(m.procs[w].st is Stopped);
    assert(m1.procs[w].st is Running);
    lemma_running_iff(m1.procs, jid, 0);
    lemma_unfinished_iff(m1.procs, jid, 0);
    assert(running_from(m1.procs, jid, 0));
    assert(unfinished_from(m1.procs, jid, 0));
    assert(job_label(m1.procs, jid) is Running);
    // the stop report finds exactly that process
    let st = ChildStatus::Stopped { sig };
    let k = find_pid(m1.procs, p, 0);
    lemma_find_pid(m1.procs, p, 0);
    assert(k < m1.procs.len());
    assert(m1.procs[k].pid == p);
    if k < w {
        assert(m.procs[k].pid != m.procs[w].pid);
    } else if w < k {
        assert(m.procs[w].pid != m.procs[k].pid);
    }
    assert(k == w);
    assert(m1.procs[k].job == jid);
    let ps2 = m1.procs.update(k, ProcM { pid: m1.procs[k].pid, job: jid, st: PState::Stopped });
    let ji2 = find_job(m1.jobs, jid, 0);
    assert(ji2 == ji);
    // every member still alive is exactly the stopped one
    assert forall|x: int|
        0 <= x < ps2.len() && ps2[x].job == jid && !finished(ps2[x].st) implies x == k by {
        if x != k {
            assert(ps2[x] == m1.procs[x]);
            if m.procs[x].job == jid && m.procs[x].st is Stopped {
                assert(m1.procs[x].st is Running);
            } else {
                assert(m1.procs[x] == m.procs[x]);
            }
            assert(!finished(m.procs[x].st));
            assert(m.procs[x].pid == p);
            if x < w {
                assert(m.procs[x].pid != m.procs[w].pid);
            } else if w < x {
                assert(m.procs[w].pid != m.procs[x].pid);
            }
        }
    }
    lemma_unfinished_iff(ps2, jid, 0);
    lemma_running_iff(ps2, jid, 0);
    lemma_stopped_iff(ps2, jid, 0);
    assert(ps2[k].st is Stopped);
    assert(unfinished_from(ps2, jid, 0));
    assert(!running_from(ps2, jid, 0));
    assert(stopped_from(ps2, jid, 0));
    let r = reap_model(m1, p, st);
    assert(m1.fg == Some(m.jobs[ji].pgid));
    assert(r.m.procs == ps2);
    assert(r.m.jobs == m.jobs);
    assert(r.m.fg is None);
    assert(job_label(r.m.procs, jid) is Stopped);
}

} // verus!
