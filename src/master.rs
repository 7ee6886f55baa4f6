//! The coordinator's state: job table, FIFO task queue, in-flight table and
//! worker table, with admission, dispatch, completion and the failover
//! sweep as transitions that keep every job's task count balanced and every
//! worker within its concurrency cap.
use vstd::prelude::*;
use crate::job::{JobInfo, JobRequest, JobResults, JobStatus};
use crate::task::Task;
use crate::text::{base_name, file_name_of, join_with, owned, text_eq};
use crate::worker::{
    WorkerHeartbeatRequest, WorkerHeartbeatResponse, WorkerMetrics, WorkerRegisterRequest,
    WorkerRegisterResponse,
};

verus! {

/// The most times a task runs: a failure at attempt
/// `MAX_TASK_ATTEMPTS - 1` fails its job.
pub const MAX_TASK_ATTEMPTS: u32 = 3;

/// Silence after which a worker is marked dead, in milliseconds.
pub const WORKER_HEARTBEAT_TIMEOUT_MS: u64 = 20000;

/// Period of the failover sweep, in milliseconds.
pub const FAILOVER_SWEEP_INTERVAL_MS: u64 = 3000;

/// What the coordinator keeps of a worker. Times are milliseconds since the
/// Unix epoch.
pub struct WorkerMeta {
    pub hostname: String,
    pub last_heartbeat: u64,
    pub dead: bool,
    pub max_concurrency: u32,
    pub tasks_started: u64,
    pub tasks_succeeded: u64,
    pub tasks_failed: u64,
    pub total_task_time_ms: u64,
    pub last_mem_bytes: Option<u64>,
}

/// A dispatched task that has not completed yet.
pub struct InFlight {
    pub task: Task,
    pub worker_id: String,
    pub started_at: u64,
}

#[derive(Debug, Clone, Copy, PartialEq, Eq, Structural)]
pub enum SchedError {
    /// No job, worker or in-flight task has the given id.
    NotFound,
    /// The id is already taken.
    DuplicateId,
}

/// The coordinator's tables.
pub struct AppState {
    pub tasks_queue: Vec<Task>,
    pub jobs: Vec<JobInfo>,
    pub in_flight: Vec<InFlight>,
    pub workers: Vec<(String, WorkerMeta)>,
}

/// How many tasks of job `job` stand in `q`.
pub open spec fn queued_of(q: Seq<Task>, job: Seq<char>) -> nat
    decreases q.len(),
{
    if q.len() == 0 {
        0
    } else {
        queued_of(q.drop_last(), job) + if q.last().job_id@ == job {
            1nat
        } else {
            0nat
        }
    }
}

/// How many entries of `f` belong to job `job`.
pub open spec fn inflight_of(f: Seq<InFlight>, job: Seq<char>) -> nat
    decreases f.len(),
{
    if f.len() == 0 {
        0
    } else {
        inflight_of(f.drop_last(), job) + if f.last().task.job_id@ == job {
            1nat
        } else {
            0nat
        }
    }
}

/// How many entries of `f` run on worker `w`.
pub open spec fn load_of(f: Seq<InFlight>, w: Seq<char>) -> nat
    decreases f.len(),
{
    if f.len() == 0 {
        0
    } else {
        load_of(f.drop_last(), w) + if f.last().worker_id@ == w {
            1nat
        } else {
            0nat
        }
    }
}

pub proof fn lemma_queued_concat(a: Seq<Task>, b: Seq<Task>, job: Seq<char>)
    ensures
        queued_of(a + b, job) == queued_of(a, job) + queued_of(b, job),
    decreases b.len(),
{
    if b.len() == 0 {
        assert(a + b =~= a);
    } else {
        assert((a + b).drop_last() =~= a + b.drop_last());
        lemma_queued_concat(a, b.drop_last(), job);
    }
}

pub proof fn lemma_inflight_concat(a: Seq<InFlight>, b: Seq<InFlight>, job: Seq<char>)
    ensures
        inflight_of(a + b, job) == inflight_of(a, job) + inflight_of(b, job),
    decreases b.len(),
{
    if b.len() == 0 {
        assert(a + b =~= a);
    } else {
        assert((a + b).drop_last() =~= a + b.drop_last());
        lemma_inflight_concat(a, b.drop_last(), job);
    }
}

pub proof fn lemma_load_concat(a: Seq<InFlight>, b: Seq<InFlight>, w: Seq<char>)
    ensures
        load_of(a + b, w) == load_of(a, w) + load_of(b, w),
    decreases b.len(),
{
    if b.len() == 0 {
        assert(a + b =~= a);
    } else {
        assert((a + b).drop_last() =~= a + b.drop_last());
        lemma_load_concat(a, b.drop_last(), w);
    }
}

/// Counts over a sequence with entry `i` removed.
pub proof fn lemma_counts_remove(f: Seq<InFlight>, i: int, job: Seq<char>, w: Seq<char>)
    requires
        0 <= i < f.len(),
    ensures
        inflight_of(f, job) == inflight_of(f.remove(i), job) + if f[i].task.job_id@ == job {
            1nat
        } else {
            0nat
        },
        load_of(f, w) == load_of(f.remove(i), w) + if f[i].worker_id@ == w {
            1nat
        } else {
            0nat
        },
{
    let a = f.take(i);
    let b = f.skip(i + 1);
    assert(f =~= a + seq![f[i]] + b);
    assert(f.remove(i) =~= a + b);
    lemma_inflight_concat(a + seq![f[i]], b, job);
    lemma_inflight_concat(a, seq![f[i]], job);
    lemma_inflight_concat(a, b, job);
    lemma_load_concat(a + seq![f[i]], b, w);
    lemma_load_concat(a, seq![f[i]], w);
    lemma_load_concat(a, b, w);
    let one = seq![f[i]];
    assert(one.drop_last() =~= Seq::<InFlight>::empty());
    assert(one.last() == f[i]);
    assert(inflight_of(one.drop_last(), job) == 0);
    assert(load_of(one.drop_last(), w) == 0);
}

pub proof fn lemma_queued_one(t: Task, job: Seq<char>)
    ensures
        queued_of(seq![t], job) == if t.job_id@ == job {
            1nat
        } else {
            0nat
        },
{
    assert(seq![t].drop_last() =~= Seq::<Task>::empty());
    assert(queued_of(Seq::<Task>::empty(), job) == 0);
}

pub proof fn lemma_queued_none(q: Seq<Task>, job: Seq<char>)
    requires
        forall|i: int| 0 <= i < q.len() ==> q[i].job_id@ != job,
    ensures
        queued_of(q, job) == 0,
    decreases q.len(),
{
    if q.len() > 0 {
        lemma_queued_none(q.drop_last(), job);
    }
}

pub proof fn lemma_inflight_none(f: Seq<InFlight>, job: Seq<char>)
    requires
        forall|i: int| 0 <= i < f.len() ==> f[i].task.job_id@ != job,
    ensures
        inflight_of(f, job) == 0,
    decreases f.len(),
{
    if f.len() > 0 {
        lemma_inflight_none(f.drop_last(), job);
    }
}

pub proof fn lemma_queued_some(q: Seq<Task>, job: Seq<char>, i: int)
    requires
        0 <= i < q.len(),
        q[i].job_id@ == job,
    ensures
        queued_of(q, job) > 0,
    decreases q.len(),
{
    if i < q.len() - 1 {
        lemma_queued_some(q.drop_last(), job, i);
    }
}

pub proof fn lemma_inflight_some(f: Seq<InFlight>, job: Seq<char>, i: int)
    requires
        0 <= i < f.len(),
        f[i].task.job_id@ == job,
    ensures
        inflight_of(f, job) > 0,
    decreases f.len(),
{
    if i < f.len() - 1 {
        lemma_inflight_some(f.drop_last(), job, i);
    }
}

/// Whether a worker last heard from at `last` has been silent too long at
/// `now`.
pub open spec fn expired(last: u64, now: u64) -> bool {
    now > last && now - last > WORKER_HEARTBEAT_TIMEOUT_MS
}

/// `x + 1`, stopping at the largest value.
pub open spec fn bump32(x: u32) -> u32 {
    if x < u32::MAX {
        (x + 1) as u32
    } else {
        x
    }
}

pub open spec fn bump64(x: u64) -> u64 {
    if x < u64::MAX {
        (x + 1) as u64
    } else {
        x
    }
}

/// The cap that dispatch applies to worker `w`: its `max_concurrency`, or
/// 1 for an id that never registered.
pub open spec fn cap_of(ws: Seq<(String, WorkerMeta)>, w: Seq<char>) -> nat {
    if exists|i: int| 0 <= i < ws.len() && ws[i].0@ == w {
        ws[choose|i: int| 0 <= i < ws.len() && ws[i].0@ == w].1.max_concurrency as nat
    } else {
        1
    }
}

/// Job `j` after one of its tasks was dispatched at `now`.
pub open spec fn job_started(j: JobInfo, now: u64) -> JobInfo {
    if j.status == JobStatus::Accepted {
        JobInfo {
            status: JobStatus::Running,
            started_at: if j.started_at is None {
                Some(now)
            } else {
                j.started_at
            },
            ..j
        }
    } else {
        j
    }
}

/// Job `j` after one of its tasks failed and was queued again.
pub open spec fn job_retried(j: JobInfo) -> JobInfo {
    JobInfo { retries: bump32(j.retries), ..j }
}

/// Job `j` after one of its tasks used up its attempts at `now`.
pub open spec fn job_failed(j: JobInfo, now: u64) -> JobInfo {
    JobInfo {
        failed_tasks: (j.failed_tasks + 1) as u32,
        status: JobStatus::Failed,
        finished_at: Some(now),
        ..j
    }
}

/// Job `j` after one of its tasks succeeded at `now`; `last` tells whether
/// no task of the job is left queued or in flight.
pub open spec fn job_completed(j: JobInfo, last: bool, now: u64) -> JobInfo {
    let j1 = JobInfo { completed_tasks: (j.completed_tasks + 1) as u32, ..j };
    if last {
        JobInfo {
            status: if j.status == JobStatus::Failed {
                JobStatus::Failed
            } else {
                JobStatus::Succeeded
            },
            finished_at: Some(now),
            ..j1
        }
    } else {
        j1
    }
}

/// Milliseconds from `start` to `now`; 0 when `now` is earlier.
pub open spec fn elapsed(start: u64, now: u64) -> u64 {
    if now >= start {
        (now - start) as u64
    } else {
        0
    }
}

/// Worker metrics after one of its tasks ended after `dur` milliseconds.
pub open spec fn worker_credited(m: WorkerMeta, dur: u64, success: bool) -> WorkerMeta {
    WorkerMeta {
        total_task_time_ms: if m.total_task_time_ms + dur <= u64::MAX {
            (m.total_task_time_ms + dur) as u64
        } else {
            u64::MAX
        },
        tasks_succeeded: if success {
            bump64(m.tasks_succeeded)
        } else {
            m.tasks_succeeded
        },
        tasks_failed: if success {
            m.tasks_failed
        } else {
            bump64(m.tasks_failed)
        },
        ..m
    }
}

/// Whether `p` is the first in-flight entry of task `id`.
pub open spec fn first_entry(f: Seq<InFlight>, id: Seq<char>, p: int) -> bool {
    &&& 0 <= p < f.len()
    &&& f[p].task.id@ == id
    &&& forall|k: int| 0 <= k < p ==> f[k].task.id@ != id
}

/// The order of job statuses: ACCEPTED, then RUNNING, then a terminal one.
pub open spec fn status_rank(s: JobStatus) -> int {
    match s {
        JobStatus::Accepted => 0,
        JobStatus::Running => 1,
        _ => 2,
    }
}

/// From `a` to `b`, every job keeps its place and id, its status only
/// moves forward, and a terminal status never changes.
pub open spec fn statuses_advance(a: Seq<JobInfo>, b: Seq<JobInfo>) -> bool {
    &&& a.len() <= b.len()
    &&& forall|i: int|
        0 <= i < a.len() ==> {
            &&& (#[trigger] b[i]).id == a[i].id
            &&& status_rank(a[i].status) <= status_rank(b[i].status)
            &&& a[i].status.is_terminal() ==> b[i].status == a[i].status
        }
}

/// A state related to a well-formed one as a completion relates them is
/// well formed.
proof fn lemma_complete_wf(s0: AppState, s1: AppState, p: int, success: bool, now: u64)
    requires
        s0.wf(),
        0 <= p < s0.in_flight@.len(),
        ({
            let e = s0.in_flight@[p];
            let t = e.task;
            let retry = !success && can_retry(t);
            let last = queued_of(s1.tasks_queue@, t.job_id@) + inflight_of(
                s1.in_flight@,
                t.job_id@,
            ) == 0;
            &&& s1.in_flight@ == s0.in_flight@.remove(p)
            &&& s1.tasks_queue@ == if retry {
                s0.tasks_queue@.push(next_attempt(t))
            } else {
                s0.tasks_queue@
            }
            &&& s1.jobs@.len() == s0.jobs@.len()
            &&& forall|i: int|
                0 <= i < s0.jobs@.len() ==> #[trigger] s1.jobs@[i] == if s0.jobs@[i].id@
                    != t.job_id@ {
                    s0.jobs@[i]
                } else if success {
                    job_completed(s0.jobs@[i], last, now)
                } else if retry {
                    job_retried(s0.jobs@[i])
                } else {
                    job_failed(s0.jobs@[i], now)
                }
            &&& s1.workers@.len() == s0.workers@.len()
            &&& forall|i: int|
                0 <= i < s0.workers@.len() ==> (#[trigger] s1.workers@[i]).0 == s0.workers@[i].0
                    && s1.workers@[i].1.max_concurrency == s0.workers@[i].1.max_concurrency
        }),
    ensures
        s1.wf(),
        statuses_advance(s0.jobs@, s1.jobs@),
{
    let e = s0.in_flight@[p];
    let t = e.task;
    let jid = t.job_id@;
    assert forall|i: int| 0 <= i < s0.jobs@.len() implies {
        &&& (#[trigger] s1.jobs@[i]).id == s0.jobs@[i].id
        &&& status_rank(s0.jobs@[i].status) <= status_rank(s1.jobs@[i].status)
        &&& s0.jobs@[i].status.is_terminal() ==> s1.jobs@[i].status == s0.jobs@[i].status
    } by {
        let id = s0.jobs@[i].id@;
        assert(s0.settled(s0.jobs@[i]));
        lemma_counts_remove(s0.in_flight@, p, id, e.worker_id@);
    }
    assert(s0.has_job(jid));
    assert forall|i: int| 0 <= i < s1.jobs@.len() implies #[trigger] s1.balanced(s1.jobs@[i]) by {
        let id = s0.jobs@[i].id@;
        assert(s0.balanced(s0.jobs@[i]));
        lemma_counts_remove(s0.in_flight@, p, id, e.worker_id@);
        if !success && can_retry(t) {
            lemma_queued_concat(s0.tasks_queue@, seq![next_attempt(t)], id);
            lemma_queued_one(next_attempt(t), id);
            assert(s0.tasks_queue@.push(next_attempt(t)) =~= s0.tasks_queue@ + seq![next_attempt(t)]);
        }
    }
    assert forall|i: int| 0 <= i < s1.jobs@.len() implies #[trigger] s1.settled(s1.jobs@[i]) by {
        let id = s0.jobs@[i].id@;
        assert(s0.settled(s0.jobs@[i]));
        lemma_counts_remove(s0.in_flight@, p, id, e.worker_id@);
        if !success && can_retry(t) {
            lemma_queued_concat(s0.tasks_queue@, seq![next_attempt(t)], id);
            lemma_queued_one(next_attempt(t), id);
            assert(s0.tasks_queue@.push(next_attempt(t)) =~= s0.tasks_queue@ + seq![next_attempt(t)]);
        }
    }
    assert forall|i: int, k: int| 0 <= i < k < s1.jobs@.len() implies s1.jobs@[i].id@
        != s1.jobs@[k].id@ by {
        assert(s1.jobs@[i].id == s0.jobs@[i].id);
        assert(s1.jobs@[k].id == s0.jobs@[k].id);
    }
    assert forall|i: int| 0 <= i < s1.workers@.len() implies #[trigger] s1.within_cap(
        s1.workers@[i],
    ) by {
        assert(s0.within_cap(s0.workers@[i]));
        lemma_counts_remove(s0.in_flight@, p, jid, s0.workers@[i].0@);
    }
    assert forall|i: int, k: int| 0 <= i < k < s1.workers@.len() implies s1.workers@[i].0@
        != s1.workers@[k].0@ by {
        assert(s1.workers@[i].0 == s0.workers@[i].0);
        assert(s1.workers@[k].0 == s0.workers@[k].0);
    }
    assert forall|id: Seq<char>| s0.has_job(id) implies s1.has_job(id) by {
        let c = choose|m: int| 0 <= m < s0.jobs@.len() && s0.jobs@[m].id@ == id;
        assert(s1.jobs@[c].id@ == s0.jobs@[c].id@);
    }
    assert forall|i: int| 0 <= i < s1.tasks_queue@.len() implies #[trigger] s1.has_job(
        s1.tasks_queue@[i].job_id@,
    ) by {
        if i < s0.tasks_queue@.len() {
            assert(s0.has_job(s0.tasks_queue@[i].job_id@));
        }
    }
    assert forall|i: int| 0 <= i < s1.in_flight@.len() implies #[trigger] s1.has_job(
        s1.in_flight@[i].task.job_id@,
    ) by {
        let k = if i < p {
            i
        } else {
            i + 1
        };
        assert(s1.in_flight@[i] == s0.in_flight@[k]);
        assert(s0.has_job(s0.in_flight@[k].task.job_id@));
    }
}

/// Whether a failed or lost task runs again: only while its next attempt
/// stays below [`MAX_TASK_ATTEMPTS`], so a task runs at most that many
/// times.
pub open spec fn can_retry(t: Task) -> bool {
    t.attempt + 1 < MAX_TASK_ATTEMPTS
}

/// Whether entry `e` runs on one of the workers `dead`.
pub open spec fn lost(e: InFlight, dead: Seq<Seq<char>>) -> bool {
    dead.contains(e.worker_id@)
}

/// The entries of `f` that run on none of the workers `dead`.
pub open spec fn kept(f: Seq<InFlight>, dead: Seq<Seq<char>>) -> Seq<InFlight>
    decreases f.len(),
{
    if f.len() == 0 {
        f
    } else if lost(f.last(), dead) {
        kept(f.drop_last(), dead)
    } else {
        kept(f.drop_last(), dead).push(f.last())
    }
}

/// The tasks of lost entries that may run again, with one more attempt.
pub open spec fn requeued(f: Seq<InFlight>, dead: Seq<Seq<char>>) -> Seq<Task>
    decreases f.len(),
{
    if f.len() == 0 {
        Seq::empty()
    } else if lost(f.last(), dead) && can_retry(f.last().task) {
        requeued(f.drop_last(), dead).push(next_attempt(f.last().task))
    } else {
        requeued(f.drop_last(), dead)
    }
}

/// How many lost entries of job `job` may run again.
pub open spec fn retried_of(f: Seq<InFlight>, dead: Seq<Seq<char>>, job: Seq<char>) -> nat
    decreases f.len(),
{
    if f.len() == 0 {
        0
    } else {
        retried_of(f.drop_last(), dead, job) + if lost(f.last(), dead) && can_retry(f.last().task) && f.last().task.job_id@ == job {
            1nat
        } else {
            0nat
        }
    }
}

/// How many lost entries of job `job` have used up their attempts.
pub open spec fn exhausted_of(f: Seq<InFlight>, dead: Seq<Seq<char>>, job: Seq<char>) -> nat
    decreases f.len(),
{
    if f.len() == 0 {
        0
    } else {
        exhausted_of(f.drop_last(), dead, job) + if lost(f.last(), dead) && !can_retry(f.last().task) && f.last().task.job_id@ == job {
            1nat
        } else {
            0nat
        }
    }
}

/// `x + n`, stopping at the largest value.
pub open spec fn sat32(x: u32, n: nat) -> u32 {
    if x + n <= u32::MAX {
        (x + n) as u32
    } else {
        u32::MAX
    }
}

/// Job `j` after a sweep requeued `nr` of its tasks and dropped `nf`.
pub open spec fn job_swept(j: JobInfo, nr: nat, nf: nat, now: u64) -> JobInfo {
    JobInfo {
        retries: sat32(j.retries, nr),
        failed_tasks: (j.failed_tasks + nf) as u32,
        status: if nf > 0 {
            JobStatus::Failed
        } else {
            j.status
        },
        finished_at: if nf > 0 {
            Some(now)
        } else {
            j.finished_at
        },
        ..j
    }
}

pub proof fn lemma_sweep_parts(f: Seq<InFlight>, dead: Seq<Seq<char>>, job: Seq<char>, w: Seq<char>)
    ensures
        inflight_of(f, job) == inflight_of(kept(f, dead), job) + retried_of(f, dead, job)
            + exhausted_of(f, dead, job),
        queued_of(requeued(f, dead), job) == retried_of(f, dead, job),
        load_of(kept(f, dead), w) <= load_of(f, w),
    decreases f.len(),
{
    if f.len() > 0 {
        lemma_sweep_parts(f.drop_last(), dead, job, w);
        let k = kept(f.drop_last(), dead);
        let q = requeued(f.drop_last(), dead);
        assert(k.push(f.last()).drop_last() =~= k);
        assert(q.push(next_attempt(f.last().task)).drop_last() =~= q);
    }
}

pub proof fn lemma_sweep_members(f: Seq<InFlight>, dead: Seq<Seq<char>>)
    ensures
        forall|k: int|
            0 <= k < kept(f, dead).len() ==> exists|i: int|
                0 <= i < f.len() && #[trigger] kept(f, dead)[k] == f[i],
        forall|k: int|
            0 <= k < kept(f, dead).len() ==> !lost(#[trigger] kept(f, dead)[k], dead),
        forall|k: int|
            0 <= k < requeued(f, dead).len() ==> exists|i: int|
                0 <= i < f.len() && (#[trigger] requeued(f, dead)[k]).job_id@ == f[i].task.job_id@,
    decreases f.len(),
{
    if f.len() > 0 {
        let g = f.drop_last();
        lemma_sweep_members(g, dead);
        assert forall|k: int| 0 <= k < kept(f, dead).len() implies exists|i: int|
            0 <= i < f.len() && #[trigger] kept(f, dead)[k] == f[i] by {
            if k < kept(g, dead).len() {
                let i = choose|i: int| 0 <= i < g.len() && kept(g, dead)[k] == g[i];
                assert(f[i] == g[i]);
            } else {
                assert(kept(f, dead)[k] == f[f.len() - 1]);
            }
        }
        assert forall|k: int| 0 <= k < requeued(f, dead).len() implies exists|i: int|
            0 <= i < f.len() && (#[trigger] requeued(f, dead)[k]).job_id@ == f[i].task.job_id@ by {
            if k < requeued(g, dead).len() {
                let i = choose|i: int|
                    0 <= i < g.len() && requeued(g, dead)[k].job_id@ == g[i].task.job_id@;
                assert(f[i] == g[i]);
            } else {
                assert(requeued(f, dead)[k] == next_attempt(f[f.len() - 1].task));
            }
        }
    }
}

/// With distinct task ids in `f`, the kept entries and the requeued tasks
/// have distinct ids, each the id of an entry of `f`: a kept one of an
/// entry that stays, a requeued one of a lost entry that may run again.
pub proof fn lemma_sweep_ids(f: Seq<InFlight>, dead: Seq<Seq<char>>)
    requires
        forall|i: int, j: int| 0 <= i < j < f.len() ==> f[i].task.id@ != f[j].task.id@,
    ensures
        forall|a: int, b: int|
            0 <= a < b < kept(f, dead).len() ==> kept(f, dead)[a].task.id@ != kept(
                f,
                dead,
            )[b].task.id@,
        forall|a: int, b: int|
            0 <= a < b < requeued(f, dead).len() ==> requeued(f, dead)[a].id@ != requeued(
                f,
                dead,
            )[b].id@,
        forall|a: int, b: int|
            0 <= a < kept(f, dead).len() && 0 <= b < requeued(f, dead).len() ==> kept(
                f,
                dead,
            )[a].task.id@ != requeued(f, dead)[b].id@,
        forall|a: int|
            0 <= a < kept(f, dead).len() ==> exists|i: int|
                0 <= i < f.len() && !lost(f[i], dead) && #[trigger] kept(f, dead)[a] == f[i],
        forall|b: int|
            0 <= b < requeued(f, dead).len() ==> exists|i: int|
                0 <= i < f.len() && lost(f[i], dead) && can_retry(f[i].task)
                    && (#[trigger] requeued(f, dead)[b]).id@ == f[i].task.id@,
    decreases f.len(),
{
    if f.len() > 0 {
        let g = f.drop_last();
        let x = f.last();
        lemma_sweep_ids(g, dead);
        let kg = kept(g, dead);
        let rg = requeued(g, dead);
        assert forall|a: int| 0 <= a < kg.len() implies kg[a].task.id@ != x.task.id@ by {
            let i = choose|i: int| 0 <= i < g.len() && !lost(g[i], dead) && kg[a] == g[i];
            assert(f[i] == g[i]);
        }
        assert forall|b: int| 0 <= b < rg.len() implies rg[b].id@ != x.task.id@ by {
            let i = choose|i: int|
                0 <= i < g.len() && lost(g[i], dead) && can_retry(g[i].task)
                    && rg[b].id@ == g[i].task.id@;
            assert(f[i] == g[i]);
        }
        assert forall|a: int| 0 <= a < kept(f, dead).len() implies exists|i: int|
            0 <= i < f.len() && !lost(f[i], dead) && #[trigger] kept(f, dead)[a] == f[i] by {
            if a < kg.len() {
                let i = choose|i: int| 0 <= i < g.len() && !lost(g[i], dead) && kg[a] == g[i];
                assert(f[i] == g[i]);
            } else {
                assert(kept(f, dead)[a] == f[f.len() - 1]);
            }
        }
        assert forall|b: int| 0 <= b < requeued(f, dead).len() implies exists|i: int|
            0 <= i < f.len() && lost(f[i], dead) && can_retry(f[i].task)
                && (#[trigger] requeued(f, dead)[b]).id@ == f[i].task.id@ by {
            if b < rg.len() {
                let i = choose|i: int|
                    0 <= i < g.len() && lost(g[i], dead) && can_retry(g[i].task)
                        && rg[b].id@ == g[i].task.id@;
                assert(f[i] == g[i]);
            } else {
                assert(requeued(f, dead)[b] == next_attempt(f[f.len() - 1].task));
            }
        }
    }
}

/// The texts of `v`.
pub open spec fn ids_of(v: Seq<String>) -> Seq<Seq<char>> {
    v.map_values(|s: String| s@)
}

/// Worker meta `m` after the sweep at `now` looked at it.
pub open spec fn meta_swept(m: WorkerMeta, now: u64) -> WorkerMeta {
    WorkerMeta { dead: m.dead || expired(m.last_heartbeat, now), ..m }
}

/// Relies on `uuid::Uuid::new_v4` and its `Display`: a random version-4
/// identifier in hyphenated form. Nothing is promised of it, not even that
/// it is new; the call takes no input (it fails only when the operating
/// system has no randomness to give).
#[verifier::external_body]
fn fresh_id() -> String {
    uuid::Uuid::new_v4().to_string()
}

/// Whether `w` is among `ids`.
pub fn contains_id(ids: &Vec<String>, w: &str) -> (r: bool)
    ensures
        r == ids_of(ids@).contains(w@),
{
    let mut i: usize = 0;
    while i < ids.len()
        invariant
            i <= ids@.len(),
            forall|k: int| 0 <= k < i ==> ids@[k]@ != w@,
        decreases ids@.len() - i,
    {
        if text_eq(ids[i].as_str(), w) {
            assert(ids_of(ids@)[i as int] == w@);
            return true;
        }
        i += 1;
    }
    assert forall|k: int| 0 <= k < ids_of(ids@).len() implies ids_of(ids@)[k] != w@ by {
        assert(ids_of(ids@)[k] == ids@[k]@);
    }
    false
}

/// A state related to a well-formed one as the reclaiming step of the
/// sweep relates them is well formed.
proof fn lemma_reclaim_wf(s0: AppState, s1: AppState, dead: Seq<Seq<char>>, now: u64)
    requires
        s0.wf(),
        s1.in_flight@ == kept(s0.in_flight@, dead),
        s1.tasks_queue@ == s0.tasks_queue@ + requeued(s0.in_flight@, dead),
        s1.workers == s0.workers,
        s1.jobs@.len() == s0.jobs@.len(),
        forall|m: int|
            0 <= m < s0.jobs@.len() ==> #[trigger] s1.jobs@[m] == job_swept(
                s0.jobs@[m],
                retried_of(s0.in_flight@, dead, s0.jobs@[m].id@),
                exhausted_of(s0.in_flight@, dead, s0.jobs@[m].id@),
                now,
            ),
    ensures
        s1.wf(),
        statuses_advance(s0.jobs@, s1.jobs@),
{
    let f = s0.in_flight@;
    lemma_sweep_members(f, dead);
    lemma_sweep_ids(f, dead);
    let q0 = s0.tasks_queue@;
    let rq = requeued(f, dead);
    let kp = kept(f, dead);
    assert forall|i: int, j: int| 0 <= i < j < s1.tasks_queue@.len() implies s1.tasks_queue@[i].id@
        != s1.tasks_queue@[j].id@ by {
        if j >= q0.len() {
            let b = j - q0.len();
            assert(s1.tasks_queue@[j] == rq[b]);
            let m = choose|m: int|
                0 <= m < f.len() && lost(f[m], dead) && can_retry(f[m].task)
                    && (#[trigger] rq[b]).id@ == f[m].task.id@;
            if i < q0.len() {
                assert(s1.tasks_queue@[i] == q0[i]);
            } else {
                assert(s1.tasks_queue@[i] == rq[i - q0.len()]);
            }
        } else {
            assert(s1.tasks_queue@[i] == q0[i]);
            assert(s1.tasks_queue@[j] == q0[j]);
        }
    }
    assert forall|i: int, j: int|
        0 <= i < s1.tasks_queue@.len() && 0 <= j < s1.in_flight@.len() implies s1.tasks_queue@[i].id@
        != s1.in_flight@[j].task.id@ by {
        let m = choose|m: int| 0 <= m < f.len() && !lost(f[m], dead) && #[trigger] kp[j] == f[m];
        if i < q0.len() {
            assert(s1.tasks_queue@[i] == q0[i]);
        } else {
            assert(s1.tasks_queue@[i] == rq[i - q0.len()]);
        }
    }
    assert forall|i: int| 0 <= i < s0.jobs@.len() implies {
        &&& (#[trigger] s1.jobs@[i]).id == s0.jobs@[i].id
        &&& status_rank(s0.jobs@[i].status) <= status_rank(s1.jobs@[i].status)
        &&& s0.jobs@[i].status.is_terminal() ==> s1.jobs@[i].status == s0.jobs@[i].status
    } by {
        let id = s0.jobs@[i].id@;
        assert(s0.settled(s0.jobs@[i]));
        lemma_sweep_parts(f, dead, id, id);
    }
    assert forall|i: int| 0 <= i < s1.jobs@.len() implies #[trigger] s1.balanced(s1.jobs@[i]) by {
        let id = s0.jobs@[i].id@;
        assert(s0.balanced(s0.jobs@[i]));
        lemma_sweep_parts(f, dead, id, id);
        lemma_queued_concat(s0.tasks_queue@, requeued(f, dead), id);
    }
    assert forall|i: int| 0 <= i < s1.jobs@.len() implies #[trigger] s1.settled(s1.jobs@[i]) by {
        let id = s0.jobs@[i].id@;
        assert(s0.settled(s0.jobs@[i]));
        lemma_sweep_parts(f, dead, id, id);
        lemma_queued_concat(s0.tasks_queue@, requeued(f, dead), id);
    }
    assert forall|i: int, k: int| 0 <= i < k < s1.jobs@.len() implies s1.jobs@[i].id@
        != s1.jobs@[k].id@ by {
        assert(s1.jobs@[i].id == s0.jobs@[i].id);
        assert(s1.jobs@[k].id == s0.jobs@[k].id);
    }
    assert forall|i: int| 0 <= i < s1.workers@.len() implies #[trigger] s1.within_cap(
        s1.workers@[i],
    ) by {
        assert(s0.within_cap(s0.workers@[i]));
        lemma_sweep_parts(f, dead, s0.workers@[i].0@, s0.workers@[i].0@);
    }
    assert forall|id: Seq<char>| s0.has_job(id) implies s1.has_job(id) by {
        let c = choose|m: int| 0 <= m < s0.jobs@.len() && s0.jobs@[m].id@ == id;
        assert(s1.jobs@[c].id@ == s0.jobs@[c].id@);
    }
    assert forall|i: int| 0 <= i < s1.tasks_queue@.len() implies #[trigger] s1.has_job(
        s1.tasks_queue@[i].job_id@,
    ) by {
        if i < s0.tasks_queue@.len() {
            assert(s0.has_job(s0.tasks_queue@[i].job_id@));
        } else {
            let k = i - s0.tasks_queue@.len();
            assert(s1.tasks_queue@[i] == requeued(f, dead)[k]);
            let m = choose|m: int|
                0 <= m < f.len() && (#[trigger] requeued(f, dead)[k]).job_id@ == f[m].task.job_id@;
            assert(s0.has_job(f[m].task.job_id@));
        }
    }
    assert forall|i: int| 0 <= i < s1.in_flight@.len() implies #[trigger] s1.has_job(
        s1.in_flight@[i].task.job_id@,
    ) by {
        let m = choose|m: int| 0 <= m < f.len() && #[trigger] kept(f, dead)[i] == f[m];
        assert(s0.has_job(f[m].task.job_id@));
    }
}

pub proof fn lemma_queued_all(q: Seq<Task>, job: Seq<char>)
    requires
        forall|i: int| 0 <= i < q.len() ==> q[i].job_id@ == job,
    ensures
        queued_of(q, job) == q.len(),
    decreases q.len(),
{
    if q.len() > 0 {
        lemma_queued_all(q.drop_last(), job);
    }
}

/// The effective parallelism of a request: at least 1.
pub open spec fn effective_parallelism(p: u32) -> u32 {
    if p == 0 {
        1
    } else {
        p
    }
}

/// A state that adds to a well-formed one a fresh job `id` of `n` tasks,
/// all queued at the tail, is well formed.
proof fn lemma_admit_wf(s0: AppState, s1: AppState, n: nat)
    requires
        s0.wf(),
        s1.jobs@.len() == s0.jobs@.len() + 1,
        s1.jobs@.drop_last() == s0.jobs@,
        !s0.has_job(s1.jobs@.last().id@),
        s1.jobs@.last().total_tasks == n,
        s1.jobs@.last().completed_tasks == 0,
        s1.jobs@.last().failed_tasks == 0,
        s1.jobs@.last().status == if n == 0 {
            JobStatus::Succeeded
        } else {
            JobStatus::Accepted
        },
        s1.tasks_queue@.len() == s0.tasks_queue@.len() + n,
        s1.tasks_queue@.take(s0.tasks_queue@.len() as int) == s0.tasks_queue@,
        forall|k: int|
            s0.tasks_queue@.len() <= k < s1.tasks_queue@.len() ==> (#[trigger] s1.tasks_queue@[k]).job_id@
                == s1.jobs@.last().id@,
        forall|k: int, m: int|
            s0.tasks_queue@.len() <= k < m < s1.tasks_queue@.len() ==> s1.tasks_queue@[k].id@
                != s1.tasks_queue@[m].id@,
        forall|k: int|
            s0.tasks_queue@.len() <= k < s1.tasks_queue@.len() ==> !s0.id_taken(
                (#[trigger] s1.tasks_queue@[k]).id@,
            ),
        s1.in_flight == s0.in_flight,
        s1.workers == s0.workers,
    ensures
        s1.wf(),
{
    let jid = s1.jobs@.last().id@;
    let q0 = s0.tasks_queue@;
    let extra = s1.tasks_queue@.skip(q0.len() as int);
    assert(s1.tasks_queue@ =~= q0 + extra);
    assert forall|i: int, j: int| 0 <= i < j < s1.tasks_queue@.len() implies s1.tasks_queue@[i].id@
        != s1.tasks_queue@[j].id@ by {
        if j >= q0.len() {
            assert(!s0.id_taken(s1.tasks_queue@[j].id@));
            if i < q0.len() {
                assert(s1.tasks_queue@[i] == q0[i]);
            }
        } else {
            assert(s1.tasks_queue@[i] == q0[i]);
            assert(s1.tasks_queue@[j] == q0[j]);
        }
    }
    assert forall|i: int, j: int|
        0 <= i < s1.tasks_queue@.len() && 0 <= j < s1.in_flight@.len() implies s1.tasks_queue@[i].id@
        != s1.in_flight@[j].task.id@ by {
        if i >= q0.len() {
            assert(!s0.id_taken(s1.tasks_queue@[i].id@));
        } else {
            assert(s1.tasks_queue@[i] == q0[i]);
        }
    }
    lemma_queued_all(extra, jid);
    assert forall|i: int| 0 <= i < s0.jobs@.len() implies s0.jobs@[i].id@ != jid by {}
    assert forall|i: int| 0 <= i < s1.jobs@.len() implies #[trigger] s1.balanced(s1.jobs@[i]) by {
        let id = s1.jobs@[i].id@;
        lemma_queued_concat(q0, extra, id);
        if i < s0.jobs@.len() {
            assert(s1.jobs@[i] == s0.jobs@[i]);
            assert(s0.balanced(s0.jobs@[i]));
            lemma_queued_none(extra, id);
        } else {
            assert forall|k: int| 0 <= k < q0.len() implies q0[k].job_id@ != jid by {
                assert(s0.has_job(q0[k].job_id@));
            }
            assert forall|k: int| 0 <= k < s0.in_flight@.len() implies s0.in_flight@[k].task.job_id@
                != jid by {
                assert(s0.has_job(s0.in_flight@[k].task.job_id@));
            }
            lemma_queued_none(q0, jid);
            lemma_inflight_none(s0.in_flight@, jid);
        }
    }
    assert forall|i: int| 0 <= i < s1.jobs@.len() implies #[trigger] s1.settled(s1.jobs@[i]) by {
        let id = s1.jobs@[i].id@;
        lemma_queued_concat(q0, extra, id);
        if i < s0.jobs@.len() {
            assert(s1.jobs@[i] == s0.jobs@[i]);
            assert(s0.settled(s0.jobs@[i]));
            lemma_queued_none(extra, id);
        } else {
            assert forall|k: int| 0 <= k < q0.len() implies q0[k].job_id@ != jid by {
                assert(s0.has_job(q0[k].job_id@));
            }
            assert forall|k: int| 0 <= k < s0.in_flight@.len() implies s0.in_flight@[k].task.job_id@
                != jid by {
                assert(s0.has_job(s0.in_flight@[k].task.job_id@));
            }
            lemma_queued_none(q0, jid);
            lemma_inflight_none(s0.in_flight@, jid);
        }
    }
    assert forall|i: int, k: int| 0 <= i < k < s1.jobs@.len() implies s1.jobs@[i].id@
        != s1.jobs@[k].id@ by {
        assert(s1.jobs@[i] == s0.jobs@[i]);
        if k < s0.jobs@.len() {
            assert(s1.jobs@[k] == s0.jobs@[k]);
        }
    }
    assert forall|i: int| 0 <= i < s1.workers@.len() implies #[trigger] s1.within_cap(
        s1.workers@[i],
    ) by {
        assert(s0.within_cap(s0.workers@[i]));
    }
    assert forall|id: Seq<char>| s0.has_job(id) implies s1.has_job(id) by {
        let c = choose|m: int| 0 <= m < s0.jobs@.len() && s0.jobs@[m].id@ == id;
        assert(s1.jobs@[c] == s0.jobs@[c]);
    }
    assert(s1.has_job(jid)) by {
        assert(s1.jobs@[s1.jobs@.len() - 1].id@ == jid);
    }
    assert forall|i: int| 0 <= i < s1.tasks_queue@.len() implies #[trigger] s1.has_job(
        s1.tasks_queue@[i].job_id@,
    ) by {
        if i < q0.len() {
            assert(s1.tasks_queue@[i] == q0[i]);
            assert(s0.has_job(q0[i].job_id@));
        }
    }
    assert forall|i: int| 0 <= i < s1.in_flight@.len() implies #[trigger] s1.has_job(
        s1.in_flight@[i].task.job_id@,
    ) by {
        assert(s0.has_job(s0.in_flight@[i].task.job_id@));
    }
}

/// `s1` is `s0` with worker `id` registered at `now` for request `req`.
pub open spec fn registered(s0: AppState, s1: AppState, id: Seq<char>, req: WorkerRegisterRequest, now: u64) -> bool {
    &&& s1.workers@.drop_last() == s0.workers@
    &&& s1.workers@.len() == s0.workers@.len() + 1
    &&& s1.workers@.last().0@ == id
    &&& s1.workers@.last().1 == WorkerMeta {
        hostname: req.hostname,
        last_heartbeat: now,
        dead: false,
        max_concurrency: req.max_concurrency,
        tasks_started: 0,
        tasks_succeeded: 0,
        tasks_failed: 0,
        total_task_time_ms: 0,
        last_mem_bytes: None,
    }
    &&& s1.jobs == s0.jobs
    &&& s1.tasks_queue == s0.tasks_queue
    &&& s1.in_flight == s0.in_flight
}

/// The task ids `<job>-0`, ..., `<job>-(n-1)`.
pub open spec fn task_ids_for(job: Seq<char>, n: nat) -> Seq<Seq<char>> {
    Seq::new(n, |k: int| job + seq!['-'] + crate::counts::decimal(k as nat))
}

/// `s1` is `s0` with job `job_id` admitted at `now` for request `req`: one
/// task per path of `inputs` with the ids `ids`, queued after the old
/// queue. Its output directory is `<req.output_dir>/<job_id>`; task `k`
/// writes `<output_dir>/<file name of input k>` and has partition
/// `k mod parallelism`. A job without inputs has succeeded at once.
pub open spec fn admitted(
    s0: AppState,
    s1: AppState,
    job_id: Seq<char>,
    req: JobRequest,
    inputs: Seq<String>,
    ids: Seq<Seq<char>>,
    now: u64,
) -> bool {
    let n = inputs.len();
    let par = effective_parallelism(req.parallelism);
    let j = s1.jobs@.last();
    let q0 = s0.tasks_queue@.len();
    &&& s1.jobs@.len() == s0.jobs@.len() + 1
    &&& s1.jobs@.drop_last() == s0.jobs@
    &&& j.id@ == job_id
    &&& j.name == req.name
    &&& j.dag == req.dag
    &&& j.status == if n == 0 {
        JobStatus::Succeeded
    } else {
        JobStatus::Accepted
    }
    &&& j.parallelism == req.parallelism
    &&& j.input_glob == req.input_glob
    &&& j.output_dir@ == req.output_dir@ + seq!['/'] + job_id
    &&& j.submitted_at == now
    &&& j.started_at is None
    &&& j.finished_at == if n == 0 {
        Some(now)
    } else {
        None
    }
    &&& j.total_tasks == n
    &&& j.completed_tasks == 0
    &&& j.failed_tasks == 0
    &&& j.retries == 0
    &&& s1.tasks_queue@.len() == q0 + n
    &&& s1.tasks_queue@.take(q0 as int) == s0.tasks_queue@
    &&& forall|k: int|
        0 <= k < n ==> {
            let t = #[trigger] s1.tasks_queue@[q0 + k];
            &&& t.id@ == ids[k]
            &&& t.job_id@ == job_id
            &&& t.node_id@ == "wordcount"@
            &&& t.attempt == 0
            &&& t.stage == 0
            &&& t.partition == k % (par as int)
            &&& t.parallelism == par
            &&& t.input_path@ == inputs[k]@
            &&& t.output_path@ == j.output_dir@ + seq!['/'] + base_name(inputs[k]@)
        }
    &&& s1.in_flight == s0.in_flight
    &&& s1.workers == s0.workers
}

/// A task with one more attempt.
pub open spec fn next_attempt(t: Task) -> Task {
    Task { attempt: (t.attempt + 1) as u32, ..t }
}

impl AppState {
    pub fn new() -> (r: AppState)
        ensures
            r.wf(),
            r.tasks_queue@.len() == 0,
            r.jobs@.len() == 0,
            r.in_flight@.len() == 0,
            r.workers@.len() == 0,
    {
        AppState {
            tasks_queue: Vec::new(),
            jobs: Vec::new(),
            in_flight: Vec::new(),
            workers: Vec::new(),
        }
    }

    /// For job `j`: queued + in flight + completed + failed = total.
    pub open spec fn balanced(self, j: JobInfo) -> bool {
        queued_of(self.tasks_queue@, j.id@) + inflight_of(self.in_flight@, j.id@)
            + j.completed_tasks + j.failed_tasks == j.total_tasks
    }

    /// Worker `w` runs no more tasks than its cap.
    pub open spec fn within_cap(self, w: (String, WorkerMeta)) -> bool {
        load_of(self.in_flight@, w.0@) <= w.1.max_concurrency
    }

    pub open spec fn has_job(self, id: Seq<char>) -> bool {
        exists|i: int| 0 <= i < self.jobs@.len() && self.jobs@[i].id@ == id
    }

    /// A succeeded job has no task left; an accepted one has none in flight.
    pub open spec fn settled(self, j: JobInfo) -> bool {
        &&& j.status == JobStatus::Succeeded ==> queued_of(self.tasks_queue@, j.id@) + inflight_of(
            self.in_flight@,
            j.id@,
        ) == 0
        &&& j.status == JobStatus::Accepted ==> inflight_of(self.in_flight@, j.id@) == 0
    }

    /// No task id stands twice across the queue and the in-flight table.
    pub open spec fn ids_unique(self) -> bool {
        &&& forall|i: int, j: int|
            0 <= i < j < self.tasks_queue@.len() ==> self.tasks_queue@[i].id@
                != self.tasks_queue@[j].id@
        &&& forall|i: int, j: int|
            0 <= i < j < self.in_flight@.len() ==> self.in_flight@[i].task.id@
                != self.in_flight@[j].task.id@
        &&& forall|i: int, j: int|
            0 <= i < self.tasks_queue@.len() && 0 <= j < self.in_flight@.len()
                ==> self.tasks_queue@[i].id@ != self.in_flight@[j].task.id@
    }

    /// Whether a queued or in-flight task has id `id`.
    pub open spec fn id_taken(self, id: Seq<char>) -> bool {
        ||| exists|i: int| 0 <= i < self.tasks_queue@.len() && self.tasks_queue@[i].id@ == id
        ||| exists|i: int| 0 <= i < self.in_flight@.len() && self.in_flight@[i].task.id@ == id
    }

    /// The ids `ids` are distinct and none is taken.
    pub open spec fn fresh_ids(self, ids: Seq<Seq<char>>) -> bool {
        &&& forall|i: int, j: int| 0 <= i < j < ids.len() ==> ids[i] != ids[j]
        &&& forall|i: int| 0 <= i < ids.len() ==> !self.id_taken(#[trigger] ids[i])
    }

    /// The tables' invariant.
    pub open spec fn wf(self) -> bool {
        &&& self.ids_unique()
        &&& forall|i: int| 0 <= i < self.jobs@.len() ==> #[trigger] self.balanced(self.jobs@[i])
        &&& forall|i: int| 0 <= i < self.jobs@.len() ==> #[trigger] self.settled(self.jobs@[i])
        &&& forall|i: int, j: int|
            0 <= i < j < self.jobs@.len() ==> self.jobs@[i].id@ != self.jobs@[j].id@
        &&& forall|i: int|
            0 <= i < self.workers@.len() ==> #[trigger] self.within_cap(self.workers@[i])
        &&& forall|i: int, j: int|
            0 <= i < j < self.workers@.len() ==> self.workers@[i].0@ != self.workers@[j].0@
        &&& forall|i: int|
            0 <= i < self.tasks_queue@.len() ==> #[trigger] self.has_job(
                self.tasks_queue@[i].job_id@,
            )
        &&& forall|i: int|
            0 <= i < self.in_flight@.len() ==> #[trigger] self.has_job(
                self.in_flight@[i].task.job_id@,
            )
    }

    /// The index of job `id`.
    pub fn find_job(&self, id: &str) -> (r: Option<usize>)
        ensures
            match r {
                Some(i) => i < self.jobs@.len() && self.jobs@[i as int].id@ == id@ && forall|k: int|
                    0 <= k < i ==> self.jobs@[k].id@ != id@,
                None => forall|i: int| 0 <= i < self.jobs@.len() ==> self.jobs@[i].id@ != id@,
            },
    {
        let mut i: usize = 0;
        while i < self.jobs.len()
            invariant
                i <= self.jobs@.len(),
                forall|k: int| 0 <= k < i ==> self.jobs@[k].id@ != id@,
            decreases self.jobs@.len() - i,
        {
            if text_eq(self.jobs[i].id.as_str(), id) {
                return Some(i);
            }
            i += 1;
        }
        None
    }

    /// The index of worker `id`.
    pub fn find_worker(&self, id: &str) -> (r: Option<usize>)
        ensures
            match r {
                Some(i) => i < self.workers@.len() && self.workers@[i as int].0@ == id@ && forall|
                    k: int,
                | 0 <= k < i ==> self.workers@[k].0@ != id@,
                None => forall|i: int|
                    0 <= i < self.workers@.len() ==> self.workers@[i].0@ != id@,
            },
    {
        let mut i: usize = 0;
        while i < self.workers.len()
            invariant
                i <= self.workers@.len(),
                forall|k: int| 0 <= k < i ==> self.workers@[k].0@ != id@,
            decreases self.workers@.len() - i,
        {
            if text_eq(self.workers[i].0.as_str(), id) {
                return Some(i);
            }
            i += 1;
        }
        None
    }

    /// The number of in-flight tasks of worker `w`.
    pub fn active_for_worker(&self, w: &str) -> (r: usize)
        ensures
            r == load_of(self.in_flight@, w@),
    {
        let mut n: usize = 0;
        let mut i: usize = 0;
        while i < self.in_flight.len()
            invariant
                i <= self.in_flight@.len(),
                n == load_of(self.in_flight@.take(i as int), w@),
                n <= i,
            decreases self.in_flight@.len() - i,
        {
            assert(self.in_flight@.take(i + 1).drop_last() =~= self.in_flight@.take(i as int));
            if text_eq(self.in_flight[i].worker_id.as_str(), w) {
                n += 1;
            }
            i += 1;
        }
        assert(self.in_flight@.take(i as int) =~= self.in_flight@);
        n
    }

    /// The cap that dispatch applies to `w`.
    fn cap_for(&self, w: &str) -> (r: (u32, Option<usize>))
        requires
            self.wf(),
        ensures
            r.0 as nat == cap_of(self.workers@, w@),
            match r.1 {
                Some(k) => k < self.workers@.len() && self.workers@[k as int].0@ == w@
                    && r.0 == self.workers@[k as int].1.max_concurrency,
                None => forall|i: int| 0 <= i < self.workers@.len() ==> self.workers@[i].0@ != w@,
            },
    {
        match self.find_worker(w) {
            Some(k) => {
                proof {
                    let c = choose|i: int|
                        0 <= i < self.workers@.len() && self.workers@[i].0@ == w@;
                    assert(0 <= c < self.workers@.len() && self.workers@[c].0@ == w@);
                    if c != k {
                        if c < k {
                            assert(self.workers@[c].0@ != self.workers@[k as int].0@);
                        } else {
                            assert(self.workers@[k as int].0@ != self.workers@[c].0@);
                        }
                    }
                }
                (self.workers[k].1.max_concurrency, Some(k))
            }
            None => (1, None),
        }
    }

    /// Dispatch: hands worker `worker_id` the head of the queue, unless the
    /// worker already runs as many tasks as its cap or the queue is empty.
    /// The job of the task goes from ACCEPTED to RUNNING.
    pub fn assign_task(&mut self, worker_id: &str, now: u64) -> (r: Option<Task>)
        requires
            old(self).wf(),
        ensures
            final(self).wf(),
            statuses_advance(old(self).jobs@, final(self).jobs@),
            r is None <==> (load_of(old(self).in_flight@, worker_id@) >= cap_of(
                old(self).workers@,
                worker_id@,
            ) || old(self).tasks_queue@.len() == 0),
            r is None ==> *final(self) == *old(self),
            r is Some ==> {
                let t = old(self).tasks_queue@[0];
                &&& r == Some(t)
                &&& final(self).tasks_queue@ == old(self).tasks_queue@.drop_first()
                &&& final(self).in_flight@.drop_last() == old(self).in_flight@
                &&& final(self).in_flight@.len() == old(self).in_flight@.len() + 1
                &&& final(self).in_flight@.last().task == t
                &&& final(self).in_flight@.last().worker_id@ == worker_id@
                &&& final(self).in_flight@.last().started_at == now
                &&& final(self).jobs@.len() == old(self).jobs@.len()
                &&& forall|i: int|
                    0 <= i < old(self).jobs@.len() ==> #[trigger] final(self).jobs@[i] == if old(
                        self,
                    ).jobs@[i].id@ == t.job_id@ {
                        job_started(old(self).jobs@[i], now)
                    } else {
                        old(self).jobs@[i]
                    }
                &&& final(self).workers@.len() == old(self).workers@.len()
                &&& forall|i: int|
                    0 <= i < old(self).workers@.len() ==> #[trigger] final(self).workers@[i] == if old(
                        self,
                    ).workers@[i].0@ == worker_id@ {
                        (
                            old(self).workers@[i].0,
                            WorkerMeta {
                                tasks_started: bump64(old(self).workers@[i].1.tasks_started),
                                ..old(self).workers@[i].1
                            },
                        )
                    } else {
                        old(self).workers@[i]
                    }
            },
    {
        let active = self.active_for_worker(worker_id);
        let (cap, widx) = self.cap_for(worker_id);
        if active >= cap as usize {
            return None;
        }
        if self.tasks_queue.len() == 0 {
            return None;
        }
        let ghost old_self = *self;
        let t = self.tasks_queue.remove(0);
        let ret = t.copy();
        let jidx = self.find_job(t.job_id.as_str());
        self.in_flight.push(InFlight { task: t, worker_id: owned(worker_id), started_at: now });
        if let Some(j) = jidx {
            if self.jobs[j].status == JobStatus::Accepted {
                self.jobs[j].status = JobStatus::Running;
                if self.jobs[j].started_at.is_none() {
                    self.jobs[j].started_at = Some(now);
                }
            }
        }
        if let Some(k) = widx {
            if self.workers[k].1.tasks_started < u64::MAX {
                self.workers[k].1.tasks_started = self.workers[k].1.tasks_started + 1;
            }
        }
        proof {
            let q0 = old_self.tasks_queue@;
            assert(q0 =~= seq![q0[0]] + q0.drop_first());
            assert(self.in_flight@.drop_last() =~= old_self.in_flight@);
            assert forall|i: int| 0 <= i < self.jobs@.len() implies #[trigger] self.balanced(
                self.jobs@[i],
            ) by {
                let id = self.jobs@[i].id@;
                assert(id == old_self.jobs@[i].id@);
                assert(self.jobs@[i].completed_tasks == old_self.jobs@[i].completed_tasks);
                assert(self.jobs@[i].failed_tasks == old_self.jobs@[i].failed_tasks);
                assert(self.jobs@[i].total_tasks == old_self.jobs@[i].total_tasks);
                lemma_queued_concat(seq![q0[0]], q0.drop_first(), id);
                lemma_queued_one(q0[0], id);
                assert(self.tasks_queue@ == q0.drop_first());
                assert(inflight_of(self.in_flight@, id) == inflight_of(old_self.in_flight@, id) + if q0[0].job_id@ == id { 1nat } else { 0nat });
                assert(old_self.balanced(old_self.jobs@[i]));
            }
            assert forall|i: int| 0 <= i < self.jobs@.len() implies #[trigger] self.settled(
                self.jobs@[i],
            ) by {
                let id = self.jobs@[i].id@;
                lemma_queued_concat(seq![q0[0]], q0.drop_first(), id);
                lemma_queued_one(q0[0], id);
                assert(old_self.settled(old_self.jobs@[i]));
                if id == q0[0].job_id@ {
                    lemma_queued_some(q0, id, 0);
                }
            }
            assert forall|i: int| 0 <= i < self.workers@.len() implies #[trigger] self.within_cap(
                self.workers@[i],
            ) by {
                assert(old_self.within_cap(old_self.workers@[i]));
                if self.workers@[i].0@ == worker_id@ {
                    assert(widx == Some(i as usize)) by {
                        if widx is None {
                            assert(false);
                        } else {
                            let k = widx.unwrap() as int;
                            if k != i {
                                if k < i {
                                    assert(old_self.workers@[k].0@ != old_self.workers@[i].0@);
                                } else {
                                    assert(old_self.workers@[i].0@ != old_self.workers@[k].0@);
                                }
                            }
                        }
                    }
                }
            }
            assert forall|i: int| 0 <= i < self.tasks_queue@.len() implies #[trigger] self.has_job(
                self.tasks_queue@[i].job_id@,
            ) by {
                assert(old_self.has_job(q0[i + 1].job_id@));
                let c = choose|m: int|
                    0 <= m < old_self.jobs@.len() && old_self.jobs@[m].id@ == q0[i + 1].job_id@;
                assert(self.jobs@[c].id@ == old_self.jobs@[c].id@);
            }
            assert forall|i: int| 0 <= i < self.in_flight@.len() implies #[trigger] self.has_job(
                self.in_flight@[i].task.job_id@,
            ) by {
                let jid = self.in_flight@[i].task.job_id@;
                if i < old_self.in_flight@.len() {
                    assert(old_self.has_job(old_self.in_flight@[i].task.job_id@));
                } else {
                    assert(old_self.has_job(q0[0].job_id@));
                }
                let c = choose|m: int|
                    0 <= m < old_self.jobs@.len() && old_self.jobs@[m].id@ == jid;
                assert(self.jobs@[c].id@ == old_self.jobs@[c].id@);
            }
        }
        Some(ret)
    }

    /// Completion of task `task_id`, reported by its worker: the entry
    /// leaves the in-flight table and the worker is credited. A failed task
    /// that may run again ([`can_retry`]) goes back to the tail of the queue
    /// with one more attempt; otherwise its job fails. A successful task counts as completed, and its job succeeds
    /// (unless it already failed) once none of its tasks is queued or in
    /// flight.
    pub fn complete_task(&mut self, task_id: &str, success: bool, now: u64) -> (r: Result<
        (),
        SchedError,
    >)
        requires
            old(self).wf(),
        ensures
            final(self).wf(),
            statuses_advance(old(self).jobs@, final(self).jobs@),
            forall|i: int|
                0 <= i < final(self).in_flight@.len() ==> (#[trigger] final(self).in_flight@[i]).task.id@
                    != task_id@,
            r is Err <==> forall|i: int|
                0 <= i < old(self).in_flight@.len() ==> old(self).in_flight@[i].task.id@
                    != task_id@,
            r is Err ==> r == Err::<(), SchedError>(SchedError::NotFound) && *final(self) == *old(
                self,
            ),
            r is Ok ==> exists|p: int|
                #[trigger] first_entry(old(self).in_flight@, task_id@, p) && {
                    let e = old(self).in_flight@[p];
                    let t = e.task;
                    let retry = !success && can_retry(t);
                    let last = queued_of(final(self).tasks_queue@, t.job_id@) + inflight_of(
                        final(self).in_flight@,
                        t.job_id@,
                    ) == 0;
                    &&& final(self).in_flight@ == old(self).in_flight@.remove(p)
                    &&& final(self).tasks_queue@ == if retry {
                        old(self).tasks_queue@.push(next_attempt(t))
                    } else {
                        old(self).tasks_queue@
                    }
                    &&& final(self).jobs@.len() == old(self).jobs@.len()
                    &&& forall|i: int|
                        0 <= i < old(self).jobs@.len() ==> #[trigger] final(self).jobs@[i] == if old(
                            self,
                        ).jobs@[i].id@ != t.job_id@ {
                            old(self).jobs@[i]
                        } else if success {
                            job_completed(old(self).jobs@[i], last, now)
                        } else if retry {
                            job_retried(old(self).jobs@[i])
                        } else {
                            job_failed(old(self).jobs@[i], now)
                        }
                    &&& final(self).workers@.len() == old(self).workers@.len()
                    &&& forall|i: int|
                        0 <= i < old(self).workers@.len() ==> #[trigger] final(self).workers@[i]
                            == if old(self).workers@[i].0@ == e.worker_id@ {
                            (
                                old(self).workers@[i].0,
                                worker_credited(
                                    old(self).workers@[i].1,
                                    elapsed(e.started_at, now),
                                    success,
                                ),
                            )
                        } else {
                            old(self).workers@[i]
                        }
                },
    {
        let mut p: usize = 0;
        while p < self.in_flight.len()
            invariant
                p <= self.in_flight@.len(),
                forall|k: int| 0 <= k < p ==> self.in_flight@[k].task.id@ != task_id@,
            ensures
                p <= self.in_flight@.len(),
                forall|k: int| 0 <= k < p ==> self.in_flight@[k].task.id@ != task_id@,
                p < self.in_flight@.len() ==> self.in_flight@[p as int].task.id@ == task_id@,
            decreases self.in_flight@.len() - p,
        {
            if text_eq(self.in_flight[p].task.id.as_str(), task_id) {
                break;
            }
            p += 1;
        }
        assert(p < self.in_flight@.len() ==> self.in_flight@[p as int].task.id@ == task_id@);
        if p == self.in_flight.len() {
            proof {
                assert forall|i: int| 0 <= i < self.jobs@.len() implies {
                    &&& (#[trigger] self.jobs@[i]).id == self.jobs@[i].id
                    &&& status_rank(self.jobs@[i].status) <= status_rank(self.jobs@[i].status)
                    &&& self.jobs@[i].status.is_terminal() ==> self.jobs@[i].status == self.jobs@[i].status
                } by {}
            }
            return Err(SchedError::NotFound);
        }
        let ghost old_self = *self;
        let ghost e0 = self.in_flight@[p as int];
        assert(first_entry(old_self.in_flight@, task_id@, p as int));
        let entry = self.in_flight.remove(p);
        let InFlight { task, worker_id, started_at } = entry;
        let dur: u64 = if now >= started_at {
            now - started_at
        } else {
            0
        };
        self.credit_worker(worker_id.as_str(), dur, success);
        let jidx = self.find_job(task.job_id.as_str());
        let ghost jid = task.job_id@;
        proof {
            assert(old_self.has_job(jid));
            lemma_counts_remove(old_self.in_flight@, p as int, jid, worker_id@);
            if jidx is None {
                let c = choose|m: int| 0 <= m < old_self.jobs@.len() && old_self.jobs@[m].id@ == jid;
                assert(self.jobs@[c] == old_self.jobs@[c]);
                assert(false);
            }
            assert(old_self.balanced(old_self.jobs@[jidx.unwrap() as int]));
        }
        let j = jidx.unwrap();
        self.settle_job(j, task, success, now);
        proof {
            let t0 = e0.task;
            assert(old_self.in_flight@[p as int] == e0);
            assert(self.in_flight@ == old_self.in_flight@.remove(p as int));
            let retry = !success && can_retry(t0);
            let last = queued_of(self.tasks_queue@, jid) + inflight_of(self.in_flight@, jid) == 0;
            assert forall|i: int| 0 <= i < old_self.jobs@.len() implies #[trigger] self.jobs@[i]
                == if old_self.jobs@[i].id@ != jid {
                old_self.jobs@[i]
            } else if success {
                job_completed(old_self.jobs@[i], last, now)
            } else if retry {
                job_retried(old_self.jobs@[i])
            } else {
                job_failed(old_self.jobs@[i], now)
            } by {
                if i != j {
                    assert(old_self.jobs@[i].id@ != jid) by {
                        if i < j {
                            assert(old_self.jobs@[i].id@ != old_self.jobs@[j as int].id@);
                        } else {
                            assert(old_self.jobs@[j as int].id@ != old_self.jobs@[i].id@);
                        }
                    }
                }
            }
            if retry {
                assert(self.tasks_queue@ == old_self.tasks_queue@.push(next_attempt(t0)));
            }
            lemma_complete_wf(old_self, *self, p as int, success, now);
            assert forall|i: int| 0 <= i < self.in_flight@.len() implies (
            #[trigger] self.in_flight@[i]).task.id@ != task_id@ by {
                let k = if i < p {
                    i
                } else {
                    i + 1
                };
                assert(self.in_flight@[i] == old_self.in_flight@[k]);
            }
        }
        Ok(())
    }

    /// Credits worker `w` with a task that ran `dur` milliseconds.
    fn credit_worker(&mut self, w: &str, dur: u64, success: bool)
        ensures
            final(self).tasks_queue == old(self).tasks_queue,
            final(self).jobs == old(self).jobs,
            final(self).in_flight == old(self).in_flight,
            final(self).workers@.len() == old(self).workers@.len(),
            forall|i: int|
                0 <= i < old(self).workers@.len() ==> #[trigger] final(self).workers@[i] == if old(
                    self,
                ).workers@[i].0@ == w@ && (forall|k: int|
                    0 <= k < i ==> old(self).workers@[k].0@ != w@) {
                    (
                        old(self).workers@[i].0,
                        worker_credited(old(self).workers@[i].1, dur, success),
                    )
                } else {
                    old(self).workers@[i]
                },
    {
        if let Some(k) = self.find_worker(w) {
            self.workers[k].1.total_task_time_ms = self.workers[k].1.total_task_time_ms.saturating_add(
                dur,
            );
            if success {
                if self.workers[k].1.tasks_succeeded < u64::MAX {
                    self.workers[k].1.tasks_succeeded = self.workers[k].1.tasks_succeeded + 1;
                }
            } else {
                if self.workers[k].1.tasks_failed < u64::MAX {
                    self.workers[k].1.tasks_failed = self.workers[k].1.tasks_failed + 1;
                }
            }
        }
    }

    /// Records the outcome of `task`, a task of job `j`, at `now`.
    fn settle_job(&mut self, j: usize, task: Task, success: bool, now: u64)
        requires
            j < old(self).jobs@.len(),
            old(self).jobs@[j as int].id@ == task.job_id@,
            old(self).jobs@[j as int].completed_tasks + old(self).jobs@[j as int].failed_tasks
                < old(self).jobs@[j as int].total_tasks,
        ensures
            final(self).in_flight == old(self).in_flight,
            final(self).workers == old(self).workers,
            final(self).tasks_queue@ == if !success && can_retry(task) {
                old(self).tasks_queue@.push(next_attempt(task))
            } else {
                old(self).tasks_queue@
            },
            final(self).jobs@.len() == old(self).jobs@.len(),
            forall|i: int|
                0 <= i < old(self).jobs@.len() && i != j ==> #[trigger] final(self).jobs@[i] == old(
                    self,
                ).jobs@[i],
            final(self).jobs@[j as int] == if success {
                job_completed(
                    old(self).jobs@[j as int],
                    queued_of(final(self).tasks_queue@, task.job_id@) + inflight_of(
                        final(self).in_flight@,
                        task.job_id@,
                    ) == 0,
                    now,
                )
            } else if can_retry(task) {
                job_retried(old(self).jobs@[j as int])
            } else {
                job_failed(old(self).jobs@[j as int], now)
            },
    {
        if !success {
            if task.attempt < MAX_TASK_ATTEMPTS - 1 {
                let mut t = task;
                t.attempt = t.attempt + 1;
                if self.jobs[j].retries < u32::MAX {
                    self.jobs[j].retries = self.jobs[j].retries + 1;
                }
                self.tasks_queue.push(t);
            } else {
                self.jobs[j].failed_tasks = self.jobs[j].failed_tasks + 1;
                self.jobs[j].status = JobStatus::Failed;
                self.jobs[j].finished_at = Some(now);
            }
        } else {
            self.jobs[j].completed_tasks = self.jobs[j].completed_tasks + 1;
            let pending = self.job_has_pending(task.job_id.as_str());
            if !pending {
                if self.jobs[j].status != JobStatus::Failed {
                    self.jobs[j].status = JobStatus::Succeeded;
                }
                self.jobs[j].finished_at = Some(now);
            }
        }
    }

    /// The first step of the failover sweep: marks dead every live worker
    /// silent for longer than [`WORKER_HEARTBEAT_TIMEOUT_MS`] at `now`, and
    /// returns their ids.
    fn mark_dead(&mut self, now: u64) -> (r: Vec<String>)
        ensures
            final(self).tasks_queue == old(self).tasks_queue,
            final(self).jobs == old(self).jobs,
            final(self).in_flight == old(self).in_flight,
            final(self).workers@.len() == old(self).workers@.len(),
            forall|i: int|
                0 <= i < old(self).workers@.len() ==> #[trigger] final(self).workers@[i] == (
                    old(self).workers@[i].0,
                    meta_swept(old(self).workers@[i].1, now),
                ),
            forall|x: Seq<char>|
                #[trigger] ids_of(r@).contains(x) <==> exists|k: int|
                    0 <= k < old(self).workers@.len() && old(self).workers@[k].0@ == x && !old(
                        self,
                    ).workers@[k].1.dead && expired(old(self).workers@[k].1.last_heartbeat, now),
    {
        let mut r: Vec<String> = Vec::new();
        let ghost w0 = self.workers@;
        let mut i: usize = 0;
        while i < self.workers.len()
            invariant
                i <= self.workers@.len(),
                self.workers@.len() == w0.len(),
                self.tasks_queue == old(self).tasks_queue,
                self.jobs == old(self).jobs,
                self.in_flight == old(self).in_flight,
                w0 == old(self).workers@,
                forall|k: int| 0 <= k < i ==> #[trigger] self.workers@[k] == (w0[k].0, meta_swept(w0[k].1, now)),
                forall|k: int| i <= k < w0.len() ==> #[trigger] self.workers@[k] == w0[k],
                forall|x: Seq<char>|
                    #[trigger] ids_of(r@).contains(x) <==> exists|k: int|
                        0 <= k < i && w0[k].0@ == x && !w0[k].1.dead && expired(
                            w0[k].1.last_heartbeat,
                            now,
                        ),
            decreases w0.len() - i,
        {
            let last = self.workers[i].1.last_heartbeat;
            let was_dead = self.workers[i].1.dead;
            let ghost r0 = r@;
            if !was_dead && now > last && now - last > WORKER_HEARTBEAT_TIMEOUT_MS {
                self.workers[i].1.dead = true;
                let id = self.workers[i].0.clone();
                r.push(id);
                proof {
                    assert(ids_of(r@) =~= ids_of(r0).push(w0[i as int].0@));
                }
            }
            proof {
                let newly = !w0[i as int].1.dead && expired(w0[i as int].1.last_heartbeat, now);
                let v = w0[i as int].0@;
                if newly {
                    assert(ids_of(r@) =~= ids_of(r0).push(v));
                } else {
                    assert(r@ == r0);
                }
                assert forall|x: Seq<char>|
                    #[trigger] ids_of(r@).contains(x) <==> exists|k: int|
                        0 <= k < i + 1 && w0[k].0@ == x && !w0[k].1.dead && expired(
                            w0[k].1.last_heartbeat,
                            now,
                        ) by {
                    if ids_of(r@).contains(x) {
                        let idx = choose|idx: int|
                            0 <= idx < ids_of(r@).len() && ids_of(r@)[idx] == x;
                        if idx < ids_of(r0).len() {
                            assert(ids_of(r0)[idx] == x);
                            assert(ids_of(r0).contains(x));
                        } else {
                            assert(x == v && newly);
                        }
                    }
                    if exists|k: int|
                        0 <= k < i + 1 && w0[k].0@ == x && !w0[k].1.dead && expired(
                            w0[k].1.last_heartbeat,
                            now,
                        ) {
                        let k = choose|k: int|
                            0 <= k < i + 1 && w0[k].0@ == x && !w0[k].1.dead && expired(
                                w0[k].1.last_heartbeat,
                                now,
                            );
                        if k == i {
                            assert(ids_of(r@)[ids_of(r@).len() - 1] == x);
                        } else {
                            assert(ids_of(r0).contains(x));
                            let idx = choose|idx: int|
                                0 <= idx < ids_of(r0).len() && ids_of(r0)[idx] == x;
                            assert(ids_of(r@)[idx] == x);
                        }
                    }
                }
            }
            i += 1;
        }
        r
    }

    /// The second step of the failover sweep: every in-flight entry of a
    /// worker in `dead` leaves the table; its task goes back to the tail of
    /// the queue with one more attempt when the attempt can still grow
    /// within [`MAX_TASK_ATTEMPTS`], and otherwise fails its job.
    fn reclaim(&mut self, dead: &Vec<String>, now: u64)
        requires
            old(self).wf(),
        ensures
            final(self).wf(),
            statuses_advance(old(self).jobs@, final(self).jobs@),
            final(self).workers == old(self).workers,
            final(self).in_flight@ == kept(old(self).in_flight@, ids_of(dead@)),
            final(self).tasks_queue@ == old(self).tasks_queue@ + requeued(
                old(self).in_flight@,
                ids_of(dead@),
            ),
            final(self).jobs@.len() == old(self).jobs@.len(),
            forall|m: int|
                0 <= m < old(self).jobs@.len() ==> #[trigger] final(self).jobs@[m] == job_swept(
                    old(self).jobs@[m],
                    retried_of(old(self).in_flight@, ids_of(dead@), old(self).jobs@[m].id@),
                    exhausted_of(old(self).in_flight@, ids_of(dead@), old(self).jobs@[m].id@),
                    now,
                ),
    {
        let ghost s0 = *self;
        let ghost dv = ids_of(dead@);
        let mut entries: Vec<InFlight> = Vec::new();
        std::mem::swap(&mut entries, &mut self.in_flight);
        let ghost f = entries@;
        let ghost j0 = self.jobs@;
        proof {
            assert(f == s0.in_flight@);
            assert(f.take(0) =~= Seq::<InFlight>::empty());
            assert(s0.tasks_queue@ + Seq::<Task>::empty() =~= s0.tasks_queue@);
            assert forall|m: int| 0 <= m < j0.len() implies j0[m].failed_tasks + inflight_of(
                f,
                j0[m].id@,
            ) <= j0[m].total_tasks by {
                assert(s0.balanced(s0.jobs@[m]));
            }
            assert forall|m: int| 0 <= m < j0.len() implies #[trigger] self.jobs@[m] == job_swept(
                j0[m],
                retried_of(f.take(0), dv, j0[m].id@),
                exhausted_of(f.take(0), dv, j0[m].id@),
                now,
            ) by {
                assert(sat32(j0[m].retries, 0) == j0[m].retries);
            }
        }
        let mut i: usize = 0;
        while i < entries.len()
            invariant
                entries@ == f,
                f == s0.in_flight@,
                dv == ids_of(dead@),
                j0 == s0.jobs@,
                s0.wf(),
                i <= f.len(),
                self.workers == s0.workers,
                self.in_flight@ == kept(f.take(i as int), dv),
                self.tasks_queue@ == s0.tasks_queue@ + requeued(f.take(i as int), dv),
                self.jobs@.len() == j0.len(),
                forall|m: int|
                    0 <= m < j0.len() ==> #[trigger] self.jobs@[m] == job_swept(
                        j0[m],
                        retried_of(f.take(i as int), dv, j0[m].id@),
                        exhausted_of(f.take(i as int), dv, j0[m].id@),
                        now,
                    ),
                forall|m: int|
                    0 <= m < j0.len() ==> j0[m].failed_tasks + inflight_of(f, j0[m].id@)
                        <= j0[m].total_tasks,
            decreases f.len() - i,
        {
            let ghost pre = f.take(i as int);
            let ghost post = f.take(i + 1);
            proof {
                assert(post.drop_last() =~= pre);
                assert(post.last() == f[i as int]);
            }
            let is_lost = contains_id(dead, entries[i].worker_id.as_str());
            if is_lost {
                let jidx = self.find_job(entries[i].task.job_id.as_str());
                let ghost jid = f[i as int].task.job_id@;
                proof {
                    assert(s0.has_job(jid));
                    if jidx is None {
                        let c = choose|m: int| 0 <= m < j0.len() && j0[m].id@ == jid;
                        assert(self.jobs@[c].id@ == j0[c].id@);
                        assert(false);
                    }
                }
                let j = jidx.unwrap();
                proof {
                    assert(self.jobs@[j as int].id@ == j0[j as int].id@);
                    assert forall|m: int| 0 <= m < j0.len() && m != j implies j0[m].id@ != jid by {
                        assert(self.jobs@[m].id@ == j0[m].id@);
                        if m < j {
                            assert(j0[m].id@ != j0[j as int].id@);
                        } else {
                            assert(j0[j as int].id@ != j0[m].id@);
                        }
                    }
                }
                if entries[i].task.attempt < MAX_TASK_ATTEMPTS - 1 {
                    let mut t = entries[i].task.copy();
                    t.attempt = t.attempt + 1;
                    self.tasks_queue.push(t);
                    if self.jobs[j].retries < u32::MAX {
                        self.jobs[j].retries = self.jobs[j].retries + 1;
                    }
                    proof {
                        assert(self.tasks_queue@ =~= s0.tasks_queue@ + requeued(post, dv));
                    }
                } else {
                    proof {
                        lemma_sweep_parts(post, dv, jid, jid);
                        lemma_inflight_concat(post, f.skip(i + 1), jid);
                        assert(f =~= post + f.skip(i + 1));
                    }
                    self.jobs[j].failed_tasks = self.jobs[j].failed_tasks + 1;
                    self.jobs[j].status = JobStatus::Failed;
                    self.jobs[j].finished_at = Some(now);
                }
            } else {
                let t = entries[i].task.copy();
                let w = entries[i].worker_id.clone();
                self.in_flight.push(InFlight { task: t, worker_id: w, started_at: entries[i].started_at });
            }
            i += 1;
        }
        proof {
            assert(f.take(f.len() as int) =~= f);
            lemma_reclaim_wf(s0, *self, dv, now);
        }
    }

    /// One pass of the failover sweep at `now`. Every live worker silent for
    /// longer than [`WORKER_HEARTBEAT_TIMEOUT_MS`] is marked dead, and its
    /// ids are returned. Every in-flight entry of those workers leaves the
    /// table: its task goes back to the tail of the queue with one more
    /// attempt when it may run again ([`can_retry`]), and otherwise fails
    /// its job. Afterwards no in-flight entry
    /// references a worker that this pass marked dead.
    pub fn sweep_once(&mut self, now: u64) -> (r: Vec<String>)
        requires
            old(self).wf(),
        ensures
            final(self).wf(),
            statuses_advance(old(self).jobs@, final(self).jobs@),
            final(self).workers@.len() == old(self).workers@.len(),
            forall|i: int|
                0 <= i < old(self).workers@.len() ==> #[trigger] final(self).workers@[i] == (
                    old(self).workers@[i].0,
                    meta_swept(old(self).workers@[i].1, now),
                ),
            forall|i: int|
                0 <= i < old(self).workers@.len() ==> (ids_of(r@).contains(
                    #[trigger] old(self).workers@[i].0@,
                ) <==> !old(self).workers@[i].1.dead && expired(
                    old(self).workers@[i].1.last_heartbeat,
                    now,
                )),
            forall|x: Seq<char>|
                #[trigger] ids_of(r@).contains(x) ==> exists|i: int|
                    0 <= i < old(self).workers@.len() && old(self).workers@[i].0@ == x,
            forall|i: int|
                0 <= i < final(self).in_flight@.len() ==> !ids_of(r@).contains(
                    (#[trigger] final(self).in_flight@[i]).worker_id@,
                ),
            forall|i: int|
                0 <= i < old(self).in_flight@.len() && lost(old(self).in_flight@[i], ids_of(r@))
                    && !can_retry(old(self).in_flight@[i].task) ==> {
                    &&& forall|k: int|
                        0 <= k < final(self).tasks_queue@.len() ==> final(self).tasks_queue@[k].id@
                            != (#[trigger] old(self).in_flight@[i]).task.id@
                    &&& forall|k: int|
                        0 <= k < final(self).in_flight@.len() ==> final(self).in_flight@[k].task.id@
                            != old(self).in_flight@[i].task.id@
                },
            final(self).in_flight@ == kept(old(self).in_flight@, ids_of(r@)),
            final(self).tasks_queue@ == old(self).tasks_queue@ + requeued(
                old(self).in_flight@,
                ids_of(r@),
            ),
            final(self).jobs@.len() == old(self).jobs@.len(),
            forall|m: int|
                0 <= m < old(self).jobs@.len() ==> #[trigger] final(self).jobs@[m] == job_swept(
                    old(self).jobs@[m],
                    retried_of(old(self).in_flight@, ids_of(r@), old(self).jobs@[m].id@),
                    exhausted_of(old(self).in_flight@, ids_of(r@), old(self).jobs@[m].id@),
                    now,
                ),
    {
        let ghost s0 = *self;
        let dead = self.mark_dead(now);
        proof {
            let s1 = *self;
            assert forall|i: int| 0 <= i < s1.workers@.len() implies #[trigger] s1.within_cap(
                s1.workers@[i],
            ) by {
                assert(s0.within_cap(s0.workers@[i]));
            }
            assert forall|i: int, k: int| 0 <= i < k < s1.workers@.len() implies s1.workers@[i].0@
                != s1.workers@[k].0@ by {
                assert(s1.workers@[i].0 == s0.workers@[i].0);
                assert(s1.workers@[k].0 == s0.workers@[k].0);
            }
            assert forall|i: int| 0 <= i < s1.jobs@.len() implies #[trigger] s1.balanced(
                s1.jobs@[i],
            ) by {
                assert(s0.balanced(s0.jobs@[i]));
            }
            assert forall|i: int| 0 <= i < s1.jobs@.len() implies #[trigger] s1.settled(
                s1.jobs@[i],
            ) by {
                assert(s0.settled(s0.jobs@[i]));
            }
            assert forall|id: Seq<char>| s0.has_job(id) implies s1.has_job(id) by {}
            assert forall|i: int| 0 <= i < s1.tasks_queue@.len() implies #[trigger] s1.has_job(
                s1.tasks_queue@[i].job_id@,
            ) by {
                assert(s0.has_job(s0.tasks_queue@[i].job_id@));
            }
            assert forall|i: int| 0 <= i < s1.in_flight@.len() implies #[trigger] s1.has_job(
                s1.in_flight@[i].task.job_id@,
            ) by {
                assert(s0.has_job(s0.in_flight@[i].task.job_id@));
            }
            assert(s1.wf());
            assert forall|i: int| 0 <= i < s0.workers@.len() implies (ids_of(dead@).contains(
                #[trigger] s0.workers@[i].0@,
            ) <==> !s0.workers@[i].1.dead && expired(s0.workers@[i].1.last_heartbeat, now)) by {
                if ids_of(dead@).contains(s0.workers@[i].0@) {
                    let k = choose|k: int|
                        0 <= k < s0.workers@.len() && s0.workers@[k].0@ == s0.workers@[i].0@
                            && !s0.workers@[k].1.dead && expired(
                            s0.workers@[k].1.last_heartbeat,
                            now,
                        );
                    if k < i {
                        assert(s0.workers@[k].0@ != s0.workers@[i].0@);
                    } else if k > i {
                        assert(s0.workers@[i].0@ != s0.workers@[k].0@);
                    }
                }
            }
        }
        self.reclaim(&dead, now);
        proof {
            let f = s0.in_flight@;
            let dv = ids_of(dead@);
            lemma_sweep_members(f, dv);
            lemma_sweep_ids(f, dv);
            let q0 = s0.tasks_queue@;
            assert forall|i: int|
                0 <= i < f.len() && lost(f[i], dv) && !can_retry(f[i].task) implies {
                &&& forall|k: int|
                    0 <= k < self.tasks_queue@.len() ==> self.tasks_queue@[k].id@
                        != (#[trigger] f[i]).task.id@
                &&& forall|k: int|
                    0 <= k < self.in_flight@.len() ==> self.in_flight@[k].task.id@ != f[i].task.id@
            } by {
                assert forall|k: int| 0 <= k < self.tasks_queue@.len() implies self.tasks_queue@[k].id@
                    != f[i].task.id@ by {
                    if k < q0.len() {
                        assert(self.tasks_queue@[k] == q0[k]);
                    } else {
                        let b = k - q0.len();
                        assert(self.tasks_queue@[k] == requeued(f, dv)[b]);
                        let m = choose|m: int|
                            0 <= m < f.len() && lost(f[m], dv) && can_retry(f[m].task) && (#[trigger] requeued(f, dv)[b]).id@
                                == f[m].task.id@;
                        if m < i {
                        } else if m > i {
                        }
                    }
                }
                assert forall|k: int| 0 <= k < self.in_flight@.len() implies self.in_flight@[k].task.id@
                    != f[i].task.id@ by {
                    let m = choose|m: int|
                        0 <= m < f.len() && !lost(f[m], dv) && #[trigger] kept(f, dv)[k] == f[m];
                    if m < i {
                    } else if m > i {
                    }
                }
            }
        }
        dead
    }

    /// Job admission: job `job_id` gets one task per path of `inputs` (the
    /// regular files its glob matched, in order), with ids from `task_ids`,
    /// all queued FIFO at the tail (see [`admitted`]). A job id already
    /// known, or task ids that repeat or are already queued or in flight,
    /// are refused and change nothing.
    pub fn admit_job(
        &mut self,
        job_id: String,
        req: JobRequest,
        inputs: &Vec<String>,
        task_ids: &Vec<String>,
        now: u64,
    ) -> (r: Result<(), SchedError>)
        requires
            old(self).wf(),
            inputs@.len() == task_ids@.len(),
            inputs@.len() <= u32::MAX,
        ensures
            final(self).wf(),
            statuses_advance(old(self).jobs@, final(self).jobs@),
            r is Err <==> old(self).has_job(job_id@) || !old(self).fresh_ids(ids_of(task_ids@)),
            r is Err ==> r == Err::<(), SchedError>(SchedError::DuplicateId) && *final(self) == *old(
                self,
            ),
            r is Ok ==> admitted(*old(self), *final(self), job_id@, req, inputs@, ids_of(task_ids@), now),
    {
        if let Some(_) = self.find_job(job_id.as_str()) {
            proof {
                assert forall|i: int| 0 <= i < self.jobs@.len() implies {
                    &&& (#[trigger] self.jobs@[i]).id == self.jobs@[i].id
                    &&& status_rank(self.jobs@[i].status) <= status_rank(self.jobs@[i].status)
                    &&& self.jobs@[i].status.is_terminal() ==> self.jobs@[i].status == self.jobs@[i].status
                } by {}
            }
            return Err(SchedError::DuplicateId);
        }
        if !self.ids_fresh(task_ids) {
            proof {
                assert forall|i: int| 0 <= i < self.jobs@.len() implies {
                    &&& (#[trigger] self.jobs@[i]).id == self.jobs@[i].id
                    &&& status_rank(self.jobs@[i].status) <= status_rank(self.jobs@[i].status)
                    &&& self.jobs@[i].status.is_terminal() ==> self.jobs@[i].status == self.jobs@[i].status
                } by {}
            }
            return Err(SchedError::DuplicateId);
        }
        let ghost s0 = *self;
        let ghost q0 = self.tasks_queue@;
        let par: u32 = if req.parallelism == 0 {
            1
        } else {
            req.parallelism
        };
        let output_dir = join_with(req.output_dir.as_str(), '/', job_id.as_str());
        let n = inputs.len();
        let mut i: usize = 0;
        while i < n
            invariant
                n == inputs@.len(),
                n == task_ids@.len(),
                n <= u32::MAX,
                i <= n,
                par == effective_parallelism(req.parallelism),
                self.jobs == s0.jobs,
                self.in_flight == s0.in_flight,
                self.workers == s0.workers,
                self.tasks_queue@.len() == q0.len() + i,
                self.tasks_queue@.take(q0.len() as int) == q0,
                forall|k: int|
                    0 <= k < i ==> {
                        let t = #[trigger] self.tasks_queue@[q0.len() + k];
                        &&& t.id@ == task_ids@[k]@
                        &&& t.job_id@ == job_id@
                        &&& t.node_id@ == "wordcount"@
                        &&& t.attempt == 0
                        &&& t.stage == 0
                        &&& t.partition == k % (par as int)
                        &&& t.parallelism == par
                        &&& t.input_path@ == inputs@[k]@
                        &&& t.output_path@ == output_dir@ + seq!['/'] + base_name(inputs@[k]@)
                    },
            decreases n - i,
        {
            let name = file_name_of(inputs[i].as_str());
            let t = Task {
                id: task_ids[i].clone(),
                job_id: job_id.clone(),
                node_id: owned("wordcount"),
                attempt: 0,
                stage: 0,
                partition: (i as u32) % par,
                parallelism: par,
                input_path: inputs[i].clone(),
                output_path: join_with(output_dir.as_str(), '/', name.as_str()),
            };
            let ghost before = self.tasks_queue@;
            self.tasks_queue.push(t);
            proof {
                assert(self.tasks_queue@.take(q0.len() as int) =~= before.take(q0.len() as int));
                assert(self.tasks_queue@[q0.len() + i] == t);
            }
            i += 1;
        }
        let job = JobInfo {
            id: job_id,
            name: req.name,
            status: if n == 0 {
                JobStatus::Succeeded
            } else {
                JobStatus::Accepted
            },
            dag: req.dag,
            parallelism: req.parallelism,
            input_glob: req.input_glob,
            output_dir: output_dir,
            submitted_at: now,
            started_at: None,
            finished_at: if n == 0 {
                Some(now)
            } else {
                None
            },
            total_tasks: n as u32,
            completed_tasks: 0,
            failed_tasks: 0,
            retries: 0,
        };
        self.jobs.push(job);
        proof {
            assert(self.jobs@.drop_last() =~= s0.jobs@);
            assert forall|i: int| 0 <= i < s0.jobs@.len() implies {
                &&& (#[trigger] self.jobs@[i]).id == s0.jobs@[i].id
                &&& status_rank(s0.jobs@[i].status) <= status_rank(self.jobs@[i].status)
                &&& s0.jobs@[i].status.is_terminal() ==> self.jobs@[i].status == s0.jobs@[i].status
            } by {
                assert(self.jobs@[i] == s0.jobs@[i]);
            }
            assert(!s0.has_job(self.jobs@.last().id@));
            assert forall|k: int|
                q0.len() <= k < self.tasks_queue@.len() implies (#[trigger] self.tasks_queue@[k]).job_id@
                == self.jobs@.last().id@ by {
                assert(self.tasks_queue@[q0.len() + (k - q0.len())] == self.tasks_queue@[k]);
            }
            let ids = ids_of(task_ids@);
            assert forall|k: int, m: int|
                q0.len() <= k < m < self.tasks_queue@.len() implies self.tasks_queue@[k].id@
                != self.tasks_queue@[m].id@ by {
                assert(self.tasks_queue@[q0.len() + (k - q0.len())] == self.tasks_queue@[k]);
                assert(self.tasks_queue@[q0.len() + (m - q0.len())] == self.tasks_queue@[m]);
                assert(ids[k - q0.len()] == task_ids@[k - q0.len()]@);
                assert(ids[m - q0.len()] == task_ids@[m - q0.len()]@);
            }
            assert forall|k: int| q0.len() <= k < self.tasks_queue@.len() implies !s0.id_taken(
                (#[trigger] self.tasks_queue@[k]).id@,
            ) by {
                assert(self.tasks_queue@[q0.len() + (k - q0.len())] == self.tasks_queue@[k]);
                assert(ids[k - q0.len()] == task_ids@[k - q0.len()]@);
            }
            lemma_admit_wf(s0, *self, n as nat);
        }
        Ok(())
    }

    /// Registration of worker `worker_id`, heard from at `now`. An id that
    /// is registered already, or that in-flight tasks reference, is refused.
    pub fn register_worker_with_id(
        &mut self,
        worker_id: String,
        req: WorkerRegisterRequest,
        now: u64,
    ) -> (r: Result<WorkerRegisterResponse, SchedError>)
        requires
            old(self).wf(),
        ensures
            final(self).wf(),
            r is Err <==> ((exists|i: int|
                0 <= i < old(self).workers@.len() && old(self).workers@[i].0@ == worker_id@)
                || load_of(old(self).in_flight@, worker_id@) > 0),
            r is Err ==> r == Err::<WorkerRegisterResponse, SchedError>(SchedError::DuplicateId)
                && *final(self) == *old(self),
            r is Ok ==> r->Ok_0.worker_id@ == worker_id@ && registered(
                *old(self),
                *final(self),
                worker_id@,
                req,
                now,
            ),
    {
        if let Some(_) = self.find_worker(worker_id.as_str()) {
            return Err(SchedError::DuplicateId);
        }
        if self.active_for_worker(worker_id.as_str()) > 0 {
            return Err(SchedError::DuplicateId);
        }
        let ghost s0 = *self;
        let resp = WorkerRegisterResponse { worker_id: worker_id.clone() };
        let meta = WorkerMeta {
            hostname: req.hostname,
            last_heartbeat: now,
            dead: false,
            max_concurrency: req.max_concurrency,
            tasks_started: 0,
            tasks_succeeded: 0,
            tasks_failed: 0,
            total_task_time_ms: 0,
            last_mem_bytes: None,
        };
        self.workers.push((worker_id, meta));
        proof {
            assert(self.workers@.drop_last() =~= s0.workers@);
            assert forall|i: int| 0 <= i < self.jobs@.len() implies #[trigger] self.balanced(
                self.jobs@[i],
            ) by {
                assert(s0.balanced(s0.jobs@[i]));
            }
            assert forall|i: int| 0 <= i < self.jobs@.len() implies #[trigger] self.settled(
                self.jobs@[i],
            ) by {
                assert(s0.settled(s0.jobs@[i]));
            }
            assert forall|i: int| 0 <= i < self.workers@.len() implies #[trigger] self.within_cap(
                self.workers@[i],
            ) by {
                if i < s0.workers@.len() {
                    assert(s0.within_cap(s0.workers@[i]));
                }
            }
            assert forall|i: int, k: int| 0 <= i < k < self.workers@.len() implies self.workers@[i].0@
                != self.workers@[k].0@ by {
                assert(self.workers@[i] == s0.workers@[i]);
                if k < s0.workers@.len() {
                    assert(self.workers@[k] == s0.workers@[k]);
                }
            }
            assert forall|i: int| 0 <= i < self.tasks_queue@.len() implies #[trigger] self.has_job(
                self.tasks_queue@[i].job_id@,
            ) by {
                assert(s0.has_job(s0.tasks_queue@[i].job_id@));
            }
            assert forall|i: int| 0 <= i < self.in_flight@.len() implies #[trigger] self.has_job(
                self.in_flight@[i].task.job_id@,
            ) by {
                assert(s0.has_job(s0.in_flight@[i].task.job_id@));
            }
        }
        Ok(resp)
    }

    /// Job admission under a fresh random job id; task `k` gets the id
    /// `<job id>-<k>` (see [`AppState::admit_job`]). Returns the job id.
    /// Into an empty job table admission always succeeds.
    pub fn create_job(&mut self, req: JobRequest, inputs: &Vec<String>, now: u64) -> (r: Result<
        String,
        SchedError,
    >)
        requires
            old(self).wf(),
            inputs@.len() <= u32::MAX,
        ensures
            final(self).wf(),
            statuses_advance(old(self).jobs@, final(self).jobs@),
            old(self).jobs@.len() == 0 ==> r is Ok,
            r is Err ==> r == Err::<String, SchedError>(SchedError::DuplicateId) && *final(self)
                == *old(self),
            r is Ok ==> admitted(
                *old(self),
                *final(self),
                r->Ok_0@,
                req,
                inputs@,
                task_ids_for(r->Ok_0@, inputs@.len()),
                now,
            ),
    {
        let job_id = fresh_id();
        let mut task_ids: Vec<String> = Vec::new();
        let mut i: usize = 0;
        while i < inputs.len()
            invariant
                i <= inputs@.len(),
                ids_of(task_ids@) == task_ids_for(job_id@, i as nat),
            decreases inputs@.len() - i,
        {
            let mut v = crate::text::chars_of(job_id.as_str());
            v.push('-');
            crate::counts::push_decimal(&mut v, i as u64);
            let ghost before = task_ids@;
            let t = crate::text::string_from_chars(&v);
            assert(t@ == job_id@ + seq!['-'] + crate::counts::decimal(i as nat));
            task_ids.push(t);
            proof {
                let a = ids_of(task_ids@);
                let b = task_ids_for(job_id@, (i + 1) as nat);
                assert(ids_of(before).len() == before.len());
                assert(before.len() == i);
                assert(task_ids@ == before.push(t));
                assert(a.len() == i + 1);
                assert forall|k: int| 0 <= k < a.len() implies a[k] == b[k] by {
                    if k < i {
                        assert(task_ids@[k] == before[k]);
                        assert(ids_of(before)[k] == task_ids_for(job_id@, i as nat)[k]);
                    }
                }
                assert(a =~= b);
            }
            i += 1;
        }
        proof {
            let ids = ids_of(task_ids@);
            let jv = job_id@;
            assert forall|a: int, b: int| 0 <= a < b < ids.len() implies ids[a] != ids[b] by {
                if ids[a] == ids[b] {
                    assert(ids[a].skip(jv.len() as int + 1) =~= crate::counts::decimal(a as nat));
                    assert(ids[b].skip(jv.len() as int + 1) =~= crate::counts::decimal(b as nat));
                    crate::counts::lemma_decimal_injective(a as nat, b as nat);
                }
            }
            if self.jobs@.len() == 0 {
                assert(self.tasks_queue@.len() == 0) by {
                    if self.tasks_queue@.len() > 0 {
                        assert(self.has_job(self.tasks_queue@[0].job_id@));
                    }
                }
                assert(self.in_flight@.len() == 0) by {
                    if self.in_flight@.len() > 0 {
                        assert(self.has_job(self.in_flight@[0].task.job_id@));
                    }
                }
                assert(self.fresh_ids(ids));
            }
        }
        let ret = job_id.clone();
        match self.admit_job(job_id, req, inputs, &task_ids, now) {
            Ok(()) => Ok(ret),
            Err(e) => Err(e),
        }
    }

    /// Registration of a worker under a fresh random id (see
    /// [`AppState::register_worker_with_id`]). With no worker registered
    /// and nothing in flight it always succeeds.
    pub fn register_worker(&mut self, req: WorkerRegisterRequest, now: u64) -> (r: Result<
        WorkerRegisterResponse,
        SchedError,
    >)
        requires
            old(self).wf(),
        ensures
            final(self).wf(),
            old(self).workers@.len() == 0 && old(self).in_flight@.len() == 0 ==> r is Ok,
            r is Err ==> r == Err::<WorkerRegisterResponse, SchedError>(SchedError::DuplicateId)
                && *final(self) == *old(self),
            r is Ok ==> registered(*old(self), *final(self), r->Ok_0.worker_id@, req, now),
    {
        let id = fresh_id();
        self.register_worker_with_id(id, req, now)
    }

    /// Heartbeat of a registered worker at `now`.
    pub fn worker_heartbeat(&mut self, req: &WorkerHeartbeatRequest, now: u64) -> (r: Result<
        WorkerHeartbeatResponse,
        SchedError,
    >)
        requires
            old(self).wf(),
        ensures
            final(self).wf(),
            r is Err <==> forall|i: int|
                0 <= i < old(self).workers@.len() ==> old(self).workers@[i].0@ != req.worker_id@,
            r is Err ==> r == Err::<WorkerHeartbeatResponse, SchedError>(SchedError::NotFound)
                && *final(self) == *old(self),
            r is Ok ==> r.unwrap().ok && final(self).jobs == old(self).jobs
                && final(self).tasks_queue == old(self).tasks_queue
                && final(self).in_flight == old(self).in_flight
                && final(self).workers@.len() == old(self).workers@.len() && forall|i: int|
                0 <= i < old(self).workers@.len() ==> #[trigger] final(self).workers@[i] == if old(
                    self,
                ).workers@[i].0@ == req.worker_id@ {
                    (
                        old(self).workers@[i].0,
                        WorkerMeta {
                            last_heartbeat: now,
                            last_mem_bytes: if req.mem_bytes is Some {
                                req.mem_bytes
                            } else {
                                old(self).workers@[i].1.last_mem_bytes
                            },
                            ..old(self).workers@[i].1
                        },
                    )
                } else {
                    old(self).workers@[i]
                },
    {
        match self.find_worker(req.worker_id.as_str()) {
            None => Err(SchedError::NotFound),
            Some(k) => {
                let ghost s0 = *self;
                self.workers[k].1.last_heartbeat = now;
                if let Some(m) = req.mem_bytes {
                    self.workers[k].1.last_mem_bytes = Some(m);
                }
                proof {
                    assert forall|i: int| 0 <= i < self.jobs@.len() implies #[trigger] self.balanced(
                        self.jobs@[i],
                    ) by {
                        assert(s0.balanced(s0.jobs@[i]));
                    }
                    assert forall|i: int| 0 <= i < self.jobs@.len() implies #[trigger] self.settled(
                        self.jobs@[i],
                    ) by {
                        assert(s0.settled(s0.jobs@[i]));
                    }
                    assert forall|i: int|
                        0 <= i < self.workers@.len() implies #[trigger] self.within_cap(
                        self.workers@[i],
                    ) by {
                        assert(s0.within_cap(s0.workers@[i]));
                    }
                    assert forall|i: int, m: int|
                        0 <= i < m < self.workers@.len() implies self.workers@[i].0@
                        != self.workers@[m].0@ by {
                        assert(self.workers@[i].0 == s0.workers@[i].0);
                        assert(self.workers@[m].0 == s0.workers@[m].0);
                    }
                    assert forall|i: int|
                        0 <= i < self.tasks_queue@.len() implies #[trigger] self.has_job(
                        self.tasks_queue@[i].job_id@,
                    ) by {
                        assert(s0.has_job(s0.tasks_queue@[i].job_id@));
                    }
                    assert forall|i: int|
                        0 <= i < self.in_flight@.len() implies #[trigger] self.has_job(
                        self.in_flight@[i].task.job_id@,
                    ) by {
                        assert(s0.has_job(s0.in_flight@[i].task.job_id@));
                    }
                    assert forall|i: int| 0 <= i < s0.workers@.len() && i != k implies s0.workers@[i].0@
                        != req.worker_id@ by {
                        if i < k {
                            assert(s0.workers@[i].0@ != s0.workers@[k as int].0@);
                        } else {
                            assert(s0.workers@[k as int].0@ != s0.workers@[i].0@);
                        }
                    }
                }
                Ok(WorkerHeartbeatResponse { ok: true })
            }
        }
    }

    /// Job `id`.
    pub fn get_job(&self, id: &str) -> (r: Option<&JobInfo>)
        ensures
            match r {
                Some(j) => j.id@ == id@ && exists|i: int|
                    0 <= i < self.jobs@.len() && self.jobs@[i] == *j,
                None => forall|i: int| 0 <= i < self.jobs@.len() ==> self.jobs@[i].id@ != id@,
            },
    {
        match self.find_job(id) {
            Some(i) => Some(&self.jobs[i]),
            None => None,
        }
    }

    /// The results of job `id`, given the names of the files found in its
    /// output directory.
    pub fn job_results(&self, id: &str, files: Vec<String>) -> (r: Option<JobResults>)
        ensures
            match r {
                Some(res) => exists|i: int|
                    0 <= i < self.jobs@.len() && self.jobs@[i].id@ == id@ && res.job_id@ == id@
                        && res.output_dir@ == self.jobs@[i].output_dir@ && res.files == files,
                None => forall|i: int| 0 <= i < self.jobs@.len() ==> self.jobs@[i].id@ != id@,
            },
    {
        match self.find_job(id) {
            Some(i) => Some(
                JobResults {
                    job_id: self.jobs[i].id.clone(),
                    output_dir: self.jobs[i].output_dir.clone(),
                    files,
                },
            ),
            None => None,
        }
    }

    /// Metrics of every registered worker at `now`, in registration order.
    pub fn list_workers(&self, now: u64) -> (r: Vec<WorkerMetrics>)
        requires
            self.wf(),
        ensures
            r@.len() == self.workers@.len(),
            forall|i: int|
                0 <= i < r@.len() ==> {
                    let w = self.workers@[i];
                    let m = #[trigger] r@[i];
                    &&& m.worker_id@ == w.0@
                    &&& m.hostname@ == w.1.hostname@
                    &&& m.dead == w.1.dead
                    &&& m.max_concurrency == w.1.max_concurrency
                    &&& m.last_heartbeat_secs_ago == elapsed(w.1.last_heartbeat, now) / 1000
                    &&& m.active_tasks == load_of(self.in_flight@, w.0@)
                    &&& m.tasks_started == w.1.tasks_started
                    &&& m.tasks_succeeded == w.1.tasks_succeeded
                    &&& m.tasks_failed == w.1.tasks_failed
                    &&& m.avg_task_ms == w.1.total_task_time_ms / if w.1.tasks_succeeded == 0 {
                        1
                    } else {
                        w.1.tasks_succeeded
                    }
                },
    {
        let mut out: Vec<WorkerMetrics> = Vec::new();
        let mut i: usize = 0;
        while i < self.workers.len()
            invariant
                self.wf(),
                i <= self.workers@.len(),
                out@.len() == i,
                forall|k: int|
                    0 <= k < i ==> {
                        let w = self.workers@[k];
                        let m = #[trigger] out@[k];
                        &&& m.worker_id@ == w.0@
                        &&& m.hostname@ == w.1.hostname@
                        &&& m.dead == w.1.dead
                        &&& m.max_concurrency == w.1.max_concurrency
                        &&& m.last_heartbeat_secs_ago == elapsed(w.1.last_heartbeat, now) / 1000
                        &&& m.active_tasks == load_of(self.in_flight@, w.0@)
                        &&& m.tasks_started == w.1.tasks_started
                        &&& m.tasks_succeeded == w.1.tasks_succeeded
                        &&& m.tasks_failed == w.1.tasks_failed
                        &&& m.avg_task_ms == w.1.total_task_time_ms / if w.1.tasks_succeeded
                            == 0 {
                            1
                        } else {
                            w.1.tasks_succeeded
                        }
                    },
            decreases self.workers@.len() - i,
        {
            let active = self.active_for_worker(self.workers[i].0.as_str());
            proof {
                assert(self.within_cap(self.workers@[i as int]));
            }
            let meta = &self.workers[i].1;
            let age: u64 = if now >= meta.last_heartbeat {
                (now - meta.last_heartbeat) / 1000
            } else {
                0
            };
            let divisor: u64 = if meta.tasks_succeeded == 0 {
                1
            } else {
                meta.tasks_succeeded
            };
            out.push(
                WorkerMetrics {
                    worker_id: self.workers[i].0.clone(),
                    hostname: meta.hostname.clone(),
                    dead: meta.dead,
                    max_concurrency: meta.max_concurrency,
                    last_heartbeat_secs_ago: age,
                    active_tasks: active as u32,
                    tasks_started: meta.tasks_started,
                    tasks_succeeded: meta.tasks_succeeded,
                    tasks_failed: meta.tasks_failed,
                    avg_task_ms: meta.total_task_time_ms / divisor,
                },
            );
            i += 1;
        }
        out
    }

    /// Whether `id` is the id of a queued or in-flight task.
    fn id_in_use(&self, id: &str) -> (r: bool)
        ensures
            r == self.id_taken(id@),
    {
        let mut i: usize = 0;
        while i < self.tasks_queue.len()
            invariant
                i <= self.tasks_queue@.len(),
                forall|k: int| 0 <= k < i ==> self.tasks_queue@[k].id@ != id@,
            decreases self.tasks_queue@.len() - i,
        {
            if text_eq(self.tasks_queue[i].id.as_str(), id) {
                return true;
            }
            i += 1;
        }
        let mut k: usize = 0;
        while k < self.in_flight.len()
            invariant
                k <= self.in_flight@.len(),
                forall|m: int| 0 <= m < k ==> self.in_flight@[m].task.id@ != id@,
                forall|m: int| 0 <= m < self.tasks_queue@.len() ==> self.tasks_queue@[m].id@ != id@,
            decreases self.in_flight@.len() - k,
        {
            if text_eq(self.in_flight[k].task.id.as_str(), id) {
                return true;
            }
            k += 1;
        }
        false
    }

    /// Whether the ids `ids` are distinct and none is in use.
    pub fn ids_fresh(&self, ids: &Vec<String>) -> (r: bool)
        ensures
            r == self.fresh_ids(ids_of(ids@)),
    {
        let ghost v = ids_of(ids@);
        let mut i: usize = 0;
        while i < ids.len()
            invariant
                i <= ids@.len(),
                v == ids_of(ids@),
                forall|a: int, b: int| 0 <= a < b < ids@.len() && a < i ==> v[a] != v[b],
                forall|a: int| 0 <= a < i ==> !self.id_taken(#[trigger] v[a]),
            decreases ids@.len() - i,
        {
            assert(v[i as int] == ids@[i as int]@);
            if self.id_in_use(ids[i].as_str()) {
                return false;
            }
            let mut j: usize = i + 1;
            while j < ids.len()
                invariant
                    i < j <= ids@.len(),
                    v == ids_of(ids@),
                    v[i as int] == ids@[i as int]@,
                    forall|b: int| i < b < j ==> v[i as int] != v[b],
                decreases ids@.len() - j,
            {
                assert(v[j as int] == ids@[j as int]@);
                if text_eq(ids[i].as_str(), ids[j].as_str()) {
                    return false;
                }
                j += 1;
            }
            i += 1;
        }
        true
    }

    /// Whether a task of job `job` is queued or in flight.
    pub fn job_has_pending(&self, job: &str) -> (r: bool)
        ensures
            r == (queued_of(self.tasks_queue@, job@) + inflight_of(self.in_flight@, job@) > 0),
    {
        let mut i: usize = 0;
        while i < self.tasks_queue.len()
            invariant
                i <= self.tasks_queue@.len(),
                forall|k: int| 0 <= k < i ==> self.tasks_queue@[k].job_id@ != job@,
            decreases self.tasks_queue@.len() - i,
        {
            if text_eq(self.tasks_queue[i].job_id.as_str(), job) {
                proof {
                    lemma_queued_some(self.tasks_queue@, job@, i as int);
                }
                return true;
            }
            i += 1;
        }
        let mut k: usize = 0;
        while k < self.in_flight.len()
            invariant
                k <= self.in_flight@.len(),
                forall|m: int| 0 <= m < k ==> self.in_flight@[m].task.job_id@ != job@,
            decreases self.in_flight@.len() - k,
        {
            if text_eq(self.in_flight[k].task.job_id.as_str(), job) {
                proof {
                    lemma_inflight_some(self.in_flight@, job@, k as int);
                }
                return true;
            }
            k += 1;
        }
        proof {
            lemma_queued_none(self.tasks_queue@, job@);
            lemma_inflight_none(self.in_flight@, job@);
        }
        false
    }
}

} // verus!
