//! The table of background jobs.

use vstd::prelude::*;

verus! {

/// A background job tracked by the shell.
#[derive(Clone)]
pub struct Job {
    pub id: usize,
    pub pid: u32,
    pub command: String,
}

/// A job as plain values.
pub struct JobView {
    pub id: usize,
    pub pid: u32,
    pub command: Seq<char>,
}

impl View for Job {
    type V = JobView;

    open spec fn view(&self) -> JobView {
        JobView { id: self.id, pid: self.pid, command: self.command@ }
    }
}

/// Whether a background job is still running or has finished.
#[derive(PartialEq, Eq, Structural, Clone, Copy)]
pub enum JobStatus {
    Running,
    Done,
}

/// A job as `jobs` reports it: its number, command line and status.
pub struct JobSnapshot {
    pub id: usize,
    pub command: String,
    pub status: JobStatus,
}

/// A snapshot as plain values.
pub struct SnapshotView {
    pub id: usize,
    pub command: Seq<char>,
    pub status: JobStatus,
}

impl View for JobSnapshot {
    type V = SnapshotView;

    open spec fn view(&self) -> SnapshotView {
        SnapshotView { id: self.id, command: self.command@, status: self.status }
    }
}

/// The background jobs known to the shell, oldest first, and the number the
/// next job will get (numbers start at 1).
pub struct JobTable {
    next_id: usize,
    jobs: Vec<Job>,
}

/// A job table as plain values.
pub struct JobTableView {
    pub next_id: usize,
    pub jobs: Seq<JobView>,
}

/// The views of a sequence of jobs.
pub open spec fn jobs_view(s: Seq<Job>) -> Seq<JobView> {
    s.map_values(|j: Job| j@)
}

impl View for JobTable {
    type V = JobTableView;

    closed spec fn view(&self) -> JobTableView {
        JobTableView { next_id: self.next_id, jobs: jobs_view(self.jobs@) }
    }
}

/// Job numbers increase from oldest to newest, and are all below the next
/// number to assign.
pub open spec fn ids_ordered(t: JobTableView) -> bool {
    &&& forall|i: int, j: int|
        0 <= i < j < t.jobs.len() ==> #[trigger] t.jobs[i].id < #[trigger] t.jobs[j].id
    &&& forall|i: int| 0 <= i < t.jobs.len() ==> #[trigger] t.jobs[i].id < t.next_id
}

/// The snapshot of job `j`: done when its number is in `finished`.
pub open spec fn snapshot_of(j: JobView, finished: Seq<usize>) -> SnapshotView {
    SnapshotView {
        id: j.id,
        command: j.command,
        status: if finished.contains(j.id) {
            JobStatus::Done
        } else {
            JobStatus::Running
        },
    }
}

/// The jobs whose number is not in `finished`, in order.
pub open spec fn still_running(jobs: Seq<JobView>, finished: Seq<usize>) -> Seq<JobView>
    decreases jobs.len(),
{
    if jobs.len() == 0 {
        Seq::empty()
    } else if finished.contains(jobs.last().id) {
        still_running(jobs.drop_last(), finished)
    } else {
        still_running(jobs.drop_last(), finished).push(jobs.last())
    }
}

impl JobTable {
    /// An empty job table; the first job gets number 1.
    pub fn new() -> (t: Self)
        ensures
            t@.next_id == 1,
            t@.jobs == Seq::<JobView>::empty(),
            ids_ordered(t@),
    {
        let t = JobTable { next_id: 1, jobs: Vec::new() };
        assert(t@.jobs =~= Seq::<JobView>::empty());
        t
    }
}

/// Adds a background job to the table and returns its job number. Numbers
/// are handed out in sequence (wrapping around after `usize::MAX`).
pub fn add_job(table: &mut JobTable, pid: u32, command: String) -> (id: usize)
    ensures
        id == old(table)@.next_id,
        final(table)@.jobs == old(table)@.jobs.push(JobView { id, pid, command: command@ }),
        final(table)@.next_id == (if old(table)@.next_id == usize::MAX {
            0
        } else {
            old(table)@.next_id + 1
        }),
        ids_ordered(old(table)@) && old(table)@.next_id < usize::MAX ==> ids_ordered(final(table)@),
{
    proof {
        if ids_ordered(table@) && table@.next_id < usize::MAX {
            lemma_add_job_keeps_order(table@, pid, command@);
        }
    }
    let id = table.next_id;
    table.next_id = table.next_id.wrapping_add(1);
    let ghost cv = command@;
    let job = Job { id, pid, command };
    proof {
        assert(jobs_view(table.jobs@.push(job)) =~= jobs_view(table.jobs@).push(
            JobView { id, pid, command: cv },
        ));
    }
    table.jobs.push(job);
    id
}

/// The background jobs currently in the table, oldest first: in a table
/// whose job numbers are ordered, their numbers increase.
pub fn list_jobs(table: &JobTable) -> (r: Vec<Job>)
    ensures
        jobs_view(r@) == table@.jobs,
        ids_ordered(table@) ==> forall|i: int, j: int|
            0 <= i < j < r@.len() ==> #[trigger] r@[i].id < #[trigger] r@[j].id,
{
    let mut r: Vec<Job> = Vec::new();
    let n = table.jobs.len();
    let mut i: usize = 0;
    let ghost all = jobs_view(table.jobs@);
    assert(jobs_view(r@) =~= all.take(0));
    while i < n
        invariant
            n == table.jobs@.len(),
            all == jobs_view(table.jobs@),
            i <= n,
            jobs_view(r@) == all.take(i as int),
        decreases n - i,
    {
        let j = &table.jobs[i];
        let copy = Job { id: j.id, pid: j.pid, command: j.command.clone() };
        proof {
            assert(copy@ == all[i as int]);
            assert(jobs_view(r@.push(copy)) =~= jobs_view(r@).push(copy@));
            assert(all.take(i + 1) =~= all.take(i as int).push(all[i as int]));
        }
        r.push(copy);
        i = i + 1;
    }
    assert(all.take(n as int) =~= all);
    proof {
        if ids_ordered(table@) {
            assert forall|i: int, j: int| 0 <= i < j < r@.len() implies #[trigger] r@[i].id
                < #[trigger] r@[j].id by {
                assert(r@[i].id == jobs_view(r@)[i].id && r@[j].id == jobs_view(r@)[j].id);
                assert(table@.jobs[i].id < table@.jobs[j].id);
            }
        }
    }
    r
}

fn contains_id(ids: &Vec<usize>, id: usize) -> (b: bool)
    ensures
        b == ids@.contains(id),
{
    let n = ids.len();
    let mut i: usize = 0;
    while i < n
        invariant
            n == ids@.len(),
            i <= n,
            forall|k: int| 0 <= k < i ==> ids@[k] != id,
        decreases n - i,
    {
        if ids[i] == id {
            assert(ids@[i as int] == id);
            return true;
        }
        i = i + 1;
    }
    false
}

/// Reports every job, marking as done those whose number is in `finished`
/// (the jobs whose process has exited), and drops the done jobs from the
/// table so that later reports no longer show them.
pub fn reap(table: &mut JobTable, finished: &Vec<usize>) -> (snaps: Vec<JobSnapshot>)
    ensures
        snaps@.map_values(|s: JobSnapshot| s@) == old(table)@.jobs.map_values(
            |j: JobView| snapshot_of(j, finished@),
        ),
        final(table)@.jobs == still_running(old(table)@.jobs, finished@),
        final(table)@.next_id == old(table)@.next_id,
        ids_ordered(old(table)@) ==> ids_ordered(final(table)@),
{
    proof {
        if ids_ordered(table@) {
            lemma_reap_keeps_order(table@, finished@);
        }
    }
    let ghost all = jobs_view(table.jobs@);
    let mut snaps: Vec<JobSnapshot> = Vec::new();
    let mut kept: Vec<Job> = Vec::new();
    let mut old_jobs: Vec<Job> = Vec::new();
    std::mem::swap(&mut old_jobs, &mut table.jobs);
    let n = old_jobs.len();
    let mut i: usize = 0;
    assert(all.take(0) =~= Seq::<JobView>::empty());
    assert(snaps@.map_values(|s: JobSnapshot| s@) =~= all.take(0).map_values(
        |j: JobView| snapshot_of(j, finished@),
    ));
    assert(jobs_view(kept@) =~= still_running(all.take(0), finished@));
    while i < n
        invariant
            n == old_jobs@.len(),
            all == jobs_view(old_jobs@),
            i <= n,
            snaps@.map_values(|s: JobSnapshot| s@) == all.take(i as int).map_values(
                |j: JobView| snapshot_of(j, finished@),
            ),
            jobs_view(kept@) == still_running(all.take(i as int), finished@),
        decreases n - i,
    {
        let j = &old_jobs[i];
        let done = contains_id(finished, j.id);
        let snap = JobSnapshot {
            id: j.id,
            command: j.command.clone(),
            status: if done {
                JobStatus::Done
            } else {
                JobStatus::Running
            },
        };
        proof {
            assert(all[i as int] == j@);
            assert(snap@ == snapshot_of(all[i as int], finished@));
            assert(all.take(i + 1).drop_last() =~= all.take(i as int));
            assert(all.take(i + 1).last() == all[i as int]);
            assert(snaps@.push(snap).map_values(|s: JobSnapshot| s@) =~= snaps@.map_values(
                |s: JobSnapshot| s@,
            ).push(snap@));
            assert(all.take(i + 1).map_values(|j: JobView| snapshot_of(j, finished@)) =~= all.take(
                i as int,
            ).map_values(|j: JobView| snapshot_of(j, finished@)).push(
                snapshot_of(all[i as int], finished@),
            ));
        }
        snaps.push(snap);
        if !done {
            let copy = Job { id: j.id, pid: j.pid, command: j.command.clone() };
            proof {
                assert(copy@ == all[i as int]);
                assert(jobs_view(kept@.push(copy)) =~= jobs_view(kept@).push(copy@));
            }
            kept.push(copy);
        }
        i = i + 1;
    }
    assert(all.take(n as int) =~= all);
    table.jobs = kept;
    snaps
}

/// Law: while numbers have not wrapped around, adding a job keeps job
/// numbers increasing from oldest to newest and below the next number, so
/// every job has its own number.
pub proof fn lemma_add_job_keeps_order(
    t: JobTableView,
    pid: u32,
    command: Seq<char>,
)
    requires
        ids_ordered(t),
        t.next_id < usize::MAX,
    ensures
        ids_ordered(
            JobTableView {
                next_id: (t.next_id + 1) as usize,
                jobs: t.jobs.push(JobView { id: t.next_id, pid, command }),
            },
        ),
{
}

/// Law: reaping keeps job numbers ordered, and leaves in the table exactly
/// the jobs that had not finished.
pub proof fn lemma_reap_keeps_order(t: JobTableView, finished: Seq<usize>)
    requires
        ids_ordered(t),
    ensures
        ids_ordered(JobTableView { next_id: t.next_id, jobs: still_running(t.jobs, finished) }),
        forall|k: int|
            0 <= k < still_running(t.jobs, finished).len() ==> !finished.contains(
                #[trigger] still_running(t.jobs, finished)[k].id,
            ),
    decreases t.jobs.len(),
{
    lemma_still_running_sub(t.jobs, finished);
    if t.jobs.len() > 0 {
        let jobs = t.jobs;
        let t2 = JobTableView { next_id: t.next_id, jobs: jobs.drop_last() };
        assert(ids_ordered(t2)) by {
            assert forall|i: int, j: int|
                0 <= i < j < t2.jobs.len() implies #[trigger] t2.jobs[i].id < #[trigger] t2.jobs[j].id by {
                assert(t2.jobs[i] == jobs[i] && t2.jobs[j] == jobs[j]);
            }
            assert forall|i: int| 0 <= i < t2.jobs.len() implies #[trigger] t2.jobs[i].id
                < t2.next_id by {
                assert(t2.jobs[i] == jobs[i]);
            }
        }
        lemma_reap_keeps_order(t2, finished);
        lemma_still_running_sub(jobs.drop_last(), finished);
        let r = still_running(jobs, finished);
        let r0 = still_running(jobs.drop_last(), finished);
        let last = jobs[jobs.len() - 1];
        assert forall|i: int, j: int| 0 <= i < j < r.len() implies #[trigger] r[i].id < #[trigger] r[j].id by {
            let t3 = JobTableView { next_id: t.next_id, jobs: r0 };
            assert(ids_ordered(t3));
            if j < r0.len() {
                assert(r[i] == r0[i] && r[j] == r0[j]);
                assert(t3.jobs[i].id < t3.jobs[j].id);
            } else {
                assert(r[j] == last);
                assert(r[i] == r0[i]);
                let m = choose|m: int| 0 <= m < jobs.drop_last().len() && #[trigger] r0[i] == jobs.drop_last()[m];
                assert(jobs.drop_last()[m] == jobs[m]);
                assert(t.jobs[m].id < t.jobs[jobs.len() - 1].id);
            }
        }
        assert forall|i: int| 0 <= i < r.len() implies #[trigger] r[i].id < t.next_id by {
            let m = choose|m: int| 0 <= m < jobs.len() && #[trigger] r[i] == jobs[m];
        }
        assert forall|k: int| 0 <= k < r.len() implies !finished.contains(#[trigger] r[k].id) by {
            if k < r0.len() {
                assert(r[k] == r0[k]);
            }
        }
    }
}

proof fn lemma_still_running_sub(jobs: Seq<JobView>, finished: Seq<usize>)
    ensures
        forall|k: int|
            0 <= k < still_running(jobs, finished).len() ==> exists|m: int|
                0 <= m < jobs.len() && #[trigger] still_running(jobs, finished)[k] == jobs[m],
    decreases jobs.len(),
{
    if jobs.len() > 0 {
        lemma_still_running_sub(jobs.drop_last(), finished);
        let r = still_running(jobs, finished);
        let r0 = still_running(jobs.drop_last(), finished);
        assert forall|k: int| 0 <= k < r.len() implies exists|m: int|
            0 <= m < jobs.len() && #[trigger] r[k] == jobs[m] by {
            if k < r0.len() {
                assert(r[k] == r0[k]);
                let m = choose|m: int| 0 <= m < jobs.drop_last().len() && r0[k] == jobs.drop_last()[m];
                assert(jobs[m] == jobs.drop_last()[m]);
            } else {
                assert(r[k] == jobs[jobs.len() - 1]);
            }
        }
    }
}

} // verus!
