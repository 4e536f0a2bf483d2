//! The three sets that the jobs of one kind move through: waiting (first in,
//! first out), running (by id, with the time each job was handed out) and
//! complete.

use std::collections::HashMap;
use vstd::prelude::*;
use vstd::std_specs::hash::*;
use crate::job::{Job, JobStatus, JobView, jobs_view};

verus! {

broadcast use vstd::std_specs::hash::group_hash_axioms;

/// A job that a worker holds, with the time at which it left the waiting set.
#[derive(Debug)]
pub struct RunningJob {
    pub job: Job,
    pub start_time: u64,
}

/// What a [`RunningJob`] holds.
pub struct RunningJobView {
    pub job: JobView,
    pub start_time: u64,
}

impl View for RunningJob {
    type V = RunningJobView;

    open spec fn view(&self) -> RunningJobView {
        RunningJobView { job: self.job@, start_time: self.start_time }
    }
}

/// The views of the entries of a running map, under the same keys.
pub open spec fn running_view(running: Map<u32, RunningJob>) -> Map<u32, RunningJobView> {
    Map::new(|k: u32| running.contains_key(k), |k: u32| running[k]@)
}

/// A job handed out at `start_time` has timed out at `now` when at least
/// `timeout` has passed since.
pub open spec fn expired(start_time: u64, now: u64, timeout: u64) -> bool {
    now - start_time >= timeout
}

/// The mathematical content of a [`JobQueue`].
pub struct QueueView {
    pub waiting: Seq<JobView>,
    pub running: Map<u32, RunningJobView>,
    pub complete: Seq<JobView>,
}

/// Each job of `jobs` has its position as its id.
pub open spec fn numbered(jobs: Seq<JobView>) -> bool {
    forall|i: int| 0 <= i < jobs.len() ==> (#[trigger] jobs[i]).id == i
}

impl QueueView {
    /// The queue in which every job of `jobs` waits, in order.
    pub open spec fn fresh(jobs: Seq<JobView>) -> QueueView {
        QueueView { waiting: jobs, running: Map::empty(), complete: Seq::empty() }
    }

    /// Some waiting job has the id `id`.
    pub open spec fn in_waiting(self, id: u32) -> bool {
        exists|i: int| 0 <= i < self.waiting.len() && (#[trigger] self.waiting[i]).id == id
    }

    /// Some complete job has the id `id`.
    pub open spec fn in_complete(self, id: u32) -> bool {
        exists|i: int| 0 <= i < self.complete.len() && (#[trigger] self.complete[i]).id == id
    }

    /// The job `id` is in one of the three sets.
    pub open spec fn holds(self, id: u32) -> bool {
        self.in_waiting(id) || self.running.contains_key(id) || self.in_complete(id)
    }

    /// The queue holds exactly the jobs of `jobs`, where `jobs[i]` has the id
    /// `i`: each job is in exactly one of the three sets, once.
    pub open spec fn wf(self, jobs: Seq<JobView>) -> bool {
        &&& numbered(jobs)
        &&& self.running.dom().finite()
        &&& self.waiting.len() + self.running.len() + self.complete.len() == jobs.len()
        &&& forall|i: int|
            0 <= i < self.waiting.len() ==> (#[trigger] self.waiting[i]).id < jobs.len()
                && jobs[self.waiting[i].id as int] == self.waiting[i]
        &&& forall|i: int|
            0 <= i < self.complete.len() ==> (#[trigger] self.complete[i]).id < jobs.len()
                && jobs[self.complete[i].id as int] == self.complete[i]
        &&& forall|k: u32| #[trigger]
            self.running.contains_key(k) ==> k < jobs.len() && self.running[k].job == jobs[k as int]
        &&& forall|i: int, j: int|
            0 <= i < j < self.waiting.len() ==> (#[trigger] self.waiting[i]).id != (
            #[trigger] self.waiting[j]).id
        &&& forall|i: int, j: int|
            0 <= i < j < self.complete.len() ==> (#[trigger] self.complete[i]).id != (
            #[trigger] self.complete[j]).id
        &&& forall|i: int|
            0 <= i < self.waiting.len() ==> !self.running.contains_key(
                (#[trigger] self.waiting[i]).id,
            )
        &&& forall|i: int|
            0 <= i < self.complete.len() ==> !self.running.contains_key(
                (#[trigger] self.complete[i]).id,
            )
        &&& forall|i: int, j: int|
            0 <= i < self.waiting.len() && 0 <= j < self.complete.len() ==> (
            #[trigger] self.waiting[i]).id != (#[trigger] self.complete[j]).id
        &&& forall|k: u32| k < jobs.len() ==> #[trigger] self.holds(k)
    }

    /// The queue after its first waiting job was handed out at `now`.
    pub open spec fn claimed(self, now: u64) -> QueueView
        recommends
            self.waiting.len() > 0,
    {
        QueueView {
            waiting: self.waiting.drop_first(),
            running: self.running.insert(
                self.waiting[0].id,
                RunningJobView { job: self.waiting[0], start_time: now },
            ),
            complete: self.complete,
        }
    }

    /// The queue after a report of `status` for the job `id`: a job that is
    /// not running leaves the queue as it is; a running job that completed
    /// becomes complete, one that failed waits again, last in line.
    pub open spec fn settled(self, id: u32, status: JobStatus) -> QueueView {
        if !self.running.contains_key(id) {
            self
        } else {
            match status {
                JobStatus::JobComplete => QueueView {
                    waiting: self.waiting,
                    running: self.running.remove(id),
                    complete: self.complete.push(self.running[id].job),
                },
                JobStatus::JobFailed => QueueView {
                    waiting: self.waiting.push(self.running[id].job),
                    running: self.running.remove(id),
                    complete: self.complete,
                },
            }
        }
    }

    /// The queue after the running job `id` was put back in line if it has
    /// timed out at `now`.
    pub open spec fn evicted(self, id: u32, now: u64, timeout: u64) -> QueueView {
        if self.running.contains_key(id) && expired(self.running[id].start_time, now, timeout) {
            self.settled(id, JobStatus::JobFailed)
        } else {
            self
        }
    }

    /// The queue after every running job with an id below `count` that has
    /// timed out at `now` was put back in line, in ascending order of id.
    pub open spec fn reaped(self, now: u64, timeout: u64, count: nat) -> QueueView
        decreases count,
    {
        if count == 0 {
            self
        } else {
            self.reaped(now, timeout, (count - 1) as nat).evicted((count - 1) as u32, now, timeout)
        }
    }
}

/// Every job is in exactly one of the three sets: no id waits twice or is
/// complete twice, no id is in two sets, every id in a set is an id of
/// `jobs`, and every id of `jobs` is in a set.
pub proof fn lemma_queue_partitions_ids(q: QueueView, jobs: Seq<JobView>)
    requires
        q.wf(jobs),
    ensures
        forall|k: u32| k < jobs.len() <==> #[trigger] q.holds(k),
        forall|k: u32| !(q.in_waiting(k) && #[trigger] q.running.contains_key(k)),
        forall|k: u32| !(q.in_complete(k) && #[trigger] q.running.contains_key(k)),
        forall|k: u32| !(#[trigger] q.in_waiting(k) && q.in_complete(k)),
        forall|i: int, j: int|
            0 <= i < q.waiting.len() && 0 <= j < q.waiting.len() && i != j ==> (
            #[trigger] q.waiting[i]).id != (#[trigger] q.waiting[j]).id,
        forall|i: int, j: int|
            0 <= i < q.complete.len() && 0 <= j < q.complete.len() && i != j ==> (
            #[trigger] q.complete[i]).id != (#[trigger] q.complete[j]).id,
        q.waiting.len() + q.running.len() + q.complete.len() == jobs.len(),
{
    assert forall|i: int, j: int|
        0 <= i < q.waiting.len() && 0 <= j < q.waiting.len() && i != j implies (
    #[trigger] q.waiting[i]).id != (#[trigger] q.waiting[j]).id by {
        if i < j {
        } else {
            assert(q.waiting[j].id != q.waiting[i].id);
        }
    }
    assert forall|i: int, j: int|
        0 <= i < q.complete.len() && 0 <= j < q.complete.len() && i != j implies (
    #[trigger] q.complete[i]).id != (#[trigger] q.complete[j]).id by {
        if i < j {
        } else {
            assert(q.complete[j].id != q.complete[i].id);
        }
    }
}

/// The ids of a list of jobs, in order.
pub open spec fn ids_of(jobs: Seq<JobView>) -> Seq<u32> {
    Seq::new(jobs.len(), |i: int| jobs[i].id)
}

/// How often the id `id` occurs in the three sets together: as often as it
/// waits, plus once if it runs, plus as often as it is complete.
pub open spec fn occurrences(q: QueueView, id: u32) -> nat {
    ids_of(q.waiting).to_multiset().count(id) + (if q.running.contains_key(id) {
        1nat
    } else {
        0nat
    }) + ids_of(q.complete).to_multiset().count(id)
}

/// In a list of jobs with distinct ids, an id occurs once if a job has it
/// and not at all otherwise.
proof fn lemma_count_of_distinct_ids(jobs: Seq<JobView>, id: u32)
    requires
        forall|i: int, j: int|
            0 <= i < j < jobs.len() ==> (#[trigger] jobs[i]).id != (#[trigger] jobs[j]).id,
    ensures
        ids_of(jobs).to_multiset().count(id) == if exists|i: int|
            0 <= i < jobs.len() && (#[trigger] jobs[i]).id == id {
            1nat
        } else {
            0nat
        },
{
    let ids = ids_of(jobs);
    assert(ids.no_duplicates()) by {
        assert forall|i: int, j: int| 0 <= i < ids.len() && 0 <= j < ids.len() && i != j implies ids[i]
            != ids[j] by {
            if i < j {
                assert(jobs[i].id != jobs[j].id);
            } else {
                assert(jobs[j].id != jobs[i].id);
            }
        }
    }
    ids.lemma_multiset_has_no_duplicates();
    ids.to_multiset_ensures();
    if exists|i: int| 0 <= i < jobs.len() && (#[trigger] jobs[i]).id == id {
        let i = choose|i: int| 0 <= i < jobs.len() && (#[trigger] jobs[i]).id == id;
        assert(ids[i] == id);
        assert(ids.contains(id));
        assert(ids.to_multiset().contains(id));
    } else {
        if ids.contains(id) {
            let i = choose|i: int| 0 <= i < ids.len() && ids[i] == id;
            assert(jobs[i].id == id);
        }
    }
}

/// The ids of the waiting, the running and the complete jobs, taken together
/// as a multiset, are the ids of `jobs`, each once: every id below the number
/// of jobs occurs exactly once, and no other id occurs.
pub proof fn lemma_queue_ids_occur_once(q: QueueView, jobs: Seq<JobView>, id: u32)
    requires
        q.wf(jobs),
    ensures
        occurrences(q, id) == if id < jobs.len() {
            1nat
        } else {
            0nat
        },
{
    lemma_count_of_distinct_ids(q.waiting, id);
    lemma_count_of_distinct_ids(q.complete, id);
    lemma_queue_partitions_ids(q, jobs);
    if id < jobs.len() {
        assert(q.holds(id));
    }
    if q.in_waiting(id) {
        assert(!q.running.contains_key(id));
    }
    if q.in_complete(id) {
        assert(!q.running.contains_key(id));
    }
    if q.running.contains_key(id) {
        assert(id < jobs.len());
    }
}

/// A fresh queue over jobs numbered by their position is well formed.
pub proof fn lemma_fresh_wf(jobs: Seq<JobView>)
    requires
        numbered(jobs),
    ensures
        QueueView::fresh(jobs).wf(jobs),
{
    let q = QueueView::fresh(jobs);
    assert forall|k: u32| k < jobs.len() implies #[trigger] q.holds(k) by {
        assert(q.waiting[k as int].id == k);
    }
}

/// Handing out the first waiting job keeps the queue well formed.
pub proof fn lemma_claimed_wf(q: QueueView, jobs: Seq<JobView>, now: u64)
    requires
        q.wf(jobs),
        q.waiting.len() > 0,
    ensures
        q.claimed(now).wf(jobs),
{
    let c = q.claimed(now);
    assert forall|i: int| 0 <= i < c.waiting.len() implies #[trigger] c.waiting[i] == q.waiting[i
        + 1] by {}
    assert forall|k: u32| k < jobs.len() implies #[trigger] c.holds(k) by {
        assert(q.holds(k));
        if q.in_waiting(k) {
            let i = choose|i: int| 0 <= i < q.waiting.len() && (#[trigger] q.waiting[i]).id == k;
            if i > 0 {
                assert(c.waiting[i - 1].id == k);
            }
        } else if q.in_complete(k) {
            let i = choose|i: int| 0 <= i < q.complete.len() && (#[trigger] q.complete[i]).id == k;
            assert(c.complete[i].id == k);
        }
    }
}

/// A report keeps the queue well formed, whatever it reports.
pub proof fn lemma_settled_wf(q: QueueView, jobs: Seq<JobView>, id: u32, status: JobStatus)
    requires
        q.wf(jobs),
    ensures
        q.settled(id, status).wf(jobs),
{
    let s = q.settled(id, status);
    if q.running.contains_key(id) {
        let job = q.running[id].job;
        assert(job.id == id);
        assert forall|k: u32| k < jobs.len() implies #[trigger] s.holds(k) by {
            assert(q.holds(k));
            if k == id {
                if status is JobComplete {
                    assert(s.complete[s.complete.len() - 1].id == k);
                } else {
                    assert(s.waiting[s.waiting.len() - 1].id == k);
                }
            } else if q.in_complete(k) {
                let i = choose|i: int|
                    0 <= i < q.complete.len() && (#[trigger] q.complete[i]).id == k;
                assert(s.complete[i].id == k);
            } else if q.in_waiting(k) {
                let i = choose|i: int| 0 <= i < q.waiting.len() && (#[trigger] q.waiting[i]).id == k;
                assert(s.waiting[i].id == k);
            } else {
                assert(s.running.contains_key(k));
            }
        }
    }
}

/// Putting timed-out jobs back in line keeps the queue well formed, never
/// shortens the line and leaves the complete jobs as they are.
pub proof fn lemma_reaped_wf(q: QueueView, jobs: Seq<JobView>, now: u64, timeout: u64, count: nat)
    requires
        q.wf(jobs),
    ensures
        q.reaped(now, timeout, count).wf(jobs),
        q.reaped(now, timeout, count).complete == q.complete,
        q.reaped(now, timeout, count).waiting.len() >= q.waiting.len(),
        q.reaped(now, timeout, count).waiting.len() == q.waiting.len() ==> q.reaped(
            now,
            timeout,
            count,
        ) == q,
    decreases count,
{
    if count > 0 {
        let p = q.reaped(now, timeout, (count - 1) as nat);
        lemma_reaped_wf(q, jobs, now, timeout, (count - 1) as nat);
        lemma_settled_wf(p, jobs, (count - 1) as u32, JobStatus::JobFailed);
    }
}

/// `job` ran in `q` under an id below `count` and has timed out at `now`.
pub open spec fn timed_out_in(q: QueueView, job: JobView, now: u64, timeout: u64, count: nat) -> bool {
    exists|k: u32|
        k < count && #[trigger] q.running.contains_key(k) && expired(
            q.running[k].start_time,
            now,
            timeout,
        ) && job == q.running[k].job
}

/// What a sweep does, job by job: a job runs afterwards exactly if it ran
/// before and has not timed out or has an id that the sweep does not reach,
/// and then it runs since the same time; the jobs that waited before still
/// wait, first in line and in their order; and the complete jobs are as they
/// were.
pub proof fn lemma_reaped_job_by_job(q: QueueView, now: u64, timeout: u64, count: nat)
    ensures
        forall|k: u32| #[trigger]
            q.reaped(now, timeout, count).running.contains_key(k) <==> q.running.contains_key(k)
                && !(k < count && expired(q.running[k].start_time, now, timeout)),
        forall|k: u32| #[trigger]
            q.reaped(now, timeout, count).running.contains_key(k) ==> q.reaped(
                now,
                timeout,
                count,
            ).running[k] == q.running[k],
        q.waiting.len() <= q.reaped(now, timeout, count).waiting.len(),
        q.reaped(now, timeout, count).waiting.subrange(0, q.waiting.len() as int) == q.waiting,
        forall|i: int|
            q.waiting.len() <= i < q.reaped(now, timeout, count).waiting.len() ==> timed_out_in(
                q,
                #[trigger] q.reaped(now, timeout, count).waiting[i],
                now,
                timeout,
                count,
            ),
        q.reaped(now, timeout, count).complete == q.complete,
    decreases count,
{
    if count == 0 {
        assert(q.waiting.subrange(0, q.waiting.len() as int) =~= q.waiting);
    } else {
        let before = q.reaped(now, timeout, (count - 1) as nat);
        let after = q.reaped(now, timeout, count);
        let id = (count - 1) as u32;
        lemma_reaped_job_by_job(q, now, timeout, (count - 1) as nat);
        assert(after.waiting.subrange(0, q.waiting.len() as int) =~= before.waiting.subrange(
            0,
            q.waiting.len() as int,
        ));
        assert forall|i: int| q.waiting.len() <= i < after.waiting.len() implies timed_out_in(
            q,
            #[trigger] after.waiting[i],
            now,
            timeout,
            count,
        ) by {
            if i < before.waiting.len() {
                assert(timed_out_in(q, before.waiting[i], now, timeout, (count - 1) as nat));
                let k = choose|k: u32|
                    k < count - 1 && #[trigger] q.running.contains_key(k) && expired(
                        q.running[k].start_time,
                        now,
                        timeout,
                    ) && before.waiting[i] == q.running[k].job;
                assert(after.waiting[i] == before.waiting[i]);
                assert(k < count && q.running.contains_key(k));
            } else {
                assert(q.running.contains_key(id));
            }
        }
    }
}

/// The jobs of one kind in the coordinator's memory.
#[derive(Debug)]
pub struct JobQueue {
    waiting: Vec<Job>,
    running: HashMap<u32, RunningJob>,
    complete: Vec<Job>,
}

impl View for JobQueue {
    type V = QueueView;

    closed spec fn view(&self) -> QueueView {
        QueueView {
            waiting: jobs_view(self.waiting@),
            running: running_view(self.running@),
            complete: jobs_view(self.complete@),
        }
    }
}

impl JobQueue {
    /// The queue in which the given jobs wait, in order.
    pub fn new(waiting: Vec<Job>) -> (queue: JobQueue)
        ensures
            queue@ == QueueView::fresh(jobs_view(waiting@)),
    {
        let queue = JobQueue { waiting, running: HashMap::new(), complete: Vec::new() };
        assert(queue@.running =~= Map::empty());
        assert(queue@.complete =~= Seq::empty());
        queue
    }

    /// The number of waiting jobs.
    pub fn waiting_len(&self) -> (len: usize)
        ensures
            len == self@.waiting.len(),
    {
        self.waiting.len()
    }

    /// The number of complete jobs.
    pub fn complete_len(&self) -> (len: usize)
        ensures
            len == self@.complete.len(),
    {
        self.complete.len()
    }

    /// The ids of the waiting jobs, first in line first.
    pub fn waiting_ids(&self) -> (ids: Vec<u32>)
        ensures
            ids@.len() == self@.waiting.len(),
            forall|i: int| 0 <= i < ids@.len() ==> #[trigger] ids@[i] == self@.waiting[i].id,
    {
        let mut ids: Vec<u32> = Vec::new();
        let mut i: usize = 0;
        while i < self.waiting.len()
            invariant
                i <= self.waiting@.len(),
                ids@.len() == i,
                forall|j: int| 0 <= j < i ==> #[trigger] ids@[j] == self.waiting@[j].id,
            decreases self.waiting.len() - i,
        {
            ids.push(self.waiting[i].id);
            i = i + 1;
        }
        ids
    }

    /// The ids of the complete jobs, in the order in which they completed.
    pub fn complete_ids(&self) -> (ids: Vec<u32>)
        ensures
            ids@.len() == self@.complete.len(),
            forall|i: int| 0 <= i < ids@.len() ==> #[trigger] ids@[i] == self@.complete[i].id,
    {
        let mut ids: Vec<u32> = Vec::new();
        let mut i: usize = 0;
        while i < self.complete.len()
            invariant
                i <= self.complete@.len(),
                ids@.len() == i,
                forall|j: int| 0 <= j < i ==> #[trigger] ids@[j] == self.complete@[j].id,
            decreases self.complete.len() - i,
        {
            ids.push(self.complete[i].id);
            i = i + 1;
        }
        ids
    }

    /// The time at which the job `id` was handed out, if it is running.
    pub fn start_time(&self, id: u32) -> (start: Option<u64>)
        ensures
            match start {
                Some(t) => self@.running.contains_key(id) && self@.running[id].start_time == t,
                None => !self@.running.contains_key(id),
            },
    {
        match self.running.get(&id) {
            None => None,
            Some(entry) => Some(entry.start_time),
        }
    }

    /// Whether the job `id` is running.
    pub fn is_running(&self, id: u32) -> (running: bool)
        ensures
            running == self@.running.contains_key(id),
    {
        self.running.contains_key(&id)
    }

    /// Hands out the first waiting job, if any, and records it as running
    /// since `now`.
    pub fn claim(&mut self, now: u64) -> (job: Option<Job>)
        ensures
            match job {
                None => old(self)@.waiting.len() == 0 && final(self)@ == old(self)@,
                Some(j) => {
                    &&& old(self)@.waiting.len() > 0
                    &&& j@ == old(self)@.waiting[0]
                    &&& final(self)@ == old(self)@.claimed(now)
                },
            },
    {
        if self.waiting.len() == 0 {
            return None;
        }
        let job = self.waiting.remove(0);
        self.running.insert(job.id, RunningJob { job: job.clone(), start_time: now });
        proof {
            assert(self@.waiting =~= old(self)@.waiting.drop_first());
            assert(self@.running =~= old(self)@.claimed(now).running);
        }
        Some(job)
    }

    /// Takes a report of `status` for the job `id`. Returns whether the job
    /// was running: a report for a job that is not running changes nothing.
    pub fn settle(&mut self, id: u32, status: JobStatus) -> (was_running: bool)
        ensures
            was_running == old(self)@.running.contains_key(id),
            final(self)@ == old(self)@.settled(id, status),
    {
        match self.running.remove(&id) {
            None => {
                proof {
                    assert(self.running@ =~= old(self).running@);
                }
                false
            },
            Some(entry) => {
                proof {
                    assert(self@.running =~= old(self)@.running.remove(id));
                    assert(entry@ == old(self)@.running[id]);
                }
                match status {
                    JobStatus::JobComplete => {
                        self.complete.push(entry.job);
                        proof {
                            assert(self@.complete =~= old(self)@.complete.push(entry.job@));
                        }
                    },
                    JobStatus::JobFailed => {
                        self.waiting.push(entry.job);
                        proof {
                            assert(self@.waiting =~= old(self)@.waiting.push(entry.job@));
                        }
                    },
                }
                true
            },
        }
    }

    /// Whether the job `id` is running and has timed out at `now`.
    pub fn has_expired(&self, id: u32, now: u64, timeout: u64) -> (timed_out: bool)
        ensures
            timed_out == (self@.running.contains_key(id) && expired(
                self@.running[id].start_time,
                now,
                timeout,
            )),
    {
        match self.running.get(&id) {
            None => false,
            Some(entry) => now >= entry.start_time && now - entry.start_time >= timeout,
        }
    }

    /// Puts every running job with an id below `count` that has timed out at
    /// `now` back in line, in ascending order of id. Returns whether any job
    /// was put back.
    pub fn requeue_expired(&mut self, now: u64, timeout: u64, count: u32) -> (requeued: bool)
        ensures
            final(self)@ == old(self)@.reaped(now, timeout, count as nat),
            requeued == (final(self)@.waiting.len() > old(self)@.waiting.len()),
    {
        let mut requeued = false;
        let mut id: u32 = 0;
        while id < count
            invariant
                id <= count,
                self@ == old(self)@.reaped(now, timeout, id as nat),
                self@.waiting.len() >= old(self)@.waiting.len(),
                requeued == (self@.waiting.len() > old(self)@.waiting.len()),
            decreases count - id,
        {
            if self.has_expired(id, now, timeout) {
                self.settle(id, JobStatus::JobFailed);
                requeued = true;
            }
            id = id + 1;
        }
        requeued
    }
}

} // verus!
