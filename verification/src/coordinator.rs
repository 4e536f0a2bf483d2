//! The coordinator's scheduler and phase controller: map jobs are handed out
//! until every map job is complete, then reduce jobs, then nothing.
//!
//! The state lives in one object, [`MRCoordinator`], that the caller keeps
//! under a single lock. Each operation is one transition of the state machine
//! described by [`CoordinatorView`]; the caller supplies the current time and
//! wakes blocked askers when an operation says so.

use vstd::prelude::*;
use crate::job::{
    AskForJobReply, AskForJobReplyView, Job, JobStatus, JobType, JobView, ReportJobStatusRequest,
    intermediate_name, jobs_view, map_job, output_name, reduce_job,
};
use crate::text::strings_view;
use crate::queue::{
    JobQueue, QueueView, lemma_claimed_wf, lemma_fresh_wf, lemma_queue_ids_occur_once,
    lemma_queue_partitions_ids, lemma_reaped_wf, lemma_settled_wf, numbered, occurrences,
};

verus! {

/// The time after which a running job is taken back, in seconds.
pub const JOB_TIMEOUT_SECS: u64 = 10;

/// The time between two sweeps for timed-out jobs, in seconds.
pub const REAP_PERIOD_SECS: u64 = 2;

/// Which work is outstanding: map work, reduce work, or none.
#[derive(Clone, Copy, Debug, PartialEq, Eq, Structural)]
pub enum WorkloadPhase {
    Mapping,
    Reducing,
    Complete,
}

impl Default for WorkloadPhase {
    fn default() -> (phase: WorkloadPhase)
        ensures
            phase == WorkloadPhase::Mapping,
    {
        WorkloadPhase::Mapping
    }
}

impl WorkloadPhase {
    /// The position of the phase in the order Mapping, Reducing, Complete.
    pub open spec fn rank(self) -> nat {
        match self {
            WorkloadPhase::Mapping => 0,
            WorkloadPhase::Reducing => 1,
            WorkloadPhase::Complete => 2,
        }
    }
}

/// One map job for each input file, numbered in the order of the files.
pub open spec fn map_jobs(files: Seq<Seq<char>>) -> Seq<JobView> {
    Seq::new(files.len(), |i: int| map_job(i as nat, files[i]))
}

/// One reduce job for each of `count` partitions, in order.
pub open spec fn reduce_jobs(count: nat) -> Seq<JobView> {
    Seq::new(count, |i: int| reduce_job(i as nat))
}

/// The mathematical content of an [`MRCoordinator`].
pub struct CoordinatorView {
    pub files: Seq<Seq<char>>,
    pub num_map_jobs: nat,
    pub num_reduce_jobs: u32,
    pub map: QueueView,
    pub reduce: QueueView,
    pub phase: WorkloadPhase,
}

impl CoordinatorView {
    /// The state at startup: every map job waits, no reduce job exists yet.
    pub open spec fn initial(files: Seq<Seq<char>>, num_reducer: u32) -> CoordinatorView {
        CoordinatorView {
            files,
            num_map_jobs: files.len(),
            num_reduce_jobs: num_reducer,
            map: QueueView::fresh(map_jobs(files)),
            reduce: QueueView::fresh(Seq::empty()),
            phase: WorkloadPhase::Mapping,
        }
    }

    /// The reduce jobs that exist in this phase: none while mapping, one for
    /// each partition afterwards.
    pub open spec fn reduce_jobs_made(self) -> Seq<JobView> {
        if self.phase is Mapping {
            Seq::empty()
        } else {
            reduce_jobs(self.num_reduce_jobs as nat)
        }
    }

    /// The invariant of the coordinator: each kind's jobs are split between
    /// waiting, running and complete, and the phase follows the completion
    /// counts.
    pub open spec fn wf(self) -> bool {
        &&& self.files.len() == self.num_map_jobs
        &&& self.num_map_jobs <= u32::MAX
        &&& self.map.wf(map_jobs(self.files))
        &&& self.reduce.wf(self.reduce_jobs_made())
        &&& self.phase is Mapping ==> self.map.complete.len() < self.num_map_jobs
            || self.num_map_jobs == 0
        &&& !(self.phase is Mapping) ==> self.map.complete.len() == self.num_map_jobs
        &&& self.phase is Reducing ==> self.reduce.complete.len() < self.num_reduce_jobs
            || self.num_reduce_jobs == 0
        &&& self.phase is Complete ==> self.reduce.complete.len() == self.num_reduce_jobs
    }

    /// The queue that jobs are handed out from in this phase.
    pub open spec fn active(self) -> QueueView {
        if self.phase is Mapping {
            self.map
        } else {
            self.reduce
        }
    }

    /// What a worker that asks for work is told: nothing yet (`None`) while
    /// work is outstanding but none waits; the first waiting job of the phase;
    /// or, once the workload is complete, a reply without a job.
    pub open spec fn reply(self) -> Option<AskForJobReplyView> {
        if self.phase is Complete {
            Some(AskForJobReplyView { assigned_job: None, num_reducer: self.num_reduce_jobs })
        } else if self.active().waiting.len() == 0 {
            None
        } else {
            Some(
                AskForJobReplyView {
                    assigned_job: Some(self.active().waiting[0]),
                    num_reducer: self.num_reduce_jobs,
                },
            )
        }
    }

    /// The state after a worker asked for work at `now`.
    pub open spec fn asked(self, now: u64) -> CoordinatorView {
        if self.phase is Complete || self.active().waiting.len() == 0 {
            self
        } else if self.phase is Mapping {
            CoordinatorView { map: self.map.claimed(now), ..self }
        } else {
            CoordinatorView { reduce: self.reduce.claimed(now), ..self }
        }
    }

    /// Whether the job `id` of kind `kind` is running.
    pub open spec fn is_running(self, id: u32, kind: JobType) -> bool {
        match kind {
            JobType::MapJob => self.map.running.contains_key(id),
            JobType::Reduce => self.reduce.running.contains_key(id),
        }
    }

    /// The state after a report of `status` for the job `id` of kind `kind`.
    /// The completion of the last map job makes the reduce jobs and starts
    /// the reducing phase; the completion of the last reduce job ends the
    /// workload.
    pub open spec fn reported(self, id: u32, kind: JobType, status: JobStatus) -> CoordinatorView {
        match kind {
            JobType::MapJob => {
                let settled = self.map.settled(id, status);
                if self.phase is Mapping && self.map.running.contains_key(id)
                    && status is JobComplete && settled.complete.len() == self.num_map_jobs {
                    CoordinatorView {
                        map: settled,
                        reduce: QueueView::fresh(reduce_jobs(self.num_reduce_jobs as nat)),
                        phase: WorkloadPhase::Reducing,
                        ..self
                    }
                } else {
                    CoordinatorView { map: settled, ..self }
                }
            },
            JobType::Reduce => {
                let settled = self.reduce.settled(id, status);
                if self.phase is Reducing && self.reduce.running.contains_key(id)
                    && status is JobComplete && settled.complete.len() == self.num_reduce_jobs {
                    CoordinatorView { reduce: settled, phase: WorkloadPhase::Complete, ..self }
                } else {
                    CoordinatorView { reduce: settled, ..self }
                }
            },
        }
    }

    /// Whether that report wakes the blocked askers: it does when a running
    /// job failed, and when the phase changed.
    pub open spec fn report_notifies(self, id: u32, kind: JobType, status: JobStatus) -> bool {
        self.is_running(id, kind) && (status is JobFailed || self.reported(id, kind, status).phase
            != self.phase)
    }

    /// The state after the jobs of the current phase that have timed out at
    /// `now` were put back in line.
    pub open spec fn reaped(self, now: u64, timeout: u64) -> CoordinatorView {
        match self.phase {
            WorkloadPhase::Mapping => CoordinatorView {
                map: self.map.reaped(now, timeout, self.num_map_jobs),
                ..self
            },
            WorkloadPhase::Reducing => CoordinatorView {
                reduce: self.reduce.reaped(now, timeout, self.num_reduce_jobs as nat),
                ..self
            },
            WorkloadPhase::Complete => self,
        }
    }

    /// Whether that sweep wakes the blocked askers: it does when it put a job
    /// back in line.
    pub open spec fn reap_notifies(self, now: u64, timeout: u64) -> bool {
        self.reaped(now, timeout).active().waiting.len() > self.active().waiting.len()
    }
}

/// The map jobs of a list of files that fits the id space are numbered by
/// their position.
pub proof fn lemma_map_jobs_numbered(files: Seq<Seq<char>>)
    requires
        files.len() <= u32::MAX,
    ensures
        numbered(map_jobs(files)),
        map_jobs(files).len() == files.len(),
{
}

/// The reduce jobs are numbered by their position.
pub proof fn lemma_reduce_jobs_numbered(count: u32)
    ensures
        numbered(reduce_jobs(count as nat)),
        reduce_jobs(count as nat).len() == count,
{
}

/// The state at startup satisfies the invariant.
pub proof fn lemma_initial_wf(files: Seq<Seq<char>>, num_reducer: u32)
    requires
        files.len() <= u32::MAX,
    ensures
        CoordinatorView::initial(files, num_reducer).wf(),
{
    lemma_map_jobs_numbered(files);
    lemma_fresh_wf(map_jobs(files));
    lemma_fresh_wf(Seq::<JobView>::empty());
}

/// At startup the coordinator is mapping and no job is complete, however many
/// input files there are: with at least one input file not every map job is
/// complete, and with at least one partition not every reduce job is.
pub proof fn lemma_initial_marks_phase(files: Seq<Seq<char>>, num_reducer: u32)
    ensures
        ({
            let s = CoordinatorView::initial(files, num_reducer);
            &&& s.phase is Mapping
            &&& s.map.complete.len() == 0
            &&& s.reduce.complete.len() == 0
            &&& files.len() >= 1 ==> s.map.complete.len() < s.num_map_jobs
            &&& num_reducer >= 1 ==> s.reduce.complete.len() < s.num_reduce_jobs
            &&& files.len() >= 1 ==> (s.map.complete.len() == s.num_map_jobs <==> s.phase.rank()
                >= 1)
            &&& num_reducer >= 1 ==> (s.reduce.complete.len() == s.num_reduce_jobs
                <==> s.phase is Complete)
        }),
{
}

/// Handing out a job keeps the invariant and the phase.
pub proof fn lemma_asked_wf(s: CoordinatorView, now: u64)
    requires
        s.wf(),
    ensures
        s.asked(now).wf(),
        s.asked(now).phase == s.phase,
{
    if !(s.phase is Complete) && s.active().waiting.len() > 0 {
        if s.phase is Mapping {
            lemma_claimed_wf(s.map, map_jobs(s.files), now);
        } else {
            lemma_claimed_wf(s.reduce, s.reduce_jobs_made(), now);
        }
    }
}

/// Once every job of a queue is complete, none of them is running.
pub proof fn lemma_all_complete_none_running(q: QueueView, jobs: Seq<JobView>)
    requires
        q.wf(jobs),
        q.complete.len() == jobs.len(),
    ensures
        q.waiting.len() == 0,
        forall|k: u32| !q.running.contains_key(k),
{
    assert(q.running.dom().len() == 0);
    q.running.dom().lemma_len0_is_empty();
    assert forall|k: u32| !q.running.contains_key(k) by {
        assert(!q.running.dom().contains(k));
    }
}

/// A report keeps the invariant and never moves the phase backwards.
pub proof fn lemma_reported_wf(s: CoordinatorView, id: u32, kind: JobType, status: JobStatus)
    requires
        s.wf(),
    ensures
        s.reported(id, kind, status).wf(),
        s.reported(id, kind, status).phase.rank() >= s.phase.rank(),
{
    let t = s.reported(id, kind, status);
    lemma_map_jobs_numbered(s.files);
    lemma_reduce_jobs_numbered(s.num_reduce_jobs);
    match kind {
        JobType::MapJob => {
            lemma_settled_wf(s.map, map_jobs(s.files), id, status);
            if !(s.phase is Mapping) {
                lemma_all_complete_none_running(s.map, map_jobs(s.files));
            }
            if t.phase != s.phase {
                lemma_fresh_wf(reduce_jobs(s.num_reduce_jobs as nat));
            }
        },
        JobType::Reduce => {
            lemma_settled_wf(s.reduce, s.reduce_jobs_made(), id, status);
            if s.phase is Complete {
                lemma_all_complete_none_running(s.reduce, s.reduce_jobs_made());
            }
        },
    }
}

/// A sweep for timed-out jobs keeps the invariant and the phase; a sweep that
/// puts no job back in line changes nothing.
pub proof fn lemma_reaped_coordinator_wf(s: CoordinatorView, now: u64, timeout: u64)
    requires
        s.wf(),
    ensures
        s.reaped(now, timeout).wf(),
        s.reaped(now, timeout).phase == s.phase,
        !s.reap_notifies(now, timeout) ==> s.reaped(now, timeout) == s,
{
    lemma_reaped_wf(s.map, map_jobs(s.files), now, timeout, s.num_map_jobs);
    lemma_reaped_wf(s.reduce, s.reduce_jobs_made(), now, timeout, s.num_reduce_jobs as nat);
}

/// In every state that satisfies the invariant, the ids of the waiting, the
/// running and the complete map jobs are pairwise apart and together make up
/// the ids below the number of map jobs, each once; from the reducing phase
/// on the same holds of the reduce jobs. While mapping, no reduce job exists.
pub proof fn lemma_ids_partitioned(s: CoordinatorView)
    requires
        s.wf(),
    ensures
        forall|k: u32| k < s.num_map_jobs <==> #[trigger] s.map.holds(k),
        forall|k: u32| !(s.map.in_waiting(k) && #[trigger] s.map.running.contains_key(k)),
        forall|k: u32| !(s.map.in_complete(k) && #[trigger] s.map.running.contains_key(k)),
        forall|k: u32| !(#[trigger] s.map.in_waiting(k) && s.map.in_complete(k)),
        s.map.waiting.len() + s.map.running.len() + s.map.complete.len() == s.num_map_jobs,
        !(s.phase is Mapping) ==> forall|k: u32|
            k < s.num_reduce_jobs <==> #[trigger] s.reduce.holds(k),
        s.phase is Mapping ==> forall|k: u32| !#[trigger] s.reduce.holds(k),
        forall|k: u32| !(s.reduce.in_waiting(k) && #[trigger] s.reduce.running.contains_key(k)),
        forall|k: u32| !(s.reduce.in_complete(k) && #[trigger] s.reduce.running.contains_key(k)),
        forall|k: u32| !(#[trigger] s.reduce.in_waiting(k) && s.reduce.in_complete(k)),
        !(s.phase is Mapping) ==> s.reduce.waiting.len() + s.reduce.running.len()
            + s.reduce.complete.len() == s.num_reduce_jobs,
{
    lemma_queue_partitions_ids(s.map, map_jobs(s.files));
    lemma_queue_partitions_ids(s.reduce, s.reduce_jobs_made());
}

/// In every state that satisfies the invariant, the multiset of the ids of
/// the waiting, the running and the complete map jobs holds each id below the
/// number of map jobs once and nothing else; from the reducing phase on the
/// same holds of the reduce jobs, and before it no reduce job id occurs.
pub proof fn lemma_ids_occur_once(s: CoordinatorView, id: u32)
    requires
        s.wf(),
    ensures
        occurrences(s.map, id) == if id < s.num_map_jobs {
            1nat
        } else {
            0nat
        },
        occurrences(s.reduce, id) == if !(s.phase is Mapping) && id < s.num_reduce_jobs {
            1nat
        } else {
            0nat
        },
{
    lemma_queue_ids_occur_once(s.map, map_jobs(s.files), id);
    lemma_queue_ids_occur_once(s.reduce, s.reduce_jobs_made(), id);
}

/// With at least one map job, every map job is complete exactly from the
/// reducing phase on.
pub proof fn lemma_map_completion_marks_phase(s: CoordinatorView)
    requires
        s.wf(),
        s.num_map_jobs > 0,
    ensures
        s.map.complete.len() == s.num_map_jobs <==> s.phase.rank() >= 1,
{
}

/// With at least one reduce job, every reduce job is complete exactly in the
/// complete phase.
pub proof fn lemma_reduce_completion_marks_phase(s: CoordinatorView)
    requires
        s.wf(),
        s.num_reduce_jobs > 0,
    ensures
        s.reduce.complete.len() == s.num_reduce_jobs <==> s.phase is Complete,
{
}

/// No operation moves the phase backwards.
pub proof fn lemma_phase_never_regresses(
    s: CoordinatorView,
    now: u64,
    timeout: u64,
    id: u32,
    kind: JobType,
    status: JobStatus,
)
    requires
        s.wf(),
    ensures
        s.asked(now).phase.rank() >= s.phase.rank(),
        s.reported(id, kind, status).phase.rank() >= s.phase.rank(),
        s.reaped(now, timeout).phase.rank() >= s.phase.rank(),
{
    lemma_reported_wf(s, id, kind, status);
}

/// After a report that a job is complete, any further report for that job
/// changes nothing and wakes nobody.
pub proof fn lemma_duplicate_report_is_noop(
    s: CoordinatorView,
    id: u32,
    kind: JobType,
    again: JobStatus,
)
    requires
        s.wf(),
    ensures
        ({
            let t = s.reported(id, kind, JobStatus::JobComplete);
            t.reported(id, kind, again) == t && !t.report_notifies(id, kind, again)
        }),
{
    let t = s.reported(id, kind, JobStatus::JobComplete);
    lemma_reported_wf(s, id, kind, JobStatus::JobComplete);
    lemma_queue_partitions_ids(t.map, map_jobs(t.files));
    lemma_queue_partitions_ids(t.reduce, t.reduce_jobs_made());
    match kind {
        JobType::MapJob => {
            if s.map.running.contains_key(id) {
                assert(t.map.complete[t.map.complete.len() - 1].id == id);
                assert(t.map.in_complete(id));
            } else {
                assert(!t.map.running.contains_key(id));
            }
        },
        JobType::Reduce => {
            if s.reduce.running.contains_key(id) {
                assert(t.reduce.complete[t.reduce.complete.len() - 1].id == id);
                assert(t.reduce.in_complete(id));
            } else {
                assert(!t.reduce.running.contains_key(id));
            }
        },
    }
}

/// An asker is told to wait exactly when work is outstanding and no job of
/// the current phase waits. It keeps being told so after any report that wakes
/// nobody and after any sweep that wakes nobody: only a job put back in line
/// or a change of phase ends the wait, and each of them wakes the askers.
pub proof fn lemma_wait_ends_only_with_notice(
    s: CoordinatorView,
    now: u64,
    timeout: u64,
    id: u32,
    kind: JobType,
    status: JobStatus,
)
    requires
        s.wf(),
        s.reply() is None,
    ensures
        !(s.phase is Complete) && s.active().waiting.len() == 0,
        !s.report_notifies(id, kind, status) ==> s.reported(id, kind, status).reply() is None,
        !s.reap_notifies(now, timeout) ==> s.reaped(now, timeout).reply() is None,
        s.asked(now) == s,
{
    lemma_reaped_coordinator_wf(s, now, timeout);
}

/// The jobs of both kinds and the phase, as the coordinator holds them.
struct CoordinatorState {
    num_map_jobs: u32,
    num_reduce_jobs: u32,
    map_queue: JobQueue,
    reduce_queue: JobQueue,
    workload_phase: WorkloadPhase,
    files: Ghost<Seq<Seq<char>>>,
}

impl View for CoordinatorState {
    type V = CoordinatorView;

    closed spec fn view(&self) -> CoordinatorView {
        CoordinatorView {
            files: self.files@,
            num_map_jobs: self.num_map_jobs as nat,
            num_reduce_jobs: self.num_reduce_jobs,
            map: self.map_queue@,
            reduce: self.reduce_queue@,
            phase: self.workload_phase,
        }
    }
}

impl CoordinatorState {
    /// The state at startup.
    fn new(files: Vec<String>, num_reducer: u32) -> (coordinator: CoordinatorState)
        requires
            files.len() <= u32::MAX,
        ensures
            coordinator@ == CoordinatorView::initial(strings_view(files@), num_reducer),
            coordinator@.wf(),
    {
        let ghost names = strings_view(files@);
        let num_map_jobs = files.len() as u32;
        let waiting = MRCoordinator::gen_map_jobs(files);
        let coordinator = CoordinatorState {
            num_map_jobs,
            num_reduce_jobs: num_reducer,
            map_queue: JobQueue::new(waiting),
            reduce_queue: JobQueue::new(Vec::new()),
            workload_phase: WorkloadPhase::Mapping,
            files: Ghost(names),
        };
        proof {
            assert(jobs_view(Seq::<Job>::empty()) =~= Seq::<JobView>::empty());
            lemma_initial_wf(names, num_reducer);
        }
        coordinator
    }

    /// One worker asks for work at `now`.
    fn ask_for_job(&mut self, now: u64) -> (reply: Option<AskForJobReply>)
        requires
            old(self)@.wf(),
        ensures
            final(self)@.wf(),
            final(self)@ == old(self)@.asked(now),
            match reply {
                Some(r) => old(self)@.reply() == Some(r@),
                None => old(self)@.reply() is None,
            },
    {
        proof {
            lemma_asked_wf(self@, now);
        }
        let assigned_job = match self.workload_phase {
            WorkloadPhase::Mapping => self.map_queue.claim(now),
            WorkloadPhase::Reducing => self.reduce_queue.claim(now),
            WorkloadPhase::Complete => {
                return Some(
                    AskForJobReply { assigned_job: None, num_reducer: self.num_reduce_jobs },
                );
            },
        };
        match assigned_job {
            None => None,
            Some(job) => Some(
                AskForJobReply { assigned_job: Some(job), num_reducer: self.num_reduce_jobs },
            ),
        }
    }

    /// One worker reports `status` for the job `job_id` of kind `kind`.
    fn report(&mut self, job_id: u32, kind: JobType, status: JobStatus) -> (notify: bool)
        requires
            old(self)@.wf(),
        ensures
            final(self)@.wf(),
            final(self)@ == old(self)@.reported(job_id, kind, status),
            notify == old(self)@.report_notifies(job_id, kind, status),
    {
        proof {
            lemma_reported_wf(self@, job_id, kind, status);
        }
        let failed = match status {
            JobStatus::JobComplete => false,
            JobStatus::JobFailed => true,
        };
        match kind {
            JobType::MapJob => {
                let was_running = self.map_queue.settle(job_id, status);
                let mapping = match self.workload_phase {
                    WorkloadPhase::Mapping => true,
                    _ => false,
                };
                if was_running && !failed && mapping && self.map_queue.complete_len()
                    == self.num_map_jobs as usize {
                    self.reduce_queue = JobQueue::new(MRCoordinator::gen_reduce_jobs(self.num_reduce_jobs));
                    self.workload_phase = WorkloadPhase::Reducing;
                    true
                } else {
                    was_running && failed
                }
            },
            JobType::Reduce => {
                let was_running = self.reduce_queue.settle(job_id, status);
                let reducing = match self.workload_phase {
                    WorkloadPhase::Reducing => true,
                    _ => false,
                };
                if was_running && !failed && reducing && self.reduce_queue.complete_len()
                    == self.num_reduce_jobs as usize {
                    self.workload_phase = WorkloadPhase::Complete;
                    true
                } else {
                    was_running && failed
                }
            },
        }
    }

    /// One sweep for the jobs that have timed out at `now`.
    fn reset_timeout_jobs(&mut self, now: u64, timeout: u64) -> (notify: bool)
        requires
            old(self)@.wf(),
        ensures
            final(self)@.wf(),
            final(self)@ == old(self)@.reaped(now, timeout),
            notify == old(self)@.reap_notifies(now, timeout),
    {
        proof {
            lemma_reaped_coordinator_wf(self@, now, timeout);
        }
        match self.workload_phase {
            WorkloadPhase::Mapping => self.map_queue.requeue_expired(
                now,
                timeout,
                self.num_map_jobs,
            ),
            WorkloadPhase::Reducing => self.reduce_queue.requeue_expired(
                now,
                timeout,
                self.num_reduce_jobs,
            ),
            WorkloadPhase::Complete => false,
        }
    }
}


/// The coordinator's state: the jobs of both kinds and the phase. Every value
/// of this type satisfies the invariant of [`CoordinatorView`].
pub struct MRCoordinator {
    state: CoordinatorState,
}

impl View for MRCoordinator {
    type V = CoordinatorView;

    closed spec fn view(&self) -> CoordinatorView {
        self.state@
    }
}

impl Default for MRCoordinator {
    /// The coordinator of an empty workload: no input file, no partition.
    fn default() -> (coordinator: MRCoordinator)
        ensures
            coordinator@ == CoordinatorView::initial(Seq::empty(), 0),
            coordinator@.wf(),
    {
        let coordinator = MRCoordinator::new(Vec::new(), 0);
        assert(strings_view(Seq::<String>::empty()) =~= Seq::<Seq<char>>::empty());
        coordinator
    }
}

impl MRCoordinator {
    /// What holds of every coordinator: the invariant of its state.
    #[verifier::type_invariant]
    closed spec fn inv(self) -> bool {
        self.state@.wf()
    }

    /// The coordinator at startup, with one waiting map job for each input
    /// file and `num_reducer` partitions.
    pub fn new(files: Vec<String>, num_reducer: u32) -> (coordinator: MRCoordinator)
        requires
            files.len() <= u32::MAX,
        ensures
            coordinator@ == CoordinatorView::initial(strings_view(files@), num_reducer),
            coordinator@.wf(),
    {
        MRCoordinator { state: CoordinatorState::new(files, num_reducer) }
    }

    /// The coordinator at startup, for any list of input files: `None`
    /// exactly when there are more files than job ids.
    pub fn try_new(files: Vec<String>, num_reducer: u32) -> (coordinator: Option<MRCoordinator>)
        ensures
            coordinator is Some <==> files@.len() <= u32::MAX,
            coordinator is Some ==> coordinator->0@ == CoordinatorView::initial(
                strings_view(files@),
                num_reducer,
            ) && coordinator->0@.wf(),
    {
        if files.len() > 0xffff_ffff {
            None
        } else {
            Some(MRCoordinator::new(files, num_reducer))
        }
    }

    /// One map job for each input file, numbered in the order of the files.
    pub fn gen_map_jobs(files: Vec<String>) -> (jobs: Vec<Job>)
        requires
            files.len() <= u32::MAX,
        ensures
            jobs_view(jobs@) == map_jobs(strings_view(files@)),
    {
        let mut jobs: Vec<Job> = Vec::new();
        let mut i: usize = 0;
        while i < files.len()
            invariant
                i <= files.len() <= u32::MAX,
                jobs@.len() == i,
                forall|j: int|
                    0 <= j < i ==> (#[trigger] jobs@[j])@ == map_job(j as nat, files@[j]@),
            decreases files.len() - i,
        {
            jobs.push(
                Job {
                    id: i as u32,
                    job_type: JobType::MapJob.to_i32(),
                    inp_file: files[i].clone(),
                    oup_file: String::new(),
                },
            );
            i = i + 1;
        }
        assert(jobs_view(jobs@) =~= map_jobs(strings_view(files@)));
        jobs
    }

    /// One reduce job for each partition, in order.
    pub fn gen_reduce_jobs(num_reducer: u32) -> (jobs: Vec<Job>)
        ensures
            jobs_view(jobs@) == reduce_jobs(num_reducer as nat),
    {
        let mut jobs: Vec<Job> = Vec::new();
        let mut i: u32 = 0;
        while i < num_reducer
            invariant
                i <= num_reducer,
                jobs@.len() == i,
                forall|j: int| 0 <= j < i ==> (#[trigger] jobs@[j])@ == reduce_job(j as nat),
            decreases num_reducer - i,
        {
            jobs.push(
                Job {
                    id: i,
                    job_type: JobType::Reduce.to_i32(),
                    inp_file: intermediate_name(i),
                    oup_file: output_name(i),
                },
            );
            i = i + 1;
        }
        assert(jobs_view(jobs@) =~= reduce_jobs(num_reducer as nat));
        jobs
    }

    /// The current phase.
    pub fn phase(&self) -> (phase: WorkloadPhase)
        ensures
            phase == self@.phase,
            self@.wf(),
    {
        proof {
            use_type_invariant(self);
        }
        self.state.workload_phase
    }

    /// Whether the workload is complete.
    pub fn is_complete(&self) -> (complete: bool)
        ensures
            complete == (self@.phase is Complete),
    {
        match self.state.workload_phase {
            WorkloadPhase::Complete => true,
            _ => false,
        }
    }

    /// The number of partitions.
    pub fn num_reducer(&self) -> (count: u32)
        ensures
            count == self@.num_reduce_jobs,
    {
        self.state.num_reduce_jobs
    }

    /// The number of map jobs.
    pub fn num_map_jobs(&self) -> (count: u32)
        ensures
            count == self@.num_map_jobs,
    {
        self.state.num_map_jobs
    }

    /// The map jobs.
    pub fn map_queue(&self) -> (queue: &JobQueue)
        ensures
            queue@ == self@.map,
    {
        &self.state.map_queue
    }

    /// The reduce jobs.
    pub fn reduce_queue(&self) -> (queue: &JobQueue)
        ensures
            queue@ == self@.reduce,
    {
        &self.state.reduce_queue
    }

    /// Answers a worker that asks for work at `now`. `None` tells the caller to
    /// wait until it is woken and to ask again; a reply without a job tells the
    /// worker to stop; otherwise the first waiting job of the current phase is
    /// handed out and recorded as running since `now`.
    pub fn ask_for_job(&mut self, now: u64) -> (reply: Option<AskForJobReply>)
        ensures
            old(self)@.wf(),
            final(self)@.wf(),
            final(self)@ == old(self)@.asked(now),
            match reply {
                Some(r) => old(self)@.reply() == Some(r@),
                None => old(self)@.reply() is None,
            },
    {
        proof {
            use_type_invariant(&*self);
        }
        let mut state = CoordinatorState::new(Vec::new(), 0);
        std::mem::swap(&mut state, &mut self.state);
        let outcome = state.ask_for_job(now);
        self.state = state;
        outcome
    }

    /// Takes a worker's report of `status` for the job `job_id` of kind
    /// `kind`. A report for a job that is not running changes nothing. Returns
    /// whether the blocked askers are to be woken.
    pub fn report(&mut self, job_id: u32, kind: JobType, status: JobStatus) -> (notify: bool)
        ensures
            old(self)@.wf(),
            final(self)@.wf(),
            final(self)@ == old(self)@.reported(job_id, kind, status),
            notify == old(self)@.report_notifies(job_id, kind, status),
    {
        proof {
            use_type_invariant(&*self);
        }
        let mut state = CoordinatorState::new(Vec::new(), 0);
        std::mem::swap(&mut state, &mut self.state);
        let outcome = state.report(job_id, kind, status);
        self.state = state;
        outcome
    }

    /// Takes a report as it came over the wire. A report whose kind or status
    /// is no known value is dropped.
    pub fn report_job_status(&mut self, request: &ReportJobStatusRequest) -> (notify: bool)
        ensures
            old(self)@.wf(),
            final(self)@.wf(),
            match (JobType::of_wire(request.job_type), JobStatus::of_wire(request.status)) {
                (Some(kind), Some(status)) => {
                    &&& final(self)@ == old(self)@.reported(request.job_id, kind, status)
                    &&& notify == old(self)@.report_notifies(request.job_id, kind, status)
                },
                _ => final(self)@ == old(self)@ && !notify,
            },
    {
        proof {
            use_type_invariant(&*self);
        }
        match (JobType::from_i32(request.job_type), JobStatus::from_i32(request.status)) {
            (Some(kind), Some(status)) => self.report(request.job_id, kind, status),
            _ => false,
        }
    }

    /// Puts the running jobs of the current phase that have timed out at `now`
    /// back in line, in ascending order of id. Returns whether the blocked
    /// askers are to be woken, which is whether any job was put back.
    pub fn reset_timeout_jobs(&mut self, now: u64, timeout: u64) -> (notify: bool)
        ensures
            old(self)@.wf(),
            final(self)@.wf(),
            final(self)@ == old(self)@.reaped(now, timeout),
            notify == old(self)@.reap_notifies(now, timeout),
    {
        proof {
            use_type_invariant(&*self);
        }
        let mut state = CoordinatorState::new(Vec::new(), 0);
        std::mem::swap(&mut state, &mut self.state);
        let outcome = state.reset_timeout_jobs(now, timeout);
        self.state = state;
        outcome
    }
}

} // verus!
