use mapreduce_rs::coordinator::{MRCoordinator, WorkloadPhase, JOB_TIMEOUT_SECS, REAP_PERIOD_SECS};
use mapreduce_rs::queue::JobQueue;
use mapreduce_rs::job::{
    intermediate_name, output_name, AskForJobReply, Job, JobStatus, JobType,
    ReportJobStatusRequest,
};

fn files(names: &[&str]) -> Vec<String> {
    names.iter().map(|n| n.to_string()).collect()
}

fn map_job(id: u32, file: &str) -> Job {
    Job { id, job_type: 0, inp_file: file.to_string(), oup_file: String::new() }
}

fn reduce_job(id: u32) -> Job {
    Job { id, job_type: 1, inp_file: format!("mr-inp-{}", id), oup_file: format!("mr-out-{}", id) }
}

fn running_ids(c: &MRCoordinator, kind: JobType) -> Vec<u32> {
    let (queue, count) = match kind {
        JobType::MapJob => (c.map_queue(), c.num_map_jobs()),
        JobType::Reduce => (c.reduce_queue(), c.num_reducer()),
    };
    (0..count).filter(|id| queue.is_running(*id)).collect()
}

/// Each id below `count` is in exactly one of the three sets, and no other id
/// is in any of them.
fn assert_partition(c: &MRCoordinator, kind: JobType, count: u32) {
    let queue = match kind {
        JobType::MapJob => c.map_queue(),
        JobType::Reduce => c.reduce_queue(),
    };
    let mut all: Vec<u32> = queue.waiting_ids();
    all.extend(running_ids(c, kind));
    all.extend(queue.complete_ids());
    all.sort();
    let expect: Vec<u32> = (0..count).collect();
    assert_eq!(all, expect);
}

fn assert_invariants(c: &MRCoordinator) {
    assert_partition(c, JobType::MapJob, c.num_map_jobs());
    let reduce_count = if c.phase() == WorkloadPhase::Mapping { 0 } else { c.num_reducer() };
    assert_partition(c, JobType::Reduce, reduce_count);
    if c.num_map_jobs() > 0 {
        assert_eq!(
            c.map_queue().complete_len() == c.num_map_jobs() as usize,
            c.phase() != WorkloadPhase::Mapping
        );
    }
    if c.num_reducer() > 0 {
        assert_eq!(
            c.reduce_queue().complete_len() == c.num_reducer() as usize,
            c.phase() == WorkloadPhase::Complete
        );
    }
}

fn rank(phase: WorkloadPhase) -> u32 {
    match phase {
        WorkloadPhase::Mapping => 0,
        WorkloadPhase::Reducing => 1,
        WorkloadPhase::Complete => 2,
    }
}

fn assigned(reply: Option<AskForJobReply>) -> Job {
    reply.expect("a reply").assigned_job.expect("a job")
}

#[test]
fn new_coordinator_waits_with_every_map_job() {
    let c = MRCoordinator::new(files(&["f1", "f2", "f3"]), 2);
    assert_eq!(c.phase(), WorkloadPhase::Mapping);
    assert_eq!(c.num_map_jobs(), 3);
    assert_eq!(c.num_reducer(), 2);
    assert_eq!(c.map_queue().waiting_ids(), vec![0, 1, 2]);
    assert_eq!(c.map_queue().complete_len(), 0);
    assert_eq!(c.reduce_queue().waiting_len(), 0);
    assert!(!c.is_complete());
    assert_invariants(&c);
}

#[test]
fn default_phase_is_mapping() {
    assert_eq!(WorkloadPhase::default(), WorkloadPhase::Mapping);
}

#[test]
fn timing_constants() {
    assert_eq!(JOB_TIMEOUT_SECS, 10);
    assert_eq!(REAP_PERIOD_SECS, 2);
    assert!(REAP_PERIOD_SECS < JOB_TIMEOUT_SECS);
}

#[test]
fn gen_map_jobs_numbers_the_files_in_order() {
    let jobs = MRCoordinator::gen_map_jobs(files(&["a.txt", "b.txt"]));
    assert_eq!(jobs, vec![map_job(0, "a.txt"), map_job(1, "b.txt")]);
    assert!(MRCoordinator::gen_map_jobs(Vec::new()).is_empty());
}

#[test]
fn gen_reduce_jobs_names_the_partition_files() {
    let jobs = MRCoordinator::gen_reduce_jobs(3);
    assert_eq!(jobs, vec![reduce_job(0), reduce_job(1), reduce_job(2)]);
    assert_eq!(jobs[2].inp_file, "mr-inp-2");
    assert_eq!(jobs[2].oup_file, "mr-out-2");
    assert!(MRCoordinator::gen_reduce_jobs(0).is_empty());
    let many = MRCoordinator::gen_reduce_jobs(12);
    assert_eq!(many[10].inp_file, "mr-inp-10");
    assert_eq!(many[11].oup_file, "mr-out-11");
}

#[test]
fn file_names_are_written_in_decimal() {
    assert_eq!(intermediate_name(0), "mr-inp-0");
    assert_eq!(intermediate_name(7), "mr-inp-7");
    assert_eq!(output_name(10), "mr-out-10");
    assert_eq!(output_name(4294967295), "mr-out-4294967295");
    assert_eq!(intermediate_name(1203), "mr-inp-1203");
}

#[test]
fn wire_numbers_of_kinds_and_statuses() {
    assert_eq!(JobType::MapJob.to_i32(), 0);
    assert_eq!(JobType::Reduce.to_i32(), 1);
    assert_eq!(JobStatus::JobComplete.to_i32(), 0);
    assert_eq!(JobStatus::JobFailed.to_i32(), 1);
    assert_eq!(JobType::from_i32(0), Some(JobType::MapJob));
    assert_eq!(JobType::from_i32(1), Some(JobType::Reduce));
    assert_eq!(JobType::from_i32(2), None);
    assert_eq!(JobType::from_i32(-1), None);
    assert_eq!(JobStatus::from_i32(0), Some(JobStatus::JobComplete));
    assert_eq!(JobStatus::from_i32(1), Some(JobStatus::JobFailed));
    assert_eq!(JobStatus::from_i32(7), None);
}

#[test]
fn map_jobs_are_handed_out_in_file_order() {
    let mut c = MRCoordinator::new(files(&["f1", "f2"]), 5);
    let first = c.ask_for_job(100).expect("a reply");
    assert_eq!(first.num_reducer, 5);
    assert_eq!(first.assigned_job, Some(map_job(0, "f1")));
    assert_eq!(c.map_queue().start_time(0), Some(100));
    assert_invariants(&c);
    let second = c.ask_for_job(101).expect("a reply");
    assert_eq!(second.assigned_job, Some(map_job(1, "f2")));
    assert_eq!(c.map_queue().start_time(1), Some(101));
    assert_eq!(c.map_queue().waiting_len(), 0);
    assert_eq!(running_ids(&c, JobType::MapJob), vec![0, 1]);
    assert_invariants(&c);
}

#[test]
fn asker_waits_while_jobs_run_and_none_waits() {
    let mut c = MRCoordinator::new(files(&["f1"]), 1);
    assigned(c.ask_for_job(0));
    assert_eq!(c.ask_for_job(1), None);
    assert_eq!(c.ask_for_job(2), None);
    assert_eq!(running_ids(&c, JobType::MapJob), vec![0]);
    // a failure report puts the job back in line and wakes the askers
    assert!(c.report(0, JobType::MapJob, JobStatus::JobFailed));
    assert_eq!(assigned(c.ask_for_job(3)), map_job(0, "f1"));
    // so does a timeout
    assert_eq!(c.ask_for_job(4), None);
    assert!(c.reset_timeout_jobs(13, 10));
    assert_eq!(assigned(c.ask_for_job(14)), map_job(0, "f1"));
    assert_invariants(&c);
}

#[test]
fn asker_waits_until_the_workload_is_complete() {
    let mut c = MRCoordinator::new(files(&["f1"]), 1);
    assigned(c.ask_for_job(0));
    assert!(c.report(0, JobType::MapJob, JobStatus::JobComplete));
    assigned(c.ask_for_job(1));
    assert_eq!(c.ask_for_job(2), None);
    assert!(c.report(0, JobType::Reduce, JobStatus::JobComplete));
    assert_eq!(c.ask_for_job(3), Some(AskForJobReply { assigned_job: None, num_reducer: 1 }));
}

#[test]
fn completion_that_changes_no_phase_wakes_nobody() {
    let mut c = MRCoordinator::new(files(&["f1", "f2"]), 1);
    assigned(c.ask_for_job(0));
    assigned(c.ask_for_job(0));
    assert!(!c.report(1, JobType::MapJob, JobStatus::JobComplete));
    assert_eq!(c.phase(), WorkloadPhase::Mapping);
    assert_eq!(c.map_queue().complete_ids(), vec![1]);
    assert_eq!(c.ask_for_job(1), None);
    assert_invariants(&c);
}

#[test]
fn last_map_completion_makes_the_reduce_jobs() {
    let mut c = MRCoordinator::new(files(&["f1", "f2"]), 3);
    assigned(c.ask_for_job(0));
    assigned(c.ask_for_job(0));
    assert!(!c.report(0, JobType::MapJob, JobStatus::JobComplete));
    assert_eq!(c.reduce_queue().waiting_len(), 0);
    assert!(c.report(1, JobType::MapJob, JobStatus::JobComplete));
    assert_eq!(c.phase(), WorkloadPhase::Reducing);
    assert_eq!(c.reduce_queue().waiting_ids(), vec![0, 1, 2]);
    assert_eq!(c.map_queue().complete_ids(), vec![0, 1]);
    assert_invariants(&c);
    let reply = c.ask_for_job(5).expect("a reply");
    assert_eq!(reply.num_reducer, 3);
    assert_eq!(reply.assigned_job, Some(reduce_job(0)));
    assert_eq!(assigned(c.ask_for_job(5)), reduce_job(1));
    assert_eq!(assigned(c.ask_for_job(5)), reduce_job(2));
    assert_eq!(c.ask_for_job(5), None);
    assert_invariants(&c);
}

#[test]
fn failed_job_goes_to_the_end_of_the_line() {
    let mut c = MRCoordinator::new(files(&["f1", "f2", "f3"]), 1);
    assigned(c.ask_for_job(0));
    assert!(c.report(0, JobType::MapJob, JobStatus::JobFailed));
    assert_eq!(c.map_queue().waiting_ids(), vec![1, 2, 0]);
    assert_eq!(running_ids(&c, JobType::MapJob), Vec::<u32>::new());
    assert_invariants(&c);
}

#[test]
fn duplicate_completion_is_ignored() {
    let mut c = MRCoordinator::new(files(&["f1", "f2"]), 2);
    assigned(c.ask_for_job(0));
    assigned(c.ask_for_job(0));
    assert!(!c.report(0, JobType::MapJob, JobStatus::JobComplete));
    let waiting = c.map_queue().waiting_ids();
    let complete = c.map_queue().complete_ids();
    assert!(!c.report(0, JobType::MapJob, JobStatus::JobComplete));
    assert!(!c.report(0, JobType::MapJob, JobStatus::JobFailed));
    assert_eq!(c.map_queue().waiting_ids(), waiting);
    assert_eq!(c.map_queue().complete_ids(), complete);
    assert_eq!(running_ids(&c, JobType::MapJob), vec![1]);
    assert_eq!(c.phase(), WorkloadPhase::Mapping);
    assert_invariants(&c);
}

#[test]
fn report_for_a_job_that_never_ran_is_ignored() {
    let mut c = MRCoordinator::new(files(&["f1"]), 2);
    assert!(!c.report(0, JobType::MapJob, JobStatus::JobComplete));
    assert!(!c.report(9, JobType::MapJob, JobStatus::JobFailed));
    assert!(!c.report(0, JobType::Reduce, JobStatus::JobComplete));
    assert_eq!(c.map_queue().waiting_ids(), vec![0]);
    assert_eq!(c.phase(), WorkloadPhase::Mapping);
    assert_invariants(&c);
}

#[test]
fn late_duplicate_reduce_report_leaves_the_workload_complete() {
    let mut c = MRCoordinator::new(files(&["f1", "f2"]), 3);
    let mut last = rank(c.phase());
    for id in 0..2 {
        assigned(c.ask_for_job(0));
        c.report(id, JobType::MapJob, JobStatus::JobComplete);
        assert!(rank(c.phase()) >= last);
        last = rank(c.phase());
        assert_invariants(&c);
    }
    for id in 0..3 {
        assigned(c.ask_for_job(1));
        let notify = c.report(id, JobType::Reduce, JobStatus::JobComplete);
        assert_eq!(notify, id == 2);
        assert!(rank(c.phase()) >= last);
        last = rank(c.phase());
        assert_invariants(&c);
    }
    assert_eq!(c.phase(), WorkloadPhase::Complete);
    assert!(c.is_complete());
    assert!(!c.report(1, JobType::Reduce, JobStatus::JobComplete));
    assert_eq!(c.phase(), WorkloadPhase::Complete);
    assert_eq!(c.reduce_queue().complete_ids(), vec![0, 1, 2]);
    assert_invariants(&c);
}

#[test]
fn complete_workload_answers_without_a_job() {
    let mut c = MRCoordinator::new(files(&["f1"]), 1);
    assigned(c.ask_for_job(0));
    c.report(0, JobType::MapJob, JobStatus::JobComplete);
    assigned(c.ask_for_job(0));
    c.report(0, JobType::Reduce, JobStatus::JobComplete);
    let reply = c.ask_for_job(1).expect("a reply");
    assert_eq!(reply.assigned_job, None);
    assert_eq!(reply.num_reducer, 1);
    assert!(!c.reset_timeout_jobs(1000, 10));
    assert_eq!(c.phase(), WorkloadPhase::Complete);
}

#[test]
fn crashed_worker_has_its_job_taken_back() {
    let mut c = MRCoordinator::new(files(&["f1", "f2", "f3"]), 2);
    // W1 takes job 0 at time 0 and is never heard of again
    assert_eq!(assigned(c.ask_for_job(0)).id, 0);
    // W2 works through the other jobs
    assert_eq!(assigned(c.ask_for_job(1)).id, 1);
    c.report(1, JobType::MapJob, JobStatus::JobComplete);
    assert_eq!(assigned(c.ask_for_job(2)).id, 2);
    c.report(2, JobType::MapJob, JobStatus::JobComplete);
    assert_eq!(c.ask_for_job(3), None);
    // before the deadline nothing is taken back
    assert!(!c.reset_timeout_jobs(9, JOB_TIMEOUT_SECS));
    assert_eq!(running_ids(&c, JobType::MapJob), vec![0]);
    assert_eq!(c.ask_for_job(9), None);
    // at the deadline job 0 waits again
    assert!(c.reset_timeout_jobs(10, JOB_TIMEOUT_SECS));
    assert_eq!(c.map_queue().waiting_ids(), vec![0]);
    assert_eq!(running_ids(&c, JobType::MapJob), Vec::<u32>::new());
    assert_invariants(&c);
    assert_eq!(assigned(c.ask_for_job(11)), map_job(0, "f1"));
    assert_eq!(c.map_queue().start_time(0), Some(11));
    assert!(c.report(0, JobType::MapJob, JobStatus::JobComplete));
    assert_eq!(c.phase(), WorkloadPhase::Reducing);
    // the report of the crashed worker, should it still come, changes nothing
    assert!(!c.report(0, JobType::MapJob, JobStatus::JobComplete));
    assert_invariants(&c);
}

#[test]
fn timed_out_jobs_wait_again_in_order_of_id() {
    let mut c = MRCoordinator::new(files(&["f0", "f1", "f2", "f3"]), 1);
    for now in [5u64, 0, 7, 1] {
        assigned(c.ask_for_job(now));
    }
    // started at 5, 0, 7, 1; at 11 with a timeout of 10 the jobs 1 and 3 are late
    assert!(c.reset_timeout_jobs(11, 10));
    assert_eq!(c.map_queue().waiting_ids(), vec![1, 3]);
    assert_eq!(running_ids(&c, JobType::MapJob), vec![0, 2]);
    assert!(!c.reset_timeout_jobs(11, 10));
    assert_invariants(&c);
}

#[test]
fn timeout_only_touches_the_current_phase() {
    let mut c = MRCoordinator::new(files(&["f1"]), 2);
    assigned(c.ask_for_job(0));
    c.report(0, JobType::MapJob, JobStatus::JobComplete);
    assert_eq!(assigned(c.ask_for_job(20)).id, 0);
    assert_eq!(assigned(c.ask_for_job(25)).id, 1);
    assert!(c.reset_timeout_jobs(30, 10));
    assert_eq!(c.reduce_queue().waiting_ids(), vec![0]);
    assert_eq!(running_ids(&c, JobType::Reduce), vec![1]);
    assert_eq!(c.map_queue().complete_ids(), vec![0]);
    assert_invariants(&c);
}

#[test]
fn clock_that_runs_backwards_times_nothing_out() {
    let mut c = MRCoordinator::new(files(&["f1"]), 1);
    assigned(c.ask_for_job(100));
    assert!(!c.reset_timeout_jobs(50, 10));
    assert!(!c.reset_timeout_jobs(50, 0));
    assert!(c.map_queue().has_expired(0, 100, 0));
    assert!(!c.map_queue().has_expired(0, 109, 10));
    assert!(c.map_queue().has_expired(0, 110, 10));
    assert!(!c.map_queue().has_expired(1, 110, 10));
}

#[test]
fn report_in_wire_form() {
    let mut c = MRCoordinator::new(files(&["f1"]), 1);
    assigned(c.ask_for_job(0));
    // unknown kind or status: dropped
    assert!(!c.report_job_status(&ReportJobStatusRequest { job_id: 0, job_type: 5, status: 0 }));
    assert!(!c.report_job_status(&ReportJobStatusRequest { job_id: 0, job_type: 0, status: 2 }));
    assert_eq!(running_ids(&c, JobType::MapJob), vec![0]);
    let request = ReportJobStatusRequest::new(0, JobType::MapJob, JobStatus::JobComplete);
    assert_eq!(request, ReportJobStatusRequest { job_id: 0, job_type: 0, status: 0 });
    assert!(c.report_job_status(&request));
    assert_eq!(c.phase(), WorkloadPhase::Reducing);
    assert!(!c.report_job_status(&request));
}

#[test]
fn coordinator_without_input_never_leaves_mapping() {
    let mut c = MRCoordinator::new(Vec::new(), 3);
    assert_eq!(c.num_map_jobs(), 0);
    assert_eq!(c.ask_for_job(0), None);
    assert!(!c.report(0, JobType::MapJob, JobStatus::JobComplete));
    assert!(!c.reset_timeout_jobs(100, 10));
    assert_eq!(c.phase(), WorkloadPhase::Mapping);
    assert_invariants(&c);
}

#[test]
fn coordinator_without_partitions_never_leaves_reducing() {
    let mut c = MRCoordinator::new(files(&["f1"]), 0);
    let reply = c.ask_for_job(0).expect("a reply");
    assert_eq!(reply.num_reducer, 0);
    assert!(c.report(0, JobType::MapJob, JobStatus::JobComplete));
    assert_eq!(c.phase(), WorkloadPhase::Reducing);
    assert_eq!(c.ask_for_job(1), None);
    assert_invariants(&c);
}

#[test]
fn job_clone_is_equal() {
    let job = reduce_job(4);
    assert_eq!(job.clone(), job);
}

#[test]
fn queue_moves_jobs_between_its_sets() {
    let mut q = JobQueue::new(vec![map_job(0, "a"), map_job(1, "b")]);
    assert_eq!(q.waiting_ids(), vec![0, 1]);
    assert_eq!(q.claim(3), Some(map_job(0, "a")));
    assert!(q.is_running(0));
    assert_eq!(q.start_time(0), Some(3));
    assert_eq!(q.start_time(1), None);
    assert!(!q.settle(1, JobStatus::JobComplete));
    assert!(q.settle(0, JobStatus::JobFailed));
    assert_eq!(q.waiting_ids(), vec![1, 0]);
    assert_eq!(q.claim(4), Some(map_job(1, "b")));
    assert!(q.settle(1, JobStatus::JobComplete));
    assert_eq!(q.complete_ids(), vec![1]);
    assert_eq!(q.complete_len(), 1);
    assert_eq!(q.claim(5), Some(map_job(0, "a")));
    assert_eq!(q.claim(6), None);
    assert!(!q.requeue_expired(14, 10, 2));
    assert!(q.requeue_expired(15, 10, 2));
    assert_eq!(q.waiting_ids(), vec![0]);
    assert_eq!(q.waiting_len(), 1);
    // only ids below the count are looked at
    assert_eq!(q.claim(20), Some(map_job(0, "a")));
    assert!(!q.requeue_expired(100, 10, 0));
    assert!(q.is_running(0));
}

#[test]
fn default_coordinator_has_no_work() {
    let mut c = MRCoordinator::default();
    assert_eq!(c.num_map_jobs(), 0);
    assert_eq!(c.num_reducer(), 0);
    assert_eq!(c.phase(), WorkloadPhase::Mapping);
    assert_eq!(c.ask_for_job(0), None);
}

#[test]
fn try_new_makes_the_coordinator_at_startup() {
    let c = MRCoordinator::try_new(files(&["f1", "f2"]), 3).expect("a coordinator");
    assert_eq!(c.phase(), WorkloadPhase::Mapping);
    assert_eq!(c.num_map_jobs(), 2);
    assert_eq!(c.num_reducer(), 3);
    assert_eq!(c.map_queue().waiting_ids(), vec![0, 1]);
    assert_eq!(c.map_queue().complete_len(), 0);
    assert_eq!(c.reduce_queue().complete_len(), 0);
    assert_invariants(&c);
}
