//! The messages exchanged between the coordinator and its workers.

use vstd::prelude::*;
use vstd::string::*;
use crate::text::{indexed_name, make_indexed_name};

verus! {

/// The kind of work a job stands for.
#[derive(Clone, Copy, Debug, PartialEq, Eq, Structural, Hash)]
pub enum JobType {
    MapJob,
    Reduce,
}

/// The outcome a worker reports for a job.
#[derive(Clone, Copy, Debug, PartialEq, Eq, Structural, Hash)]
pub enum JobStatus {
    JobComplete,
    JobFailed,
}

impl JobType {
    /// The number that stands for this kind on the wire.
    pub open spec fn wire(self) -> i32 {
        match self {
            JobType::MapJob => 0i32,
            JobType::Reduce => 1i32,
        }
    }

    /// The kind that a wire number stands for, if any.
    pub open spec fn of_wire(value: i32) -> Option<JobType> {
        if value == 0 {
            Some(JobType::MapJob)
        } else if value == 1 {
            Some(JobType::Reduce)
        } else {
            None
        }
    }

    /// The number that stands for this kind on the wire.
    pub fn to_i32(self) -> (value: i32)
        ensures
            value == self.wire(),
    {
        match self {
            JobType::MapJob => 0i32,
            JobType::Reduce => 1i32,
        }
    }

    /// The kind that a wire number stands for, if any.
    pub fn from_i32(value: i32) -> (kind: Option<JobType>)
        ensures
            kind == JobType::of_wire(value),
    {
        if value == 0 {
            Some(JobType::MapJob)
        } else if value == 1 {
            Some(JobType::Reduce)
        } else {
            None
        }
    }
}

impl JobStatus {
    /// The number that stands for this status on the wire.
    pub open spec fn wire(self) -> i32 {
        match self {
            JobStatus::JobComplete => 0i32,
            JobStatus::JobFailed => 1i32,
        }
    }

    /// The status that a wire number stands for, if any.
    pub open spec fn of_wire(value: i32) -> Option<JobStatus> {
        if value == 0 {
            Some(JobStatus::JobComplete)
        } else if value == 1 {
            Some(JobStatus::JobFailed)
        } else {
            None
        }
    }

    /// The number that stands for this status on the wire.
    pub fn to_i32(self) -> (value: i32)
        ensures
            value == self.wire(),
    {
        match self {
            JobStatus::JobComplete => 0i32,
            JobStatus::JobFailed => 1i32,
        }
    }

    /// The status that a wire number stands for, if any.
    pub fn from_i32(value: i32) -> (status: Option<JobStatus>)
        ensures
            status == JobStatus::of_wire(value),
    {
        if value == 0 {
            Some(JobStatus::JobComplete)
        } else if value == 1 {
            Some(JobStatus::JobFailed)
        } else {
            None
        }
    }
}

/// The empty message.
#[derive(Clone, Copy, Debug, PartialEq, Eq, Structural, Default)]
pub struct Empty {}

/// An immutable descriptor of one unit of work.
#[derive(Debug, PartialEq, Eq)]
pub struct Job {
    pub id: u32,
    pub job_type: i32,
    pub inp_file: String,
    pub oup_file: String,
}

/// What a [`Job`] holds, with its paths as character sequences.
pub struct JobView {
    pub id: u32,
    pub job_type: i32,
    pub inp_file: Seq<char>,
    pub oup_file: Seq<char>,
}

impl View for Job {
    type V = JobView;

    open spec fn view(&self) -> JobView {
        JobView {
            id: self.id,
            job_type: self.job_type,
            inp_file: self.inp_file@,
            oup_file: self.oup_file@,
        }
    }
}

impl Clone for Job {
    fn clone(&self) -> (copy: Job)
        ensures
            copy@ == self@,
    {
        Job {
            id: self.id,
            job_type: self.job_type,
            inp_file: self.inp_file.clone(),
            oup_file: self.oup_file.clone(),
        }
    }
}

/// The views of a sequence of jobs, in order.
pub open spec fn jobs_view(jobs: Seq<Job>) -> Seq<JobView> {
    Seq::new(jobs.len(), |i: int| jobs[i]@)
}

/// The map job of the `index`-th input file: it reads that file and names no
/// output.
pub open spec fn map_job(index: nat, file: Seq<char>) -> JobView {
    JobView { id: index as u32, job_type: JobType::MapJob.wire(), inp_file: file, oup_file: Seq::empty() }
}

/// The reduce job of partition `index`: it reads `mr-inp-<index>` and writes
/// `mr-out-<index>`.
pub open spec fn reduce_job(index: nat) -> JobView {
    JobView {
        id: index as u32,
        job_type: JobType::Reduce.wire(),
        inp_file: indexed_name("mr-inp-"@, index),
        oup_file: indexed_name("mr-out-"@, index),
    }
}

/// The name of the intermediate file of partition `index`.
pub fn intermediate_name(index: u32) -> (name: String)
    ensures
        name@ == indexed_name("mr-inp-"@, index as nat),
{
    make_indexed_name("mr-inp-", index)
}

/// The name of the output file of partition `index`.
pub fn output_name(index: u32) -> (name: String)
    ensures
        name@ == indexed_name("mr-out-"@, index as nat),
{
    make_indexed_name("mr-out-", index)
}

/// The coordinator's answer to a worker that asks for work. No assigned job
/// means that the workload is complete.
#[derive(Debug, PartialEq, Eq)]
pub struct AskForJobReply {
    pub assigned_job: Option<Job>,
    pub num_reducer: u32,
}

/// What an [`AskForJobReply`] holds.
pub struct AskForJobReplyView {
    pub assigned_job: Option<JobView>,
    pub num_reducer: u32,
}

impl View for AskForJobReply {
    type V = AskForJobReplyView;

    open spec fn view(&self) -> AskForJobReplyView {
        AskForJobReplyView {
            assigned_job: match self.assigned_job {
                Some(job) => Some(job@),
                None => None,
            },
            num_reducer: self.num_reducer,
        }
    }
}

/// A worker's report on a job, as it travels on the wire.
#[derive(Clone, Copy, Debug, PartialEq, Eq, Structural)]
pub struct ReportJobStatusRequest {
    pub job_id: u32,
    pub job_type: i32,
    pub status: i32,
}

impl ReportJobStatusRequest {
    /// The report of `status` for the job `job_id` of kind `kind`.
    pub fn new(job_id: u32, kind: JobType, status: JobStatus) -> (request: ReportJobStatusRequest)
        ensures
            request.job_id == job_id,
            request.job_type == kind.wire(),
            request.status == status.wire(),
    {
        ReportJobStatusRequest { job_id, job_type: kind.to_i32(), status: status.to_i32() }
    }
}

} // verus!
