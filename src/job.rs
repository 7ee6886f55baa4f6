//! Jobs as submitted by clients and as tracked by the coordinator.
use vstd::prelude::*;
use crate::dag::Dag;

verus! {

pub struct JobRequest {
    pub name: String,
    pub dag: Dag,
    /// Desired number of partitions.
    pub parallelism: u32,
    /// Input files, e.g. `/data/input/*.txt`.
    pub input_glob: String,
    /// Base directory of all job outputs.
    pub output_dir: String,
}

#[derive(Debug, Clone, Copy, PartialEq, Eq, Structural)]
pub enum JobStatus {
    Accepted,
    Running,
    Failed,
    Succeeded,
}

impl JobStatus {
    /// The wire name of the status.
    pub fn as_str(&self) -> (r: &'static str)
        ensures
            r@ == match *self {
                JobStatus::Accepted => "ACCEPTED"@,
                JobStatus::Running => "RUNNING"@,
                JobStatus::Failed => "FAILED"@,
                JobStatus::Succeeded => "SUCCEEDED"@,
            },
    {
        match self {
            JobStatus::Accepted => "ACCEPTED",
            JobStatus::Running => "RUNNING",
            JobStatus::Failed => "FAILED",
            JobStatus::Succeeded => "SUCCEEDED",
        }
    }

    pub open spec fn is_terminal(self) -> bool {
        self == JobStatus::Failed || self == JobStatus::Succeeded
    }
}

/// A job as the coordinator tracks it. Times are milliseconds since the
/// Unix epoch.
pub struct JobInfo {
    pub id: String,
    pub name: String,
    pub status: JobStatus,
    pub dag: Dag,
    pub parallelism: u32,
    pub input_glob: String,
    /// `<base output dir>/<job id>`.
    pub output_dir: String,
    pub submitted_at: u64,
    pub started_at: Option<u64>,
    pub finished_at: Option<u64>,
    pub total_tasks: u32,
    pub completed_tasks: u32,
    pub failed_tasks: u32,
    pub retries: u32,
}

/// The output files of a job.
pub struct JobResults {
    pub job_id: String,
    pub output_dir: String,
    /// File names inside `output_dir`.
    pub files: Vec<String>,
}

} // verus!
