//! A unit of execution: one input file of one job.
use vstd::prelude::*;

verus! {

pub struct Task {
    pub id: String,
    pub job_id: String,
    /// The DAG node it executes.
    pub node_id: String,
    /// Starts at 0 and grows by one on each retry.
    pub attempt: u32,
    /// Logical stage of the job; always 0 for single-stage jobs.
    pub stage: u32,
    /// `file_index mod parallelism`.
    pub partition: u32,
    pub parallelism: u32,
    pub input_path: String,
    pub output_path: String,
}

impl Task {
    /// A field-by-field copy.
    pub fn copy(&self) -> (r: Task)
        ensures
            r == *self,
    {
        Task {
            id: self.id.clone(),
            job_id: self.job_id.clone(),
            node_id: self.node_id.clone(),
            attempt: self.attempt,
            stage: self.stage,
            partition: self.partition,
            parallelism: self.parallelism,
            input_path: self.input_path.clone(),
            output_path: self.output_path.clone(),
        }
    }
}

} // verus!
