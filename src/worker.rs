//! Messages between workers and the coordinator.
use vstd::prelude::*;
use crate::task::Task;

verus! {

pub struct WorkerRegisterRequest {
    pub hostname: String,
    pub max_concurrency: u32,
}

pub struct WorkerRegisterResponse {
    pub worker_id: String,
}

pub struct WorkerHeartbeatRequest {
    pub worker_id: String,
    /// Resident memory of the worker's host, when sampled.
    pub mem_bytes: Option<u64>,
}

pub struct WorkerHeartbeatResponse {
    pub ok: bool,
}

pub struct TaskAssignmentRequest {
    pub worker_id: String,
}

pub struct TaskAssignmentResponse {
    pub task: Option<Task>,
}

pub struct TaskCompleteRequest {
    pub task_id: String,
    pub success: bool,
}

pub struct TaskCompleteResponse {
    pub ok: bool,
}

/// What the coordinator reports of a worker.
pub struct WorkerMetrics {
    pub worker_id: String,
    pub hostname: String,
    pub dead: bool,
    pub max_concurrency: u32,
    pub last_heartbeat_secs_ago: u64,
    /// In-flight tasks of the worker.
    pub active_tasks: u32,
    pub tasks_started: u64,
    pub tasks_succeeded: u64,
    pub tasks_failed: u64,
    /// `total_task_time_ms / max(tasks_succeeded, 1)`.
    pub avg_task_ms: u64,
}

} // verus!
