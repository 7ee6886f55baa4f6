use sparkmini::dag::Dag;
use sparkmini::job::{JobRequest, JobStatus};
use sparkmini::master::{AppState, SchedError, MAX_TASK_ATTEMPTS, WORKER_HEARTBEAT_TIMEOUT_MS};
use sparkmini::worker::{WorkerHeartbeatRequest, WorkerRegisterRequest};

fn request(parallelism: u32) -> JobRequest {
    JobRequest {
        name: "wc".to_string(),
        dag: Dag { nodes: Vec::new(), edges: Vec::new() },
        parallelism,
        input_glob: "/in/*".to_string(),
        output_dir: "/out".to_string(),
    }
}

fn strings(xs: &[&str]) -> Vec<String> {
    xs.iter().map(|x| x.to_string()).collect()
}

fn with_worker(state: &mut AppState, id: &str, cap: u32, now: u64) {
    state
        .register_worker_with_id(
            id.to_string(),
            WorkerRegisterRequest { hostname: format!("host-{}", id), max_concurrency: cap },
            now,
        )
        .unwrap();
}

fn accounted(state: &AppState, job: &str) -> bool {
    let j = state.get_job(job).unwrap();
    let queued = state.tasks_queue.iter().filter(|t| t.job_id == job).count() as u32;
    let flying = state.in_flight.iter().filter(|e| e.task.job_id == job).count() as u32;
    queued + flying + j.completed_tasks + j.failed_tasks == j.total_tasks
}

#[test]
fn admission_builds_one_task_per_file() {
    let mut st = AppState::new();
    st.admit_job(
        "j1".to_string(),
        request(2),
        &strings(&["/in/a.txt", "/in/sub/b.txt", "/in/c.txt"]),
        &strings(&["t1", "t2", "t3"]),
        100,
    )
    .unwrap();
    let job = st.get_job("j1").unwrap();
    assert_eq!(job.status, JobStatus::Accepted);
    assert_eq!(job.total_tasks, 3);
    assert_eq!(job.output_dir, "/out/j1");
    assert_eq!(job.submitted_at, 100);
    assert_eq!(st.tasks_queue.len(), 3);
    assert_eq!(st.tasks_queue[1].output_path, "/out/j1/b.txt");
    assert_eq!(st.tasks_queue[1].partition, 1);
    assert_eq!(st.tasks_queue[2].partition, 0);
    assert_eq!(st.tasks_queue[2].attempt, 0);
    assert_eq!(st.tasks_queue[0].node_id, "wordcount");
    assert!(accounted(&st, "j1"));
}

#[test]
fn empty_glob_job_succeeds_at_once() {
    let mut st = AppState::new();
    st.admit_job("j0".to_string(), request(0), &Vec::new(), &Vec::new(), 42).unwrap();
    let job = st.get_job("j0").unwrap();
    assert_eq!(job.status, JobStatus::Succeeded);
    assert_eq!(job.finished_at, Some(42));
    assert_eq!(job.total_tasks, 0);
    let res = st.job_results("j0", Vec::new()).unwrap();
    assert!(res.files.is_empty());
    assert_eq!(res.output_dir, "/out/j0");
}

#[test]
fn duplicate_and_unknown_ids_are_refused() {
    let mut st = AppState::new();
    st.admit_job("j".to_string(), request(1), &strings(&["/a"]), &strings(&["t"]), 0).unwrap();
    assert_eq!(
        st.admit_job("j".to_string(), request(1), &Vec::new(), &Vec::new(), 0),
        Err(SchedError::DuplicateId)
    );
    with_worker(&mut st, "w", 1, 0);
    assert!(st
        .register_worker_with_id("w".to_string(), WorkerRegisterRequest { hostname: "h".to_string(), max_concurrency: 1 }, 0)
        .is_err());
    assert_eq!(st.complete_task("nope", true, 1), Err(SchedError::NotFound));
    assert!(st.get_job("nope").is_none());
    assert!(st.job_results("nope", Vec::new()).is_none());
    let hb = WorkerHeartbeatRequest { worker_id: "ghost".to_string(), mem_bytes: None };
    assert!(st.worker_heartbeat(&hb, 5).is_err());
}

#[test]
fn happy_path_job_succeeds() {
    let mut st = AppState::new();
    with_worker(&mut st, "w", 2, 0);
    st.admit_job("j".to_string(), request(2), &strings(&["/a", "/b"]), &strings(&["t1", "t2"]), 0).unwrap();
    let a = st.assign_task("w", 10).unwrap();
    assert_eq!(st.get_job("j").unwrap().status, JobStatus::Running);
    assert_eq!(st.get_job("j").unwrap().started_at, Some(10));
    let b = st.assign_task("w", 11).unwrap();
    assert!(st.assign_task("w", 12).is_none());
    st.complete_task(&a.id, true, 20).unwrap();
    assert_eq!(st.get_job("j").unwrap().status, JobStatus::Running);
    assert!(accounted(&st, "j"));
    st.complete_task(&b.id, true, 30).unwrap();
    let job = st.get_job("j").unwrap();
    assert_eq!(job.status, JobStatus::Succeeded);
    assert_eq!(job.completed_tasks, 2);
    assert_eq!(job.finished_at, Some(30));
    assert!(st.complete_task(&b.id, true, 31).is_err());
    let m = &st.list_workers(40)[0];
    assert_eq!(m.tasks_started, 2);
    assert_eq!(m.tasks_succeeded, 2);
    assert_eq!(m.active_tasks, 0);
    assert_eq!(m.avg_task_ms, (10 + 19) / 2);
}

#[test]
fn per_worker_cap_holds() {
    let mut st = AppState::new();
    with_worker(&mut st, "w", 1, 0);
    st.admit_job("j".to_string(), request(1), &strings(&["/a", "/b", "/c"]), &strings(&["t1", "t2", "t3"]), 0)
        .unwrap();
    let mut done = 0;
    while done < 3 {
        let t = st.assign_task("w", 1).expect("one task at a time");
        assert!(st.assign_task("w", 1).is_none());
        assert_eq!(st.in_flight.iter().filter(|e| e.worker_id == "w").count(), 1);
        st.complete_task(&t.id, true, 2).unwrap();
        done += 1;
    }
    assert_eq!(st.get_job("j").unwrap().status, JobStatus::Succeeded);
}

#[test]
fn retry_exhaustion_fails_the_job() {
    let mut st = AppState::new();
    with_worker(&mut st, "w", 1, 0);
    st.admit_job("j".to_string(), request(1), &strings(&["/a"]), &strings(&["t"]), 0).unwrap();
    let mut attempts = Vec::new();
    loop {
        let t = st.assign_task("w", 5).unwrap();
        attempts.push(t.attempt);
        st.complete_task(&t.id, false, 7).unwrap();
        if st.tasks_queue.is_empty() {
            break;
        }
    }
    assert_eq!(attempts, vec![0, 1, MAX_TASK_ATTEMPTS - 1]);
    let job = st.get_job("j").unwrap();
    assert_eq!(job.status, JobStatus::Failed);
    assert_eq!(job.finished_at, Some(7));
    assert_eq!(job.failed_tasks, 1);
    assert_eq!(job.retries, 2);
    assert!(st.in_flight.is_empty());
    assert!(accounted(&st, "j"));
}

#[test]
fn failing_at_the_last_attempt_fails_the_job() {
    let mut st = AppState::new();
    with_worker(&mut st, "w", 1, 0);
    st.admit_job("j".to_string(), request(1), &strings(&["/a"]), &strings(&["t"]), 0).unwrap();
    for _ in 0..(MAX_TASK_ATTEMPTS - 1) {
        let t = st.assign_task("w", 0).unwrap();
        st.complete_task(&t.id, false, 0).unwrap();
    }
    let t = st.assign_task("w", 0).unwrap();
    assert_eq!(t.attempt, MAX_TASK_ATTEMPTS - 1);
    assert_eq!(st.get_job("j").unwrap().status, JobStatus::Running);
    st.complete_task(&t.id, false, 9).unwrap();
    let job = st.get_job("j").unwrap();
    assert_eq!(job.status, JobStatus::Failed);
    assert_eq!(job.finished_at, Some(9));
    assert!(st.tasks_queue.iter().all(|x| x.id != "t"));
    assert!(st.in_flight.iter().all(|e| e.task.id != "t"));
}

#[test]
fn worker_death_mid_job_requeues_its_tasks() {
    let mut st = AppState::new();
    with_worker(&mut st, "a", 2, 0);
    with_worker(&mut st, "b", 2, 0);
    st.admit_job(
        "j".to_string(),
        request(4),
        &strings(&["/1", "/2", "/3", "/4"]),
        &strings(&["t1", "t2", "t3", "t4"]),
        0,
    )
    .unwrap();
    let a1 = st.assign_task("a", 1).unwrap();
    let a2 = st.assign_task("a", 1).unwrap();
    let b1 = st.assign_task("b", 1).unwrap();
    let b2 = st.assign_task("b", 1).unwrap();
    let later = WORKER_HEARTBEAT_TIMEOUT_MS + 10;
    let hb = WorkerHeartbeatRequest { worker_id: "a".to_string(), mem_bytes: Some(1024) };
    st.worker_heartbeat(&hb, later).unwrap();
    let dead = st.sweep_once(later + 1);
    assert_eq!(dead, vec!["b".to_string()]);
    assert!(st.in_flight.iter().all(|e| e.worker_id != "b"));
    assert_eq!(st.tasks_queue.len(), 2);
    assert!(st.tasks_queue.iter().all(|t| t.attempt == 1));
    assert_eq!(st.tasks_queue[0].id, b1.id);
    assert_eq!(st.tasks_queue[1].id, b2.id);
    assert!(st.list_workers(later + 1).iter().any(|m| m.worker_id == "b" && m.dead));
    assert!(accounted(&st, "j"));
    st.complete_task(&a1.id, true, later + 2).unwrap();
    st.complete_task(&a2.id, true, later + 2).unwrap();
    let c = st.assign_task("a", later + 3).unwrap();
    let d = st.assign_task("a", later + 3).unwrap();
    st.complete_task(&c.id, true, later + 4).unwrap();
    st.complete_task(&d.id, true, later + 4).unwrap();
    let job = st.get_job("j").unwrap();
    assert_eq!(job.status, JobStatus::Succeeded);
    assert!(job.retries >= 2);
    assert_eq!(st.sweep_once(later + 5), Vec::<String>::new());
}

#[test]
fn sweep_fails_job_of_exhausted_task_on_dead_worker() {
    let mut st = AppState::new();
    with_worker(&mut st, "w", 1, 0);
    with_worker(&mut st, "v", 1, 0);
    st.admit_job("j".to_string(), request(1), &strings(&["/a"]), &strings(&["t"]), 0).unwrap();
    for _ in 0..(MAX_TASK_ATTEMPTS - 1) {
        let t = st.assign_task("w", 0).unwrap();
        st.complete_task(&t.id, false, 0).unwrap();
    }
    let t = st.assign_task("v", 0).unwrap();
    assert_eq!(t.attempt, MAX_TASK_ATTEMPTS - 1);
    let dead = st.sweep_once(WORKER_HEARTBEAT_TIMEOUT_MS + 1);
    assert_eq!(dead.len(), 2);
    let job = st.get_job("j").unwrap();
    assert_eq!(job.status, JobStatus::Failed);
    assert_eq!(job.failed_tasks, 1);
    assert!(st.in_flight.is_empty());
    assert!(st.tasks_queue.is_empty());
}

#[test]
fn unknown_worker_gets_at_most_one_task() {
    let mut st = AppState::new();
    st.admit_job("j".to_string(), request(1), &strings(&["/a", "/b"]), &strings(&["t1", "t2"]), 0).unwrap();
    assert!(st.assign_task("stranger", 0).is_some());
    assert!(st.assign_task("stranger", 0).is_none());
}

#[test]
fn create_job_and_register_draw_fresh_ids() {
    let mut st = AppState::new();
    let id = st.create_job(request(2), &strings(&["/x/y.txt"]), 9).unwrap();
    assert_eq!(id.len(), 36);
    assert_eq!(st.get_job(&id).unwrap().total_tasks, 1);
    let r = st.register_worker(WorkerRegisterRequest { hostname: "h".to_string(), max_concurrency: 3 }, 9).unwrap();
    assert_ne!(r.worker_id, id);
    assert_eq!(st.list_workers(9)[0].max_concurrency, 3);
}

#[test]
fn job_status_wire_names() {
    assert_eq!(JobStatus::Accepted.as_str(), "ACCEPTED");
    assert_eq!(JobStatus::Running.as_str(), "RUNNING");
    assert_eq!(JobStatus::Failed.as_str(), "FAILED");
    assert_eq!(JobStatus::Succeeded.as_str(), "SUCCEEDED");
}

#[test]
fn admission_refuses_repeated_or_taken_task_ids() {
    let mut st = AppState::new();
    assert_eq!(
        st.admit_job("j".to_string(), request(1), &strings(&["/a", "/b"]), &strings(&["t", "t"]), 0),
        Err(SchedError::DuplicateId)
    );
    assert!(st.get_job("j").is_none());
    st.admit_job("j".to_string(), request(1), &strings(&["/a"]), &strings(&["t"]), 0).unwrap();
    assert_eq!(
        st.admit_job("k".to_string(), request(1), &strings(&["/b"]), &strings(&["t"]), 0),
        Err(SchedError::DuplicateId)
    );
    assert_eq!(st.tasks_queue.len(), 1);
}

#[test]
fn created_job_tasks_are_numbered_after_the_job() {
    let mut st = AppState::new();
    let id = st.create_job(request(2), &strings(&["/x/a.txt", "/x/b.txt", "/x/c.txt"]), 5).unwrap();
    let ids: Vec<String> = st.tasks_queue.iter().map(|t| t.id.clone()).collect();
    assert_eq!(ids, vec![format!("{}-0", id), format!("{}-1", id), format!("{}-2", id)]);
    assert_eq!(st.tasks_queue[2].partition, 0);
    assert_eq!(st.tasks_queue[1].output_path, format!("/out/{}/b.txt", id));
}

#[test]
fn completed_task_leaves_the_in_flight_table() {
    let mut st = AppState::new();
    with_worker(&mut st, "w", 2, 0);
    st.admit_job("j".to_string(), request(1), &strings(&["/a"]), &strings(&["t"]), 0).unwrap();
    let t = st.assign_task("w", 1).unwrap();
    st.complete_task(&t.id, false, 2).unwrap();
    assert!(st.in_flight.iter().all(|e| e.task.id != t.id));
    assert_eq!(st.tasks_queue[0].id, t.id);
    assert_eq!(st.tasks_queue[0].attempt, 1);
    assert_eq!(st.get_job("j").unwrap().retries, 1);
    assert_eq!(st.list_workers(3)[0].tasks_failed, 1);
}
