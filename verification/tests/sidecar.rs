use rooted::sidecar::{observe_worker, worker_status, WorkerPoll};

#[test]
fn an_exited_worker_is_reported_with_its_status() {
    let (running, problem) = observe_worker(WorkerPoll::Exited("exit status: 1".into()), None);
    assert!(!running);
    assert_eq!(problem.as_deref(), Some("the ingestion worker exited (exit status: 1)"));
}

#[test]
fn a_live_worker_keeps_the_known_problem() {
    let s = worker_status(WorkerPoll::Alive, None, Some("2026-01-01 10:00:00".into()), vec![]);
    assert!(s.running);
    assert!(s.problem.is_none());
    let s = worker_status(
        WorkerPoll::NotStarted,
        Some("ingestion worker not found".into()),
        None,
        vec![],
    );
    assert!(!s.running);
    assert_eq!(s.problem.as_deref(), Some("ingestion worker not found"));
}
