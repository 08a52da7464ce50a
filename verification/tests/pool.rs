use ngram::pool::{JobQueue, WorkerStep};

#[test]
fn jobs_come_out_once_in_order() {
    let mut q = JobQueue::new();
    for id in 10..15u64 {
        assert!(q.submit(id));
    }
    let mut delivered = Vec::new();
    while let Some(id) = q.take() {
        delivered.push(id);
    }
    assert_eq!(delivered, vec![10, 11, 12, 13, 14]);
    assert_eq!(q.take(), None);
}

#[test]
fn submit_after_close_is_refused() {
    let mut q = JobQueue::new();
    assert!(q.submit(1));
    q.close();
    assert!(!q.submit(2));
    // The refused job was not queued.
    assert_eq!(q.take(), Some(1));
    assert_eq!(q.take(), None);
}

#[test]
fn close_drains_queued_jobs() {
    // Shutdown closes the queue but hands out what was already submitted
    // before the workers exit.
    let mut q = JobQueue::new();
    assert!(q.submit(7));
    assert!(q.submit(8));
    q.close();
    assert_eq!(q.take(), Some(7));
    assert_eq!(q.take(), Some(8));
    assert_eq!(q.take(), None);
}

#[test]
fn worker_runs_waits_and_exits() {
    assert_eq!(JobQueue::worker_step(Some(3), false), WorkerStep::Run(3));
    assert_eq!(JobQueue::worker_step(Some(3), true), WorkerStep::Run(3));
    assert_eq!(JobQueue::worker_step(None, false), WorkerStep::Wait);
    assert_eq!(JobQueue::worker_step(None, true), WorkerStep::Exit);
}
