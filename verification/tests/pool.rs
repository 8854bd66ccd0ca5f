use miniproxy::pool::JobQueue;

#[test]
fn jobs_come_out_in_submission_order_exactly_once() {
    let mut q = JobQueue::new();
    // more jobs than any worker count the pool would be given
    for j in 1u64..=5 {
        q.submit(j);
    }
    assert_eq!(q.pending_len(), 5);
    let mut seen: Vec<u64> = Vec::new();
    while let Some(j) = q.take() {
        seen.push(j);
    }
    assert_eq!(seen, vec![1, 2, 3, 4, 5]);
    assert_eq!(q.pending_len(), 0);
}

#[test]
fn take_on_empty_queue_reports_empty() {
    let mut q = JobQueue::new();
    assert!(q.take().is_none());
    q.submit(7);
    assert_eq!(q.take(), Some(7));
    assert!(q.take().is_none());
}

#[test]
fn interleaved_submit_and_take_stay_fifo() {
    let mut q = JobQueue::new();
    q.submit(1);
    q.submit(2);
    assert_eq!(q.take(), Some(1));
    q.submit(3);
    assert_eq!(q.take(), Some(2));
    assert_eq!(q.take(), Some(3));
    assert!(q.take().is_none());
}

#[test]
fn duplicate_job_values_are_kept_apart() {
    let mut q = JobQueue::new();
    q.submit(9);
    q.submit(9);
    assert_eq!(q.take(), Some(9));
    assert_eq!(q.take(), Some(9));
    assert!(q.take().is_none());
}
