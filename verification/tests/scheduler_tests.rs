use mirufm_core::scheduler::{JobQueue, Priority};

#[test]
fn more_urgent_jobs_run_first() {
    let mut q: JobQueue<&str> = JobQueue::new();
    q.push(Priority::Preload, "preload");
    q.push(Priority::Visible, "visible");
    q.push(Priority::Preview, "preview");
    assert_eq!(q.pop(), Some("visible"));
    assert_eq!(q.pop(), Some("preview"));
    assert_eq!(q.pop(), Some("preload"));
    assert_eq!(q.pop(), None);
}

#[test]
fn equal_priority_runs_first_come_first_served() {
    let mut q: JobQueue<u32> = JobQueue::new();
    for i in 0..5 {
        q.push(Priority::Preview, i);
    }
    q.push(Priority::Visible, 99);
    let order: Vec<u32> = std::iter::from_fn(|| q.pop()).collect();
    assert_eq!(order, vec![99, 0, 1, 2, 3, 4]);
}

#[test]
fn push_numbers_jobs_in_order() {
    let mut q: JobQueue<()> = JobQueue::new();
    assert!(q.can_push());
    assert_eq!(q.push(Priority::Preload, ()), 0);
    assert_eq!(q.push(Priority::Visible, ()), 1);
    assert_eq!(q.len(), 2);
    q.pop();
    assert_eq!(q.len(), 1);
    assert_eq!(q.push(Priority::Preview, ()), 2);
}

#[test]
fn late_urgent_job_overtakes_queued_ones() {
    let mut q: JobQueue<&str> = JobQueue::new();
    q.push(Priority::Preload, "a");
    q.push(Priority::Preload, "b");
    assert_eq!(q.pop(), Some("a"));
    q.push(Priority::Visible, "c");
    assert_eq!(q.pop(), Some("c"));
    assert_eq!(q.pop(), Some("b"));
}

#[test]
fn priority_rank_orders_variants() {
    assert_eq!(Priority::Preload.rank(), 0);
    assert_eq!(Priority::Preview.rank(), 1);
    assert_eq!(Priority::Visible.rank(), 2);
}
