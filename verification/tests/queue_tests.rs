use arc_dev_kit::{DequeueOutcome, TaskQueue, TaskQueueConfig};
use std::time::Duration;

fn limited(nanos: u64) -> TaskQueue<u32> {
    TaskQueue::with_config(TaskQueueConfig {
        rate_limit: Some(Duration::from_nanos(nanos)),
        max_retries: None,
        retry_delay: None,
    })
}

#[test]
fn default_configuration_has_no_limits() {
    let c = TaskQueueConfig::default();
    assert!(c.rate_limit.is_none());
    assert!(c.max_retries.is_none());
    assert!(c.retry_delay.is_none());
    let q: TaskQueue<u8> = TaskQueue::default();
    assert!(q.is_empty());
    assert!(!q.is_closed());
}

#[test]
fn tasks_leave_in_the_order_they_came() {
    let mut q = TaskQueue::new();
    for i in 0..5u32 {
        q.enqueue(i).unwrap();
    }
    let mut out = Vec::new();
    while let Some(x) = q.try_dequeue(0) {
        out.push(x);
        if x == 1 {
            q.enqueue(10).unwrap();
        }
    }
    assert_eq!(out, vec![0, 1, 2, 3, 4, 10]);
}

#[test]
fn rate_limit_spaces_out_tasks() {
    let mut q = limited(100);
    for i in 0..3 {
        q.enqueue(i).unwrap();
    }
    // Nothing was taken yet: no wait.
    assert!(q.check_rate_limit(1_000));
    assert_eq!(q.rate_limit_delay(1_000), None);
    assert_eq!(q.try_dequeue(1_000), Some(0));
    // 40ns later: refused, 60ns still to wait.
    assert!(!q.check_rate_limit(1_040));
    assert_eq!(q.rate_limit_delay(1_040), Some(60));
    assert_eq!(q.try_dequeue(1_040), None);
    assert_eq!(q.len(), 2);
    // Once the limit has passed: allowed.
    assert_eq!(q.try_dequeue(1_100), Some(1));
    assert_eq!(q.rate_limit_delay(1_150), Some(50));
    assert_eq!(q.try_dequeue(1_250), Some(2));
}

#[test]
fn set_config_changes_the_limit() {
    let mut q = limited(1_000);
    q.enqueue(1).unwrap();
    q.enqueue(2).unwrap();
    assert_eq!(q.try_dequeue(0), Some(1));
    assert_eq!(q.try_dequeue(10), None);
    q.set_config(TaskQueueConfig::default());
    assert_eq!(q.try_dequeue(10), Some(2));
}

#[test]
fn dequeue_reports_empty_then_closed() {
    let mut q: TaskQueue<u32> = TaskQueue::new();
    assert!(matches!(q.dequeue(0), DequeueOutcome::Empty));
    q.enqueue(3).unwrap();
    q.close();
    assert!(q.is_closed());
    assert!(q.enqueue(4).is_err());
    assert!(matches!(q.dequeue(0), DequeueOutcome::Item(3)));
    assert!(matches!(q.dequeue(0), DequeueOutcome::Closed));
}

#[test]
fn dequeue_waits_out_the_rate_limit() {
    let mut q = limited(100);
    q.enqueue(1).unwrap();
    q.enqueue(2).unwrap();
    assert!(matches!(q.dequeue(500), DequeueOutcome::Item(1)));
    // 30ns after the last take, 70ns are still to wait and nothing is taken.
    assert!(matches!(q.dequeue(530), DequeueOutcome::Wait(70)));
    assert_eq!(q.len(), 1);
    assert!(matches!(q.dequeue(600), DequeueOutcome::Item(2)));
    q.close();
    assert!(matches!(q.dequeue(610), DequeueOutcome::Wait(90)));
    assert!(matches!(q.dequeue(700), DequeueOutcome::Closed));
}
