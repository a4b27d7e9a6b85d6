use arc_dev_kit::{DequeueOutcome, TaskQueue, TaskQueueManager};
use std::any::{Any, TypeId};
use std::cell::RefCell;

// Each task type is its own queue key.

struct DownloadTask {
    url: String,
}

struct ReportTask {
    report_id: u64,
}

struct NotifyTask {
    _message: String,
}

type Manager = TaskQueueManager<Box<dyn Any>>;

/// The queue of task type `T`, made on first use (the table stands for the
/// program-wide manager; the `RefCell` for the lock that shares a queue).
fn queue_of<T: 'static>(manager: &mut Manager) -> &RefCell<TaskQueue<T>> {
    manager.get_or_create(TypeId::of::<T>(), || {
        Box::new(RefCell::new(TaskQueue::<T>::new())) as Box<dyn Any>
    });
    manager
        .get(&TypeId::of::<T>())
        .expect("entry was just ensured")
        .downcast_ref::<RefCell<TaskQueue<T>>>()
        .expect("TaskQueue type mismatch")
}

fn take<T>(queue: &RefCell<TaskQueue<T>>) -> Option<T> {
    match queue.borrow_mut().dequeue(0) {
        DequeueOutcome::Item(item) => Some(item),
        DequeueOutcome::Closed => None,
        DequeueOutcome::Empty => panic!("an open, empty queue would make the consumer wait"),
        DequeueOutcome::Wait(_) => panic!("these queues have no rate limit"),
    }
}

#[test]
fn basic_enqueue_dequeue() {
    let mut manager = Manager::new();
    let queue = queue_of::<DownloadTask>(&mut manager);

    queue
        .borrow_mut()
        .enqueue(DownloadTask {
            url: "https://example.com/a".into(),
        })
        .unwrap();
    queue
        .borrow_mut()
        .enqueue(DownloadTask {
            url: "https://example.com/b".into(),
        })
        .unwrap();

    assert_eq!(queue.borrow().len(), 2);

    let first = take(queue).unwrap();
    assert_eq!(first.url, "https://example.com/a");

    let second = take(queue).unwrap();
    assert_eq!(second.url, "https://example.com/b");

    assert_eq!(queue.borrow().len(), 0);
    assert!(queue.borrow().is_empty());
}

#[test]
fn try_dequeue_empty_returns_none() {
    let mut manager = Manager::new();
    let queue = queue_of::<ReportTask>(&mut manager);
    assert!(queue.borrow_mut().try_dequeue(0).is_none());
}

#[test]
fn concurrent_producers() {
    let mut manager = Manager::new();
    let queue = queue_of::<u64>(&mut manager);

    // Ten producers of a hundred tasks each.
    for i in 0..10u64 {
        for j in 0..100u64 {
            queue.borrow_mut().enqueue(i * 100 + j).unwrap();
        }
    }

    assert_eq!(queue.borrow().len(), 1000);

    let mut collected = Vec::new();
    while let Some(item) = queue.borrow_mut().try_dequeue(0) {
        collected.push(item);
    }
    assert_eq!(collected.len(), 1000);
}

#[test]
fn close_then_dequeue_returns_none() {
    let mut manager = Manager::new();
    let queue = queue_of::<String>(&mut manager);

    queue.borrow_mut().enqueue("hello".into()).unwrap();
    queue.borrow_mut().close();

    // Tasks queued before the close can still be taken.
    let item = take(queue);
    assert_eq!(item.unwrap(), "hello");

    // Empty and closed: nothing more comes.
    let item = take(queue);
    assert!(item.is_none());
}

#[test]
fn enqueue_after_close_fails() {
    let mut manager = Manager::new();
    let queue = queue_of::<u32>(&mut manager);

    queue.borrow_mut().close();
    let result = queue.borrow_mut().enqueue(42);
    assert!(result.is_err());
}

#[test]
fn manager_get_or_create_idempotent() {
    let mut manager = Manager::new();

    queue_of::<DownloadTask>(&mut manager)
        .borrow_mut()
        .enqueue(DownloadTask { url: "https://example.com/a".into() })
        .unwrap();
    let q2 = queue_of::<DownloadTask>(&mut manager);

    // The same queue both times: the second sees what went into the first.
    assert_eq!(q2.borrow().len(), 1);
    assert_eq!(manager.queue_count(), 1);
}

#[test]
fn manager_type_isolation() {
    let mut manager = Manager::new();

    queue_of::<DownloadTask>(&mut manager)
        .borrow_mut()
        .enqueue(DownloadTask {
            url: "https://a.com".into(),
        })
        .unwrap();
    queue_of::<ReportTask>(&mut manager)
        .borrow_mut()
        .enqueue(ReportTask { report_id: 1 })
        .unwrap();
    queue_of::<ReportTask>(&mut manager)
        .borrow_mut()
        .enqueue(ReportTask { report_id: 2 })
        .unwrap();

    assert_eq!(queue_of::<DownloadTask>(&mut manager).borrow().len(), 1);
    assert_eq!(queue_of::<ReportTask>(&mut manager).borrow().len(), 2);
    assert_eq!(manager.queue_count(), 2);
    let first = queue_of::<ReportTask>(&mut manager).borrow_mut().try_dequeue(0).unwrap();
    assert_eq!(first.report_id, 1);
}

#[test]
fn manager_get_nonexistent_returns_none() {
    let manager = Manager::new();
    assert!(manager.get(&TypeId::of::<NotifyTask>()).is_none());
}

#[test]
fn manager_remove_queue() {
    let mut manager = Manager::new();
    let _q = queue_of::<ReportTask>(&mut manager);
    assert_eq!(manager.queue_count(), 1);

    let removed = match manager.remove(&TypeId::of::<ReportTask>()) {
        Some(queue) => {
            if let Some(queue) = queue.downcast_ref::<RefCell<TaskQueue<ReportTask>>>() {
                queue.borrow_mut().close();
            }
            true
        }
        None => false,
    };
    assert!(removed);
    assert_eq!(manager.queue_count(), 0);
    assert!(manager.get(&TypeId::of::<ReportTask>()).is_none());
}

#[test]
fn cross_task_produce_consume() {
    let mut manager = Manager::new();
    let queue = queue_of::<String>(&mut manager);

    // The producer.
    for i in 0..5 {
        queue.borrow_mut().enqueue(format!("task-{}", i)).unwrap();
    }
    queue.borrow_mut().close();

    // The consumer, on the same queue fetched again from the manager.
    let queue = queue_of::<String>(&mut manager);
    let mut results = Vec::new();
    while let Some(item) = take(queue) {
        results.push(item);
    }

    assert_eq!(results.len(), 5);
    assert_eq!(results[0], "task-0");
    assert_eq!(results[4], "task-4");
}
