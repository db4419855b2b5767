use reactor_http::global::{GlobalHandle, Task, TaskQueue};

#[test]
fn shared_state_starts_empty() {
    let g = GlobalHandle::new();
    assert!(g.data.is_empty());
    assert!(!g.is_fresh);
    assert_eq!(g.task_queue.queue.len(), 0);

    let q = TaskQueue::new();
    assert_eq!(q.serviceable, 0);
    assert!(q.queue.is_empty());

    let t = Task::new(9);
    assert_eq!(t.token, 9);
    assert!(!t.service);
}

#[test]
fn upload_marks_queued_tasks_serviceable() {
    let mut g = GlobalHandle::new();
    g.defer(4);
    g.defer(5);
    assert_eq!(g.task_queue.queue.len(), 2);
    assert_eq!(g.task_queue.serviceable, 0);

    g.upload(b"data".to_vec());
    assert!(g.is_fresh);
    assert_eq!(g.data, b"data".to_vec());
    assert_eq!(g.task_queue.serviceable, 2);
    assert!(g.task_queue.queue.iter().all(|t| t.service));
    assert_eq!(g.task_queue.queue[0].token, 4);
    assert_eq!(g.task_queue.queue[1].token, 5);
}

#[test]
fn upload_replaces_previous_data() {
    let mut g = GlobalHandle::new();
    g.upload(b"a long first payload".to_vec());
    g.upload(b"p2".to_vec());
    assert_eq!(g.data, b"p2".to_vec());
}
