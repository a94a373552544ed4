use logfrog::queue::{LFQueue, DB_WRITE_BUFFER_SIZE};
use std::time::{SystemTime, UNIX_EPOCH};

#[test]
fn lib_add_to_lfq_test() {
    let mut lfq = LFQueue::new();

    let t1 = SystemTime::now()
        .duration_since(UNIX_EPOCH)
        .expect("Not outatime.")
        .as_nanos();

    let t2 = t1 + 100;

    // Check that it's empty before we add
    assert!(lfq.empty());

    lfq.capture("foo".to_string(), vec![], t1, t2);

    // Check that it's not empty after we add
    assert!(!lfq.empty());
}

#[test]
fn queue_add_to_lfq_test() {
    let mut lfq = LFQueue::new();

    let t1 = SystemTime::now()
        .duration_since(UNIX_EPOCH)
        .expect("Not outatime.")
        .as_nanos();

    let t2 = t1 + 100;

    // Check that it's empty before we add
    assert!(lfq.empty());

    lfq.capture("foo".to_string(), vec![], t1, t2);

    // Check that it's not empty after we add
    assert!(!lfq.empty());
}

#[test]
fn queue_keeps_arrival_order() {
    let mut lfq = LFQueue::new();
    lfq.capture("a".to_string(), vec![], 1, 2);
    lfq.capture("b".to_string(), vec![], 3, 4);
    lfq.capture("c".to_string(), vec![], 5, 6);
    assert_eq!(lfq.len(), 3);

    let first = lfq.pop().unwrap();
    assert_eq!(first.name, "a");
    assert_eq!((first.start, first.end), (1, 2));
    let second = lfq.pop().unwrap();
    assert_eq!(second.name, "b");
    let third = lfq.pop().unwrap();
    assert_eq!(third.name, "c");
    assert!(lfq.pop().is_none());
    assert!(lfq.empty());
}

#[test]
fn queue_is_left_alone_up_to_the_threshold() {
    let mut lfq = LFQueue::new();
    for i in 0..DB_WRITE_BUFFER_SIZE {
        lfq.capture(format!("f{}", i), vec![], 10, 20);
    }
    // Exactly as many as the threshold: nothing is taken.
    let taken = lfq.consume_capture(DB_WRITE_BUFFER_SIZE);
    assert!(taken.is_empty());
    assert_eq!(lfq.len(), DB_WRITE_BUFFER_SIZE);
}

#[test]
fn queue_is_emptied_above_the_threshold() {
    let mut lfq = LFQueue::new();
    for i in 0..(DB_WRITE_BUFFER_SIZE + 1) {
        lfq.capture(format!("f{}", i), vec![], i as u128, 100);
    }
    let taken = lfq.consume_capture(DB_WRITE_BUFFER_SIZE);
    assert_eq!(taken.len(), DB_WRITE_BUFFER_SIZE + 1);
    assert!(lfq.empty());
    for (i, c) in taken.iter().enumerate() {
        assert_eq!(c.name, format!("f{}", i));
        assert_eq!(c.start, i as u128);
    }
}
