use std::sync::{Arc, Mutex};

use backup_ingest::parallel_handler::{
    abort_status, check_abort, completion_status, record_first, send_outcome, PoolError,
    SendHandle,
};

#[test]
fn error_messages() {
    assert_eq!(PoolError::Aborted("disk full".to_string()).message(), "disk full");
    assert_eq!(PoolError::ChannelClosed.message(), "send failed - channel closed");
    let panics = PoolError::WorkerPanics(vec!["thread a".to_string(), "thread b".to_string()]);
    assert_eq!(panics.message(), "thread a\nthread b");
    assert_eq!(PoolError::WorkerPanics(vec!["one".to_string()]).message(), "one");
}

#[test]
fn first_recorded_failure_wins() {
    let mut slot = None;
    record_first(&mut slot, "first".to_string());
    record_first(&mut slot, "second".to_string());
    assert_eq!(slot, Some("first".to_string()));
}

#[test]
fn abort_status_reports_slot() {
    assert_eq!(abort_status(&None), Ok(()));
    assert_eq!(
        abort_status(&Some("bad chunk".to_string())),
        Err(PoolError::Aborted("bad chunk".to_string()))
    );
    let m = Mutex::new(None);
    assert_eq!(check_abort(&m), Ok(()));
    *m.lock().unwrap() = Some("bad".to_string());
    assert_eq!(check_abort(&m), Err(PoolError::Aborted("bad".to_string())));
}

#[test]
fn completion_order_of_errors() {
    assert_eq!(completion_status(&None, vec![]), Ok(()));
    assert_eq!(
        completion_status(&Some("x".to_string()), vec!["p".to_string()]),
        Err(PoolError::Aborted("x".to_string()))
    );
    assert_eq!(
        completion_status(&None, vec!["p".to_string(), "q".to_string()]),
        Err(PoolError::WorkerPanics(vec!["p".to_string(), "q".to_string()]))
    );
}

#[test]
fn send_refused_after_abort() {
    let (tx, rx) = crossbeam_channel::bounded::<u32>(4);
    let abort = Arc::new(Mutex::new(None));
    let handle = SendHandle::new(tx, Arc::clone(&abort));
    let other = handle.clone();
    assert_eq!(handle.send(1), Ok(()));
    assert_eq!(rx.try_recv(), Ok(1));
    record_first(&mut abort.lock().unwrap(), "chunk 3 failed".to_string());
    assert_eq!(handle.send(2), Err(PoolError::Aborted("chunk 3 failed".to_string())));
    assert_eq!(other.send(3), Err(PoolError::Aborted("chunk 3 failed".to_string())));
    assert!(rx.try_recv().is_err());
}

#[test]
fn send_on_closed_channel() {
    let (tx, rx) = crossbeam_channel::bounded::<u32>(1);
    let handle = SendHandle::new(tx, Arc::new(Mutex::new(None)));
    drop(rx);
    assert_eq!(handle.send(5), Err(PoolError::ChannelClosed));
}

/// Sends `n` items, then lets one worker drain them, failing on item `fail`.
fn run_pool(n: u32, fail: Option<u32>) -> (Result<(), PoolError>, Vec<u32>) {
    let (tx, rx) = crossbeam_channel::bounded::<u32>(n as usize);
    let abort = Arc::new(Mutex::new(None));
    let handle = SendHandle::new(tx, Arc::clone(&abort));
    for i in 0..n {
        handle.send(i).unwrap();
    }
    drop(handle);
    let mut processed = Vec::new();
    while let Ok(item) = rx.recv() {
        processed.push(item);
        if Some(item) == fail {
            record_first(&mut abort.lock().unwrap(), format!("item {} failed", item));
        }
    }
    let slot = abort.lock().unwrap().clone();
    (completion_status(&slot, vec![]), processed)
}

#[test]
fn failing_item_reported_and_all_attempted() {
    let (r, processed) = run_pool(10, Some(6));
    assert_eq!(r, Err(PoolError::Aborted("item 6 failed".to_string())));
    assert_eq!(processed, (0..10).collect::<Vec<u32>>());
}

#[test]
fn success_after_all_processed() {
    let (r, processed) = run_pool(8, None);
    assert_eq!(r, Ok(()));
    assert_eq!(processed.len(), 8);
}

#[test]
fn send_outcome_prefers_recorded_failure() {
    assert_eq!(send_outcome(&None, true), Ok(()));
    assert_eq!(send_outcome(&None, false), Err(PoolError::ChannelClosed));
    assert_eq!(
        send_outcome(&Some("late failure".to_string()), true),
        Err(PoolError::Aborted("late failure".to_string()))
    );
    assert_eq!(
        send_outcome(&Some("late failure".to_string()), false),
        Err(PoolError::Aborted("late failure".to_string()))
    );
}
