use dirwatch::change::Change;
use dirwatch::handler::{DataHandler, MemHandler};

fn change(path: &[u8], timestamp: u64) -> Change {
    Change::new(path.to_vec(), timestamp)
}

#[test]
fn memory_handler_starts_empty() {
    let h = MemHandler::new();
    assert!(h.accepted.is_empty());
}

#[test]
fn memory_handler_keeps_batches_in_order() {
    let mut h = MemHandler::new();
    h.save(vec![change(b"/r/a", 1)]).unwrap();
    h.save(vec![change(b"/r/b", 2), change(b"/r/c", 3)]).unwrap();
    let paths: Vec<Vec<u8>> = h.accepted.iter().map(|c| c.path.clone()).collect();
    assert_eq!(paths, vec![b"/r/a".to_vec(), b"/r/b".to_vec(), b"/r/c".to_vec()]);
    assert_eq!(h.accepted[2].timestamp, 3);
}

#[test]
fn memory_handler_empty_batch_is_noop() {
    let mut h = MemHandler::new();
    h.save(vec![change(b"/r/a", 1)]).unwrap();
    h.save(vec![]).unwrap();
    assert_eq!(h.accepted.len(), 1);
}

#[test]
fn duplicate_batches_are_kept_twice() {
    // No idempotence is promised: the same batch saved twice stands twice,
    // and deduplication is left to readers of the log.
    let mut h = MemHandler::new();
    let batch = vec![change(b"/r/a", 1)];
    h.save(batch.clone()).unwrap();
    h.save(batch).unwrap();
    assert_eq!(h.accepted.len(), 2);
    assert_eq!(h.accepted[0], h.accepted[1]);
}
