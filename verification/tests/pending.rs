use loro_core::pending::{PassOutcome, PendingBuffer};

#[test]
fn an_empty_buffer_is_done() {
    let mut buffer = PendingBuffer::new();
    assert!(buffer.is_empty());
    assert_eq!(buffer.pop(), None);
    assert_eq!(buffer.next_pass(), PassOutcome::Done);
    assert!(buffer.is_empty());
}

#[test]
fn a_pass_retries_each_entry_once() {
    let mut buffer = PendingBuffer::new();
    buffer.enqueue(3, 0);
    buffer.enqueue(5, 2);
    buffer.mark_progress();
    assert!(!buffer.is_empty());
    // what was put off waits for the next pass
    assert_eq!(buffer.pop(), None);
    assert_eq!(buffer.next_pass(), PassOutcome::Retry);
    assert_eq!(buffer.pop(), Some((5, 2)));
    // an entry put off during the pass is not retried within it
    buffer.enqueue(5, 2);
    assert_eq!(buffer.next_pass(), PassOutcome::Retry);
    assert_eq!(buffer.pop(), Some((3, 0)));
    assert_eq!(buffer.pop(), None);
    buffer.mark_progress();
    assert_eq!(buffer.next_pass(), PassOutcome::Retry);
    assert_eq!(buffer.pop(), Some((5, 2)));
    assert_eq!(buffer.pop(), None);
    assert_eq!(buffer.next_pass(), PassOutcome::Done);
    assert!(buffer.is_empty());
}

#[test]
fn a_pass_without_progress_stalls() {
    let mut buffer = PendingBuffer::new();
    buffer.enqueue(1, 4);
    assert_eq!(buffer.next_pass(), PassOutcome::Stalled);
    // a stalled buffer is left as it is
    assert!(!buffer.is_empty());
    assert_eq!(buffer.pop(), None);
    assert_eq!(buffer.next_pass(), PassOutcome::Stalled);
    buffer.mark_progress();
    assert_eq!(buffer.next_pass(), PassOutcome::Retry);
    assert_eq!(buffer.pop(), Some((1, 4)));
    buffer.enqueue(1, 4);
    // the new pass began without progress
    assert_eq!(buffer.next_pass(), PassOutcome::Stalled);
}
