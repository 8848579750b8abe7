use loro_core::id::ID;
use loro_core::span::{id_in_span, span_end, spans_adjacent, IdSpan};

#[test]
fn a_span_holds_its_start_and_not_its_end() {
    let span = IdSpan::new(3, 2, 5);
    assert_eq!(span.len(), 3);
    assert!(!id_in_span(ID::new(3, 1), span));
    assert!(id_in_span(ID::new(3, 2), span));
    assert!(id_in_span(ID::new(3, 4), span));
    assert!(!id_in_span(ID::new(3, 5), span));
    assert!(!id_in_span(ID::new(4, 3), span));
    assert_eq!(span_end(span), ID::new(3, 5));
    assert_eq!(span.last(), Some(ID::new(3, 4)));
}

#[test]
fn an_empty_span_holds_nothing() {
    let span = IdSpan::new(3, 5, 5);
    assert_eq!(span.len(), 0);
    assert!(!id_in_span(ID::new(3, 5), span));
    assert_eq!(span.last(), None);
    let backwards = IdSpan::new(3, 7, 5);
    assert_eq!(backwards.len(), 0);
    assert!(!id_in_span(ID::new(3, 6), backwards));
    assert_eq!(backwards.last(), None);
    assert_eq!(span_end(backwards), ID::new(3, 5));
}

#[test]
fn spans_are_adjacent_where_one_ends_and_the_other_starts() {
    let first = IdSpan::new(3, 2, 5);
    assert!(spans_adjacent(first, IdSpan::new(3, 5, 9)));
    assert!(!spans_adjacent(first, IdSpan::new(3, 4, 9)));
    assert!(!spans_adjacent(first, IdSpan::new(3, 6, 9)));
    assert!(!spans_adjacent(first, IdSpan::new(4, 5, 9)));
    assert!(!spans_adjacent(IdSpan::new(3, 5, 9), first));
}

#[test]
fn positions_of_one_replica_are_ordered_by_counter() {
    let id = ID::new(8, 4);
    assert_eq!(id, ID { client_id: 8, counter: 4 });
    assert_ne!(id, ID::new(8, 5));
    assert_ne!(id, ID::new(9, 4));
    assert!(ID::new(8, 4).precedes(&ID::new(8, 5)));
    assert!(!ID::new(8, 5).precedes(&ID::new(8, 4)));
    assert!(!ID::new(8, 4).precedes(&ID::new(8, 4)));
    assert!(!ID::new(8, 4).precedes(&ID::new(9, 5)));
    assert!(!ID::new(9, 4).precedes(&ID::new(8, 5)));
}
