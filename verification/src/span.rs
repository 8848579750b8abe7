use vstd::prelude::*;
use crate::id::{ClientID, Counter, ID};

verus! {

/// A run of consecutive operations of one replica: the counters from `start`
/// up to, but not including, `end`.
#[derive(Clone, Copy, Debug, PartialEq, Eq, Hash, Structural)]
pub struct IdSpan {
    pub client_id: ClientID,
    pub start: Counter,
    pub end: Counter,
}

impl IdSpan {
    /// The positions that the span holds.
    pub open spec fn view(self) -> Set<ID> {
        Set::new(|id: ID| id.client_id == self.client_id && self.start <= id.counter < self.end)
    }

    /// Number of positions in the span.
    pub open spec fn spec_len(self) -> nat {
        if self.start <= self.end {
            (self.end - self.start) as nat
        } else {
            0
        }
    }

    pub fn new(client_id: ClientID, start: Counter, end: Counter) -> (span: IdSpan)
        ensures
            span == (IdSpan { client_id, start, end }),
    {
        IdSpan { client_id, start, end }
    }

    /// Number of positions in the span; a span whose end lies before its start
    /// is empty.
    pub fn len(&self) -> (n: Counter)
        ensures
            n == self.spec_len(),
    {
        if self.start <= self.end {
            self.end - self.start
        } else {
            0
        }
    }

    /// The last position of the span, if it has one.
    pub fn last(&self) -> (id: Option<ID>)
        ensures
            match id {
                Some(id) => self@.contains(id) && id.counter + 1 == self.end,
                None => self@ =~= Set::<ID>::empty(),
            },
    {
        if self.start < self.end {
            Some(ID { client_id: self.client_id, counter: self.end - 1 })
        } else {
            None
        }
    }
}

/// Whether `id` is one of the positions of `span`.
pub fn id_in_span(id: ID, span: IdSpan) -> (inside: bool)
    ensures
        inside == span@.contains(id),
{
    id.client_id == span.client_id && span.start <= id.counter && id.counter < span.end
}

/// The position at which `span` ends: the first one after it on its replica.
pub fn span_end(span: IdSpan) -> (end: ID)
    ensures
        end == (ID { client_id: span.client_id, counter: span.end }),
        !span@.contains(end),
{
    ID { client_id: span.client_id, counter: span.end }
}

/// Whether `second` begins exactly where `first` ends, on the same replica.
pub fn spans_adjacent(first: IdSpan, second: IdSpan) -> (adjacent: bool)
    ensures
        adjacent == (first.client_id == second.client_id && first.end == second.start),
{
    first.client_id == second.client_id && first.end == second.start
}

/// Two adjacent spans hold together exactly the positions of the span that
/// runs from the start of the first to the end of the second.
pub proof fn lemma_adjacent_spans_join(first: IdSpan, second: IdSpan)
    requires
        first.client_id == second.client_id,
        first.end == second.start,
        first.start <= first.end,
        second.start <= second.end,
    ensures
        first@.union(second@) =~= (IdSpan {
            client_id: first.client_id,
            start: first.start,
            end: second.end,
        })@,
        first@.disjoint(second@),
{
}

} // verus!
