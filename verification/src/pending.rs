use vstd::prelude::*;
use crate::id::ClientID;

verus! {

/// What a pending buffer holds: the entries that the running pass has still
/// to retry, those put off to the next pass, and whether the running pass
/// has made progress.
pub struct PendingView {
    pub current: Seq<(ClientID, usize)>,
    pub next: Seq<(ClientID, usize)>,
    pub progress: bool,
}

/// How a pass over a pending buffer ended.
#[derive(Clone, Copy, Debug, PartialEq, Eq, Structural)]
pub enum PassOutcome {
    /// Nothing is pending any more.
    Done,
    /// Entries are pending: the running pass has some left, or it made
    /// progress and the entries it put off are now to be retried.
    Retry,
    /// Entries are pending, and the pass that put them off made no progress.
    Stalled,
}

/// Nodes of a history under merge that cannot be taken over yet, each named
/// by its replica and its index in that replica's log. They are retried pass
/// by pass: a pass retries each entry once, and what it puts off waits for
/// the next pass.
pub struct PendingBuffer {
    current: Vec<(ClientID, usize)>,
    next: Vec<(ClientID, usize)>,
    progress: bool,
}

impl PendingBuffer {
    pub closed spec fn view(&self) -> PendingView {
        PendingView { current: self.current@, next: self.next@, progress: self.progress }
    }

    pub fn new() -> (buffer: Self)
        ensures
            buffer@ == (PendingView { current: Seq::empty(), next: Seq::empty(), progress: false }),
    {
        PendingBuffer { current: Vec::new(), next: Vec::new(), progress: false }
    }

    /// Whether no entry is pending, in this pass or the next.
    pub fn is_empty(&self) -> (empty: bool)
        ensures
            empty == (self@.current.len() == 0 && self@.next.len() == 0),
    {
        self.current.len() == 0 && self.next.len() == 0
    }

    /// Puts an entry off to the next pass.
    pub fn enqueue(&mut self, client: ClientID, index: usize)
        ensures
            final(self)@ == (PendingView {
                next: old(self)@.next.push((client, index)),
                ..old(self)@
            }),
    {
        self.next.push((client, index));
    }

    /// Records that the running pass has made progress.
    pub fn mark_progress(&mut self)
        ensures
            final(self)@ == (PendingView { progress: true, ..old(self)@ }),
    {
        self.progress = true;
    }

    /// Takes the entry that the running pass retries next, if it has one
    /// left.
    pub fn pop(&mut self) -> (entry: Option<(ClientID, usize)>)
        ensures
            old(self)@.current.len() == 0 ==> entry.is_none() && final(self)@ == old(self)@,
            old(self)@.current.len() > 0 ==> entry == Some(old(self)@.current.last())
                && final(self)@ == (PendingView {
                current: old(self)@.current.drop_last(),
                ..old(self)@
            }),
    {
        self.current.pop()
    }

    /// Ends the running pass once it has no entry left. If nothing was put
    /// off, the buffer is done. If the pass made no progress, the buffer has
    /// stalled, and is left as it is. Else the entries that were put off
    /// become the next pass, which starts without progress.
    pub fn next_pass(&mut self) -> (outcome: PassOutcome)
        ensures
            outcome == old(self)@.pass_outcome(),
            final(self)@ == old(self)@.after_pass(),
    {
        if self.current.len() > 0 {
            PassOutcome::Retry
        } else if self.next.len() == 0 {
            PassOutcome::Done
        } else if !self.progress {
            PassOutcome::Stalled
        } else {
            std::mem::swap(&mut self.current, &mut self.next);
            self.progress = false;
            assert(self.next@ =~= Seq::empty());
            PassOutcome::Retry
        }
    }
}

impl PendingView {
    pub open spec fn pass_outcome(self) -> PassOutcome {
        if self.current.len() > 0 {
            PassOutcome::Retry
        } else if self.next.len() == 0 {
            PassOutcome::Done
        } else if !self.progress {
            PassOutcome::Stalled
        } else {
            PassOutcome::Retry
        }
    }

    pub open spec fn after_pass(self) -> PendingView {
        if self.current.len() == 0 && self.next.len() > 0 && self.progress {
            PendingView { current: self.next, next: Seq::empty(), progress: false }
        } else {
            self
        }
    }

    /// All the entries, those of the running pass first.
    pub open spec fn entries(self) -> Seq<(ClientID, usize)> {
        self.current + self.next
    }
}

} // verus!
