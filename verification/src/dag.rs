use vstd::prelude::*;
use crate::append::{lemma_admit_wf, lemma_push_wf};
use crate::error::DagError;
use crate::frontier::update_frontier;
use crate::history::{
    follows, index_in_log, known_count, lemma_history_logs, lemma_known_position,
    lemma_log_bounds, lemma_log_covers, lemma_log_order, log_end, log_end_lamport, log_wf,
    nodes_ascending, DagView, History, NodeView,
};
use crate::id::{ClientID, Counter, Lamport, ID};
use crate::laws::lemma_view_determined;
use crate::merge::{
    cursor, lemma_known_count, lemma_merge_between, lemma_remaining_bounds,
    lemma_remaining_step, merge_inv_at, remaining, start_cursor,
};
use crate::merge_state::{
    lemma_ok_after_accept, lemma_ok_after_end, lemma_ok_after_pass, lemma_ok_after_pop,
    lemma_ok_after_put_off, lemma_ok_after_visit, lemma_ok_at_start, lemma_ok_done,
    lemma_ok_stalled, merge_ok, MergeTrack,
};
use crate::node::{nodes_view, DagNode, Node};
use crate::pending::{PassOutcome, PendingBuffer, PendingView};

verus! {

/// The nodes of one replica, in counter order.
pub struct ReplicaLog<N: DagNode> {
    client_id: ClientID,
    nodes: Vec<N>,
}

/// The causal history that one replica knows: the nodes of every replica it
/// has heard of, the heads of that history, and the replica's clock.
pub struct Dag<N: DagNode> {
    client_id: ClientID,
    /// One log per known replica, in ascending order of replica identifier.
    logs: Vec<ReplicaLog<N>>,
    frontier: Vec<ID>,
    next_lamport: Lamport,
    history: Ghost<History>,
}

/// `logs` stand in ascending order of replica, and they are the logs of `h`.
spec fn logs_match<N: DagNode>(logs: Seq<ReplicaLog<N>>, h: History) -> bool {
    &&& forall|i: int, j: int|
        0 <= i < j < logs.len() ==> (#[trigger] logs[i]).client_id < (#[trigger] logs[j]).client_id
    &&& forall|i: int|
        0 <= i < logs.len() ==> h.logs.dom().contains((#[trigger] logs[i]).client_id)
            && h.logs[logs[i].client_id] == logs[i]@
    &&& forall|client: ClientID| #[trigger]
        h.has_replica(client) ==> exists|i: int|
            0 <= i < logs.len() && (#[trigger] logs[i]).client_id == client
}

/// The engine over nodes without payload, under the name that its tests know
/// it by.
pub type TestDag = Dag<Node>;

impl<N: DagNode> ReplicaLog<N> {
    pub closed spec fn view(&self) -> Seq<NodeView> {
        nodes_view(self.nodes@)
    }

    /// Number of nodes that start below `end`.
    fn first_unknown(&self, end: Counter) -> (count: usize)
        requires
            log_wf(self.client_id, self@),
        ensures
            count == known_count(self@, end as int),
            count <= self.nodes.len(),
    {
        let ghost views = self@;
        let mut lo: usize = 0;
        let mut hi: usize = self.nodes.len();
        while lo < hi
            invariant
                views == self@,
                views.len() == self.nodes.len(),
                log_wf(self.client_id, views),
                lo <= hi <= self.nodes.len(),
                forall|i: int| 0 <= i < lo ==> (#[trigger] views[i]).start() < end,
                forall|i: int| hi <= i < views.len() ==> (#[trigger] views[i]).start() >= end,
            decreases hi - lo,
        {
            let mid = lo + (hi - lo) / 2;
            assert(views[mid as int] == self.nodes[mid as int].view());
            if self.nodes[mid].id().counter < end {
                proof {
                    assert forall|i: int| 0 <= i < mid + 1 implies (#[trigger] views[i]).start()
                        < end by {
                        if i < mid {
                            lemma_log_order(self.client_id, views, i, mid as int);
                            lemma_log_bounds(self.client_id, views, i);
                        }
                    }
                }
                lo = mid + 1;
            } else {
                proof {
                    assert forall|i: int| mid <= i < views.len() implies (#[trigger] views[i]).start()
                        >= end by {
                        if mid < i {
                            lemma_log_order(self.client_id, views, mid as int, i);
                            lemma_log_bounds(self.client_id, views, mid as int);
                        }
                    }
                }
                hi = mid;
            }
        }
        proof {
            lemma_known_count(self.client_id, views, end as int);
            let k = known_count(views, end as int) as int;
            if k < lo {
                assert(views[k].start() < end);
            }
            if lo < k {
                assert(views[lo as int].start() >= end);
            }
        }
        lo
    }

    /// Index of the node that holds `counter`.
    fn find_node(&self, counter: Counter) -> (at: usize)
        requires
            log_wf(self.client_id, self@),
            counter < log_end(self@),
        ensures
            at < self.nodes.len(),
            at == index_in_log(self@, counter as int),
            self@[at as int].covers(counter as int),
            self@[at as int] == self.nodes[at as int].view(),
    {
        let ghost views = self@;
        let mut lo: usize = 0;
        let mut hi: usize = self.nodes.len();
        while hi - lo > 1
            invariant
                views == self@,
                views.len() == self.nodes.len(),
                log_wf(self.client_id, views),
                lo < hi <= self.nodes.len(),
                views[lo as int].start() <= counter,
                hi < views.len() ==> counter < views[hi as int].start(),
            decreases hi - lo,
        {
            let mid = lo + (hi - lo) / 2;
            assert(views[mid as int] == self.nodes[mid as int].view());
            if self.nodes[mid].id().counter <= counter {
                lo = mid;
            } else {
                hi = mid;
            }
        }
        proof {
            if hi < views.len() {
                assert(follows(views, hi as int));
            }
            assert(views[lo as int].covers(counter as int));
            lemma_log_covers(self.client_id, views, counter as int);
        }
        lo
    }
}

impl<N: DagNode> Dag<N> {
    pub closed spec fn view(&self) -> DagView {
        DagView {
            client_id: self.client_id,
            history: self.history@,
            frontier: self.frontier@,
            next_lamport: self.next_lamport,
        }
    }

    /// The logs are held in ascending order of replica, and they are the logs
    /// of the history.
    pub closed spec fn inv(&self) -> bool {
        logs_match(self.logs@, self.history@)
    }

    pub open spec fn wf(&self) -> bool {
        self.inv() && self@.wf()
    }

    /// An engine for replica `client_id` that knows nothing yet.
    pub fn new(client_id: ClientID) -> (dag: Self)
        ensures
            dag.wf(),
            dag@ == DagView::empty(client_id),
    {
        let dag = Dag {
            client_id,
            logs: Vec::new(),
            frontier: Vec::new(),
            next_lamport: 0,
            history: Ghost(History::empty()),
        };
        proof {
            assert(dag.history@.logs.dom() =~= Set::<ClientID>::empty());
            assert forall|id: ID| !(#[trigger] dag@.history.is_tip(id)) by {}
        }
        dag
    }

    /// The replica that this engine belongs to.
    pub fn client_id(&self) -> (client_id: ClientID)
        ensures
            client_id == self@.client_id,
    {
        self.client_id
    }

    /// The clock value that the next local operation gets.
    pub fn next_lamport(&self) -> (lamport: Lamport)
        ensures
            lamport == self@.next_lamport,
    {
        self.next_lamport
    }

    /// The heads of the known history.
    pub fn frontier(&self) -> (frontier: &[ID])
        ensures
            frontier@ == self@.frontier,
    {
        self.frontier.as_slice()
    }

    /// Where the log of `client` is held, or where it would have to go.
    fn search_log(&self, client: ClientID) -> (found: (bool, usize))
        requires
            self.inv(),
        ensures
            found.1 <= self.logs.len(),
            found.0 == self.history@.has_replica(client),
            found.0 ==> found.1 < self.logs.len() && self.logs[found.1 as int].client_id == client,
            forall|i: int| 0 <= i < found.1 ==> (#[trigger] self.logs[i]).client_id < client,
            !found.0 ==> forall|i: int|
                found.1 <= i < self.logs.len() ==> (#[trigger] self.logs[i]).client_id > client,
    {
        let mut lo: usize = 0;
        let mut hi: usize = self.logs.len();
        while lo < hi
            invariant
                self.inv(),
                lo <= hi <= self.logs.len(),
                forall|i: int| 0 <= i < lo ==> (#[trigger] self.logs[i]).client_id < client,
                forall|i: int|
                    hi <= i < self.logs.len() ==> (#[trigger] self.logs[i]).client_id > client,
            decreases hi - lo,
        {
            let mid = lo + (hi - lo) / 2;
            let here = self.logs[mid].client_id;
            if here == client {
                return (true, mid);
            } else if here < client {
                lo = mid + 1;
            } else {
                hi = mid;
            }
        }
        (false, lo)
    }

    /// One past the last counter in the log held at `at`.
    fn log_end_at(&self, at: usize) -> (end: Counter)
        requires
            self.wf(),
            at < self.logs.len(),
        ensures
            end == self@.history.vv(self.logs[at as int].client_id),
            end > 0,
    {
        let log = &self.logs[at];
        proof {
            let client = log.client_id;
            assert(self.history@.has_replica(client));
            lemma_log_bounds(client, log@, log@.len() - 1);
        }
        let last = &log.nodes[log.nodes.len() - 1];
        assert(last.view() == log@.last());
        let end: Counter = last.id().counter + last.len() as Counter;
        end
    }

    /// The version vector's entry for `client`: one past the last counter
    /// known of that replica, 0 where nothing is known of it.
    pub fn version_of(&self, client: ClientID) -> (end: Counter)
        requires
            self.wf(),
        ensures
            end == self@.history.vv(client),
    {
        let (found, at) = self.search_log(client);
        if found {
            self.log_end_at(at)
        } else {
            0
        }
    }

    /// Whether the operation at `id` is known.
    pub fn contains(&self, id: ID) -> (known: bool)
        requires
            self.wf(),
        ensures
            known == self@.history.contains(id),
            known == (id.counter < self@.history.vv(id.client_id)),
    {
        id.counter < self.version_of(id.client_id)
    }

    /// The node whose span holds `id`, if the operation at `id` is known.
    pub fn get(&self, id: ID) -> (found: Option<&N>)
        requires
            self.wf(),
        ensures
            match found {
                Some(node) => self@.history.contains(id) && node.view() == self@.history.node_of(
                    id,
                ),
                None => !self@.history.contains(id),
            },
    {
        let (present, at) = self.search_log(id.client_id);
        if !present {
            return None;
        }
        if id.counter >= self.log_end_at(at) {
            return None;
        }
        let log = &self.logs[at];
        proof {
            assert(self.history@.has_replica(id.client_id));
        }
        let at_node = log.find_node(id.counter);
        Some(&log.nodes[at_node])
    }
}

impl<N: DagNode> Dag<N> {
    /// Puts `node` at the end of its replica's log, which is held at `at` if
    /// `found`, and else goes there.
    fn append_node(&mut self, found: bool, at: usize, node: N)
        requires
            old(self).inv(),
            at <= old(self).logs.len(),
            found == old(self).history@.has_replica(node.view().id.client_id),
            found ==> at < old(self).logs.len() && old(self).logs[at as int].client_id
                == node.view().id.client_id,
            forall|i: int|
                0 <= i < at ==> (#[trigger] old(self).logs[i]).client_id
                    < node.view().id.client_id,
            !found ==> forall|i: int|
                at <= i < old(self).logs.len() ==> (#[trigger] old(self).logs[i]).client_id
                    > node.view().id.client_id,
        ensures
            final(self).inv(),
            final(self).history@ == old(self).history@.append(node.view()),
            final(self).client_id == old(self).client_id,
            final(self).frontier == old(self).frontier,
            final(self).next_lamport == old(self).next_lamport,
    {
        let ghost before = self.logs@;
        let ghost view = node.view();
        let ghost client = view.id.client_id;
        let ghost h = self.history@;
        if !found {
            self.logs.insert(at, ReplicaLog { client_id: node.id().client_id, nodes: Vec::new() });
        }
        let ghost middle = self.logs@;
        self.logs[at].nodes.push(node);
        self.history = Ghost(h.append(view));
        proof {
            let after = self.logs@;
            let grown = h.append(view);
            assert(after[at as int]@ == h.log(client).push(view)) by {
                assert(after[at as int]@ =~= h.log(client).push(view)) by {
                    if found {
                        assert(h.logs[before[at as int].client_id] == before[at as int]@);
                    }
                }
            }
            assert(grown.logs.dom() =~= h.logs.dom().insert(client));
            if found {
                assert(after.len() == before.len());
                assert forall|i: int| 0 <= i < after.len() implies (#[trigger] after[i]).client_id
                    == before[i].client_id && (i != at ==> after[i]@ == before[i]@) by {}
            } else {
                assert(after.len() == before.len() + 1);
                assert forall|i: int| 0 <= i < after.len() implies (#[trigger] after[i]).client_id
                    == (if i < at {
                    before[i].client_id
                } else if i == at {
                    client
                } else {
                    before[i - 1].client_id
                }) && (i < at ==> after[i]@ == before[i]@) && (i > at ==> after[i]@ == before[i
                    - 1]@) by {}
            }
            assert forall|i: int, j: int| 0 <= i < j < after.len() implies (#[trigger] after[i]).client_id
                < (#[trigger] after[j]).client_id by {
                if found {
                    assert(before[i].client_id < before[j].client_id);
                } else {
                    let bi = if i < at { i } else { i - 1 };
                    let bj = if j < at { j } else { j - 1 };
                    if i != at && j != at {
                        assert(before[bi].client_id < before[bj].client_id);
                    } else if i == at {
                        assert(before[bj].client_id > client);
                    } else {
                        assert(before[bi].client_id < client);
                    }
                }
            }
            assert forall|i: int| 0 <= i < after.len() implies grown.has_replica(
                (#[trigger] after[i]).client_id,
            ) && grown.logs[after[i].client_id] == after[i]@ by {
                if i != at {
                    let bi = if found || i < at { i } else { i - 1 };
                    assert(h.has_replica(before[bi].client_id));
                    assert(before[bi].client_id != client) by {
                        if found {
                            if bi < at {
                                assert(before[bi].client_id < before[at as int].client_id);
                            } else {
                                assert(before[at as int].client_id < before[bi].client_id);
                            }
                        }
                    }
                }
            }
            assert forall|c: ClientID| #[trigger] grown.has_replica(c) implies exists|i: int|
                0 <= i < after.len() && (#[trigger] after[i]).client_id == c by {
                if c == client {
                    assert(after[at as int].client_id == c);
                } else {
                    assert(h.has_replica(c));
                    let bi = choose|i: int|
                        0 <= i < before.len() && (#[trigger] before[i]).client_id == c;
                    let ai = if found || bi < at { bi } else { bi + 1 };
                    assert(after[ai].client_id == c);
                }
            }
        }
    }

    /// Whether `len` more local operations leave the counter of this
    /// replica and the clock representable, so that they can be appended.
    pub fn can_push(&self, len: usize) -> (room: bool)
        requires
            self.wf(),
        ensures
            room == (self@.history.vv(self@.client_id) + len <= Counter::MAX
                && self@.next_lamport + len <= Lamport::MAX),
    {
        let end = self.version_of(self.client_id);
        len <= (Counter::MAX - end) as usize && len as u64 <= Lamport::MAX - self.next_lamport
    }

    /// Appends `len` local operations as one node that depends on the heads
    /// known so far; its last operation becomes the only head. A node of no
    /// operations is refused.
    pub fn push(&mut self, len: usize) -> (res: Result<(), DagError>)
        requires
            old(self).wf(),
            old(self)@.history.vv(old(self)@.client_id) + len <= Counter::MAX,
            old(self)@.next_lamport + len <= Lamport::MAX,
        ensures
            final(self).wf(),
            len == 0 ==> res == Err::<(), DagError>(DagError::InvalidArgument) && final(self)@
                == old(self)@,
            len > 0 ==> res == Ok::<(), DagError>(()) && final(self)@ == old(self)@.push(
                len as nat,
            ),
    {
        if len == 0 {
            return Err(DagError::InvalidArgument);
        }
        let ghost before = self@;
        let ghost h = self.history@;
        let client = self.client_id;
        let (found, at) = self.search_log(client);
        let start: Counter = if found {
            self.log_end_at(at)
        } else {
            0
        };
        let last = ID::new(client, start + (len - 1) as Counter);
        let mut deps: Vec<ID> = Vec::new();
        deps.push(last);
        std::mem::swap(&mut self.frontier, &mut deps);
        let node = N::new(ID::new(client, start), self.next_lamport, deps, len);
        let ghost view = node.view();
        proof {
            lemma_push_wf(before, len as nat);
            assert(view == before.next_node(len as nat));
            assert(self.frontier@ =~= seq![view.last_id()]);
        }
        self.append_node(found, at, node);
        self.next_lamport = self.next_lamport + len as Lamport;
        Ok(())
    }
}

/// A copy of `ids`.
fn copy_ids(ids: &[ID]) -> (copy: Vec<ID>)
    ensures
        copy@ == ids@,
{
    let mut copy: Vec<ID> = Vec::new();
    let mut i: usize = 0;
    while i < ids.len()
        invariant
            i <= ids.len(),
            copy@ == ids@.take(i as int),
        decreases ids.len() - i,
    {
        copy.push(ids[i]);
        assert(ids@.take(i + 1) =~= ids@.take(i as int).push(ids@[i as int]));
        i += 1;
    }
    assert(ids@.take(ids.len() as int) =~= ids@);
    copy
}

impl<N: DagNode> Dag<N> {
    /// One past the last clock value in the log held at `at`.
    fn log_end_lamport_at(&self, at: usize) -> (end: Lamport)
        requires
            self.wf(),
            at < self.logs.len(),
        ensures
            end == log_end_lamport(self@.history.log(self.logs[at as int].client_id)),
    {
        let log = &self.logs[at];
        proof {
            let client = log.client_id;
            assert(self.history@.has_replica(client));
            lemma_log_bounds(client, log@, log@.len() - 1);
        }
        let last = &log.nodes[log.nodes.len() - 1];
        assert(last.view() == log@.last());
        last.lamport() + last.len() as Lamport
    }

    /// The clock value of the operation at `id`, if that operation is known.
    pub fn lamport_of(&self, id: ID) -> (lamport: Option<Lamport>)
        requires
            self.wf(),
        ensures
            match lamport {
                Some(lamport) => self@.history.contains(id) && lamport
                    == self@.history.lamport_of(id),
                None => !self@.history.contains(id),
            },
    {
        match self.get(id) {
            Some(node) => {
                proof {
                    lemma_known_position(self@.history, id);
                }
                Some(node.lamport() + (id.counter - node.id().counter) as Lamport)
            },
            None => None,
        }
    }

    /// Whether `node` may be appended to what is known.
    pub fn can_accept(&self, node: &N) -> (ok: bool)
        requires
            self.wf(),
        ensures
            ok == self@.history.admissible(node.view()),
    {
        let ghost h = self@.history;
        let ghost view = node.view();
        let id = node.id();
        let len = node.len();
        let lamport = node.lamport();
        if len < 1 || len > (Counter::MAX - id.counter) as usize || len as u64 > Lamport::MAX
            - lamport {
            return false;
        }
        let (found, at) = self.search_log(id.client_id);
        let end: Counter = if found {
            self.log_end_at(at)
        } else {
            0
        };
        let end_lamport: Lamport = if found {
            self.log_end_lamport_at(at)
        } else {
            0
        };
        if id.counter != end || lamport < end_lamport {
            return false;
        }
        let deps = node.deps();
        let mut j: usize = 0;
        while j < deps.len()
            invariant
                self.wf(),
                h == self@.history,
                view == node.view(),
                deps@ == view.deps,
                view.lamport == lamport,
                j <= deps.len(),
                forall|k: int| 0 <= k < j ==> h.dep_ok(view, #[trigger] view.deps[k]),
            decreases deps.len() - j,
        {
            match self.lamport_of(deps[j]) {
                Some(older) => {
                    if older >= lamport {
                        assert(!h.dep_ok(view, view.deps[j as int]));
                        return false;
                    }
                },
                None => {
                    assert(!h.dep_ok(view, view.deps[j as int]));
                    return false;
                },
            }
            j += 1;
        }
        true
    }

    /// Appends `node`, which may be appended, to the log of its replica, and
    /// moves the heads and the clock on.
    fn accept(&mut self, node: N)
        requires
            old(self).wf(),
            old(self)@.history.admissible(node.view()),
        ensures
            final(self).wf(),
            final(self)@ == old(self)@.with_node(node.view(), final(self)@.frontier),
    {
        let ghost before = self@;
        let ghost view = node.view();
        let id = node.id();
        let last = ID::new(id.client_id, id.counter + (node.len() - 1) as Counter);
        let end_lamport: Lamport = node.lamport() + node.len() as Lamport;
        update_frontier(&mut self.frontier, last, node.deps());
        proof {
            assert(last == view.last_id());
            lemma_admit_wf(before, view, self.frontier@);
        }
        let (found, at) = self.search_log(id.client_id);
        self.append_node(found, at, node);
        if self.next_lamport < end_lamport {
            self.next_lamport = end_lamport;
        }
    }

    /// Takes `node` over if it may be appended to what is known, and else puts
    /// it off as entry `index` of its replica. Says whether it was put off.
    fn try_push_node(&mut self, node: &N, pending: &mut PendingBuffer, index: usize) -> (put_off:
        bool)
        requires
            old(self).wf(),
        ensures
            final(self).wf(),
            put_off == !old(self)@.history.admissible(node.view()),
            put_off ==> final(self)@ == old(self)@ && final(pending)@ == (PendingView {
                next: old(pending)@.next.push((node.view().id.client_id, index)),
                ..old(pending)@
            }),
            !put_off ==> final(self)@ == old(self)@.with_node(node.view(), final(self)@.frontier)
                && final(pending)@ == (PendingView { progress: true, ..old(pending)@ }),
    {
        if self.can_accept(node) {
            let copy = N::new(node.id(), node.lamport(), copy_ids(node.deps()), node.len());
            self.accept(copy);
            pending.mark_progress();
            false
        } else {
            pending.enqueue(node.id().client_id, index);
            true
        }
    }
}

impl<N: DagNode> Dag<N> {
    /// The replicas of which something is known, in ascending order.
    pub closed spec fn replicas(&self) -> Seq<ClientID> {
        Seq::new(self.logs.len() as nat, |j: int| self.logs[j].client_id)
    }

    /// The replicas are those of the history, each named once.
    proof fn lemma_replicas(&self)
        requires
            self.inv(),
        ensures
            self.replicas().len() == self.logs.len(),
            forall|i: int, k: int|
                0 <= i < k < self.replicas().len() ==> #[trigger] self.replicas()[i]
                    != #[trigger] self.replicas()[k],
            forall|j: int|
                0 <= j < self.logs.len() ==> #[trigger] self.replicas()[j]
                    == self.logs[j].client_id && self.history@.has_replica(self.logs[j].client_id)
                    && self.history@.log(self.logs[j].client_id) == self.logs[j]@,
            forall|client: ClientID| #[trigger]
                self.history@.has_replica(client) ==> exists|j: int|
                    0 <= j < self.logs.len() && #[trigger] self.replicas()[j] == client,
    {
        assert forall|i: int, k: int| 0 <= i < k < self.replicas().len() implies #[trigger] self.replicas()[i]
            != #[trigger] self.replicas()[k] by {
            assert(self.logs[i].client_id < self.logs[k].client_id);
        }
        assert forall|client: ClientID| #[trigger] self.history@.has_replica(client) implies exists|
            j: int,
        |
            0 <= j < self.logs.len() && #[trigger] self.replicas()[j] == client by {
            let j = choose|j: int|
                0 <= j < self.logs.len() && (#[trigger] self.logs[j]).client_id == client;
            assert(self.replicas()[j] == client);
        }
    }

    /// The replicas are those of which the history knows something, each
    /// named once.
    pub proof fn lemma_replicas_known(&self)
        requires
            self.wf(),
        ensures
            forall|i: int, k: int|
                0 <= i < k < self.replicas().len() ==> #[trigger] self.replicas()[i]
                    != #[trigger] self.replicas()[k],
            forall|client: ClientID| #[trigger]
                self@.history.has_replica(client) ==> exists|j: int|
                    0 <= j < self.replicas().len() && #[trigger] self.replicas()[j] == client,
    {
        self.lemma_replicas();
    }

    /// Takes over the nodes of the log that `other` holds at `at`, from index
    /// `from` on, up to the first that cannot be taken over yet; that one is
    /// put off.
    fn walk_log(
        &mut self,
        other: &Dag<N>,
        at: usize,
        from: usize,
        pending: &mut PendingBuffer,
        Ghost(track): Ghost<MergeTrack>,
    ) -> (after: Ghost<MergeTrack>)
        requires
            old(self).wf(),
            other.wf(),
            at < other.logs.len(),
            track.active == Some(other.logs[at as int].client_id),
            track.done.dom().contains(other.logs[at as int].client_id),
            from == cursor(
                track.a,
                other.history@,
                track.done,
                other.logs[at as int].client_id,
            ),
            merge_ok(old(self).history@, other.history@, old(pending)@, track),
        ensures
            final(self).wf(),
            final(self)@.client_id == old(self)@.client_id,
            merge_ok(final(self).history@, other.history@, final(pending)@, after@),
            after@.a == track.a,
            after@.active is None,
            after@.done.dom() == track.done.dom(),
            final(pending)@.current == old(pending)@.current,
            remaining(
                other.replicas(),
                track.a,
                other.history@,
                after@.done,
                other.logs.len() as int,
            ) <= remaining(
                other.replicas(),
                track.a,
                other.history@,
                track.done,
                other.logs.len() as int,
            ),
            final(pending)@.progress ==> old(pending)@.progress || remaining(
                other.replicas(),
                track.a,
                other.history@,
                after@.done,
                other.logs.len() as int,
            ) < remaining(
                other.replicas(),
                track.a,
                other.history@,
                track.done,
                other.logs.len() as int,
            ),
    {
        let log = &other.logs[at];
        let client = log.client_id;
        let ghost b = other.history@;
        let ghost clients = other.replicas();
        let ghost total = other.logs.len() as int;
        let ghost first = track;
        let ghost entered = pending@;
        let mut state: Ghost<MergeTrack> = Ghost(track);
        let mut index = from;
        proof {
            other.lemma_replicas();
            assert(merge_inv_at(state@.a, b, self.history@, state@.done, client));
        }
        while index < log.nodes.len()
            invariant
                self.wf(),
                other.wf(),
                at < other.logs.len(),
                log == &other.logs[at as int],
                client == log.client_id,
                b == other.history@,
                clients == other.replicas(),
                total == other.logs.len(),
                b.log(client) == log@,
                log@.len() == log.nodes.len(),
                self@.client_id == old(self)@.client_id,
                first == track,
                entered == old(pending)@,
                state@.active == Some(client),
                state@.a == first.a,
                state@.done.dom() == first.done.dom(),
                state@.done.dom().contains(client),
                index == cursor(state@.a, b, state@.done, client),
                index <= log.nodes.len(),
                merge_ok(self.history@, b, pending@, state@),
                pending@.current == entered.current,
                remaining(clients, first.a, b, state@.done, total) <= remaining(
                    clients,
                    first.a,
                    b,
                    first.done,
                    total,
                ),
                pending@.progress ==> entered.progress || remaining(
                    clients,
                    first.a,
                    b,
                    state@.done,
                    total,
                ) < remaining(clients, first.a, b, first.done, total),
            decreases log.nodes.len() - index,
        {
            let node = &log.nodes[index];
            let ghost before = self.history@;
            let ghost waiting = pending@;
            assert(node.view() == b.log(client)[index as int]);
            let put_off = self.try_push_node(node, pending, index);
            if put_off {
                proof {
                    lemma_history_logs(b, client);
                    lemma_ok_after_put_off(before, b, waiting, state@, client);
                    state@ = MergeTrack { active: None, ..state@ };
                }
                return state;
            }
            proof {
                lemma_ok_after_accept(before, b, waiting, state@, client);
                other.lemma_replicas();
                lemma_remaining_step(clients, first.a, b, state@.done, at as int, total);
                state@ = MergeTrack { done: state@.done.insert(client, index + 1), ..state@ };
                assert(state@.done.dom() =~= first.done.dom());
            }
            index += 1;
        }
        proof {
            lemma_ok_after_end(self.history@, b, pending@, state@, client);
            state@ = MergeTrack { active: None, ..state@ };
        }
        state
    }
}

impl<N: DagNode> Dag<N> {
    /// Takes over from `other` every node that is not known yet. A node is
    /// appended once it fits onto the end of its replica's log and all that
    /// it depends on is known and older; until then it waits in a pending
    /// buffer and is retried, pass by pass, as long as passes make progress.
    ///
    /// Succeeds exactly if the union of the two histories is a well-formed
    /// history, and then knows that union. Otherwise it ends with what could
    /// be appended, which is the greatest well-formed history within the
    /// union.
    pub fn merge(&mut self, other: &Dag<N>) -> (res: Result<(), DagError>)
        requires
            old(self).wf(),
            other.wf(),
        ensures
            final(self).wf(),
            final(self)@.client_id == old(self)@.client_id,
            res == (if old(self)@.history.union(other@.history).wf() {
                Ok::<(), DagError>(())
            } else {
                Err::<(), DagError>(DagError::InconsistentHistory)
            }),
            res is Ok ==> final(self)@ == old(self)@.merged(other@),
            old(self)@.history.prefix_of(final(self)@.history),
            final(self)@.history.prefix_of(old(self)@.history.union(other@.history)),
            final(self)@.history.saturated_within(old(self)@.history.union(other@.history)),
    {
        let ghost a = self.history@;
        let ghost b = other.history@;
        let ghost clients = other.replicas();
        let ghost total = other.logs.len() as int;
        let mut pending = PendingBuffer::new();
        let mut track: Ghost<MergeTrack> = Ghost(MergeTrack { a, done: Map::empty(), active: None });
        proof {
            lemma_ok_at_start(a, b);
            other.lemma_replicas();
        }
        let mut at: usize = 0;
        while at < other.logs.len()
            invariant
                self.wf(),
                other.wf(),
                a == old(self).history@,
                b == other.history@,
                clients == other.replicas(),
                total == other.logs.len(),
                self@.client_id == old(self)@.client_id,
                at <= other.logs.len(),
                track@.a == a,
                track@.active is None,
                pending@.current.len() == 0,
                merge_ok(self.history@, b, pending@, track@),
                forall|j: int| 0 <= j < at ==> track@.done.dom().contains(#[trigger] clients[j]),
                forall|j: int|
                    at <= j < other.logs.len() ==> !track@.done.dom().contains(
                        #[trigger] clients[j],
                    ),
            decreases other.logs.len() - at,
        {
            let client = other.logs[at].client_id;
            proof {
                other.lemma_replicas();
                assert(clients[at as int] == client);
                lemma_ok_after_visit(self.history@, b, pending@, track@, client);
                lemma_history_logs(b, client);
            }
            let from = other.logs[at].first_unknown(self.version_of(client));
            proof {
                assert(from == start_cursor(a, b, client));
                track@ = MergeTrack {
                    done: track@.done.insert(client, start_cursor(a, b, client)),
                    active: Some(client),
                    ..track@
                };
            }
            track = self.walk_log(other, at, from, &mut pending, track);
            proof {
                assert forall|j: int| 0 <= j < at + 1 implies track@.done.dom().contains(
                    #[trigger] clients[j],
                ) by {}
                assert forall|j: int| at + 1 <= j < other.logs.len() implies !track@.done.dom().contains(
                    #[trigger] clients[j],
                ) by {
                    assert(clients[at as int] != clients[j]);
                }
            }
            at += 1;
        }
        proof {
            assert forall|client: ClientID| #[trigger]
                b.has_replica(client) implies track@.done.dom().contains(client) by {
                let j = choose|j: int| 0 <= j < other.logs.len() && #[trigger] clients[j] == client;
                assert(track@.done.dom().contains(clients[j]));
            }
        }
        loop
            invariant
                self.wf(),
                other.wf(),
                a == old(self).history@,
                b == other.history@,
                clients == other.replicas(),
                total == other.logs.len(),
                self@.client_id == old(self)@.client_id,
                track@.a == a,
                track@.active is None,
                pending@.current.len() == 0,
                merge_ok(self.history@, b, pending@, track@),
                forall|client: ClientID| #[trigger]
                    b.has_replica(client) ==> track@.done.dom().contains(client),
            decreases
                    remaining(clients, a, b, track@.done, total),
                    (if pending@.progress {
                        1nat
                    } else {
                        0nat
                    }),
        {
            let ghost top = remaining(clients, a, b, track@.done, total);
            let ghost was_progress = pending@.progress;
            proof {
                lemma_remaining_bounds(clients, a, b, self.history@, track@.done, total);
                lemma_merge_between(a, b, self.history@, track@.done);
                if pending@.next.len() > 0 && pending@.progress {
                    lemma_ok_after_pass(self.history@, b, pending@, track@);
                }
            }
            match pending.next_pass() {
                PassOutcome::Done => {
                    proof {
                        lemma_ok_done(self.history@, b, pending@, track@);
                        lemma_view_determined(self@);
                    }
                    return Ok(());
                },
                PassOutcome::Stalled => {
                    proof {
                        lemma_ok_stalled(self.history@, b, pending@, track@);
                    }
                    return Err(DagError::InconsistentHistory);
                },
                PassOutcome::Retry => {},
            }
            assert(was_progress);
            loop
                invariant
                    self.wf(),
                    other.wf(),
                    a == old(self).history@,
                    b == other.history@,
                    clients == other.replicas(),
                    total == other.logs.len(),
                    self@.client_id == old(self)@.client_id,
                    track@.a == a,
                    track@.active is None,
                    merge_ok(self.history@, b, pending@, track@),
                    forall|client: ClientID| #[trigger]
                        b.has_replica(client) ==> track@.done.dom().contains(client),
                    remaining(clients, a, b, track@.done, total) <= top,
                    pending@.progress ==> remaining(clients, a, b, track@.done, total) < top,
                ensures
                    pending@.current.len() == 0,
                decreases pending@.current.len(),
            {
                let ghost waiting = pending@;
                match pending.pop() {
                    None => {
                        break ;
                    },
                    Some((client, index)) => {
                        proof {
                            lemma_ok_after_pop(self.history@, b, waiting, track@);
                            track@ = MergeTrack { active: Some(client), ..track@ };
                        }
                        let (found, at) = other.search_log(client);
                        track = self.walk_log(other, at, index, &mut pending, track);
                    },
                }
            }
            proof {
                lemma_remaining_bounds(clients, a, b, self.history@, track@.done, total);
            }
        }
    }

    /// The nodes that depend on nothing, in ascending order of replica and
    /// counter.
    pub fn roots(&self) -> (roots: Vec<&N>)
        requires
            self.wf(),
        ensures
            forall|k: int| 0 <= k < roots.len() ==> self@.history.is_root((#[trigger] roots[k]).view()),
            forall|node: NodeView| #[trigger]
                self@.history.is_root(node) ==> exists|k: int|
                    0 <= k < roots.len() && (#[trigger] roots[k]).view() == node,
            nodes_ascending(Seq::new(roots.len() as nat, |k: int| roots[k].view())),
    {
        let ghost h = self.history@;
        let mut roots: Vec<&N> = Vec::new();
        let ghost mut picked: Seq<(int, int)> = Seq::empty();
        let mut at: usize = 0;
        while at < self.logs.len()
            invariant
                self.wf(),
                h == self.history@,
                at <= self.logs.len(),
                picked.len() == roots.len(),
                picked_ok(self.logs@, roots@, picked, at as int, 0),
            decreases self.logs.len() - at,
        {
            let log = &self.logs[at];
            let mut index: usize = 0;
            while index < log.nodes.len()
                invariant
                    self.wf(),
                    at < self.logs.len(),
                    log == &self.logs[at as int],
                    index <= log.nodes.len(),
                    picked.len() == roots.len(),
                    picked_ok(self.logs@, roots@, picked, at as int, index as int),
                decreases log.nodes.len() - index,
            {
                let node = &log.nodes[index];
                let ghost roots_before = roots@;
                let ghost picked_before = picked;
                let is_root = node.deps().len() == 0;
                if is_root {
                    roots.push(node);
                    proof {
                        picked = picked.push((at as int, index as int));
                    }
                }
                proof {
                    let logs = self.logs@;
                    assert forall|k: int| 0 <= k < picked.len() implies {
                        &&& 0 <= (#[trigger] picked[k]).0 < logs.len()
                        &&& 0 <= picked[k].1 < logs[picked[k].0].nodes.len()
                        &&& *roots@[k] == logs[picked[k].0].nodes[picked[k].1]
                        &&& roots@[k].view().deps.len() == 0
                        &&& before(picked[k], (at as int, index + 1))
                    } by {
                        if k < picked_before.len() {
                            assert(picked[k] == picked_before[k]);
                            assert(roots@[k] == roots_before[k]);
                            assert(before(picked_before[k], (at as int, index as int)));
                        }
                    }
                    assert forall|k1: int, k2: int|
                        0 <= k1 < k2 < picked.len() implies before(
                        #[trigger] picked[k1],
                        #[trigger] picked[k2],
                    ) by {
                        assert(picked[k1] == picked_before[k1]);
                        if k2 < picked_before.len() {
                            assert(picked[k2] == picked_before[k2]);
                        } else {
                            assert(before(picked_before[k1], (at as int, index as int)));
                        }
                    }
                    assert forall|s: int, i: int|
                        0 <= s < logs.len() && 0 <= i < logs[s].nodes.len() && before(
                            (s, i),
                            (at as int, index + 1),
                        ) implies #[trigger] listed(logs, roots@, picked, s, i) by {
                        if s == at && i == index {
                            if is_root {
                                assert(picked[picked.len() - 1] == (s, i));
                            }
                        } else {
                            assert(before((s, i), (at as int, index as int)));
                            assert(listed(logs, roots_before, picked_before, s, i));
                            if logs[s].nodes[i].view().deps.len() == 0 {
                                let k = choose|k: int|
                                    0 <= k < picked_before.len() && #[trigger] picked_before[k]
                                        == (s, i);
                                assert(picked[k] == (s, i));
                            }
                        }
                    }
                }
                index += 1;
            }
            proof {
                let logs = self.logs@;
                assert forall|k: int| 0 <= k < picked.len() implies before(
                    #[trigger] picked[k],
                    (at + 1, 0),
                ) by {
                    assert(before(picked[k], (at as int, index as int)));
                }
                assert forall|s: int, i: int|
                    0 <= s < logs.len() && 0 <= i < logs[s].nodes.len() && before(
                        (s, i),
                        (at + 1, 0),
                    ) implies #[trigger] listed(logs, roots@, picked, s, i) by {
                    assert(before((s, i), (at as int, index as int)));
                }
            }
            at += 1;
        }
        proof {
            self.lemma_replicas();
            let views = Seq::new(roots.len() as nat, |k: int| roots[k].view());
            assert forall|k: int| 0 <= k < roots.len() implies self@.history.is_root(
                (#[trigger] roots[k]).view(),
            ) by {
                let (s, i) = picked[k];
                assert(self.replicas()[s] == self.logs[s].client_id);
                assert(self.logs[s]@[i] == roots[k].view());
                assert(h.logs[self.logs[s].client_id][i] == roots[k].view());
                assert(log_wf(self.logs[s].client_id, self.logs[s]@));
            }
            assert forall|node: NodeView| #[trigger] self@.history.is_root(node) implies exists|
                k: int,
            |
                0 <= k < roots.len() && (#[trigger] roots[k]).view() == node by {
                let client = node.id.client_id;
                let i = choose|i: int|
                    0 <= i < h.logs[client].len() && #[trigger] h.logs[client][i] == node;
                let s = choose|s: int|
                    0 <= s < self.logs.len() && (#[trigger] self.logs[s]).client_id == client;
                assert(self.logs[s]@[i] == node);
                assert(listed(self.logs@, roots@, picked, s, i));
            }
            assert forall|i: int, j: int| 0 <= i < j < views.len() implies (#[trigger] views[i]).id.client_id
                < (#[trigger] views[j]).id.client_id || (views[i].id.client_id
                == views[j].id.client_id && views[i].id.counter < views[j].id.counter) by {
                let (s1, i1) = picked[i];
                let (s2, i2) = picked[j];
                assert(before(picked[i], picked[j]));
                assert(self.replicas()[s1] == self.logs[s1].client_id);
                assert(self.replicas()[s2] == self.logs[s2].client_id);
                assert(self.logs[s1]@[i1] == roots[i].view());
                assert(self.logs[s2]@[i2] == roots[j].view());
                assert(log_wf(self.logs[s1].client_id, self.logs[s1]@));
                assert(log_wf(self.logs[s2].client_id, self.logs[s2]@));
                if s1 < s2 {
                    assert(self.logs[s1].client_id < self.logs[s2].client_id);
                } else {
                    lemma_log_order(self.logs[s1].client_id, self.logs[s1]@, i1, i2);
                    lemma_log_bounds(self.logs[s1].client_id, self.logs[s1]@, i1);
                }
            }
        }
        roots
    }

    /// The version vector: each replica of which something is known, with
    /// one past the last counter known of it, in ascending order of replica.
    pub fn version_vector(&self) -> (vv: Vec<(ClientID, Counter)>)
        requires
            self.wf(),
        ensures
            vv.len() == self.replicas().len(),
            forall|k: int|
                0 <= k < vv.len() ==> (#[trigger] vv[k]).0 == self.replicas()[k] && vv[k].1
                    == self@.history.vv(vv[k].0) && self@.history.has_replica(vv[k].0),
            forall|i: int, k: int| 0 <= i < k < vv.len() ==> (#[trigger] vv[i]).0 < (#[trigger] vv[k]).0,
            forall|client: ClientID| #[trigger]
                self@.history.has_replica(client) ==> exists|k: int|
                    0 <= k < vv.len() && (#[trigger] vv[k]).0 == client,
    {
        let mut vv: Vec<(ClientID, Counter)> = Vec::new();
        let mut at: usize = 0;
        proof {
            self.lemma_replicas();
        }
        while at < self.logs.len()
            invariant
                self.wf(),
                at <= self.logs.len(),
                vv.len() == at,
                self.replicas().len() == self.logs.len(),
                forall|k: int|
                    0 <= k < vv.len() ==> (#[trigger] vv[k]).0 == self.replicas()[k] && vv[k].1
                        == self@.history.vv(vv[k].0) && self@.history.has_replica(vv[k].0),
            decreases self.logs.len() - at,
        {
            let client = self.logs[at].client_id;
            let end = self.log_end_at(at);
            proof {
                self.lemma_replicas();
                assert(self.replicas()[at as int] == client);
            }
            vv.push((client, end));
            at += 1;
        }
        proof {
            self.lemma_replicas();
            assert forall|i: int, k: int| 0 <= i < k < vv.len() implies (#[trigger] vv[i]).0
                < (#[trigger] vv[k]).0 by {
                assert(self.replicas()[i] == self.logs[i].client_id);
                assert(self.replicas()[k] == self.logs[k].client_id);
                assert(self.logs[i].client_id < self.logs[k].client_id);
            }
            assert forall|client: ClientID| #[trigger]
                self@.history.has_replica(client) implies exists|k: int|
                0 <= k < vv.len() && (#[trigger] vv[k]).0 == client by {
                let j = choose|j: int|
                    0 <= j < self.logs.len() && #[trigger] self.replicas()[j] == client;
                assert(vv[j].0 == client);
            }
        }
        vv
    }
}

/// The place `(log, node)` of `one` comes before that of `two`.
spec fn before(one: (int, int), two: (int, int)) -> bool {
    one.0 < two.0 || (one.0 == two.0 && one.1 < two.1)
}

/// Where the node at place `(s, i)` depends on nothing, it has been picked.
spec fn listed<N: DagNode>(
    logs: Seq<ReplicaLog<N>>,
    roots: Seq<&N>,
    picked: Seq<(int, int)>,
    s: int,
    i: int,
) -> bool {
    logs[s].nodes[i].view().deps.len() == 0 ==> exists|k: int|
        0 <= k < picked.len() && #[trigger] picked[k] == (s, i)
}

/// `roots` are the nodes at the places `picked`, which are the places
/// before `(at, index)` of the nodes that depend on nothing, in order.
spec fn picked_ok<N: DagNode>(
    logs: Seq<ReplicaLog<N>>,
    roots: Seq<&N>,
    picked: Seq<(int, int)>,
    at: int,
    index: int,
) -> bool {
    &&& forall|k: int|
        0 <= k < picked.len() ==> {
            &&& 0 <= (#[trigger] picked[k]).0 < logs.len()
            &&& 0 <= picked[k].1 < logs[picked[k].0].nodes.len()
            &&& *roots[k] == logs[picked[k].0].nodes[picked[k].1]
            &&& roots[k].view().deps.len() == 0
            &&& before(picked[k], (at, index))
        }
    &&& forall|k1: int, k2: int|
        0 <= k1 < k2 < picked.len() ==> before(#[trigger] picked[k1], #[trigger] picked[k2])
    &&& forall|s: int, i: int|
        0 <= s < logs.len() && 0 <= i < logs[s].nodes.len() && before((s, i), (at, index))
            ==> #[trigger] listed(logs, roots, picked, s, i)
}

} // verus!
