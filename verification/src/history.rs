use vstd::prelude::*;
use crate::frontier::ascending;
use crate::id::{ClientID, Counter, Lamport, ID};

verus! {

/// What the engine reads of one node: where its span starts, the clock value
/// at that start, how many operations it holds, and the positions that its
/// first operation depends on.
pub struct NodeView {
    pub id: ID,
    pub lamport: Lamport,
    pub len: nat,
    pub deps: Seq<ID>,
}

impl NodeView {
    pub open spec fn start(self) -> int {
        self.id.counter as int
    }

    /// One past the counter of the node's last operation.
    pub open spec fn end(self) -> int {
        self.id.counter + self.len
    }

    /// One past the clock value of the node's last operation.
    pub open spec fn end_lamport(self) -> int {
        self.lamport + self.len
    }

    pub open spec fn last_id(self) -> ID {
        ID { client_id: self.id.client_id, counter: (self.end() - 1) as Counter }
    }

    pub open spec fn covers(self, counter: int) -> bool {
        self.start() <= counter < self.end()
    }

    /// The node is not empty, and its counters and clock values are
    /// representable.
    pub open spec fn fits(self) -> bool {
        &&& self.len >= 1
        &&& self.end() <= Counter::MAX
        &&& self.end_lamport() <= Lamport::MAX
    }
}

/// The nodes stand in ascending order of replica, and those of one replica
/// in ascending order of counter.
pub open spec fn nodes_ascending(nodes: Seq<NodeView>) -> bool {
    forall|i: int, j: int|
        0 <= i < j < nodes.len() ==> (#[trigger] nodes[i]).id.client_id
            < (#[trigger] nodes[j]).id.client_id || (nodes[i].id.client_id == nodes[j].id.client_id
            && nodes[i].id.counter < nodes[j].id.counter)
}

/// One past the last counter of a replica's log; 0 for an empty log.
pub open spec fn log_end(log: Seq<NodeView>) -> int {
    if log.len() == 0 {
        0
    } else {
        log.last().end()
    }
}

/// One past the last clock value of a replica's log; 0 for an empty log.
pub open spec fn log_end_lamport(log: Seq<NodeView>) -> int {
    if log.len() == 0 {
        0
    } else {
        log.last().end_lamport()
    }
}

/// The nodes of one replica partition the counters from 0 to the log's end
/// without gap or overlap, and the clock never runs backwards along them.
pub open spec fn log_wf(client: ClientID, log: Seq<NodeView>) -> bool {
    &&& forall|i: int|
        0 <= i < log.len() ==> (#[trigger] log[i]).id.client_id == client && log[i].fits()
    &&& log.len() > 0 ==> log[0].start() == 0
    &&& forall|i: int| 0 < i < log.len() ==> #[trigger] follows(log, i)
}

/// The node at `i` starts where the node before it ends, and not before
/// that node's clock.
pub open spec fn follows(log: Seq<NodeView>, i: int) -> bool {
    log[i].start() == log[i - 1].end() && log[i].lamport >= log[i - 1].end_lamport()
}

/// Index of the node of `log` that holds `counter`.
pub open spec fn index_in_log(log: Seq<NodeView>, counter: int) -> int {
    choose|i: int| 0 <= i < log.len() && (#[trigger] log[i]).covers(counter)
}

/// Number of nodes of `log` that start below `end`. In a well-formed log
/// these are its first nodes.
pub open spec fn known_count(log: Seq<NodeView>, end: int) -> nat
    decreases log.len(),
{
    if log.len() == 0 {
        0
    } else if log.last().start() < end {
        log.len()
    } else {
        known_count(log.drop_last(), end)
    }
}

/// `ours` followed by the nodes of `theirs` that start at or after the end of
/// `ours`.
pub open spec fn extend_log(ours: Seq<NodeView>, theirs: Seq<NodeView>) -> Seq<NodeView> {
    ours + theirs.skip(known_count(theirs, log_end(ours)) as int)
}

pub proof fn lemma_log_order(client: ClientID, log: Seq<NodeView>, i: int, j: int)
    requires
        log_wf(client, log),
        0 <= i < j < log.len(),
    ensures
        log[i].end() <= log[j].start(),
        log[i].end_lamport() <= log[j].lamport,
    decreases j - i,
{
    if i + 1 < j {
        lemma_log_order(client, log, i, j - 1);
    }
    assert(follows(log, j));
}

pub proof fn lemma_log_bounds(client: ClientID, log: Seq<NodeView>, i: int)
    requires
        log_wf(client, log),
        0 <= i < log.len(),
    ensures
        0 <= log[i].start() < log[i].end() <= log_end(log),
        log[i].end_lamport() <= log_end_lamport(log),
        log[i].start() == 0 <==> i == 0,
{
    if i < log.len() - 1 {
        lemma_log_order(client, log, i, log.len() - 1);
    }
    if i > 0 {
        lemma_log_order(client, log, 0, i);
    }
}

/// Every counter below the end of a well-formed log lies in exactly one node.
pub proof fn lemma_log_covers(client: ClientID, log: Seq<NodeView>, counter: int)
    requires
        log_wf(client, log),
        0 <= counter < log_end(log),
    ensures
        0 <= index_in_log(log, counter) < log.len(),
        log[index_in_log(log, counter)].covers(counter),
        forall|i: int|
            0 <= i < log.len() && (#[trigger] log[i]).covers(counter) ==> i == index_in_log(
                log,
                counter,
            ),
{
    lemma_log_has_cover(client, log, counter, log.len() - 1);
    let k = index_in_log(log, counter);
    assert forall|i: int| 0 <= i < log.len() && (#[trigger] log[i]).covers(counter) implies i
        == k by {
        if i < k {
            lemma_log_order(client, log, i, k);
        } else if k < i {
            lemma_log_order(client, log, k, i);
        }
    }
}

proof fn lemma_log_has_cover(client: ClientID, log: Seq<NodeView>, counter: int, upto: int)
    requires
        log_wf(client, log),
        0 <= upto < log.len(),
        0 <= counter < log[upto].end(),
    ensures
        exists|i: int| 0 <= i < log.len() && (#[trigger] log[i]).covers(counter),
    decreases upto,
{
    if log[upto].start() <= counter {
        assert(log[upto].covers(counter));
    } else {
        assert(upto > 0);
        assert(follows(log, upto));
        lemma_log_has_cover(client, log, counter, upto - 1);
    }
}

/// The nodes that are known, replica by replica.
pub struct History {
    pub logs: Map<ClientID, Seq<NodeView>>,
}

impl History {
    pub open spec fn empty() -> History {
        History { logs: Map::empty() }
    }

    pub open spec fn has_replica(self, client: ClientID) -> bool {
        self.logs.dom().contains(client)
    }

    /// The nodes of one replica, in counter order; none for a replica of
    /// which nothing is known.
    pub open spec fn log(self, client: ClientID) -> Seq<NodeView> {
        if self.has_replica(client) {
            self.logs[client]
        } else {
            Seq::empty()
        }
    }

    /// The version vector: for each replica, one past the last known counter.
    pub open spec fn vv(self, client: ClientID) -> int {
        log_end(self.log(client))
    }

    pub open spec fn contains(self, id: ID) -> bool {
        id.counter < self.vv(id.client_id)
    }

    /// The node whose span holds `id`.
    pub open spec fn node_of(self, id: ID) -> NodeView {
        let log = self.log(id.client_id);
        log[index_in_log(log, id.counter as int)]
    }

    /// The clock value of the operation at `id`.
    pub open spec fn lamport_of(self, id: ID) -> int {
        let node = self.node_of(id);
        node.lamport + (id.counter - node.start())
    }

    /// `dep` may stand among the dependencies of `node`: it is known, and its
    /// clock value lies below the node's.
    pub open spec fn dep_ok(self, node: NodeView, dep: ID) -> bool {
        self.contains(dep) && self.lamport_of(dep) < node.lamport
    }

    /// No node depends on a position that is unknown or not older than
    /// itself.
    pub open spec fn closed(self) -> bool {
        forall|client: ClientID, i: int, j: int|
            self.has_replica(client) && 0 <= i < self.logs[client].len() && 0 <= j
                < self.logs[client][i].deps.len() ==> self.dep_ok(
                self.logs[client][i],
                #[trigger] self.logs[client][i].deps[j],
            )
    }

    pub open spec fn wf(self) -> bool {
        &&& self.logs.dom().finite()
        &&& forall|client: ClientID| #[trigger]
            self.has_replica(client) ==> self.logs[client].len() > 0 && log_wf(
                client,
                self.logs[client],
            )
        &&& self.closed()
    }

    /// Some node names `id` among its dependencies.
    pub open spec fn referenced(self, id: ID) -> bool {
        exists|client: ClientID, i: int, j: int|
            self.has_replica(client) && 0 <= i < self.logs[client].len() && 0 <= j
                < self.logs[client][i].deps.len() && #[trigger] self.logs[client][i].deps[j] == id
    }

    /// `id` is a head of the history: the last known operation of its
    /// replica, on which no node depends.
    pub open spec fn is_tip(self, id: ID) -> bool {
        &&& self.contains(id)
        &&& id.counter + 1 == self.vv(id.client_id)
        &&& !self.referenced(id)
    }

    /// `frontier` lists the heads of the history, in ascending order of
    /// replica.
    pub open spec fn is_frontier(self, frontier: Seq<ID>) -> bool {
        &&& ascending(frontier)
        &&& forall|id: ID|
            #![trigger frontier.contains(id)]
            #![trigger self.is_tip(id)]
            frontier.contains(id) <==> self.is_tip(id)
    }

    /// `clock` is one past the greatest clock value of any known operation; 0
    /// where nothing is known.
    pub open spec fn is_clock(self, clock: int) -> bool {
        &&& forall|client: ClientID| #[trigger]
            self.has_replica(client) ==> log_end_lamport(self.logs[client]) <= clock
        &&& {
            ||| clock == 0 && self.logs.dom() =~= Set::<ClientID>::empty()
            ||| exists|client: ClientID| #[trigger]
                self.has_replica(client) && log_end_lamport(self.logs[client]) == clock
        }
    }

    /// `node` is one of the known nodes.
    pub open spec fn has_node(self, node: NodeView) -> bool {
        self.has_replica(node.id.client_id) && exists|i: int|
            0 <= i < self.logs[node.id.client_id].len() && #[trigger] self.logs[node.id.client_id][i]
                == node
    }

    /// `node` is a known node that depends on nothing.
    pub open spec fn is_root(self, node: NodeView) -> bool {
        self.has_node(node) && node.deps.len() == 0
    }

    /// The heads of the history, in ascending order of replica.
    pub open spec fn frontier(self) -> Seq<ID> {
        choose|frontier: Seq<ID>| self.is_frontier(frontier)
    }

    /// One past the greatest clock value of any known operation.
    pub open spec fn clock(self) -> int {
        choose|clock: int| self.is_clock(clock)
    }

    /// Of every replica, one of the two histories holds the beginning of what
    /// the other holds: they are two views of one history.
    pub open spec fn agrees_with(self, other: History) -> bool {
        forall|client: ClientID| #[trigger]
            self.log(client).is_prefix_of(other.log(client)) || other.log(client).is_prefix_of(
                self.log(client),
            )
    }

    /// The history with `node` appended to the log of its replica.
    pub open spec fn append(self, node: NodeView) -> History {
        History { logs: self.logs.insert(node.id.client_id, self.log(node.id.client_id).push(node)) }
    }

    /// `node` may be appended: it starts where its replica's log ends, not
    /// before the clock of that log, and all it depends on is known and older.
    pub open spec fn admissible(self, node: NodeView) -> bool {
        &&& node.fits()
        &&& node.start() == self.vv(node.id.client_id)
        &&& node.lamport >= log_end_lamport(self.log(node.id.client_id))
        &&& forall|j: int| 0 <= j < node.deps.len() ==> self.dep_ok(node, #[trigger] node.deps[j])
    }

    /// The union of two histories: each replica's log of `self`, followed by
    /// the nodes of `other` that lie beyond it.
    pub open spec fn union(self, other: History) -> History {
        History {
            logs: Map::new(
                |client: ClientID| self.has_replica(client) || other.has_replica(client),
                |client: ClientID| extend_log(self.log(client), other.log(client)),
            ),
        }
    }

    /// Where `target` holds more of `client` than `self` does, the next node
    /// may not be appended to `self`.
    pub open spec fn stuck_at(self, target: History, client: ClientID) -> bool {
        self.log(client).len() < target.log(client).len() ==> !self.admissible(
            target.log(client)[self.log(client).len() as int],
        )
    }

    /// None of the nodes that `target` holds beyond `self` may be appended to
    /// `self` next.
    pub open spec fn saturated_within(self, target: History) -> bool {
        forall|client: ClientID| #[trigger] self.stuck_at(target, client)
    }

    /// Every log of `self` is the beginning of the same replica's log in
    /// `other`.
    pub open spec fn prefix_of(self, other: History) -> bool {
        forall|client: ClientID| #[trigger] self.log(client).is_prefix_of(other.log(client))
    }
}

/// The state of the engine: whose it is, what it knows, the heads of that
/// history, and the next clock value.
pub struct DagView {
    pub client_id: ClientID,
    pub history: History,
    pub frontier: Seq<ID>,
    pub next_lamport: Lamport,
}

impl DagView {
    pub open spec fn wf(self) -> bool {
        &&& self.history.wf()
        &&& self.history.is_frontier(self.frontier)
        &&& self.history.is_clock(self.next_lamport as int)
    }

    pub open spec fn empty(client_id: ClientID) -> DagView {
        DagView { client_id, history: History::empty(), frontier: Seq::empty(), next_lamport: 0 }
    }

    /// The node that a local append of `len` operations creates.
    pub open spec fn next_node(self, len: nat) -> NodeView {
        NodeView {
            id: ID {
                client_id: self.client_id,
                counter: self.history.vv(self.client_id) as Counter,
            },
            lamport: self.next_lamport,
            len,
            deps: self.frontier,
        }
    }

    /// The state after `node` has been admitted: the node stands at the end
    /// of its replica's log, `frontier` lists the new heads, and the clock
    /// has passed the node's last operation.
    pub open spec fn with_node(self, node: NodeView, frontier: Seq<ID>) -> DagView {
        DagView {
            client_id: self.client_id,
            history: self.history.append(node),
            frontier,
            next_lamport: if self.next_lamport >= node.end_lamport() {
                self.next_lamport
            } else {
                node.end_lamport() as Lamport
            },
        }
    }

    /// The state after the history of `other` has been merged in, where the
    /// union of the two histories is a well-formed history: it knows that
    /// union, with the heads and the clock that go with it.
    pub open spec fn merged(self, other: DagView) -> DagView {
        let history = self.history.union(other.history);
        DagView {
            client_id: self.client_id,
            history,
            frontier: history.frontier(),
            next_lamport: history.clock() as Lamport,
        }
    }

    /// The state after a local append of `len` operations.
    pub open spec fn push(self, len: nat) -> DagView {
        let node = self.next_node(len);
        DagView {
            client_id: self.client_id,
            history: self.history.append(node),
            frontier: seq![node.last_id()],
            next_lamport: (self.next_lamport + len) as Lamport,
        }
    }
}

/// A known position lies in a node of its replica's log, and its clock value
/// lies within that node's and below the end of the log's.
pub proof fn lemma_known_position(h: History, id: ID)
    requires
        h.wf(),
        h.contains(id),
    ensures
        h.has_replica(id.client_id),
        0 <= index_in_log(h.log(id.client_id), id.counter as int) < h.log(id.client_id).len(),
        h.node_of(id).covers(id.counter as int),
        h.node_of(id).id.client_id == id.client_id,
        h.node_of(id).fits(),
        h.node_of(id).lamport <= h.lamport_of(id) < h.node_of(id).end_lamport(),
        h.lamport_of(id) < log_end_lamport(h.log(id.client_id)),
{
    let client = id.client_id;
    let log = h.log(client);
    assert(h.has_replica(client));
    lemma_log_covers(client, log, id.counter as int);
    lemma_log_bounds(client, log, index_in_log(log, id.counter as int));
}

/// The beginning of a well-formed log is a well-formed log, and holds each
/// of its counters in the node that the whole log holds it in.
pub proof fn lemma_log_prefix(client: ClientID, small: Seq<NodeView>, big: Seq<NodeView>)
    requires
        log_wf(client, big),
        small.is_prefix_of(big),
    ensures
        log_wf(client, small),
        log_end(small) <= log_end(big),
        log_end_lamport(small) <= log_end_lamport(big),
        forall|counter: int|
            0 <= counter < log_end(small) ==> #[trigger] big[index_in_log(big, counter)]
                == small[index_in_log(small, counter)],
        forall|counter: int|
            log_end(small) <= counter < log_end(big) ==> small.len() <= #[trigger] index_in_log(
                big,
                counter,
            ) < big.len() && big[index_in_log(big, counter)].covers(counter),
{
    assert forall|i: int| 0 <= i < small.len() implies (#[trigger] small[i]).id.client_id == client
        && small[i].fits() by {
        assert(small[i] == big[i]);
    }
    assert forall|i: int| 0 < i < small.len() implies #[trigger] follows(small, i) by {
        assert(small[i] == big[i]);
        assert(small[i - 1] == big[i - 1]);
        assert(follows(big, i));
    }
    if small.len() > 0 {
        assert(small[0] == big[0]);
        assert(small.last() == big[small.len() - 1]);
        lemma_log_bounds(client, big, small.len() - 1);
    } else if big.len() > 0 {
        lemma_log_bounds(client, big, 0);
    }
    assert forall|counter: int| 0 <= counter < log_end(small) implies #[trigger] big[index_in_log(
        big,
        counter,
    )] == small[index_in_log(small, counter)] by {
        lemma_log_covers(client, small, counter);
        lemma_log_covers(client, big, counter);
        let k = index_in_log(small, counter);
        assert(big[k] == small[k]);
    }
    assert forall|counter: int| log_end(small) <= counter < log_end(big) implies small.len()
        <= #[trigger] index_in_log(big, counter) < big.len() && big[index_in_log(
        big,
        counter,
    )].covers(counter) by {
        lemma_log_covers(client, big, counter);
        let k = index_in_log(big, counter);
        if k < small.len() {
            assert(small[k] == big[k]);
            lemma_log_bounds(client, small, k);
        }
    }
}

/// The log that a well-formed history holds of a replica is well-formed, and
/// holds a node exactly if the history knows the replica.
pub proof fn lemma_history_logs(h: History, client: ClientID)
    requires
        h.wf(),
    ensures
        log_wf(client, h.log(client)),
        h.has_replica(client) <==> h.log(client).len() > 0,
        0 <= h.vv(client),
{
    if h.has_replica(client) {
        lemma_log_bounds(client, h.log(client), h.log(client).len() - 1);
    }
}

} // verus!
