use vstd::prelude::*;
use crate::history::{
    follows, index_in_log, lemma_history_logs, lemma_known_position, lemma_log_bounds,
    lemma_log_covers, lemma_log_order, lemma_log_prefix, log_end, log_wf, History, NodeView,
};
use crate::id::{ClientID, ID};

verus! {

/// A cut through a history: of each replica, the operations below some
/// counter.
pub struct Cut {
    pub ends: Map<ClientID, int>,
}

impl Cut {
    /// One past the last counter of `client` that the cut holds.
    pub open spec fn end(self, client: ClientID) -> int {
        if self.ends.dom().contains(client) {
            self.ends[client]
        } else {
            0
        }
    }

    pub open spec fn covers(self, id: ID) -> bool {
        id.counter < self.end(id.client_id)
    }
}

impl History {
    /// The cut holds known operations only, and with the first operation of a
    /// node all that the node depends on.
    pub open spec fn cut_closed(self, cut: Cut) -> bool {
        &&& forall|client: ClientID| #[trigger] cut.end(client) <= self.vv(client)
        &&& forall|client: ClientID, i: int, j: int|
            self.has_replica(client) && 0 <= i < self.logs[client].len() && 0 <= j
                < self.logs[client][i].deps.len() && self.logs[client][i].start() < cut.end(
                client,
            ) ==> cut.covers(#[trigger] self.logs[client][i].deps[j])
    }

    /// `older` is `newer` or came causally before it: `newer` is known, and
    /// every closed cut that holds `newer` holds `older`. An operation comes
    /// after the operations before it on its own replica, and the first
    /// operation of a node after all that the node depends on.
    pub open spec fn is_ancestor(self, older: ID, newer: ID) -> bool {
        &&& self.contains(newer)
        &&& forall|cut: Cut| #[trigger] self.cut_closed(cut) && cut.covers(newer) ==> cut.covers(older)
    }

    /// The cut that holds all that is known.
    pub open spec fn whole(self) -> Cut {
        Cut { ends: Map::new(|client: ClientID| true, |client: ClientID| self.vv(client)) }
    }

    /// `id` comes causally before or is both `first` and `second`.
    pub open spec fn is_common_ancestor(self, id: ID, first: ID, second: ID) -> bool {
        self.is_ancestor(id, first) && self.is_ancestor(id, second)
    }

    /// The order in which common ancestors are preferred: the later clock
    /// value first, and of two with one clock value the lower replica.
    pub open spec fn preferred(self, id: ID, over: ID) -> bool {
        self.lamport_of(id) > self.lamport_of(over) || (self.lamport_of(id) == self.lamport_of(over)
            && id.client_id <= over.client_id)
    }

    /// `found` is the common ancestor of `first` and `second` that is
    /// preferred over all others, or nothing where they have none.
    pub open spec fn is_gca(self, first: ID, second: ID, found: Option<ID>) -> bool {
        match found {
            Some(id) => self.is_common_ancestor(id, first, second) && forall|other: ID| #[trigger]
                self.is_common_ancestor(other, first, second) ==> self.preferred(id, other),
            None => forall|other: ID| !#[trigger] self.is_common_ancestor(other, first, second),
        }
    }
}

/// The cut that holds all that a well-formed history knows is closed.
pub proof fn lemma_whole_closed(h: History)
    requires
        h.wf(),
    ensures
        h.cut_closed(h.whole()),
        forall|id: ID| #[trigger] h.whole().covers(id) <==> h.contains(id),
{
    let cut = h.whole();
    assert forall|client: ClientID, i: int, j: int|
        h.has_replica(client) && 0 <= i < h.logs[client].len() && 0 <= j
            < h.logs[client][i].deps.len() && h.logs[client][i].start() < cut.end(
            client,
        ) implies cut.covers(#[trigger] h.logs[client][i].deps[j]) by {
        assert(h.dep_ok(h.logs[client][i], h.logs[client][i].deps[j]));
    }
}

/// What comes before a known operation is known.
pub proof fn lemma_ancestor_known(h: History, older: ID, newer: ID)
    requires
        h.wf(),
        h.is_ancestor(older, newer),
    ensures
        h.contains(older),
        h.contains(newer),
{
    lemma_whole_closed(h);
    assert(h.cut_closed(h.whole()) && h.whole().covers(newer));
}

/// A known operation comes after the operations before it on its replica,
/// itself included.
pub proof fn lemma_ancestor_same_replica(h: History, older: ID, newer: ID)
    requires
        h.contains(newer),
        older.client_id == newer.client_id,
        older.counter <= newer.counter,
    ensures
        h.is_ancestor(older, newer),
{
}

/// A known operation comes after all that the nodes depend on which start
/// at or before it on its replica.
pub proof fn lemma_ancestor_dep(h: History, newer: ID, i: int, j: int)
    requires
        h.contains(newer),
        h.has_replica(newer.client_id),
        0 <= i < h.logs[newer.client_id].len(),
        0 <= j < h.logs[newer.client_id][i].deps.len(),
        h.logs[newer.client_id][i].start() <= newer.counter,
    ensures
        h.is_ancestor(h.logs[newer.client_id][i].deps[j], newer),
{
    let dep = h.logs[newer.client_id][i].deps[j];
    assert forall|cut: Cut| #[trigger] h.cut_closed(cut) && cut.covers(newer) implies cut.covers(
        dep,
    ) by {
        assert(cut.covers(h.logs[newer.client_id][i].deps[j]));
    }
}

/// Coming before is transitive.
pub proof fn lemma_ancestor_trans(h: History, oldest: ID, middle: ID, newest: ID)
    requires
        h.is_ancestor(oldest, middle),
        h.is_ancestor(middle, newest),
    ensures
        h.is_ancestor(oldest, newest),
{
    assert forall|cut: Cut| #[trigger] h.cut_closed(cut) && cut.covers(newest) implies cut.covers(
        oldest,
    ) by {
        assert(cut.covers(middle));
    }
}

/// Along a replica's log the clock value grows with the counter.
pub proof fn lemma_lamport_grows(h: History, lower: ID, upper: ID)
    requires
        h.wf(),
        h.contains(upper),
        lower.client_id == upper.client_id,
        lower.counter < upper.counter,
    ensures
        h.lamport_of(lower) < h.lamport_of(upper),
{
    let client = upper.client_id;
    let log = h.log(client);
    lemma_known_position(h, upper);
    lemma_known_position(h, lower);
    let i = index_in_log(log, lower.counter as int);
    let k = index_in_log(log, upper.counter as int);
    lemma_log_covers(client, log, lower.counter as int);
    lemma_log_covers(client, log, upper.counter as int);
    if i < k {
        lemma_log_order(client, log, i, k);
    } else if k < i {
        lemma_log_order(client, log, k, i);
    }
}

/// Number of counters of `log` whose clock value lies below `bound`.
pub open spec fn count_below(log: Seq<NodeView>, bound: int) -> int
    decreases log.len(),
{
    if log.len() == 0 {
        0
    } else if log.last().lamport >= bound {
        count_below(log.drop_last(), bound)
    } else if log.last().end_lamport() <= bound {
        log.last().end()
    } else {
        log.last().start() + (bound - log.last().lamport)
    }
}

/// In a well-formed log the counters whose clock value lies below `bound`
/// are the first `count_below` counters.
pub proof fn lemma_count_below(client: ClientID, log: Seq<NodeView>, bound: int)
    requires
        log_wf(client, log),
    ensures
        0 <= count_below(log, bound) <= log_end(log),
        forall|i: int, counter: int|
            0 <= i < log.len() && (#[trigger] log[i]).covers(counter) ==> (counter < count_below(
                log,
                bound,
            ) <==> #[trigger] lamport_in(log[i], counter) < bound),
    decreases log.len(),
{
    if log.len() > 0 {
        let n = log.len() - 1;
        let last = log.last();
        let front = log.drop_last();
        lemma_log_prefix(client, front, log);
        lemma_log_bounds(client, log, n);
        if last.lamport >= bound {
            lemma_count_below(client, front, bound);
            assert forall|i: int, counter: int|
                0 <= i < log.len() && (#[trigger] log[i]).covers(counter) implies (counter
                < count_below(log, bound) <==> #[trigger] lamport_in(log[i], counter) < bound) by {
                if i < n {
                    assert(front[i] == log[i]);
                    assert(front[i].covers(counter));
                    assert(lamport_in(front[i], counter) == lamport_in(log[i], counter));
                } else {
                    if n > 0 {
                        assert(follows(log, n));
                        assert(front.last() == log[n - 1]);
                    }
                }
            }
        } else {
            assert forall|i: int, counter: int|
                0 <= i < log.len() && (#[trigger] log[i]).covers(counter) implies (counter
                < count_below(log, bound) <==> #[trigger] lamport_in(log[i], counter) < bound) by {
                if i < n {
                    lemma_log_order(client, log, i, n);
                }
            }
        }
    }
}

/// The clock value of the operation at `counter`, which lies in `node`.
pub open spec fn lamport_in(node: NodeView, counter: int) -> int {
    node.lamport + (counter - node.start())
}

impl History {
    /// The cut that holds the operations whose clock value lies below
    /// `bound`.
    pub open spec fn lamport_cut(self, bound: int) -> Cut {
        Cut {
            ends: Map::new(
                |client: ClientID| true,
                |client: ClientID| count_below(self.log(client), bound),
            ),
        }
    }
}

/// The operations whose clock value lies below a bound make a closed cut.
pub proof fn lemma_lamport_cut(h: History, bound: int)
    requires
        h.wf(),
    ensures
        h.cut_closed(h.lamport_cut(bound)),
        forall|id: ID|
            h.contains(id) ==> (#[trigger] h.lamport_cut(bound).covers(id) <==> h.lamport_of(id)
                < bound),
{
    let cut = h.lamport_cut(bound);
    assert forall|client: ClientID| #[trigger] cut.end(client) <= h.vv(client) by {
        lemma_history_logs(h, client);
        lemma_count_below(client, h.log(client), bound);
    }
    assert forall|id: ID| h.contains(id) implies (#[trigger] cut.covers(id) <==> h.lamport_of(id)
        < bound) by {
        lemma_covered_by_lamport(h, bound, id);
    }
    assert forall|client: ClientID, i: int, j: int|
        h.has_replica(client) && 0 <= i < h.logs[client].len() && 0 <= j
            < h.logs[client][i].deps.len() && h.logs[client][i].start() < cut.end(
            client,
        ) implies cut.covers(#[trigger] h.logs[client][i].deps[j]) by {
        let node = h.logs[client][i];
        let dep = node.deps[j];
        lemma_history_logs(h, client);
        lemma_count_below(client, h.log(client), bound);
        lemma_log_bounds(client, h.log(client), i);
        assert(node.covers(node.start()));
        assert(lamport_in(node, node.start()) < bound);
        assert(h.dep_ok(node, dep));
        lemma_covered_by_lamport(h, bound, dep);
    }
}

proof fn lemma_covered_by_lamport(h: History, bound: int, id: ID)
    requires
        h.wf(),
        h.contains(id),
    ensures
        h.lamport_cut(bound).covers(id) <==> h.lamport_of(id) < bound,
{
    let log = h.log(id.client_id);
    lemma_known_position(h, id);
    lemma_history_logs(h, id.client_id);
    lemma_count_below(id.client_id, log, bound);
    let i = index_in_log(log, id.counter as int);
    assert(log[i].covers(id.counter as int));
    assert(lamport_in(log[i], id.counter as int) == h.lamport_of(id));
}

/// What comes before an operation, and is not that operation, has a lower
/// clock value.
pub proof fn lemma_ancestor_lamport(h: History, older: ID, newer: ID)
    requires
        h.wf(),
        h.is_ancestor(older, newer),
    ensures
        older == newer || h.lamport_of(older) < h.lamport_of(newer),
{
    let bound = h.lamport_of(newer);
    let below = h.lamport_cut(bound);
    let cut = Cut { ends: below.ends.insert(newer.client_id, newer.counter + 1) };
    lemma_lamport_cut(h, bound);
    lemma_ancestor_known(h, older, newer);
    lemma_known_position(h, newer);
    assert forall|client: ClientID| #[trigger] cut.end(client) <= h.vv(client) by {
        if client != newer.client_id {
            assert(cut.end(client) == below.end(client));
        }
    }
    assert forall|client: ClientID, i: int, j: int|
        h.has_replica(client) && 0 <= i < h.logs[client].len() && 0 <= j
            < h.logs[client][i].deps.len() && h.logs[client][i].start() < cut.end(
            client,
        ) implies cut.covers(#[trigger] h.logs[client][i].deps[j]) by {
        let node = h.logs[client][i];
        let dep = node.deps[j];
        assert(h.dep_ok(node, dep));
        lemma_history_logs(h, client);
        lemma_log_bounds(client, h.log(client), i);
        if client == newer.client_id {
            let first = ID { client_id: client, counter: node.id.counter };
            lemma_node_start(h, client, i);
            if first.counter < newer.counter {
                lemma_lamport_grows(h, first, newer);
            }
        } else {
            assert(cut.end(client) == below.end(client));
            let first = ID { client_id: client, counter: node.id.counter };
            lemma_node_start(h, client, i);
            assert(below.covers(first));
        }
        assert(h.lamport_of(dep) < bound);
        assert(below.covers(dep));
        if dep.client_id == newer.client_id {
            if dep.counter > newer.counter {
                lemma_lamport_grows(h, newer, dep);
            }
        } else {
            assert(cut.end(dep.client_id) == below.end(dep.client_id));
        }
    }
    assert(h.cut_closed(cut) && cut.covers(newer));
    assert(cut.covers(older));
    if older.client_id == newer.client_id {
        if older.counter < newer.counter {
            lemma_lamport_grows(h, older, newer);
        }
    } else {
        assert(cut.end(older.client_id) == below.end(older.client_id));
        assert(below.covers(older));
    }
}

/// The first operation of a node is known, lies in that node, and has the
/// node's clock value.
pub proof fn lemma_node_start(h: History, client: ClientID, i: int)
    requires
        h.wf(),
        h.has_replica(client),
        0 <= i < h.logs[client].len(),
    ensures
        h.logs[client][i].id.client_id == client,
        h.contains(h.logs[client][i].id),
        h.node_of(h.logs[client][i].id) == h.logs[client][i],
        h.lamport_of(h.logs[client][i].id) == h.logs[client][i].lamport,
{
    let log = h.log(client);
    lemma_log_bounds(client, log, i);
    lemma_log_covers(client, log, log[i].start());
    assert(log[i].covers(log[i].start()));
}

/// Two operations have at most one greatest common ancestor.
pub proof fn lemma_gca_unique(h: History, first: ID, second: ID, one: Option<ID>, two: Option<ID>)
    requires
        h.wf(),
        h.is_gca(first, second, one),
        h.is_gca(first, second, two),
    ensures
        one == two,
{
    match (one, two) {
        (Some(x), Some(y)) => {
            assert(h.is_common_ancestor(x, first, second));
            assert(h.is_common_ancestor(y, first, second));
            assert(h.preferred(x, y) && h.preferred(y, x));
            lemma_ancestor_known(h, x, first);
            lemma_ancestor_known(h, y, first);
            if x.counter < y.counter {
                lemma_lamport_grows(h, x, y);
            } else if y.counter < x.counter {
                lemma_lamport_grows(h, y, x);
            }
        },
        (Some(x), None) => {
            assert(h.is_common_ancestor(x, first, second));
        },
        (None, Some(y)) => {
            assert(h.is_common_ancestor(y, first, second));
        },
        (None, None) => {},
    }
}

/// The greatest common ancestor of a known operation and itself is that
/// operation.
pub proof fn lemma_gca_self(h: History, id: ID)
    requires
        h.wf(),
        h.contains(id),
    ensures
        h.is_gca(id, id, Some(id)),
{
    lemma_ancestor_same_replica(h, id, id);
    assert forall|other: ID| #[trigger] h.is_common_ancestor(other, id, id) implies h.preferred(
        id,
        other,
    ) by {
        lemma_ancestor_lamport(h, other, id);
    }
}

/// The greatest common ancestor of two operations does not depend on the
/// order in which they are named.
pub proof fn lemma_gca_symmetric(
    h: History,
    first: ID,
    second: ID,
    one: Option<ID>,
    two: Option<ID>,
)
    requires
        h.wf(),
        h.is_gca(first, second, one),
        h.is_gca(second, first, two),
    ensures
        one == two,
{
    assert(h.is_gca(first, second, two)) by {
        match two {
            Some(id) => {
                assert(h.is_common_ancestor(id, second, first));
                assert forall|other: ID| #[trigger]
                    h.is_common_ancestor(other, first, second) implies h.preferred(id, other) by {
                    assert(h.is_common_ancestor(other, second, first));
                }
            },
            None => {
                assert forall|other: ID| !#[trigger] h.is_common_ancestor(
                    other,
                    first,
                    second,
                ) by {
                    assert(!h.is_common_ancestor(other, second, first));
                }
            },
        }
    }
    lemma_gca_unique(h, first, second, one, two);
}

/// The heads of a history are its greatest operations: the known
/// operations that come before no other.
pub proof fn lemma_tip_is_maximal(h: History, id: ID)
    requires
        h.wf(),
    ensures
        h.is_tip(id) <==> h.contains(id) && forall|later: ID| #[trigger]
            h.is_ancestor(id, later) ==> later == id,
{
    if h.is_tip(id) {
        assert forall|later: ID| #[trigger] h.is_ancestor(id, later) implies later == id by {
            if later != id {
                lemma_tip_not_before(h, id, later);
            }
        }
    }
    if h.contains(id) && (forall|later: ID| #[trigger] h.is_ancestor(id, later) ==> later == id) {
        if id.counter + 1 < h.vv(id.client_id) {
            let next = ID { client_id: id.client_id, counter: (id.counter + 1) as u32 };
            lemma_history_logs(h, id.client_id);
            lemma_log_bounds(id.client_id, h.log(id.client_id), h.log(id.client_id).len() - 1);
            lemma_ancestor_same_replica(h, id, next);
            assert(h.is_ancestor(id, next));
        }
        if h.referenced(id) {
            let (c, i, j): (ClientID, int, int) = choose|c: ClientID, i: int, j: int|
                h.has_replica(c) && 0 <= i < h.logs[c].len() && 0 <= j < h.logs[c][i].deps.len()
                    && #[trigger] h.logs[c][i].deps[j] == id;
            let later = h.logs[c][i].id;
            lemma_node_start(h, c, i);
            assert(h.dep_ok(h.logs[c][i], h.logs[c][i].deps[j]));
            lemma_ancestor_dep(h, later, i, j);
            assert(h.is_ancestor(id, later));
        }
    }
}

/// A head comes before no other operation.
proof fn lemma_tip_not_before(h: History, id: ID, later: ID)
    requires
        h.wf(),
        h.is_tip(id),
        later != id,
    ensures
        !h.is_ancestor(id, later),
{
    if h.contains(later) {
        let cut = Cut { ends: h.whole().ends.insert(id.client_id, id.counter as int) };
        lemma_whole_closed(h);
        assert forall|client: ClientID| #[trigger] cut.end(client) <= h.vv(client) by {
            if client != id.client_id {
                assert(cut.end(client) == h.whole().end(client));
            }
        }
        assert forall|client: ClientID, i: int, j: int|
            h.has_replica(client) && 0 <= i < h.logs[client].len() && 0 <= j
                < h.logs[client][i].deps.len() && h.logs[client][i].start() < cut.end(
                client,
            ) implies cut.covers(#[trigger] h.logs[client][i].deps[j]) by {
            let dep = h.logs[client][i].deps[j];
            assert(h.dep_ok(h.logs[client][i], dep));
            assert(dep != id);
            if dep.client_id != id.client_id {
                assert(cut.end(dep.client_id) == h.whole().end(dep.client_id));
            }
        }
        if later.client_id != id.client_id {
            assert(cut.end(later.client_id) == h.whole().end(later.client_id));
        }
        assert(h.cut_closed(cut) && cut.covers(later) && !cut.covers(id));
    }
}

} // verus!
