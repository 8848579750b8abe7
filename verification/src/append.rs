use vstd::prelude::*;
use crate::history::{
    follows, index_in_log, lemma_known_position, lemma_log_bounds, lemma_log_covers, log_end,
    log_end_lamport, log_wf, DagView, History, NodeView,
};
use crate::frontier::ascending;
use crate::id::{ClientID, Counter, Lamport, ID};

verus! {

/// Appending a node that fits onto a well-formed log gives a well-formed log.
pub proof fn lemma_log_push_wf(client: ClientID, log: Seq<NodeView>, node: NodeView)
    requires
        log_wf(client, log),
        node.id.client_id == client,
        node.fits(),
        node.start() == log_end(log),
        node.lamport >= log_end_lamport(log),
    ensures
        log_wf(client, log.push(node)),
        log_end(log.push(node)) == node.end(),
        log_end_lamport(log.push(node)) == node.end_lamport(),
{
    let after = log.push(node);
    assert forall|i: int| 0 <= i < after.len() implies (#[trigger] after[i]).id.client_id
        == client && after[i].fits() by {
        if i < log.len() {
            assert(after[i] == log[i]);
        }
    }
    assert forall|i: int| 0 < i < after.len() implies #[trigger] follows(after, i) by {
        if i < log.len() {
            assert(after[i] == log[i]);
            assert(after[i - 1] == log[i - 1]);
            assert(follows(log, i));
        } else {
            assert(after[i - 1] == log.last());
        }
    }
    if log.len() > 0 {
        assert(after[0] == log[0]);
    }
}

/// In a log grown by one node, the counters of the old log lie in the nodes
/// they lay in before, and the new counters lie in the new node.
pub proof fn lemma_log_push_index(
    client: ClientID,
    log: Seq<NodeView>,
    node: NodeView,
    counter: int,
)
    requires
        log_wf(client, log),
        log_wf(client, log.push(node)),
        0 <= counter < node.end(),
    ensures
        counter < log_end(log) ==> log.push(node)[index_in_log(log.push(node), counter)]
            == log[index_in_log(log, counter)],
        counter >= log_end(log) ==> log.push(node)[index_in_log(log.push(node), counter)] == node,
{
    let after = log.push(node);
    assert(after.last() == node);
    lemma_log_covers(client, after, counter);
    if counter < log_end(log) {
        lemma_log_covers(client, log, counter);
        let k = index_in_log(log, counter);
        assert(after[k] == log[k]);
    } else {
        let k = index_in_log(after, counter);
        if k < log.len() {
            assert(after[k] == log[k]);
            lemma_log_bounds(client, log, k);
        }
    }
}

/// What a history holds after a node has been appended to it.
pub proof fn lemma_append(h: History, node: NodeView)
    requires
        h.wf(),
        h.admissible(node),
    ensures
        h.append(node).wf(),
        h.append(node).log(node.id.client_id) == h.log(node.id.client_id).push(node),
        h.append(node).vv(node.id.client_id) == node.end(),
        forall|client: ClientID|
            client != node.id.client_id ==> #[trigger] h.append(node).log(client) == h.log(client),
        forall|client: ClientID|
            #[trigger] h.append(node).has_replica(client) <==> h.has_replica(client) || client
                == node.id.client_id,
        forall|id: ID|
            #[trigger] h.append(node).contains(id) <==> h.contains(id) || (id.client_id
                == node.id.client_id && node.covers(id.counter as int)),
        forall|id: ID|
            h.contains(id) ==> #[trigger] h.append(node).node_of(id) == h.node_of(id)
                && h.append(node).lamport_of(id) == h.lamport_of(id),
        forall|id: ID|
            id.client_id == node.id.client_id && node.covers(id.counter as int)
                ==> #[trigger] h.append(node).node_of(id) == node,
{
    let client = node.id.client_id;
    let after = h.append(node);
    let log = h.log(client);
    assert(log_wf(client, log)) by {
        if h.has_replica(client) {
        }
    }
    lemma_log_push_wf(client, log, node);
    assert(after.logs.dom() =~= h.logs.dom().insert(client));
    assert forall|c: ClientID| c != client implies #[trigger] after.log(c) == h.log(c) by {}
    assert forall|id: ID|
        h.contains(id) implies #[trigger] after.node_of(id) == h.node_of(id) && after.lamport_of(id)
        == h.lamport_of(id) by {
        if id.client_id == client {
            lemma_log_push_index(client, log, node, id.counter as int);
        }
    }
    assert forall|id: ID|
        id.client_id == client && node.covers(id.counter as int) implies #[trigger] after.node_of(
        id,
    ) == node by {
        lemma_log_push_index(client, log, node, id.counter as int);
    }
    assert forall|c: ClientID| #[trigger] after.has_replica(c) implies after.logs[c].len() > 0
        && log_wf(c, after.logs[c]) by {
        if c != client {
            assert(h.has_replica(c));
        }
    }
    assert forall|c: ClientID, i: int, j: int|
        after.has_replica(c) && 0 <= i < after.logs[c].len() && 0 <= j
            < after.logs[c][i].deps.len() implies after.dep_ok(
        after.logs[c][i],
        #[trigger] after.logs[c][i].deps[j],
    ) by {
        let dep = after.logs[c][i].deps[j];
        if c == client && i == log.len() {
            assert(after.logs[c][i] == node);
            assert(h.dep_ok(node, node.deps[j]));
        } else {
            if c == client {
                assert(after.logs[c][i] == log[i]);
            } else {
                assert(h.has_replica(c));
            }
            assert(h.has_replica(c));
            assert(h.dep_ok(h.logs[c][i], h.logs[c][i].deps[j]));
        }
        assert(h.contains(dep));
        assert(after.lamport_of(dep) == h.lamport_of(dep));
    }
}

/// The heads of a history after a node has been appended: the node's last
/// operation, and the old heads of other replicas that the node does not
/// depend on.
pub proof fn lemma_append_tips(h: History, node: NodeView)
    requires
        h.wf(),
        h.admissible(node),
    ensures
        forall|id: ID|
            #[trigger] h.append(node).is_tip(id) <==> id == node.last_id() || (h.is_tip(id)
                && id.client_id != node.id.client_id && !node.deps.contains(id)),
{
    let client = node.id.client_id;
    let after = h.append(node);
    let log = h.log(client);
    lemma_append(h, node);
    assert(after.logs[client] == log.push(node));
    assert forall|id: ID| h.referenced(id) implies after.referenced(id) by {
        let (c, i, j): (ClientID, int, int) = choose|c: ClientID, i: int, j: int|
            h.has_replica(c) && 0 <= i < h.logs[c].len() && 0 <= j < h.logs[c][i].deps.len()
                && #[trigger] h.logs[c][i].deps[j] == id;
        assert(after.has_replica(c));
        assert(after.log(c) == if c == client {
            log.push(node)
        } else {
            h.log(c)
        });
        assert(after.logs[c][i] == h.logs[c][i]);
        assert(after.logs[c][i].deps[j] == id);
    }
    assert forall|id: ID| after.referenced(id) implies h.referenced(id) || node.deps.contains(
        id,
    ) by {
        let (c, i, j): (ClientID, int, int) = choose|c: ClientID, i: int, j: int|
            after.has_replica(c) && 0 <= i < after.logs[c].len() && 0 <= j
                < after.logs[c][i].deps.len() && #[trigger] after.logs[c][i].deps[j] == id;
        if c == client && i == log.len() {
            assert(node.deps[j] == id);
        } else {
            assert(after.log(c) == if c == client {
                log.push(node)
            } else {
                h.log(c)
            });
            assert(h.has_replica(c));
            assert(h.logs[c][i] == after.logs[c][i]);
            assert(h.logs[c][i].deps[j] == id);
        }
    }
    assert forall|id: ID| node.deps.contains(id) implies after.referenced(id) && h.contains(
        id,
    ) by {
        let j = choose|j: int| 0 <= j < node.deps.len() && node.deps[j] == id;
        assert(after.logs[client][log.len() as int].deps[j] == id);
        assert(h.dep_ok(node, node.deps[j]));
    }
    assert forall|id: ID| h.referenced(id) implies h.contains(id) by {
        let (c, i, j): (ClientID, int, int) = choose|c: ClientID, i: int, j: int|
            h.has_replica(c) && 0 <= i < h.logs[c].len() && 0 <= j < h.logs[c][i].deps.len()
                && #[trigger] h.logs[c][i].deps[j] == id;
        assert(h.dep_ok(h.logs[c][i], h.logs[c][i].deps[j]));
    }
    assert forall|id: ID|
        #[trigger] after.is_tip(id) <==> id == node.last_id() || (h.is_tip(id) && id.client_id
            != client && !node.deps.contains(id)) by {
        if id.client_id == client {
            assert(after.vv(client) == node.end());
            if id == node.last_id() {
                assert(!h.contains(id));
            }
        } else {
            assert(after.log(id.client_id) == h.log(id.client_id));
        }
    }
}

/// The clock of a history after a node has been appended.
pub proof fn lemma_append_clock(h: History, node: NodeView, clock: int)
    requires
        h.wf(),
        h.admissible(node),
        h.is_clock(clock),
    ensures
        h.append(node).is_clock(
            if clock >= node.end_lamport() {
                clock
            } else {
                node.end_lamport()
            },
        ),
{
    let client = node.id.client_id;
    let after = h.append(node);
    let log = h.log(client);
    let next = if clock >= node.end_lamport() {
        clock
    } else {
        node.end_lamport()
    };
    lemma_append(h, node);
    assert(after.logs[client] == log.push(node));
    assert(log_end_lamport(log) <= clock) by {
        if h.has_replica(client) {
        }
    }
    assert forall|c: ClientID| #[trigger] after.has_replica(c) implies log_end_lamport(
        after.logs[c],
    ) <= next by {
        if c != client {
            assert(after.log(c) == h.log(c));
            assert(h.has_replica(c));
        }
    }
    if clock >= node.end_lamport() {
        assert(!(h.logs.dom() =~= Set::<ClientID>::empty()));
        let c = choose|c: ClientID| #[trigger]
            h.has_replica(c) && log_end_lamport(h.logs[c]) == clock;
        assert(c != client);
        assert(after.log(c) == h.log(c));
        assert(after.has_replica(c) && log_end_lamport(after.logs[c]) == next);
    } else {
        assert(after.has_replica(client) && log_end_lamport(after.logs[client]) == next);
    }
}

/// A local append keeps the state well-formed: the new node may be appended
/// to the history, and afterwards its last operation is the only head.
pub proof fn lemma_push_wf(v: DagView, len: nat)
    requires
        v.wf(),
        len >= 1,
        v.history.vv(v.client_id) + len <= Counter::MAX,
        v.next_lamport + len <= Lamport::MAX,
    ensures
        v.history.admissible(v.next_node(len)),
        v.push(len).wf(),
{
    let h = v.history;
    let node = v.next_node(len);
    let client = v.client_id;
    assert(0 <= h.vv(client)) by {
        if h.has_replica(client) {
            lemma_log_bounds(client, h.log(client), h.log(client).len() - 1);
        }
    }
    assert(log_end_lamport(h.log(client)) <= v.next_lamport) by {
        if h.has_replica(client) {
        }
    }
    assert forall|j: int| 0 <= j < node.deps.len() implies h.dep_ok(
        node,
        #[trigger] node.deps[j],
    ) by {
        let dep = node.deps[j];
        assert(v.frontier.contains(dep));
        assert(h.is_tip(dep));
        lemma_known_position(h, dep);
    }
    assert(h.admissible(node));
    lemma_append(h, node);
    lemma_append_tips(h, node);
    lemma_append_clock(h, node, v.next_lamport as int);
    let after = v.push(len);
    assert(after.frontier[0] == node.last_id());
    assert forall|id: ID|
        #![trigger after.frontier.contains(id)]
        #![trigger after.history.is_tip(id)]
        after.frontier.contains(id) <==> after.history.is_tip(id) by {
        if after.history.is_tip(id) && id != node.last_id() {
            assert(h.is_tip(id));
            assert(v.frontier.contains(id));
        }
    }
}

/// Admitting a node keeps the state well-formed, where the new frontier
/// holds the node's last operation and the old heads of other replicas that
/// the node does not depend on.
pub proof fn lemma_admit_wf(v: DagView, node: NodeView, frontier: Seq<ID>)
    requires
        v.wf(),
        v.history.admissible(node),
        ascending(frontier),
        forall|id: ID|
            #[trigger] frontier.contains(id) <==> id == node.last_id() || (v.frontier.contains(id)
                && id.client_id != node.id.client_id && !node.deps.contains(id)),
    ensures
        v.with_node(node, frontier).wf(),
{
    let h = v.history;
    lemma_append(h, node);
    lemma_append_tips(h, node);
    lemma_append_clock(h, node, v.next_lamport as int);
    let after = v.with_node(node, frontier);
    assert forall|id: ID|
        #![trigger after.frontier.contains(id)]
        #![trigger after.history.is_tip(id)]
        after.frontier.contains(id) <==> after.history.is_tip(id) by {}
}

} // verus!
