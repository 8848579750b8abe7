use vstd::prelude::*;
use crate::history::{
    extend_log, follows, known_count, lemma_history_logs, lemma_log_bounds, lemma_log_order,
    log_wf, History, NodeView,
};
use crate::id::ClientID;

verus! {

/// In a well-formed log the nodes that start below `end` are its first
/// `known_count` nodes.
pub proof fn lemma_known_count(client: ClientID, log: Seq<NodeView>, end: int)
    requires
        log_wf(client, log),
    ensures
        0 <= known_count(log, end) <= log.len(),
        forall|i: int| 0 <= i < known_count(log, end) ==> (#[trigger] log[i]).start() < end,
        forall|i: int| known_count(log, end) <= i < log.len() ==> (#[trigger] log[i]).start() >= end,
    decreases log.len(),
{
    if log.len() > 0 {
        if log.last().start() < end {
            assert forall|i: int| 0 <= i < log.len() implies (#[trigger] log[i]).start()
                < end by {
                if i < log.len() - 1 {
                    lemma_log_order(client, log, i, log.len() - 1);
                    lemma_log_bounds(client, log, i);
                }
            }
        } else {
            let front = log.drop_last();
            assert(log_wf(client, front)) by {
                assert forall|i: int| 0 <= i < front.len() implies (#[trigger] front[i]).id.client_id
                    == client && front[i].fits() by {
                    assert(front[i] == log[i]);
                }
                assert forall|i: int| 0 < i < front.len() implies #[trigger] follows(
                    front,
                    i,
                ) by {
                    assert(front[i] == log[i]);
                    assert(front[i - 1] == log[i - 1]);
                    assert(follows(log, i));
                }
                if front.len() > 0 {
                    assert(front[0] == log[0]);
                }
            }
            lemma_known_count(client, front, end);
            assert forall|i: int| 0 <= i < known_count(log, end) implies (#[trigger] log[i]).start()
                < end by {
                assert(front[i] == log[i]);
            }
            assert forall|i: int| known_count(log, end) <= i < log.len() implies (#[trigger] log[i]).start()
                >= end by {
                if i < front.len() {
                    assert(front[i] == log[i]);
                }
            }
        }
    }
}

/// Index in `b`'s log of `client` of the first node that `a` does not know.
pub open spec fn start_cursor(a: History, b: History, client: ClientID) -> int {
    known_count(b.log(client), a.vv(client)) as int
}

/// Index in `b`'s log of `client` of the first node that has not been taken
/// over yet, where `done` records the logs of which nodes have been.
pub open spec fn cursor(a: History, b: History, done: Map<ClientID, int>, client: ClientID) -> int {
    if done.dom().contains(client) {
        done[client]
    } else {
        start_cursor(a, b, client)
    }
}

/// `s` holds of `client` what `a` held, followed by the nodes of `b` from
/// where `a` ended up to the cursor.
pub open spec fn merge_inv_at(
    a: History,
    b: History,
    s: History,
    done: Map<ClientID, int>,
    client: ClientID,
) -> bool {
    &&& start_cursor(a, b, client) <= cursor(a, b, done, client) <= b.log(client).len()
    &&& s.log(client) == a.log(client) + b.log(client).subrange(
        start_cursor(a, b, client),
        cursor(a, b, done, client),
    )
}

/// `s` is what `a` has become after taking over, log by log, the nodes of
/// `b` from where `a` ended up to the cursor.
pub open spec fn merge_inv(a: History, b: History, s: History, done: Map<ClientID, int>) -> bool {
    forall|client: ClientID| #[trigger] merge_inv_at(a, b, s, done, client)
}

pub proof fn lemma_union_log(a: History, b: History, client: ClientID)
    requires
        a.wf(),
        b.wf(),
    ensures
        a.union(b).log(client) == extend_log(a.log(client), b.log(client)),
        a.union(b).has_replica(client) <==> a.has_replica(client) || b.has_replica(client),
        a.log(client).is_prefix_of(a.union(b).log(client)),
{
    lemma_history_logs(a, client);
    lemma_history_logs(b, client);
    lemma_known_count(client, b.log(client), a.vv(client));
    let u = a.union(b);
    if !u.has_replica(client) {
        assert(extend_log(a.log(client), b.log(client)) =~= Seq::<NodeView>::empty());
    }
}

pub proof fn lemma_merge_start(a: History, b: History)
    requires
        a.wf(),
        b.wf(),
    ensures
        merge_inv(a, b, a, Map::<ClientID, int>::empty()),
{
    let done = Map::<ClientID, int>::empty();
    assert forall|client: ClientID| #[trigger] merge_inv_at(a, b, a, done, client) by {
        lemma_history_logs(b, client);
        lemma_known_count(client, b.log(client), a.vv(client));
        assert(a.log(client) =~= a.log(client) + b.log(client).subrange(
            start_cursor(a, b, client),
            cursor(a, b, done, client),
        ));
    }
}

/// What is known in the middle of a merge lies between the history that the
/// merge began with and the union of the two histories.
pub proof fn lemma_merge_between(a: History, b: History, s: History, done: Map<ClientID, int>)
    requires
        a.wf(),
        b.wf(),
        merge_inv(a, b, s, done),
    ensures
        a.prefix_of(s),
        s.prefix_of(a.union(b)),
        forall|client: ClientID|
            #[trigger] a.union(b).log(client) == s.log(client) + b.log(client).skip(
                cursor(a, b, done, client),
            ),
{
    let u = a.union(b);
    assert forall|client: ClientID|
        #[trigger] u.log(client) == s.log(client) + b.log(client).skip(
            cursor(a, b, done, client),
        ) by {
        lemma_union_log(a, b, client);
        assert(merge_inv_at(a, b, s, done, client));
        assert(u.log(client) =~= s.log(client) + b.log(client).skip(cursor(a, b, done, client)));
    }
    assert forall|client: ClientID| #[trigger] a.log(client).is_prefix_of(s.log(client)) by {
        assert(merge_inv_at(a, b, s, done, client));
    }
    assert forall|client: ClientID| #[trigger] s.log(client).is_prefix_of(u.log(client)) by {
        assert(u.log(client) == s.log(client) + b.log(client).skip(cursor(a, b, done, client)));
    }
}

/// Appending a node changes the log of its replica and no other.
pub proof fn lemma_append_logs(h: History, node: NodeView)
    ensures
        h.append(node).log(node.id.client_id) == h.log(node.id.client_id).push(node),
        forall|client: ClientID|
            client != node.id.client_id ==> #[trigger] h.append(node).log(client) == h.log(client),
{
}

/// Taking over the node at the cursor of a log moves that cursor on by one.
pub proof fn lemma_merge_step(
    a: History,
    b: History,
    s: History,
    done: Map<ClientID, int>,
    client: ClientID,
)
    requires
        b.wf(),
        merge_inv(a, b, s, done),
        cursor(a, b, done, client) < b.log(client).len(),
    ensures
        b.log(client)[cursor(a, b, done, client)].id.client_id == client,
        merge_inv(
            a,
            b,
            s.append(b.log(client)[cursor(a, b, done, client)]),
            done.insert(client, cursor(a, b, done, client) + 1),
        ),
{
    let at = cursor(a, b, done, client);
    let node = b.log(client)[at];
    let after = s.append(node);
    let moved = done.insert(client, at + 1);
    assert(merge_inv_at(a, b, s, done, client));
    assert(b.has_replica(client));
    assert(log_wf(client, b.log(client)));
    assert(node.id.client_id == client);
    lemma_append_logs(s, node);
    assert forall|c: ClientID| #[trigger] merge_inv_at(a, b, after, moved, c) by {
        assert(merge_inv_at(a, b, s, done, c));
        if c == client {
            assert(after.log(c) == s.log(c).push(node));
            assert(b.log(c).subrange(start_cursor(a, b, c), at + 1) =~= b.log(c).subrange(
                start_cursor(a, b, c),
                at,
            ).push(node));
            assert(after.log(c) =~= a.log(c) + b.log(c).subrange(
                start_cursor(a, b, c),
                at + 1,
            ));
        } else {
            assert(after.log(c) == s.log(c));
            assert(cursor(a, b, moved, c) == cursor(a, b, done, c));
        }
    }
}

/// Where the cursor of a log has reached its end, the merge has built the
/// union's log of that replica.
proof fn lemma_merge_done_log(
    a: History,
    b: History,
    s: History,
    done: Map<ClientID, int>,
    client: ClientID,
)
    requires
        a.wf(),
        b.wf(),
        s.wf(),
        merge_inv(a, b, s, done),
        cursor(a, b, done, client) == b.log(client).len(),
    ensures
        s.log(client) == a.union(b).log(client),
        s.has_replica(client) <==> a.union(b).has_replica(client),
{
    let u = a.union(b);
    lemma_union_log(a, b, client);
    lemma_history_logs(s, client);
    lemma_history_logs(a, client);
    lemma_history_logs(b, client);
    lemma_known_count(client, b.log(client), a.vv(client));
    assert(merge_inv_at(a, b, s, done, client));
    assert(b.log(client).subrange(start_cursor(a, b, client), b.log(client).len() as int)
        =~= b.log(client).skip(start_cursor(a, b, client)));
}

/// Once every cursor has reached the end of its log, the merge has built
/// the union of the two histories.
pub proof fn lemma_merge_done(a: History, b: History, s: History, done: Map<ClientID, int>)
    requires
        a.wf(),
        b.wf(),
        s.wf(),
        merge_inv(a, b, s, done),
        forall|client: ClientID| #[trigger] cursor(a, b, done, client) == b.log(client).len(),
    ensures
        s == a.union(b),
{
    let u = a.union(b);
    assert forall|client: ClientID| s.logs.dom().contains(client) <==> u.logs.dom().contains(
        client,
    ) by {
        assert(cursor(a, b, done, client) == b.log(client).len());
        lemma_merge_done_log(a, b, s, done, client);
    }
    assert(s.logs.dom() =~= u.logs.dom());
    assert forall|client: ClientID| s.logs.dom().contains(client) implies s.logs[client]
        == u.logs[client] by {
        assert(cursor(a, b, done, client) == b.log(client).len());
        lemma_merge_done_log(a, b, s, done, client);
    }
    assert(s.logs =~= u.logs);
}

/// The node of `b` at index `i`, at or after the cursor, is the one that
/// the union holds `i` minus the cursor nodes after what `s` holds.
pub proof fn lemma_merge_next(
    a: History,
    b: History,
    s: History,
    done: Map<ClientID, int>,
    client: ClientID,
    i: int,
)
    requires
        a.wf(),
        b.wf(),
        merge_inv(a, b, s, done),
        cursor(a, b, done, client) <= i < b.log(client).len(),
    ensures
        a.union(b).log(client).len() == s.log(client).len() + b.log(client).len() - cursor(
            a,
            b,
            done,
            client,
        ),
        b.log(client)[i] == a.union(b).log(client)[s.log(client).len() + i - cursor(
            a,
            b,
            done,
            client,
        )],
        s.log(client).is_prefix_of(a.union(b).log(client)),
{
    lemma_merge_between(a, b, s, done);
    assert(merge_inv_at(a, b, s, done, client));
    let u = a.union(b);
    assert(u.log(client) == s.log(client) + b.log(client).skip(cursor(a, b, done, client)));
    assert(s.log(client).is_prefix_of(u.log(client)));
}

/// Number of nodes that are left to take over from the logs of the first
/// `upto` of `clients`.
pub open spec fn remaining(
    clients: Seq<ClientID>,
    a: History,
    b: History,
    done: Map<ClientID, int>,
    upto: int,
) -> int
    decreases upto,
{
    if upto <= 0 {
        0
    } else {
        remaining(clients, a, b, done, upto - 1) + b.log(clients[upto - 1]).len() - cursor(
            a,
            b,
            done,
            clients[upto - 1],
        )
    }
}

pub proof fn lemma_remaining_bounds(
    clients: Seq<ClientID>,
    a: History,
    b: History,
    s: History,
    done: Map<ClientID, int>,
    upto: int,
)
    requires
        merge_inv(a, b, s, done),
        0 <= upto <= clients.len(),
    ensures
        remaining(clients, a, b, done, upto) >= 0,
    decreases upto,
{
    if upto > 0 {
        lemma_remaining_bounds(clients, a, b, s, done, upto - 1);
        assert(merge_inv_at(a, b, s, done, clients[upto - 1]));
    }
}

/// Moving the cursor of one log on by one leaves one node less to take over.
pub proof fn lemma_remaining_step(
    clients: Seq<ClientID>,
    a: History,
    b: History,
    done: Map<ClientID, int>,
    j: int,
    upto: int,
)
    requires
        0 <= j < clients.len(),
        0 <= upto <= clients.len(),
        forall|i: int, k: int|
            0 <= i < k < clients.len() ==> #[trigger] clients[i] != #[trigger] clients[k],
    ensures
        remaining(
            clients,
            a,
            b,
            done.insert(clients[j], cursor(a, b, done, clients[j]) + 1),
            upto,
        ) == remaining(clients, a, b, done, upto) - (if upto > j {
            1int
        } else {
            0int
        }),
    decreases upto,
{
    if upto > 0 {
        lemma_remaining_step(clients, a, b, done, j, upto - 1);
        if upto - 1 != j {
            if upto - 1 < j {
                assert(clients[upto - 1] != clients[j]);
            } else {
                assert(clients[j] != clients[upto - 1]);
            }
        }
    }
}

} // verus!
