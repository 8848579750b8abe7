use vstd::prelude::*;
use vstd::set_lib::lemma_set_union_finite_iff;
use crate::frontier::ascending;
use crate::history::{
    extend_log, follows, index_in_log, known_count, lemma_history_logs, lemma_known_position,
    lemma_log_bounds, lemma_log_order, lemma_log_prefix, log_end, log_end_lamport, log_wf, DagView,
    History, NodeView,
};
use crate::id::{ClientID, ID};
use crate::merge::{lemma_known_count, lemma_union_log};

verus! {

/// Two lists of positions in ascending order of replica that hold the same
/// positions are one list.
pub proof fn lemma_ascending_unique(one: Seq<ID>, two: Seq<ID>)
    requires
        ascending(one),
        ascending(two),
        forall|id: ID|
            #![trigger one.contains(id)]
            #![trigger two.contains(id)]
            one.contains(id) <==> two.contains(id),
    ensures
        one == two,
    decreases one.len(),
{
    if one.len() == 0 {
        if two.len() > 0 {
            assert(two.contains(two[0]));
            assert(one.contains(two[0]));
        }
        assert(one =~= two);
    } else {
        assert(one.contains(one[0]));
        assert(two.contains(one[0]));
        let k = choose|k: int| 0 <= k < two.len() && two[k] == one[0];
        assert(two.contains(two[0]));
        assert(one.contains(two[0]));
        let m = choose|m: int| 0 <= m < one.len() && one[m] == two[0];
        if m > 0 {
            assert(one[0].client_id < one[m].client_id);
        }
        if k > 0 {
            assert(two[0].client_id < two[k].client_id);
        }
        assert(one[0] == two[0]);
        let rest_one = one.skip(1);
        let rest_two = two.skip(1);
        assert forall|i: int, j: int| 0 <= i < j < rest_one.len() implies (#[trigger] rest_one[i]).client_id
            < (#[trigger] rest_one[j]).client_id by {
            assert(one[i + 1].client_id < one[j + 1].client_id);
        }
        assert forall|i: int, j: int| 0 <= i < j < rest_two.len() implies (#[trigger] rest_two[i]).client_id
            < (#[trigger] rest_two[j]).client_id by {
            assert(two[i + 1].client_id < two[j + 1].client_id);
        }
        assert forall|id: ID|
            #![trigger rest_one.contains(id)]
            #![trigger rest_two.contains(id)]
            rest_one.contains(id) <==> rest_two.contains(id) by {
            if rest_one.contains(id) {
                let i = choose|i: int| 0 <= i < rest_one.len() && rest_one[i] == id;
                assert(one[i + 1] == id);
                assert(one[0].client_id < one[i + 1].client_id);
                assert(one.contains(id));
                assert(two.contains(id));
                let j = choose|j: int| 0 <= j < two.len() && two[j] == id;
                assert(rest_two[j - 1] == id);
            }
            if rest_two.contains(id) {
                let i = choose|i: int| 0 <= i < rest_two.len() && rest_two[i] == id;
                assert(two[i + 1] == id);
                assert(two[0].client_id < two[i + 1].client_id);
                assert(two.contains(id));
                assert(one.contains(id));
                let j = choose|j: int| 0 <= j < one.len() && one[j] == id;
                assert(rest_one[j - 1] == id);
            }
        }
        lemma_ascending_unique(rest_one, rest_two);
        assert(one =~= seq![one[0]] + rest_one);
        assert(two =~= seq![two[0]] + rest_two);
    }
}

/// The history decides the heads and the clock: a well-formed state holds
/// the frontier and the clock of its history.
pub proof fn lemma_view_determined(v: DagView)
    requires
        v.wf(),
    ensures
        v.frontier == v.history.frontier(),
        v.next_lamport == v.history.clock(),
{
    let h = v.history;
    assert(h.is_frontier(v.frontier));
    let chosen = h.frontier();
    assert(h.is_frontier(chosen));
    assert forall|id: ID|
        #![trigger v.frontier.contains(id)]
        #![trigger chosen.contains(id)]
        v.frontier.contains(id) <==> chosen.contains(id) by {
        assert(v.frontier.contains(id) <==> h.is_tip(id));
        assert(chosen.contains(id) <==> h.is_tip(id));
    }
    lemma_ascending_unique(v.frontier, chosen);
    assert(h.is_clock(v.next_lamport as int));
    lemma_clock_unique(h, v.next_lamport as int, h.clock());
}

/// A history has one clock.
pub proof fn lemma_clock_unique(h: History, one: int, two: int)
    requires
        h.is_clock(one),
        h.is_clock(two),
    ensures
        one == two,
{
    if !(one == 0 && h.logs.dom() =~= Set::<ClientID>::empty()) {
        let c = choose|c: ClientID| #[trigger]
            h.has_replica(c) && log_end_lamport(h.logs[c]) == one;
        assert(h.has_replica(c));
    }
    if !(two == 0 && h.logs.dom() =~= Set::<ClientID>::empty()) {
        let c = choose|c: ClientID| #[trigger]
            h.has_replica(c) && log_end_lamport(h.logs[c]) == two;
        assert(h.has_replica(c));
    }
}

/// Where `small` is the beginning of `big`, extending either by the other
/// gives `big`.
proof fn lemma_extend_prefix(client: ClientID, small: Seq<NodeView>, big: Seq<NodeView>)
    requires
        log_wf(client, big),
        small.is_prefix_of(big),
    ensures
        extend_log(small, big) == big,
        extend_log(big, small) == big,
{
    lemma_log_prefix(client, small, big);
    lemma_known_count(client, big, log_end(small));
    lemma_known_count(client, small, log_end(big));
    let k = known_count(big, log_end(small)) as int;
    let n = small.len() as int;
    if k < n {
        assert(big[k] == small[k]);
        lemma_log_bounds(client, small, k);
    }
    if n < k {
        assert(big[n].start() < log_end(small));
        if n > 0 {
            lemma_log_order(client, big, n - 1, n);
            assert(small[n - 1] == big[n - 1]);
        } else {
            lemma_log_bounds(client, big, 0);
        }
    }
    assert(k == n);
    assert(extend_log(small, big) =~= big);
    let m = known_count(small, log_end(big)) as int;
    if m < n {
        lemma_log_bounds(client, small, m);
    }
    assert(m == n);
    assert(extend_log(big, small) =~= big);
}

/// Merging is commutative: two histories that agree have one union,
/// whichever is merged into the other, and that union is a well-formed
/// history, so both merges succeed. The states after the two merges hold
/// the same history, the same version vector, the same heads and the same
/// clock.
pub proof fn lemma_merge_commutes(a: DagView, b: DagView)
    requires
        a.wf(),
        b.wf(),
        a.history.agrees_with(b.history),
    ensures
        a.history.union(b.history).wf(),
        b.history.union(a.history).wf(),
        a.merged(b).history == b.merged(a).history,
        a.merged(b).frontier == b.merged(a).frontier,
        a.merged(b).next_lamport == b.merged(a).next_lamport,
        forall|client: ClientID|
            #[trigger] a.merged(b).history.vv(client) == b.merged(a).history.vv(client),
{
    lemma_union_agreeing(a.history, b.history);
}

/// Two histories that agree have one union, which is a well-formed history
/// that holds of each replica the longer of the two logs.
pub proof fn lemma_union_agreeing(a: History, b: History)
    requires
        a.wf(),
        b.wf(),
        a.agrees_with(b),
    ensures
        a.union(b) == b.union(a),
        a.union(b).wf(),
        forall|client: ClientID|
            #[trigger] a.union(b).log(client) == (if a.log(client).is_prefix_of(b.log(client)) {
                b.log(client)
            } else {
                a.log(client)
            }),
{
    let u = a.union(b);
    let w = b.union(a);
    assert forall|client: ClientID|
        #[trigger] u.log(client) == (if a.log(client).is_prefix_of(b.log(client)) {
            b.log(client)
        } else {
            a.log(client)
        }) && u.log(client) == w.log(client) by {
        lemma_union_log(a, b, client);
        lemma_union_log(b, a, client);
        lemma_history_logs(a, client);
        lemma_history_logs(b, client);
        assert(a.log(client).is_prefix_of(b.log(client)) || b.log(client).is_prefix_of(
            a.log(client),
        ));
        if a.log(client).is_prefix_of(b.log(client)) {
            lemma_extend_prefix(client, a.log(client), b.log(client));
        } else {
            lemma_extend_prefix(client, b.log(client), a.log(client));
        }
    }
    assert(u.logs.dom() =~= w.logs.dom());
    assert forall|client: ClientID| u.logs.dom().contains(client) implies u.logs[client]
        == w.logs[client] by {
        assert(u.log(client) == w.log(client));
    }
    assert(u.logs =~= w.logs);
    assert(u.logs.dom() =~= a.logs.dom().union(b.logs.dom()));
    lemma_set_union_finite_iff(a.logs.dom(), b.logs.dom());
    assert forall|client: ClientID| #[trigger] u.has_replica(client) implies u.logs[client].len()
        > 0 && log_wf(client, u.logs[client]) by {
        lemma_history_logs(a, client);
        lemma_history_logs(b, client);
        assert(u.log(client) == (if a.log(client).is_prefix_of(b.log(client)) {
            b.log(client)
        } else {
            a.log(client)
        }));
    }
    assert forall|client: ClientID, i: int, j: int|
        u.has_replica(client) && 0 <= i < u.logs[client].len() && 0 <= j
            < u.logs[client][i].deps.len() implies u.dep_ok(
        u.logs[client][i],
        #[trigger] u.logs[client][i].deps[j],
    ) by {
        let dep = u.logs[client][i].deps[j];
        assert(u.log(client) == (if a.log(client).is_prefix_of(b.log(client)) {
            b.log(client)
        } else {
            a.log(client)
        }));
        if a.log(client).is_prefix_of(b.log(client)) {
            assert(b.has_replica(client));
            assert(b.dep_ok(b.logs[client][i], b.logs[client][i].deps[j]));
            lemma_part_of_union(b, u, dep);
        } else {
            assert(a.has_replica(client));
            assert(a.dep_ok(a.logs[client][i], a.logs[client][i].deps[j]));
            lemma_part_of_union(a, u, dep);
        }
    }
}

/// What a history knows, a history that holds it as a beginning knows too,
/// with the same clock value.
proof fn lemma_part_of_union(part: History, whole: History, id: ID)
    requires
        part.wf(),
        part.contains(id),
        part.log(id.client_id).is_prefix_of(whole.log(id.client_id)),
        log_wf(id.client_id, whole.log(id.client_id)),
    ensures
        whole.contains(id),
        whole.lamport_of(id) == part.lamport_of(id),
{
    let client = id.client_id;
    lemma_log_prefix(client, part.log(client), whole.log(client));
    lemma_known_position(part, id);
    assert(whole.log(client)[index_in_log(whole.log(client), id.counter as int)] == part.log(
        client,
    )[index_in_log(part.log(client), id.counter as int)]);
}

/// Merging is idempotent: the union of two histories, merged again with
/// either of them, is that union, so that merging a history once more
/// changes nothing.
pub proof fn lemma_merge_idempotent(a: DagView, b: DagView)
    requires
        a.wf(),
        b.wf(),
    ensures
        a.merged(b).merged(b) == a.merged(b),
        a.merged(a).history == a.history,
        a.merged(a).frontier == a.frontier,
        a.merged(a).next_lamport == a.next_lamport,
{
    lemma_union_idempotent(a.history, b.history);
    lemma_union_idempotent(a.history, a.history);
    lemma_view_determined(a);
}

/// The union of two histories, united again with the second, is that union;
/// and the union of a history with itself is that history.
pub proof fn lemma_union_idempotent(a: History, b: History)
    requires
        a.wf(),
        b.wf(),
    ensures
        a.union(b).union(b) == a.union(b),
        a.union(a) == a,
{
    let u = a.union(b);
    let uu = u.union(b);
    assert forall|client: ClientID| #[trigger] uu.log(client) == u.log(client) by {
        lemma_union_log(a, b, client);
        lemma_history_logs(a, client);
        lemma_history_logs(b, client);
        let ours = a.log(client);
        let theirs = b.log(client);
        let k = known_count(theirs, log_end(ours)) as int;
        lemma_known_count(client, theirs, log_end(ours));
        let grown = extend_log(ours, theirs);
        assert(u.log(client) == grown);
        if k < theirs.len() {
            assert(grown.last() == theirs.last());
            lemma_known_all(client, theirs, log_end(grown));
        } else {
            assert(grown =~= ours);
        }
        assert(extend_log(grown, theirs) =~= grown);
    }
    assert(uu.logs.dom() =~= u.logs.dom());
    assert forall|client: ClientID| uu.logs.dom().contains(client) implies uu.logs[client]
        == u.logs[client] by {
        assert(uu.log(client) == u.log(client));
    }
    assert(uu.logs =~= u.logs);
    let s = a.union(a);
    assert forall|client: ClientID| #[trigger] s.log(client) == a.log(client) by {
        lemma_history_logs(a, client);
        lemma_extend_prefix(client, a.log(client), a.log(client));
    }
    assert(s.logs.dom() =~= a.logs.dom());
    assert forall|client: ClientID| s.logs.dom().contains(client) implies s.logs[client]
        == a.logs[client] by {
        assert(s.log(client) == a.log(client));
    }
    assert(s.logs =~= a.logs);
}

/// Every node of a well-formed log starts below an end that is not below
/// the log's.
proof fn lemma_known_all(client: ClientID, log: Seq<NodeView>, end: int)
    requires
        log_wf(client, log),
        end >= log_end(log),
    ensures
        known_count(log, end) == log.len(),
{
    if log.len() > 0 {
        lemma_log_bounds(client, log, log.len() - 1);
    }
}

/// Of two beginnings of one log, the shorter is the beginning of the longer.
proof fn lemma_prefixes_compare(one: Seq<NodeView>, two: Seq<NodeView>, whole: Seq<NodeView>)
    requires
        one.is_prefix_of(whole),
        two.is_prefix_of(whole),
        one.len() <= two.len(),
    ensures
        one.is_prefix_of(two),
{
    assert forall|i: int| 0 <= i < one.len() implies one[i] == two[i] by {
        assert(one[i] == whole[i]);
        assert(two[i] == whole[i]);
    }
    assert(one =~= two.subrange(0, one.len() as int));
}

/// A well-formed history within `whole` that holds more of `client` than
/// `s` does cannot be, where `s` is a well-formed history within `whole` to
/// which none of the nodes that `whole` holds beyond it can be appended:
/// the first node that `s` lacks, or one of those that it waits for, could
/// be appended.
proof fn lemma_saturated_chain(whole: History, s: History, t: History, client: ClientID)
    requires
        s.wf(),
        t.wf(),
        s.prefix_of(whole),
        t.prefix_of(whole),
        s.saturated_within(whole),
    ensures
        t.log(client).len() <= s.log(client).len(),
    decreases
            (if s.log(client).len() < t.log(client).len() {
                t.log(client)[s.log(client).len() as int].lamport + 1
            } else {
                0
            }),
{
    let n = s.log(client).len() as int;
    if n < t.log(client).len() {
        let ours = s.log(client);
        let theirs = t.log(client);
        let head = theirs[n];
        assert(ours.is_prefix_of(whole.log(client)));
        assert(theirs.is_prefix_of(whole.log(client)));
        lemma_prefixes_compare(ours, theirs, whole.log(client));
        lemma_history_logs(s, client);
        lemma_history_logs(t, client);
        assert(whole.log(client)[n] == head);
        assert(s.stuck_at(whole, client));
        assert(!s.admissible(head));
        assert(head.fits() && head.id.client_id == client);
        if n > 0 {
            assert(follows(theirs, n));
            assert(theirs[n - 1] == ours[n - 1]);
        }
        assert(head.start() == s.vv(client));
        assert(head.lamport >= log_end_lamport(ours));
        let j = choose|j: int| 0 <= j < head.deps.len() && !s.dep_ok(head, #[trigger] head.deps[j]);
        let dep = head.deps[j];
        assert(t.has_replica(client));
        assert(t.logs[client][n].deps[j] == dep);
        assert(t.dep_ok(t.logs[client][n], t.logs[client][n].deps[j]));
        let other = dep.client_id;
        lemma_history_logs(s, other);
        lemma_history_logs(t, other);
        assert(s.log(other).is_prefix_of(whole.log(other)));
        assert(t.log(other).is_prefix_of(whole.log(other)));
        if s.contains(dep) {
            if s.log(other).len() <= t.log(other).len() {
                lemma_prefixes_compare(s.log(other), t.log(other), whole.log(other));
                lemma_part_of_union(s, t, dep);
            } else {
                lemma_prefixes_compare(t.log(other), s.log(other), whole.log(other));
                lemma_part_of_union(t, s, dep);
            }
            assert(false);
        } else {
            let m = s.log(other).len() as int;
            if t.log(other).len() <= m {
                lemma_prefixes_compare(t.log(other), s.log(other), whole.log(other));
                lemma_log_prefix(other, t.log(other), s.log(other));
                assert(false);
            }
            lemma_prefixes_compare(s.log(other), t.log(other), whole.log(other));
            lemma_log_prefix(other, s.log(other), t.log(other));
            lemma_known_position(t, dep);
            let at = index_in_log(t.log(other), dep.counter as int);
            assert(m <= at);
            if m < at {
                lemma_log_order(other, t.log(other), m, at);
            }
            assert(t.log(other)[m].lamport <= t.lamport_of(dep));
            lemma_saturated_chain(whole, s, t, other);
            assert(false);
        }
    }
}

/// A merge ends with the greatest well-formed history within the union of
/// the two histories: a well-formed history within `whole` to which none of
/// the nodes that `whole` holds beyond it can be appended holds every
/// well-formed history within `whole`.
pub proof fn lemma_saturated_greatest(whole: History, s: History, t: History)
    requires
        s.wf(),
        t.wf(),
        s.prefix_of(whole),
        t.prefix_of(whole),
        s.saturated_within(whole),
    ensures
        t.prefix_of(s),
{
    assert forall|client: ClientID| #[trigger] t.log(client).is_prefix_of(s.log(client)) by {
        lemma_saturated_chain(whole, s, t, client);
        assert(s.log(client).is_prefix_of(whole.log(client)));
        assert(t.log(client).is_prefix_of(whole.log(client)));
        lemma_prefixes_compare(t.log(client), s.log(client), whole.log(client));
    }
}

/// What a merge ends with is decided by the two histories, also where it
/// fails: there is one well-formed history within their union to which
/// none of the nodes that the union holds beyond it can be appended.
pub proof fn lemma_merge_result_unique(whole: History, s: History, t: History)
    requires
        s.wf(),
        t.wf(),
        s.prefix_of(whole),
        t.prefix_of(whole),
        s.saturated_within(whole),
        t.saturated_within(whole),
    ensures
        s == t,
{
    lemma_saturated_greatest(whole, s, t);
    lemma_saturated_greatest(whole, t, s);
    assert forall|client: ClientID| s.logs.dom().contains(client) <==> t.logs.dom().contains(
        client,
    ) by {
        lemma_history_logs(s, client);
        lemma_history_logs(t, client);
        assert(t.log(client).is_prefix_of(s.log(client)));
        assert(s.log(client).is_prefix_of(t.log(client)));
    }
    assert(s.logs.dom() =~= t.logs.dom());
    assert forall|client: ClientID| s.logs.dom().contains(client) implies s.logs[client]
        == t.logs[client] by {
        assert(t.log(client).is_prefix_of(s.log(client)));
        assert(s.log(client).is_prefix_of(t.log(client)));
        assert(s.log(client) =~= t.log(client));
    }
    assert(s.logs =~= t.logs);
}

} // verus!
