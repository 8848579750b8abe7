use vstd::prelude::*;
use crate::append::lemma_append;
use crate::history::History;
use crate::id::ClientID;
use crate::laws::lemma_saturated_greatest;
use crate::merge::{
    cursor, lemma_merge_between, lemma_merge_done, lemma_merge_next, lemma_merge_step, merge_inv,
    merge_inv_at, start_cursor,
};
use crate::pending::PendingView;

verus! {

/// The progress of a merge: the history it began with, the cursor of each
/// log that it has visited, and the replica whose log it is walking.
pub struct MergeTrack {
    pub a: History,
    pub done: Map<ClientID, int>,
    pub active: Option<ClientID>,
}

/// A pending entry names the node at the cursor of a visited log that is not
/// being walked.
pub open spec fn entry_ok(t: MergeTrack, b: History, entry: (ClientID, usize)) -> bool {
    &&& t.done.dom().contains(entry.0)
    &&& b.has_replica(entry.0)
    &&& entry.1 == cursor(t.a, b, t.done, entry.0)
    &&& entry.1 < b.log(entry.0).len()
    &&& Some(entry.0) != t.active
}

/// A visited log that has nodes left and is not being walked has a pending
/// entry.
pub open spec fn covered(
    t: MergeTrack,
    b: History,
    entries: Seq<(ClientID, usize)>,
    client: ClientID,
) -> bool {
    t.done.dom().contains(client) && cursor(t.a, b, t.done, client) < b.log(client).len() && Some(
        client,
    ) != t.active ==> exists|k: int| 0 <= k < entries.len() && (#[trigger] entries[k]).0 == client
}

/// The node that entry `k` names may not be appended to `s`.
pub open spec fn halted(s: History, b: History, next: Seq<(ClientID, usize)>, k: int) -> bool {
    !s.admissible(b.log(next[k].0)[next[k].1 as int])
}

/// What holds between the steps of a merge of `b` into what has become `s`.
pub open spec fn merge_ok(s: History, b: History, p: PendingView, t: MergeTrack) -> bool {
    &&& t.a.wf()
    &&& b.wf()
    &&& s.wf()
    &&& merge_inv(t.a, b, s, t.done)
    &&& forall|k: int| 0 <= k < p.entries().len() ==> entry_ok(t, b, #[trigger] p.entries()[k])
    &&& forall|k1: int, k2: int|
        0 <= k1 < k2 < p.entries().len() ==> (#[trigger] p.entries()[k1]).0
            != (#[trigger] p.entries()[k2]).0
    &&& forall|client: ClientID| #[trigger] covered(t, b, p.entries(), client)
    &&& !p.progress ==> forall|k: int| 0 <= k < p.next.len() ==> #[trigger] halted(s, b, p.next, k)
}

/// A merge begins with nothing visited and nothing pending.
pub proof fn lemma_ok_at_start(a: History, b: History)
    requires
        a.wf(),
        b.wf(),
    ensures
        merge_ok(
            a,
            b,
            PendingView { current: Seq::empty(), next: Seq::empty(), progress: false },
            MergeTrack { a, done: Map::empty(), active: None },
        ),
{
    crate::merge::lemma_merge_start(a, b);
    let p = PendingView { current: Seq::empty(), next: Seq::empty(), progress: false };
    let t = MergeTrack { a, done: Map::empty(), active: None };
    assert forall|client: ClientID| #[trigger] covered(t, b, p.entries(), client) by {}
}

/// Visiting a log for the first time, to walk it from where the merge's own
/// history ends.
pub proof fn lemma_ok_after_visit(
    s: History,
    b: History,
    p: PendingView,
    t: MergeTrack,
    client: ClientID,
)
    requires
        merge_ok(s, b, p, t),
        t.active is None,
        !t.done.dom().contains(client),
    ensures
        merge_ok(
            s,
            b,
            p,
            MergeTrack {
                done: t.done.insert(client, start_cursor(t.a, b, client)),
                active: Some(client),
                ..t
            },
        ),
        cursor(t.a, b, t.done.insert(client, start_cursor(t.a, b, client)), client)
            == start_cursor(t.a, b, client),
        s.log(client) == t.a.log(client),
{
    let t2 = MergeTrack {
        done: t.done.insert(client, start_cursor(t.a, b, client)),
        active: Some(client),
        ..t
    };
    assert forall|c: ClientID| #[trigger] merge_inv_at(t.a, b, s, t2.done, c) by {
        assert(merge_inv_at(t.a, b, s, t.done, c));
    }
    assert forall|k: int| 0 <= k < p.entries().len() implies entry_ok(
        t2,
        b,
        #[trigger] p.entries()[k],
    ) by {
        assert(entry_ok(t, b, p.entries()[k]));
    }
    assert forall|c: ClientID| #[trigger] covered(t2, b, p.entries(), c) by {
        assert(covered(t, b, p.entries(), c));
    }
    assert(merge_inv_at(t.a, b, s, t.done, client));
    assert(s.log(client) =~= t.a.log(client));
}

/// Taking an entry from the running pass, to walk its log from the cursor.
pub proof fn lemma_ok_after_pop(s: History, b: History, p: PendingView, t: MergeTrack)
    requires
        merge_ok(s, b, p, t),
        t.active is None,
        p.current.len() > 0,
    ensures
        merge_ok(
            s,
            b,
            PendingView { current: p.current.drop_last(), ..p },
            MergeTrack { active: Some(p.current.last().0), ..t },
        ),
        entry_ok(t, b, p.current.last()),
{
    let entry = p.current.last();
    let q = PendingView { current: p.current.drop_last(), ..p };
    let t2 = MergeTrack { active: Some(entry.0), ..t };
    let n = p.current.len() as int;
    assert(p.entries()[n - 1] == entry);
    assert forall|k: int| 0 <= k < q.entries().len() implies #[trigger] q.entries()[k]
        == p.entries()[if k < n - 1 {
        k
    } else {
        k + 1
    }] by {}
    assert forall|k: int| 0 <= k < q.entries().len() implies entry_ok(
        t2,
        b,
        #[trigger] q.entries()[k],
    ) by {
        let k0 = if k < n - 1 {
            k
        } else {
            k + 1
        };
        assert(entry_ok(t, b, p.entries()[k0]));
        if k0 < n - 1 {
            assert(p.entries()[k0].0 != p.entries()[n - 1].0);
        } else {
            assert(p.entries()[n - 1].0 != p.entries()[k0].0);
        }
    }
    assert forall|k1: int, k2: int| 0 <= k1 < k2 < q.entries().len() implies (#[trigger] q.entries()[k1]).0
        != (#[trigger] q.entries()[k2]).0 by {
        let j1 = if k1 < n - 1 {
            k1
        } else {
            k1 + 1
        };
        let j2 = if k2 < n - 1 {
            k2
        } else {
            k2 + 1
        };
        assert(p.entries()[j1].0 != p.entries()[j2].0);
    }
    assert forall|c: ClientID| #[trigger] covered(t2, b, q.entries(), c) by {
        assert(covered(t, b, p.entries(), c));
        if t.done.dom().contains(c) && cursor(t.a, b, t.done, c) < b.log(c).len() && c != entry.0 {
            let k = choose|k: int| 0 <= k < p.entries().len() && (#[trigger] p.entries()[k]).0 == c;
            let k2 = if k < n - 1 {
                k
            } else {
                k - 1
            };
            assert(q.entries()[k2].0 == c);
        }
    }
}

/// The node at the cursor of the log being walked has been appended.
pub proof fn lemma_ok_after_accept(
    s: History,
    b: History,
    p: PendingView,
    t: MergeTrack,
    client: ClientID,
)
    requires
        merge_ok(s, b, p, t),
        t.active == Some(client),
        t.done.dom().contains(client),
        cursor(t.a, b, t.done, client) < b.log(client).len(),
        s.admissible(b.log(client)[cursor(t.a, b, t.done, client)]),
    ensures
        merge_ok(
            s.append(b.log(client)[cursor(t.a, b, t.done, client)]),
            b,
            PendingView { progress: true, ..p },
            MergeTrack { done: t.done.insert(client, cursor(t.a, b, t.done, client) + 1), ..t },
        ),
{
    let node = b.log(client)[cursor(t.a, b, t.done, client)];
    let q = PendingView { progress: true, ..p };
    let t2 = MergeTrack { done: t.done.insert(client, cursor(t.a, b, t.done, client) + 1), ..t };
    lemma_merge_step(t.a, b, s, t.done, client);
    lemma_append(s, node);
    assert(q.entries() == p.entries());
    assert(merge_inv_at(t.a, b, s, t.done, client));
    assert(s.append(node).wf());
    assert(merge_inv(t.a, b, s.append(node), t2.done));
    assert forall|k1: int, k2: int| 0 <= k1 < k2 < q.entries().len() implies (#[trigger] q.entries()[k1]).0
        != (#[trigger] q.entries()[k2]).0 by {
        assert(p.entries()[k1].0 != p.entries()[k2].0);
    }
    assert forall|k: int| 0 <= k < q.entries().len() implies entry_ok(
        t2,
        b,
        #[trigger] q.entries()[k],
    ) by {
        assert(entry_ok(t, b, p.entries()[k]));
    }
    assert forall|c: ClientID| #[trigger] covered(t2, b, q.entries(), c) by {
        assert(covered(t, b, p.entries(), c));
    }
}

/// The node at the cursor of the log being walked has been put off.
pub proof fn lemma_ok_after_put_off(
    s: History,
    b: History,
    p: PendingView,
    t: MergeTrack,
    client: ClientID,
)
    requires
        merge_ok(s, b, p, t),
        t.active == Some(client),
        t.done.dom().contains(client),
        cursor(t.a, b, t.done, client) < b.log(client).len(),
        cursor(t.a, b, t.done, client) <= usize::MAX,
        !s.admissible(b.log(client)[cursor(t.a, b, t.done, client)]),
    ensures
        merge_ok(
            s,
            b,
            PendingView { next: p.next.push((client, cursor(t.a, b, t.done, client) as usize)), ..p },
            MergeTrack { active: None, ..t },
        ),
{
    let entry = (client, cursor(t.a, b, t.done, client) as usize);
    let q = PendingView { next: p.next.push(entry), ..p };
    let t2 = MergeTrack { active: None, ..t };
    let n = p.entries().len() as int;
    assert(q.entries() =~= p.entries().push(entry));
    assert(merge_inv_at(t.a, b, s, t.done, client));
    assert forall|k: int| 0 <= k < q.entries().len() implies entry_ok(
        t2,
        b,
        #[trigger] q.entries()[k],
    ) by {
        if k < n {
            assert(entry_ok(t, b, p.entries()[k]));
        }
    }
    assert forall|k1: int, k2: int| 0 <= k1 < k2 < q.entries().len() implies (#[trigger] q.entries()[k1]).0
        != (#[trigger] q.entries()[k2]).0 by {
        assert(entry_ok(t, b, p.entries()[k1]));
        if k2 < n {
            assert(p.entries()[k1].0 != p.entries()[k2].0);
        }
    }
    assert forall|c: ClientID| #[trigger] covered(t2, b, q.entries(), c) by {
        assert(covered(t, b, p.entries(), c));
        if c == client {
            assert(q.entries()[n].0 == c);
        } else if t.done.dom().contains(c) && cursor(t.a, b, t.done, c) < b.log(c).len() {
            let k = choose|k: int| 0 <= k < p.entries().len() && (#[trigger] p.entries()[k]).0 == c;
            assert(q.entries()[k].0 == c);
        }
    }
    if !q.progress {
        assert forall|k: int| 0 <= k < q.next.len() implies #[trigger] halted(s, b, q.next, k) by {
            if k < p.next.len() {
                assert(halted(s, b, p.next, k));
            }
        }
    }
}

/// The log being walked has no node left.
pub proof fn lemma_ok_after_end(
    s: History,
    b: History,
    p: PendingView,
    t: MergeTrack,
    client: ClientID,
)
    requires
        merge_ok(s, b, p, t),
        t.active == Some(client),
        cursor(t.a, b, t.done, client) == b.log(client).len(),
    ensures
        merge_ok(s, b, p, MergeTrack { active: None, ..t }),
{
    let t2 = MergeTrack { active: None, ..t };
    assert forall|k: int| 0 <= k < p.entries().len() implies entry_ok(
        t2,
        b,
        #[trigger] p.entries()[k],
    ) by {
        assert(entry_ok(t, b, p.entries()[k]));
    }
    assert forall|c: ClientID| #[trigger] covered(t2, b, p.entries(), c) by {
        assert(covered(t, b, p.entries(), c));
    }
}

/// With every log visited and nothing pending, the merge has built the
/// union of the two histories.
pub proof fn lemma_ok_done(s: History, b: History, p: PendingView, t: MergeTrack)
    requires
        merge_ok(s, b, p, t),
        t.active is None,
        p.entries().len() == 0,
        forall|client: ClientID| #[trigger] b.has_replica(client) ==> t.done.dom().contains(client),
    ensures
        s == t.a.union(b),
        t.a.union(b).wf(),
        s.saturated_within(t.a.union(b)),
{
    assert forall|client: ClientID| #[trigger]
        cursor(t.a, b, t.done, client) == b.log(client).len() by {
        assert(merge_inv_at(t.a, b, s, t.done, client));
        assert(covered(t, b, p.entries(), client));
        if !b.has_replica(client) {
        }
    }
    lemma_merge_done(t.a, b, s, t.done);
    assert forall|client: ClientID| #[trigger] s.stuck_at(t.a.union(b), client) by {}
}

/// With every log visited, nothing left in the running pass, and no
/// progress made by it, the merge has come to a halt short of the union:
/// the union of the two histories is not well-formed.
pub proof fn lemma_ok_stalled(s: History, b: History, p: PendingView, t: MergeTrack)
    requires
        merge_ok(s, b, p, t),
        t.active is None,
        p.current.len() == 0,
        p.next.len() > 0,
        !p.progress,
        forall|client: ClientID| #[trigger] b.has_replica(client) ==> t.done.dom().contains(client),
    ensures
        !t.a.union(b).wf(),
        s.saturated_within(t.a.union(b)),
{
    let u = t.a.union(b);
    assert(p.entries() =~= p.next);
    assert forall|client: ClientID| #[trigger] s.stuck_at(u, client) by {
        assert(merge_inv_at(t.a, b, s, t.done, client));
        let at = cursor(t.a, b, t.done, client);
        if at < b.log(client).len() {
            assert(b.has_replica(client));
            assert(covered(t, b, p.entries(), client));
            let k = choose|k: int| 0 <= k < p.entries().len() && (#[trigger] p.entries()[k]).0
                == client;
            assert(entry_ok(t, b, p.entries()[k]));
            assert(halted(s, b, p.next, k));
            lemma_merge_next(t.a, b, s, t.done, client, at);
        } else {
            lemma_merge_between(t.a, b, s, t.done);
            assert(u.log(client) == s.log(client) + b.log(client).skip(at));
        }
    }
    if u.wf() {
        lemma_merge_between(t.a, b, s, t.done);
        assert forall|client: ClientID| #[trigger] u.log(client).is_prefix_of(u.log(client)) by {}
        lemma_saturated_greatest(u, s, u);
        let entry = p.entries()[0];
        assert(entry_ok(t, b, entry));
        lemma_merge_next(t.a, b, s, t.done, entry.0, entry.1 as int);
        assert(u.log(entry.0).is_prefix_of(s.log(entry.0)));
        assert(false);
    }
}

/// A pass that made progress has ended: what it put off is the next pass.
pub proof fn lemma_ok_after_pass(s: History, b: History, p: PendingView, t: MergeTrack)
    requires
        merge_ok(s, b, p, t),
        p.current.len() == 0,
        p.next.len() > 0,
        p.progress,
    ensures
        merge_ok(s, b, p.after_pass(), t),
{
    let q = p.after_pass();
    assert(q.entries() =~= p.entries());
    assert forall|k: int| 0 <= k < q.entries().len() implies entry_ok(
        t,
        b,
        #[trigger] q.entries()[k],
    ) by {
        assert(entry_ok(t, b, p.entries()[k]));
    }
    assert forall|k1: int, k2: int| 0 <= k1 < k2 < q.entries().len() implies (#[trigger] q.entries()[k1]).0
        != (#[trigger] q.entries()[k2]).0 by {
        assert(p.entries()[k1].0 != p.entries()[k2].0);
    }
    assert forall|c: ClientID| #[trigger] covered(t, b, q.entries(), c) by {
        assert(covered(t, b, p.entries(), c));
    }
}

} // verus!
