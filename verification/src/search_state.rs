use vstd::prelude::*;
use crate::ancestry::{
    count_below, lemma_lamport_cut, Cut, lemma_ancestor_dep, lemma_ancestor_known, lemma_ancestor_same_replica, lemma_ancestor_trans,
    lemma_lamport_grows, lemma_node_start,
};
use crate::history::{
    index_in_log, lemma_history_logs, lemma_known_position, lemma_log_bounds, lemma_log_covers,
    History, NodeView,
};
use crate::id::{ClientID, Counter, Lamport, ID};

verus! {

/// The counters of one replica that a search has explored: those from `lo`
/// up to, but not including, `hi`.
#[derive(Clone, Copy, Debug, PartialEq, Eq, Structural)]
pub struct Region {
    pub lo: Counter,
    pub hi: Counter,
}

/// One side of a search for common ancestors: what it has explored of each
/// replica that it has reached, and the operations that wait to be explored,
/// each with its clock value.
pub struct SideView {
    pub regions: Map<ClientID, Region>,
    pub pending: Seq<(Lamport, ID)>,
}

/// `pending` without the entry at `i`, whose place the last entry takes.
pub open spec fn without(pending: Seq<(Lamport, ID)>, i: int) -> Seq<(Lamport, ID)> {
    pending.update(i, pending.last()).drop_last()
}

impl SideView {
    pub open spec fn reached(self, client: ClientID) -> bool {
        self.regions.dom().contains(client)
    }

    pub open spec fn in_region(self, id: ID) -> bool {
        self.reached(id.client_id) && self.regions[id.client_id].lo <= id.counter
            < self.regions[id.client_id].hi
    }

    /// The entry at `k` waits on the replica of `id`, at `id` or above it.
    pub open spec fn waits_above(self, id: ID, k: int) -> bool {
        self.pending[k].1.client_id == id.client_id && id.counter <= self.pending[k].1.counter
    }

    /// The entry at `k` is `id`.
    pub open spec fn waits_at(self, id: ID, k: int) -> bool {
        self.pending[k].1 == id
    }

    /// `id` is explored, or will be reached from an entry that waits.
    pub open spec fn dominated(self, id: ID) -> bool {
        self.in_region(id) || exists|k: int|
            0 <= k < self.pending.len() && #[trigger] self.waits_above(id, k)
    }

    pub open spec fn has_pending(self, id: ID) -> bool {
        exists|k: int| 0 <= k < self.pending.len() && #[trigger] self.waits_at(id, k)
    }

    /// The last explored operation of `client`.
    pub open spec fn top(self, client: ClientID) -> ID {
        ID { client_id: client, counter: (self.regions[client].hi - 1) as Counter }
    }

    /// The operation below the explored ones of `client`.
    pub open spec fn below(self, client: ClientID) -> ID {
        ID { client_id: client, counter: (self.regions[client].lo - 1) as Counter }
    }
}

/// The explored counters of `client` are known, begin with the first
/// operation of a node, and come before `root` or are `root`.
pub open spec fn region_ok(h: History, root: ID, v: SideView, client: ClientID) -> bool {
    v.reached(client) ==> {
        &&& v.regions[client].lo < v.regions[client].hi <= h.vv(client)
        &&& h.node_of(ID { client_id: client, counter: v.regions[client].lo }).start()
            == v.regions[client].lo
        &&& h.is_ancestor(v.top(client), root)
        &&& v.regions[client].lo > 0 ==> v.has_pending(v.below(client))
    }
}

/// The entry is an operation that comes before `root` or is `root`, with its
/// clock value.
pub open spec fn item_ok(h: History, root: ID, item: (Lamport, ID)) -> bool {
    h.is_ancestor(item.1, root) && item.0 == h.lamport_of(item.1)
}

/// No entry has a later clock value than the last explored operation of
/// `client`.
pub open spec fn ordered(h: History, v: SideView, client: ClientID, k: int) -> bool {
    v.reached(client) ==> v.pending[k].0 <= h.lamport_of(v.top(client))
}

/// What holds of one side of a search between its steps.
pub open spec fn side_ok(h: History, root: ID, v: SideView) -> bool {
    &&& forall|client: ClientID| #[trigger] region_ok(h, root, v, client)
    &&& forall|k: int| 0 <= k < v.pending.len() ==> item_ok(h, root, #[trigger] v.pending[k])
    &&& forall|client: ClientID, i: int, j: int|
        v.reached(client) && h.has_replica(client) && 0 <= i < h.logs[client].len() && 0 <= j
            < h.logs[client][i].deps.len() && v.regions[client].lo <= h.logs[client][i].start()
            < v.regions[client].hi ==> v.dominated(#[trigger] h.logs[client][i].deps[j])
    &&& v.dominated(root)
    &&& forall|client: ClientID, k: int|
        0 <= k < v.pending.len() ==> #[trigger] ordered(h, v, client, k)
}

/// A search begins with nothing explored and its root waiting.
pub proof fn lemma_side_start(h: History, root: ID)
    requires
        h.wf(),
        h.contains(root),
    ensures
        0 <= h.lamport_of(root) <= Lamport::MAX,
        side_ok(
            h,
            root,
            SideView {
                regions: Map::empty(),
                pending: seq![(h.lamport_of(root) as Lamport, root)],
            },
        ),
{
    let v = SideView {
        regions: Map::empty(),
        pending: seq![(h.lamport_of(root) as Lamport, root)],
    };
    lemma_known_position(h, root);
    lemma_ancestor_same_replica(h, root, root);
    assert(v.waits_above(root, 0));
}

/// What is explored comes before the root of the search, or is the root.
pub proof fn lemma_region_ancestor(h: History, root: ID, v: SideView, id: ID)
    requires
        h.wf(),
        side_ok(h, root, v),
        v.in_region(id),
    ensures
        h.is_ancestor(id, root),
        h.contains(id),
{
    let client = id.client_id;
    assert(region_ok(h, root, v, client));
    lemma_ancestor_known(h, v.top(client), root);
    lemma_ancestor_same_replica(h, id, v.top(client));
    lemma_ancestor_trans(h, id, v.top(client), root);
}

/// Every entry but the one at `i` is still there once that one is taken.
pub proof fn lemma_without(pending: Seq<(Lamport, ID)>, i: int)
    requires
        0 <= i < pending.len(),
    ensures
        without(pending, i).len() == pending.len() - 1,
        forall|k: int|
            0 <= k < pending.len() - 1 ==> #[trigger] without(pending, i)[k] == pending[if k == i {
                pending.len() - 1
            } else {
                k
            }],
{
}

/// An entry that waits within or below what is explored of its replica,
/// but not just below, can be dropped.
pub proof fn lemma_side_drop(h: History, root: ID, v: SideView, i: int)
    requires
        h.wf(),
        side_ok(h, root, v),
        0 <= i < v.pending.len(),
        v.reached(v.pending[i].1.client_id),
        v.pending[i].1.counter + 1 != v.regions[v.pending[i].1.client_id].lo,
    ensures
        side_ok(h, root, SideView { pending: without(v.pending, i), ..v }),
{
    let z = v.pending[i].1;
    let r = z.client_id;
    let n = v.pending.len() as int;
    let rest = without(v.pending, i);
    let v2 = SideView { pending: rest, ..v };
    lemma_without(v.pending, i);
    assert(region_ok(h, root, v, r));
    assert(item_ok(h, root, v.pending[i]));
    assert(ordered(h, v, r, i));
    lemma_ancestor_known(h, z, root);
    lemma_ancestor_known(h, v.top(r), root);
    assert(z.counter < v.regions[r].hi) by {
        if z.counter >= v.regions[r].hi {
            lemma_lamport_grows(h, v.top(r), z);
        }
    }
    assert forall|id: ID| v.has_pending(id) && id != z implies v2.has_pending(id) by {
        let k = choose|k: int| 0 <= k < v.pending.len() && #[trigger] v.waits_at(id, k);
        let k2 = if k == n - 1 {
            i
        } else {
            k
        };
        assert(rest[k2] == v.pending[k]);
        assert(v2.waits_at(id, k2));
    }
    assert forall|id: ID| v.dominated(id) implies v2.dominated(id) by {
        if !v.in_region(id) {
            let k = choose|k: int| 0 <= k < v.pending.len() && #[trigger] v.waits_above(id, k);
            if k == i {
                // the entry taken stood above `id`: what is explored, or the
                // entry just below it, stands above `id` too
                if id.counter < v.regions[r].lo {
                    let w = choose|w: int|
                        0 <= w < v.pending.len() && #[trigger] v.waits_at(v.below(r), w);
                    assert(w != i);
                    let w2 = if w == n - 1 {
                        i
                    } else {
                        w
                    };
                    assert(rest[w2] == v.pending[w]);
                    assert(v2.waits_above(id, w2));
                }
            } else {
                let k2 = if k == n - 1 {
                    i
                } else {
                    k
                };
                assert(rest[k2] == v.pending[k]);
                assert(v2.waits_above(id, k2));
            }
        }
    }
    assert forall|client: ClientID| #[trigger] region_ok(h, root, v2, client) by {
        assert(region_ok(h, root, v, client));
        if v.reached(client) && v.regions[client].lo > 0 {
            assert(v.below(client) != z);
        }
    }
    assert forall|k: int| 0 <= k < v2.pending.len() implies item_ok(
        h,
        root,
        #[trigger] v2.pending[k],
    ) by {
        let k0 = if k == i {
            n - 1
        } else {
            k
        };
        assert(item_ok(h, root, v.pending[k0]));
    }
    assert forall|client: ClientID, k: int| 0 <= k < v2.pending.len() implies #[trigger] ordered(
        h,
        v2,
        client,
        k,
    ) by {
        let k0 = if k == i {
            n - 1
        } else {
            k
        };
        assert(ordered(h, v, client, k0));
    }
}

/// The operation just below `node` on its replica.
pub open spec fn before_node(node: NodeView) -> ID {
    ID { client_id: node.id.client_id, counter: (node.start() - 1) as Counter }
}

/// The entry is what exploring `node` puts to wait: one of the positions
/// that the node depends on, or the operation just below the node, with its
/// clock value.
pub open spec fn added_ok(h: History, node: NodeView, item: (Lamport, ID)) -> bool {
    &&& item.0 == h.lamport_of(item.1)
    &&& node.deps.contains(item.1) || (node.start() > 0 && item.1 == before_node(node))
}

/// `id` is among the entries.
pub open spec fn appears(added: Seq<(Lamport, ID)>, id: ID) -> bool {
    exists|k: int| 0 <= k < added.len() && (#[trigger] added[k]).1 == id
}

/// `added` is what exploring `node` puts to wait.
pub open spec fn added_for(h: History, node: NodeView, added: Seq<(Lamport, ID)>) -> bool {
    &&& forall|j: int| 0 <= j < node.deps.len() ==> appears(added, #[trigger] node.deps[j])
    &&& node.start() > 0 ==> appears(added, before_node(node))
    &&& forall|k: int| 0 <= k < added.len() ==> added_ok(h, node, #[trigger] added[k])
}

/// The side after the entry at `i` has been taken and its node explored.
pub open spec fn explored(
    h: History,
    v: SideView,
    i: int,
    added: Seq<(Lamport, ID)>,
) -> SideView {
    let z = v.pending[i].1;
    SideView {
        regions: v.regions.insert(
            z.client_id,
            Region {
                lo: h.node_of(z).id.counter,
                hi: if v.reached(z.client_id) {
                    v.regions[z.client_id].hi
                } else {
                    (z.counter + 1) as Counter
                },
            },
        ),
        pending: without(v.pending, i) + added,
    }
}

/// What exploring the node of a waiting operation puts to wait comes before
/// that operation, with a lower clock value.
proof fn lemma_added_item(h: History, root: ID, z: ID, item: (Lamport, ID))
    requires
        h.wf(),
        h.is_ancestor(z, root),
        added_ok(h, h.node_of(z), item),
    ensures
        item_ok(h, root, item),
        item.0 < h.lamport_of(z),
{
    let node = h.node_of(z);
    let r = z.client_id;
    lemma_ancestor_known(h, z, root);
    lemma_known_position(h, z);
    let at = index_in_log(h.log(r), z.counter as int);
    assert(h.logs[r][at] == node);
    if node.deps.contains(item.1) {
        let j = choose|j: int| 0 <= j < node.deps.len() && node.deps[j] == item.1;
        assert(h.logs[r][at].deps[j] == item.1);
        assert(h.dep_ok(h.logs[r][at], h.logs[r][at].deps[j]));
        lemma_ancestor_dep(h, z, at, j);
        lemma_ancestor_trans(h, item.1, z, root);
    } else {
        lemma_ancestor_same_replica(h, item.1, z);
        lemma_ancestor_trans(h, item.1, z, root);
        lemma_lamport_grows(h, item.1, z);
    }
}

/// A node that starts within the span of the node of `z`, at or below `z`,
/// is that node.
proof fn lemma_same_node(h: History, z: ID, at: int)
    requires
        h.wf(),
        h.contains(z),
        0 <= at < h.log(z.client_id).len(),
        h.node_of(z).start() <= h.log(z.client_id)[at].start() <= z.counter,
    ensures
        h.log(z.client_id)[at] == h.node_of(z),
{
    let log = h.log(z.client_id);
    lemma_known_position(h, z);
    lemma_history_logs(h, z.client_id);
    lemma_log_bounds(z.client_id, log, at);
    let c = log[at].start();
    lemma_log_covers(z.client_id, log, c);
    assert(log[at].covers(c));
    assert(h.node_of(z).covers(c));
}

/// Exploring the node of an entry leaves dominated what was dominated.
proof fn lemma_explore_dominated(
    h: History,
    root: ID,
    v: SideView,
    i: int,
    added: Seq<(Lamport, ID)>,
    id: ID,
)
    requires
        h.wf(),
        side_ok(h, root, v),
        0 <= i < v.pending.len(),
        v.reached(v.pending[i].1.client_id) ==> v.pending[i].1.counter + 1
            == v.regions[v.pending[i].1.client_id].lo,
        added_for(h, h.node_of(v.pending[i].1), added),
        v.dominated(id),
    ensures
        explored(h, v, i, added).dominated(id),
{
    let z = v.pending[i].1;
    let r = z.client_id;
    let node = h.node_of(z);
    let n = v.pending.len() as int;
    let rest = without(v.pending, i);
    let v2 = explored(h, v, i, added);
    lemma_without(v.pending, i);
    assert(item_ok(h, root, v.pending[i]));
    lemma_ancestor_known(h, z, root);
    lemma_known_position(h, z);
    assert(region_ok(h, root, v, r));
    if v.in_region(id) {
        assert(v2.in_region(id));
    } else {
        let k = choose|k: int| 0 <= k < v.pending.len() && #[trigger] v.waits_above(id, k);
        if k == i {
            if id.counter < node.start() {
                let w = choose|w: int| 0 <= w < added.len() && (#[trigger] added[w]).1
                    == before_node(node);
                assert(v2.pending[rest.len() + w] == added[w]);
                assert(v2.waits_above(id, rest.len() + w));
            } else {
                assert(v2.in_region(id));
            }
        } else {
            let k2 = if k == n - 1 {
                i
            } else {
                k
            };
            assert(rest[k2] == v.pending[k]);
            assert(v2.pending[k2] == rest[k2]);
            assert(v2.waits_above(id, k2));
        }
    }
}

/// Exploring the node of the entry with the latest clock value, where that
/// entry waits just below what is explored of its replica or on a replica
/// not reached yet.
pub proof fn lemma_side_explore(
    h: History,
    root: ID,
    v: SideView,
    i: int,
    added: Seq<(Lamport, ID)>,
)
    requires
        h.wf(),
        side_ok(h, root, v),
        0 <= i < v.pending.len(),
        forall|k: int| 0 <= k < v.pending.len() ==> (#[trigger] v.pending[k]).0 <= v.pending[i].0,
        v.reached(v.pending[i].1.client_id) ==> v.pending[i].1.counter + 1
            == v.regions[v.pending[i].1.client_id].lo,
        added_for(h, h.node_of(v.pending[i].1), added),
    ensures
        side_ok(h, root, explored(h, v, i, added)),
{
    let z = v.pending[i].1;
    let r = z.client_id;
    let node = h.node_of(z);
    let n = v.pending.len() as int;
    let rest = without(v.pending, i);
    let v2 = explored(h, v, i, added);
    lemma_without(v.pending, i);
    assert(item_ok(h, root, v.pending[i]));
    lemma_ancestor_known(h, z, root);
    lemma_known_position(h, z);
    lemma_history_logs(h, r);
    let at = index_in_log(h.log(r), z.counter as int);
    lemma_node_start(h, r, at);
    assert(region_ok(h, root, v, r));
    assert(ordered(h, v, r, i));
    assert forall|k: int| 0 <= k < v2.pending.len() implies item_ok(
        h,
        root,
        #[trigger] v2.pending[k],
    ) && v2.pending[k].0 <= v.pending[i].0 by {
        if k < rest.len() {
            let k0 = if k == i {
                n - 1
            } else {
                k
            };
            assert(v2.pending[k] == v.pending[k0]);
            assert(item_ok(h, root, v.pending[k0]));
        } else {
            assert(v2.pending[k] == added[k - rest.len()]);
            assert(added_ok(h, node, added[k - rest.len()]));
            lemma_added_item(h, root, z, v2.pending[k]);
        }
    }
    assert forall|client: ClientID| #[trigger] region_ok(h, root, v2, client) by {
        assert(region_ok(h, root, v, client));
        if client == r {
            if node.start() > 0 {
                let w = choose|w: int| 0 <= w < added.len() && (#[trigger] added[w]).1
                    == before_node(node);
                assert(v2.pending[rest.len() + w] == added[w]);
                assert(v2.waits_at(v2.below(r), rest.len() + w));
            }
        } else if v.reached(client) && v.regions[client].lo > 0 {
            let w = choose|w: int| 0 <= w < v.pending.len() && #[trigger] v.waits_at(
                v.below(client),
                w,
            );
            let w2 = if w == n - 1 {
                i
            } else {
                w
            };
            assert(v2.pending[w2] == v.pending[w]);
            assert(v2.waits_at(v2.below(client), w2));
        }
    }
    assert forall|client: ClientID, a: int, j: int|
        v2.reached(client) && h.has_replica(client) && 0 <= a < h.logs[client].len() && 0 <= j
            < h.logs[client][a].deps.len() && v2.regions[client].lo <= h.logs[client][a].start()
            < v2.regions[client].hi implies v2.dominated(#[trigger] h.logs[client][a].deps[j]) by {
        let dep = h.logs[client][a].deps[j];
        if client == r && h.logs[client][a].start() <= z.counter {
            lemma_same_node(h, z, a);
            assert(appears(added, node.deps[j]));
            let w = choose|w: int| 0 <= w < added.len() && (#[trigger] added[w]).1 == dep;
            assert(v2.pending[rest.len() + w] == added[w]);
            assert(v2.waits_above(dep, rest.len() + w));
        } else {
            assert(v.dominated(h.logs[client][a].deps[j]));
            lemma_explore_dominated(h, root, v, i, added, dep);
        }
    }
    lemma_explore_dominated(h, root, v, i, added, root);
    assert forall|client: ClientID, k: int| 0 <= k < v2.pending.len() implies #[trigger] ordered(
        h,
        v2,
        client,
        k,
    ) by {
        if v2.reached(client) {
            assert(item_ok(h, root, v2.pending[k]) && v2.pending[k].0 <= v.pending[i].0);
            if client == r && !v.reached(r) {
                assert(v2.top(r) == z);
            } else {
                assert(v2.top(client) == v.top(client));
                assert(ordered(h, v, client, i));
            }
        }
    }
}

/// The cut that holds what a side has explored and every operation with a
/// clock value below `bound`.
pub open spec fn side_cut(h: History, v: SideView, bound: int) -> Cut {
    Cut {
        ends: Map::new(
            |client: ClientID| true,
            |client: ClientID|
                if v.reached(client) && v.regions[client].hi > count_below(h.log(client), bound) {
                    v.regions[client].hi as int
                } else {
                    count_below(h.log(client), bound)
                },
        ),
    }
}

/// What is explored of a replica begins at or below the first operation of
/// that replica whose clock value reaches `bound`, where every entry that
/// waits has a clock value below `bound`.
proof fn lemma_region_bottom(h: History, root: ID, v: SideView, bound: int, client: ClientID)
    requires
        h.wf(),
        side_ok(h, root, v),
        forall|k: int| 0 <= k < v.pending.len() ==> (#[trigger] v.pending[k]).0 < bound,
        v.reached(client),
    ensures
        v.regions[client].lo <= h.lamport_cut(bound).end(client),
{
    lemma_lamport_cut(h, bound);
    assert(region_ok(h, root, v, client));
    lemma_history_logs(h, client);
    crate::ancestry::lemma_count_below(client, h.log(client), bound);
    if v.regions[client].lo > 0 {
        let w = choose|w: int| 0 <= w < v.pending.len() && #[trigger] v.waits_at(
            v.below(client),
            w,
        );
        assert(item_ok(h, root, v.pending[w]));
        lemma_ancestor_known(h, v.below(client), root);
        assert(h.lamport_cut(bound).covers(v.below(client)));
    }
}

/// Where every entry that waits has a clock value below `bound`, what is
/// dominated is explored or has a clock value below `bound`.
proof fn lemma_dominated_covered(h: History, root: ID, v: SideView, bound: int, id: ID)
    requires
        h.wf(),
        side_ok(h, root, v),
        forall|k: int| 0 <= k < v.pending.len() ==> (#[trigger] v.pending[k]).0 < bound,
        v.dominated(id),
        h.contains(id),
    ensures
        side_cut(h, v, bound).covers(id),
{
    lemma_lamport_cut(h, bound);
    if !v.in_region(id) {
        let k = choose|k: int| 0 <= k < v.pending.len() && #[trigger] v.waits_above(id, k);
        let z = v.pending[k].1;
        assert(item_ok(h, root, v.pending[k]));
        lemma_ancestor_known(h, z, root);
        if id.counter < z.counter {
            lemma_lamport_grows(h, id, z);
        }
        assert(h.lamport_cut(bound).covers(id));
    }
}

/// Where every entry that waits on a side has a clock value below `bound`,
/// all that comes before the root of that side is explored or has a clock
/// value below `bound`.
pub proof fn lemma_side_cover(h: History, root: ID, v: SideView, bound: int, id: ID)
    requires
        h.wf(),
        side_ok(h, root, v),
        forall|k: int| 0 <= k < v.pending.len() ==> (#[trigger] v.pending[k]).0 < bound,
        h.is_ancestor(id, root),
    ensures
        v.in_region(id) || h.lamport_of(id) < bound,
{
    let below = h.lamport_cut(bound);
    let cut = side_cut(h, v, bound);
    lemma_lamport_cut(h, bound);
    assert forall|client: ClientID| #[trigger] cut.end(client) <= h.vv(client) by {
        assert(below.end(client) <= h.vv(client));
        assert(region_ok(h, root, v, client));
    }
    assert forall|client: ClientID, i: int, j: int|
        h.has_replica(client) && 0 <= i < h.logs[client].len() && 0 <= j
            < h.logs[client][i].deps.len() && h.logs[client][i].start() < cut.end(
            client,
        ) implies cut.covers(#[trigger] h.logs[client][i].deps[j]) by {
        let dep = h.logs[client][i].deps[j];
        assert(h.dep_ok(h.logs[client][i], dep));
        if h.logs[client][i].start() < below.end(client) {
            assert(below.covers(h.logs[client][i].deps[j]));
        } else {
            lemma_region_bottom(h, root, v, bound, client);
            assert(v.dominated(h.logs[client][i].deps[j]));
            lemma_dominated_covered(h, root, v, bound, dep);
        }
    }
    lemma_dominated_covered(h, root, v, bound, root);
    assert(h.cut_closed(cut) && cut.covers(root));
    assert(cut.covers(id));
    lemma_ancestor_known(h, id, root);
    if !(id.counter < below.end(id.client_id)) {
        lemma_region_bottom(h, root, v, bound, id.client_id);
    } else {
        assert(below.covers(id));
    }
}

/// A common ancestor that a search has found, with its clock value.
#[derive(Clone, Copy, Debug, PartialEq, Eq, Structural)]
pub struct Candidate {
    pub lamport: Lamport,
    pub id: ID,
}

/// What holds of the best common ancestor found so far: it is a common
/// ancestor, with its clock value, and it is preferred over all that both
/// sides have explored.
pub open spec fn best_ok(
    h: History,
    first: ID,
    second: ID,
    va: SideView,
    vb: SideView,
    best: Option<Candidate>,
) -> bool {
    &&& best matches Some(found) ==> found.lamport == h.lamport_of(found.id) && h.is_common_ancestor(
        found.id,
        first,
        second,
    )
    &&& forall|id: ID|
        #[trigger] va.in_region(id) && vb.in_region(id) ==> best is Some && h.preferred(
            best->0.id,
            id,
        )
}

/// The operation that `best` names, if it names one.
pub open spec fn found_id(best: Option<Candidate>) -> Option<ID> {
    match best {
        Some(found) => Some(found.id),
        None => None,
    }
}

/// A search may end once every entry that waits has a clock value below
/// that of the best common ancestor found, or none waits: the best found
/// is then the greatest common ancestor.
pub proof fn lemma_search_done(
    h: History,
    first: ID,
    second: ID,
    va: SideView,
    vb: SideView,
    best: Option<Candidate>,
    bound: int,
)
    requires
        h.wf(),
        side_ok(h, first, va),
        side_ok(h, second, vb),
        best_ok(h, first, second, va, vb, best),
        forall|k: int| 0 <= k < va.pending.len() ==> (#[trigger] va.pending[k]).0 < bound,
        forall|k: int| 0 <= k < vb.pending.len() ==> (#[trigger] vb.pending[k]).0 < bound,
        bound <= 0 || (best is Some && best->0.lamport >= bound),
    ensures
        h.is_gca(first, second, found_id(best)),
{
    assert forall|other: ID| #[trigger] h.is_common_ancestor(other, first, second) implies best
        is Some && h.preferred(best->0.id, other) by {
        lemma_side_cover(h, first, va, bound, other);
        lemma_side_cover(h, second, vb, bound, other);
        lemma_ancestor_known(h, other, first);
        lemma_known_position(h, other);
        if va.in_region(other) && vb.in_region(other) {
        } else {
            assert(h.lamport_of(other) < bound);
        }
    }
}

/// Being preferred is transitive.
pub proof fn lemma_preferred_trans(h: History, x: ID, y: ID, z: ID)
    requires
        h.preferred(x, y),
        h.preferred(y, z),
    ensures
        h.preferred(x, z),
{
}

/// After one side has explored more of `client`, the best common ancestor
/// is the better of the best found before and the last operation of `client`
/// that both sides have explored.
pub proof fn lemma_best_update(
    h: History,
    first: ID,
    second: ID,
    va: SideView,
    vb: SideView,
    va2: SideView,
    vb2: SideView,
    best: Option<Candidate>,
    best2: Option<Candidate>,
    client: ClientID,
)
    requires
        h.wf(),
        side_ok(h, first, va2),
        side_ok(h, second, vb2),
        best_ok(h, first, second, va, vb, best),
        forall|id: ID|
            id.client_id != client ==> (#[trigger] va2.in_region(id) <==> va.in_region(id)),
        forall|id: ID|
            id.client_id != client ==> (#[trigger] vb2.in_region(id) <==> vb.in_region(id)),
        best2 matches Some(found) ==> found.lamport == h.lamport_of(found.id) && h.is_common_ancestor(
            found.id,
            first,
            second,
        ),
        best matches Some(found) ==> best2 is Some && h.preferred(best2->0.id, found.id),
        va2.reached(client) && vb2.reached(client) && overlap(va2, vb2, client) ==> best2 is Some
            && h.preferred(best2->0.id, shared_top(va2, vb2, client)),
    ensures
        best_ok(h, first, second, va2, vb2, best2),
{
    assert forall|id: ID| #[trigger] va2.in_region(id) && vb2.in_region(id) implies best2 is Some
        && h.preferred(best2->0.id, id) by {
        if id.client_id == client {
            let top = shared_top(va2, vb2, client);
            lemma_region_ancestor(h, first, va2, id);
            assert(region_ok(h, first, va2, client));
            assert(region_ok(h, second, vb2, client));
            if id.counter < top.counter {
                lemma_ancestor_known(h, va2.top(client), first);
                lemma_ancestor_known(h, vb2.top(client), second);
                lemma_lamport_grows(h, id, top);
            }
            assert(h.preferred(top, id));
            lemma_preferred_trans(h, best2->0.id, top, id);
        } else {
            assert(va.in_region(id) && vb.in_region(id));
            lemma_preferred_trans(h, best2->0.id, best->0.id, id);
        }
    }
}

/// Both sides have explored some operation of `client` in common.
pub open spec fn overlap(va: SideView, vb: SideView, client: ClientID) -> bool {
    va.regions[client].lo < vb.regions[client].hi && vb.regions[client].lo < va.regions[client].hi
}

/// The last operation of `client` that both sides have explored.
pub open spec fn shared_top(va: SideView, vb: SideView, client: ClientID) -> ID {
    ID {
        client_id: client,
        counter: if va.regions[client].hi <= vb.regions[client].hi {
            (va.regions[client].hi - 1) as Counter
        } else {
            (vb.regions[client].hi - 1) as Counter
        },
    }
}

/// What a side has yet to explore of `client` at most: all that is known of
/// it, or what lies below the explored.
pub open spec fn potential(h: History, v: SideView, client: ClientID) -> int {
    if v.reached(client) {
        v.regions[client].lo as int
    } else {
        h.vv(client)
    }
}

/// The sum of the potentials of the first `upto` of `clients`.
pub open spec fn total_potential(clients: Seq<ClientID>, h: History, v: SideView, upto: int) -> int
    decreases upto,
{
    if upto <= 0 {
        0
    } else {
        total_potential(clients, h, v, upto - 1) + potential(h, v, clients[upto - 1])
    }
}

pub proof fn lemma_potential_bounds(clients: Seq<ClientID>, h: History, v: SideView, upto: int)
    requires
        h.wf(),
        0 <= upto <= clients.len(),
    ensures
        total_potential(clients, h, v, upto) >= 0,
    decreases upto,
{
    if upto > 0 {
        lemma_potential_bounds(clients, h, v, upto - 1);
        lemma_history_logs(h, clients[upto - 1]);
    }
}

/// Exploring more of one replica lowers the sum of the potentials.
pub proof fn lemma_potential_step(
    clients: Seq<ClientID>,
    h: History,
    v: SideView,
    v2: SideView,
    j: int,
    upto: int,
)
    requires
        0 <= j < clients.len(),
        0 <= upto <= clients.len(),
        forall|i: int, k: int|
            0 <= i < k < clients.len() ==> #[trigger] clients[i] != #[trigger] clients[k],
        forall|client: ClientID|
            client != clients[j] ==> #[trigger] potential(h, v2, client) == potential(h, v, client),
        potential(h, v2, clients[j]) < potential(h, v, clients[j]),
    ensures
        total_potential(clients, h, v2, upto) <= total_potential(clients, h, v, upto) - (if upto
            > j {
            1int
        } else {
            0int
        }),
    decreases upto,
{
    if upto > 0 {
        lemma_potential_step(clients, h, v, v2, j, upto - 1);
        if upto - 1 != j {
            if upto - 1 < j {
                assert(clients[upto - 1] != clients[j]);
            } else {
                assert(clients[j] != clients[upto - 1]);
            }
            assert(potential(h, v2, clients[upto - 1]) == potential(h, v, clients[upto - 1]));
        }
    }
}

/// Taking an entry without exploring leaves the potentials as they are.
pub proof fn lemma_potential_same(
    clients: Seq<ClientID>,
    h: History,
    v: SideView,
    v2: SideView,
    upto: int,
)
    requires
        0 <= upto <= clients.len(),
        v2.regions == v.regions,
    ensures
        total_potential(clients, h, v2, upto) == total_potential(clients, h, v, upto),
    decreases upto,
{
    if upto > 0 {
        lemma_potential_same(clients, h, v, v2, upto - 1);
    }
}

/// From `v` to `v2` a side has explored more of `client`, and changed
/// nothing of what it has explored of the other replicas.
pub open spec fn explored_more(h: History, v: SideView, v2: SideView, client: ClientID) -> bool {
    &&& h.has_replica(client)
    &&& v2.regions.dom() == v.regions.dom().insert(client)
    &&& potential(h, v2, client) < potential(h, v, client)
    &&& forall|other: ClientID|
        other != client && v.reached(other) ==> #[trigger] v2.regions[other] == v.regions[other]
}

} // verus!
