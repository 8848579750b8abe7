use vstd::prelude::*;
use std::collections::HashMap;
use crate::ancestry::lemma_ancestor_known;
use crate::dag::Dag;
use crate::history::{lemma_known_position};
use crate::id::{ClientID, Counter, Lamport, ID};
use crate::node::DagNode;
use crate::search_state::{
    added_for, added_ok, appears, before_node, best_ok, explored, item_ok,
    lemma_best_update, lemma_potential_bounds, lemma_potential_same, lemma_potential_step,
    lemma_region_ancestor, lemma_search_done, lemma_side_drop,
    lemma_side_explore, lemma_side_start, overlap, region_ok, shared_top, side_ok,
    explored_more, total_potential, without, Candidate, Region, SideView,
};

verus! {

broadcast use vstd::std_specs::hash::group_hash_axioms;

/// One side of a search for common ancestors.
struct SearchSide {
    regions: HashMap<ClientID, Region>,
    queue: Vec<(Lamport, ID)>,
}

impl SearchSide {
    spec fn view(&self) -> SideView {
        SideView { regions: self.regions@, pending: self.queue@ }
    }

    fn new(root: ID, lamport: Lamport) -> (side: Self)
        ensures
            side@ == (SideView { regions: Map::empty(), pending: seq![(lamport, root)] }),
    {
        let mut queue: Vec<(Lamport, ID)> = Vec::new();
        queue.push((lamport, root));
        let side = SearchSide { regions: HashMap::new(), queue };
        assert(side.queue@ =~= seq![(lamport, root)]);
        side
    }

    /// Where an entry with the latest clock value waits, if any waits.
    fn peek_max(&self) -> (at: Option<usize>)
        ensures
            match at {
                Some(i) => i < self.queue.len() && forall|k: int|
                    0 <= k < self.queue.len() ==> (#[trigger] self.queue@[k]).0
                        <= self.queue@[i as int].0,
                None => self.queue.len() == 0,
            },
    {
        if self.queue.len() == 0 {
            return None;
        }
        let mut best: usize = 0;
        let mut k: usize = 1;
        while k < self.queue.len()
            invariant
                best < k <= self.queue.len(),
                forall|m: int| 0 <= m < k ==> (#[trigger] self.queue@[m]).0
                    <= self.queue@[best as int].0,
            decreases self.queue.len() - k,
        {
            if self.queue[k].0 > self.queue[best].0 {
                best = k;
            }
            k += 1;
        }
        Some(best)
    }

    /// What is explored of `client`, if anything is.
    fn region(&self, client: ClientID) -> (region: Option<Region>)
        ensures
            match region {
                Some(region) => self@.reached(client) && self@.regions[client] == region,
                None => !self@.reached(client),
            },
    {
        match self.regions.get(&client) {
            Some(region) => Some(*region),
            None => None,
        }
    }
}

/// No entry of the side has a later clock value than the entry at `at`.
spec fn is_latest(v: SideView, at: int) -> bool {
    forall|k: int| 0 <= k < v.pending.len() ==> (#[trigger] v.pending[k]).0 <= v.pending[at].0
}

/// The one of two common ancestors that is preferred: that with the later
/// clock value, and of two with one clock value that of the lower replica.
fn prefer(one: Candidate, other: Candidate) -> (better: Candidate)
    ensures
        better == one || better == other,
        better.lamport > one.lamport || (better.lamport == one.lamport && better.id.client_id
            <= one.id.client_id),
        better.lamport > other.lamport || (better.lamport == other.lamport
            && better.id.client_id <= other.id.client_id),
{
    if one.lamport > other.lamport || (one.lamport == other.lamport && one.id.client_id
        <= other.id.client_id) {
        one
    } else {
        other
    }
}

impl<N: DagNode> Dag<N> {
    /// Takes the entry at `at`, which has the latest clock value of those
    /// that wait on this side. Where it waits just below what is explored of
    /// its replica, or on a replica not reached yet, its node is explored:
    /// what the node depends on and the operation below the node are put to
    /// wait. Says the replica of which more is explored now, if any.
    fn search_step(&self, side: &mut SearchSide, at: usize, Ghost(root): Ghost<ID>) -> (changed:
        Option<ClientID>)
        requires
            self.wf(),
            side_ok(self@.history, root, old(side)@),
            at < old(side)@.pending.len(),
            is_latest(old(side)@, at as int),
        ensures
            side_ok(self@.history, root, final(side)@),
            match changed {
                None => final(side)@.regions == old(side)@.regions && final(side)@.pending
                    == without(old(side)@.pending, at as int),
                Some(client) => explored_more(self@.history, old(side)@, final(side)@, client),
            },
    {
        let ghost h = self@.history;
        let ghost v = side@;
        let (lamport, id) = side.queue.swap_remove(at);
        let client = id.client_id;
        proof {
            assert(item_ok(h, root, v.pending[at as int]));
            lemma_ancestor_known(h, id, root);
            lemma_known_position(h, id);
            assert(region_ok(h, root, v, client));
        }
        let ghost rest = side.queue@;
        let node = match self.get(id) {
            Some(node) => node,
            None => {
                proof {
                    assert(false);
                }
                return None;
            },
        };
        let start = node.id().counter;
        let hi: Counter = match side.region(client) {
            None => id.counter + 1,
            Some(region) => {
                if id.counter + 1 != region.lo {
                    proof {
                        lemma_side_drop(h, root, v, at as int);
                    }
                    return None;
                }
                region.hi
            },
        };
        let deps = node.deps();
        let mut j: usize = 0;
        while j < deps.len()
            invariant
                self.wf(),
                h == self@.history,
                deps@ == h.node_of(id).deps,
                j <= deps.len(),
                side.regions@ == v.regions,
                side.queue@.len() >= rest.len(),
                side.queue@.take(rest.len() as int) == rest,
                forall|m: int|
                    0 <= m < j ==> appears(side.queue@.skip(rest.len() as int), #[trigger] deps@[m]),
                forall|k: int|
                    rest.len() <= k < side.queue@.len() ==> added_ok(
                        h,
                        h.node_of(id),
                        #[trigger] side.queue@[k],
                    ),
                forall|m: int| 0 <= m < deps@.len() ==> h.contains(#[trigger] deps@[m]),
            decreases deps.len() - j,
        {
            let dep = deps[j];
            let ghost before = side.queue@;
            match self.lamport_of(dep) {
                Some(older) => {
                    side.queue.push((older, dep));
                },
                None => {
                    proof {
                        assert(h.contains(deps@[j as int]));
                        assert(false);
                    }
                },
            }
            proof {
                let added = side.queue@.skip(rest.len() as int);
                assert(side.queue@.take(rest.len() as int) =~= before.take(rest.len() as int));
                assert(added[before.len() - rest.len()].1 == dep);
                assert forall|m: int| 0 <= m < j + 1 implies appears(
                    added,
                    #[trigger] deps@[m],
                ) by {
                    if m < j {
                        let w = choose|w: int|
                            0 <= w < before.skip(rest.len() as int).len() && (#[trigger] before.skip(
                                rest.len() as int,
                            )[w]).1 == deps@[m];
                        assert(added[w].1 == deps@[m]);
                    }
                }
                assert(h.node_of(id).deps.contains(dep));
            }
            j += 1;
        }
        if start > 0 {
            let below = ID::new(client, start - 1);
            let ghost before = side.queue@;
            match self.lamport_of(below) {
                Some(older) => {
                    side.queue.push((older, below));
                },
                None => {
                    proof {
                        assert(false);
                    }
                },
            }
            proof {
                let added = side.queue@.skip(rest.len() as int);
                assert(side.queue@.take(rest.len() as int) =~= before.take(rest.len() as int));
                assert(added[before.len() - rest.len()].1 == below);
                assert(below == before_node(h.node_of(id)));
                assert forall|m: int| 0 <= m < deps@.len() implies appears(
                    added,
                    #[trigger] deps@[m],
                ) by {
                    let w = choose|w: int|
                        0 <= w < before.skip(rest.len() as int).len() && (#[trigger] before.skip(
                            rest.len() as int,
                        )[w]).1 == deps@[m];
                    assert(added[w].1 == deps@[m]);
                }
            }
        }
        side.regions.insert(client, Region { lo: start, hi });
        proof {
            let added = side.queue@.skip(rest.len() as int);
            assert forall|k: int| 0 <= k < added.len() implies added_ok(
                h,
                h.node_of(id),
                #[trigger] added[k],
            ) by {
                assert(added[k] == side.queue@[rest.len() + k]);
            }
            assert(added_for(h, h.node_of(id), added));
            assert(side.queue@ =~= rest + added);
            lemma_side_explore(h, root, v, at as int, added);
            assert(side@ == explored(h, v, at as int, added));
        }
        Some(client)
    }
}

impl<N: DagNode> Dag<N> {
    /// The last operation of `client` that both sides have explored, if they
    /// have explored one in common.
    fn shared_candidate(
        &self,
        first: &SearchSide,
        second: &SearchSide,
        client: ClientID,
        Ghost(a): Ghost<ID>,
        Ghost(b): Ghost<ID>,
    ) -> (found: Option<Candidate>)
        requires
            self.wf(),
            side_ok(self@.history, a, first@),
            side_ok(self@.history, b, second@),
        ensures
            match found {
                Some(found) => first@.reached(client) && second@.reached(client) && overlap(
                    first@,
                    second@,
                    client,
                ) && found.id == shared_top(first@, second@, client) && found.lamport
                    == self@.history.lamport_of(found.id) && self@.history.is_common_ancestor(
                    found.id,
                    a,
                    b,
                ),
                None => !(first@.reached(client) && second@.reached(client) && overlap(
                    first@,
                    second@,
                    client,
                )),
            },
    {
        let ghost h = self@.history;
        let ours = match first.region(client) {
            Some(region) => region,
            None => {
                return None;
            },
        };
        let theirs = match second.region(client) {
            Some(region) => region,
            None => {
                return None;
            },
        };
        if !(ours.lo < theirs.hi && theirs.lo < ours.hi) {
            return None;
        }
        proof {
            assert(region_ok(h, a, first@, client));
            assert(region_ok(h, b, second@, client));
        }
        let top: Counter = if ours.hi <= theirs.hi {
            ours.hi - 1
        } else {
            theirs.hi - 1
        };
        let id = ID::new(client, top);
        proof {
            lemma_region_ancestor(h, a, first@, id);
            lemma_region_ancestor(h, b, second@, id);
        }
        match self.lamport_of(id) {
            Some(lamport) => Some(Candidate { lamport, id }),
            None => None,
        }
    }

    /// The greatest common ancestor of the operations at `first` and
    /// `second`: the operation that came before both, or is one of them and
    /// came before the other, and that is preferred over every other such
    /// operation. The later clock value is preferred, and of two operations
    /// with one clock value that of the replica with the lower identifier.
    /// Nothing where no operation came before both, or where one of the two
    /// is not known.
    ///
    /// An operation comes after the operations before it on its own replica,
    /// and the first operation of a node after all that the node depends on.
    ///
    /// The search walks back from both operations, latest clock value first,
    /// and ends as soon as nothing that waits to be explored can be preferred
    /// over the best common ancestor found.
    pub fn get_common_ancestor(&self, first: ID, second: ID) -> (found: Option<ID>)
        requires
            self.wf(),
        ensures
            self@.history.is_gca(first, second, found),
    {
        let ghost h = self@.history;
        let ghost clients = self.replicas();
        let lamport_first = match self.lamport_of(first) {
            Some(lamport) => lamport,
            None => {
                return None;
            },
        };
        let lamport_second = match self.lamport_of(second) {
            Some(lamport) => lamport,
            None => {
                return None;
            },
        };
        let mut ours = SearchSide::new(first, lamport_first);
        let mut theirs = SearchSide::new(second, lamport_second);
        let mut best: Option<Candidate> = None;
        proof {
            lemma_side_start(h, first);
            lemma_side_start(h, second);
            self.lemma_replicas_known();
        }
        loop
            invariant
                self.wf(),
                h == self@.history,
                clients == self.replicas(),
                side_ok(h, first, ours@),
                side_ok(h, second, theirs@),
                best_ok(h, first, second, ours@, theirs@, best),
            decreases
                    total_potential(clients, h, ours@, clients.len() as int) + total_potential(
                        clients,
                        h,
                        theirs@,
                        clients.len() as int,
                    ),
                    ours@.pending.len() + theirs@.pending.len(),
        {
            let at_ours = ours.peek_max();
            let at_theirs = theirs.peek_max();
            let (on_ours, at, latest): (bool, usize, Lamport) = match (at_ours, at_theirs) {
                (None, None) => {
                    proof {
                        lemma_search_done(h, first, second, ours@, theirs@, best, 0);
                    }
                    return match best {
                        Some(found) => Some(found.id),
                        None => None,
                    };
                },
                (Some(i), None) => (true, i, ours.queue[i].0),
                (None, Some(k)) => (false, k, theirs.queue[k].0),
                (Some(i), Some(k)) => {
                    if ours.queue[i].0 >= theirs.queue[k].0 {
                        (true, i, ours.queue[i].0)
                    } else {
                        (false, k, theirs.queue[k].0)
                    }
                },
            };
            match best {
                Some(found) => {
                    if found.lamport > latest {
                        proof {
                            lemma_search_done(
                                h,
                                first,
                                second,
                                ours@,
                                theirs@,
                                best,
                                latest as int + 1,
                            );
                        }
                        return Some(found.id);
                    }
                },
                None => {},
            }
            let ghost before_ours = ours@;
            let ghost before_theirs = theirs@;
            proof {
                self.lemma_replicas_known();
                lemma_potential_bounds(clients, h, ours@, clients.len() as int);
                lemma_potential_bounds(clients, h, theirs@, clients.len() as int);
            }
            let changed = if on_ours {
                self.search_step(&mut ours, at, Ghost(first))
            } else {
                self.search_step(&mut theirs, at, Ghost(second))
            };
            match changed {
                None => {
                    proof {
                        lemma_potential_same(
                            clients,
                            h,
                            before_ours,
                            ours@,
                            clients.len() as int,
                        );
                        lemma_potential_same(
                            clients,
                            h,
                            before_theirs,
                            theirs@,
                            clients.len() as int,
                        );
                        assert forall|id: ID| #[trigger]
                            ours@.in_region(id) && theirs@.in_region(id) implies best is Some
                            && h.preferred(best->0.id, id) by {
                            assert(before_ours.in_region(id) && before_theirs.in_region(id));
                        }
                    }
                },
                Some(client) => {
                    let shared = self.shared_candidate(
                        &ours,
                        &theirs,
                        client,
                        Ghost(first),
                        Ghost(second),
                    );
                    let ghost old_best = best;
                    best =
                    match (best, shared) {
                        (Some(one), Some(other)) => Some(prefer(one, other)),
                        (Some(one), None) => Some(one),
                        (None, other) => other,
                    };
                    proof {
                        let j = choose|j: int|
                            0 <= j < clients.len() && #[trigger] clients[j] == client;
                        if on_ours {
                            lemma_potential_step(
                                clients,
                                h,
                                before_ours,
                                ours@,
                                j,
                                clients.len() as int,
                            );
                        } else {
                            lemma_potential_step(
                                clients,
                                h,
                                before_theirs,
                                theirs@,
                                j,
                                clients.len() as int,
                            );
                        }
                        lemma_best_update(
                            h,
                            first,
                            second,
                            before_ours,
                            before_theirs,
                            ours@,
                            theirs@,
                            old_best,
                            best,
                            client,
                        );
                        lemma_potential_bounds(clients, h, ours@, clients.len() as int);
                        lemma_potential_bounds(clients, h, theirs@, clients.len() as int);
                    }
                },
            }
        }
    }
}

} // verus!
