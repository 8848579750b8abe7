use vstd::prelude::*;
use crate::id::ID;

verus! {

/// The positions stand in strictly ascending order of replica, so that no
/// two of them belong to one replica.
pub open spec fn ascending(ids: Seq<ID>) -> bool {
    forall|i: int, j: int|
        0 <= i < j < ids.len() ==> (#[trigger] ids[i]).client_id < (#[trigger] ids[j]).client_id
}

/// Whether `id` is one of `ids`.
pub fn contains_id(ids: &[ID], id: ID) -> (found: bool)
    ensures
        found == ids@.contains(id),
{
    let mut i: usize = 0;
    while i < ids.len()
        invariant
            i <= ids.len(),
            forall|k: int| 0 <= k < i ==> ids@[k] != id,
        decreases ids.len() - i,
    {
        if ids[i] == id {
            return true;
        }
        i += 1;
    }
    false
}

/// The heads after a node has been admitted: `last`, the node's last
/// operation, replaces the head of its own replica and every head that the
/// node depends on. The order by replica is kept.
pub fn update_frontier(frontier: &mut Vec<ID>, last: ID, deps: &[ID])
    requires
        ascending(old(frontier)@),
    ensures
        ascending(final(frontier)@),
        forall|id: ID|
            #[trigger] final(frontier)@.contains(id) <==> id == last || (old(frontier)@.contains(
                id,
            ) && id.client_id != last.client_id && !deps@.contains(id)),
{
    let ghost before = frontier@;
    let mut out: Vec<ID> = Vec::new();
    let mut placed = false;
    let mut i: usize = 0;
    while i < frontier.len()
        invariant
            frontier@ == before,
            ascending(before),
            i <= before.len(),
            ascending(out@),
            forall|k: int|
                0 <= k < out.len() && i < before.len() ==> (#[trigger] out@[k]).client_id
                    < before[i as int].client_id,
            forall|k: int|
                0 <= k < out.len() && !placed ==> (#[trigger] out@[k]).client_id
                    < last.client_id,
            !placed ==> forall|k: int|
                0 <= k < i ==> (#[trigger] before[k]).client_id <= last.client_id,
            forall|id: ID|
                out@.contains(id) <==> (placed && id == last) || (exists|k: int|
                    0 <= k < i && #[trigger] before[k] == id && id.client_id != last.client_id
                        && !deps@.contains(id)),
        decreases before.len() - i,
    {
        let here = frontier[i];
        let ghost old_out = out@;
        if !placed && here.client_id > last.client_id {
            out.push(last);
            placed = true;
        }
        let ghost mid_out = out@;
        let keep = here.client_id != last.client_id && !contains_id(deps, here);
        if keep {
            out.push(here);
        }
        proof {
            let new_out = out@;
            assert forall|id: ID|
                new_out.contains(id) <==> (placed && id == last) || (exists|k: int|
                    0 <= k < i + 1 && #[trigger] before[k] == id && id.client_id
                        != last.client_id && !deps@.contains(id)) by {
                if new_out.contains(id) {
                    let k = choose|k: int| 0 <= k < new_out.len() && new_out[k] == id;
                    if k < old_out.len() {
                        assert(old_out[k] == id);
                        assert(old_out.contains(id));
                    } else if k < mid_out.len() {
                        assert(id == last);
                    } else {
                        assert(id == here);
                        assert(before[i as int] == id);
                    }
                }
                if placed && id == last {
                    if old_out.contains(id) {
                        let k = choose|k: int| 0 <= k < old_out.len() && old_out[k] == id;
                        assert(new_out[k] == id);
                    } else {
                        assert(mid_out[old_out.len() as int] == last);
                        assert(new_out[old_out.len() as int] == last);
                    }
                }
                if exists|k: int|
                    0 <= k < i + 1 && #[trigger] before[k] == id && id.client_id
                        != last.client_id && !deps@.contains(id) {
                    let k = choose|k: int|
                        0 <= k < i + 1 && #[trigger] before[k] == id && id.client_id
                            != last.client_id && !deps@.contains(id);
                    if k < i {
                        assert(old_out.contains(id));
                        let m = choose|m: int| 0 <= m < old_out.len() && old_out[m] == id;
                        assert(new_out[m] == id);
                    } else {
                        assert(new_out[new_out.len() - 1] == id);
                    }
                }
            }
            assert forall|a: int, b: int| 0 <= a < b < new_out.len() implies (#[trigger] new_out[a]).client_id
                < (#[trigger] new_out[b]).client_id by {
                if b < old_out.len() {
                    assert(old_out[a] == new_out[a] && old_out[b] == new_out[b]);
                } else if a < old_out.len() {
                    assert(old_out[a] == new_out[a]);
                }
            }
            assert forall|k: int|
                0 <= k < new_out.len() && i + 1 < before.len() implies (#[trigger] new_out[k]).client_id
                    < before[i + 1].client_id by {
                assert(before[i as int].client_id < before[i + 1].client_id);
                if k < old_out.len() {
                    assert(old_out[k] == new_out[k]);
                }
            }
            assert forall|k: int| 0 <= k < new_out.len() && !placed implies (#[trigger] new_out[k]).client_id
                < last.client_id by {
                if k < old_out.len() {
                    assert(old_out[k] == new_out[k]);
                }
            }
        }
        i += 1;
    }
    if !placed {
        let ghost old_out = out@;
        out.push(last);
        proof {
            let new_out = out@;
            assert(new_out[old_out.len() as int] == last);
            assert forall|id: ID|
                new_out.contains(id) <==> id == last || (before.contains(id) && id.client_id
                    != last.client_id && !deps@.contains(id)) by {
                if new_out.contains(id) {
                    let k = choose|k: int| 0 <= k < new_out.len() && new_out[k] == id;
                    if k < old_out.len() {
                        assert(old_out[k] == id);
                        assert(old_out.contains(id));
                    }
                }
                if before.contains(id) && id.client_id != last.client_id && !deps@.contains(id) {
                    let k = choose|k: int| 0 <= k < before.len() && before[k] == id;
                    assert(old_out.contains(id));
                    let m = choose|m: int| 0 <= m < old_out.len() && old_out[m] == id;
                    assert(new_out[m] == id);
                }
            }
            assert forall|a: int, b: int| 0 <= a < b < new_out.len() implies (#[trigger] new_out[a]).client_id
                < (#[trigger] new_out[b]).client_id by {
                if b < old_out.len() {
                    assert(old_out[a] == new_out[a] && old_out[b] == new_out[b]);
                } else {
                    assert(old_out[a] == new_out[a]);
                }
            }
        }
    } else {
        proof {
            assert forall|id: ID|
                out@.contains(id) <==> id == last || (before.contains(id) && id.client_id
                    != last.client_id && !deps@.contains(id)) by {
                if before.contains(id) && id.client_id != last.client_id && !deps@.contains(id) {
                    let k = choose|k: int| 0 <= k < before.len() && before[k] == id;
                    assert(before[k] == id);
                }
            }
        }
    }
    *frontier = out;
}

} // verus!
