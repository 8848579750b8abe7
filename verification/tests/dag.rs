use loro_core::dag::{Dag, TestDag};
use loro_core::error::DagError;
use loro_core::id::ID;
use loro_core::node::{DagNode, Node};

fn dag(client_id: u64) -> Dag<Node> {
    Dag::new(client_id)
}

#[test]
fn test_dag() {
    let mut a = TestDag::new(0);
    let mut b = TestDag::new(1);
    a.push(1).unwrap();
    assert_eq!(a.frontier().len(), 1);
    assert_eq!(a.frontier()[0].counter, 0);
    b.push(1).unwrap();
    a.merge(&b).unwrap();
    assert_eq!(a.frontier().len(), 2);
    a.push(1).unwrap();
    assert_eq!(a.frontier().len(), 1);
    // a:   0 --(merge)--- 1
    //            ↑
    //            |
    // b:   0 ----
    assert_eq!(
        a.frontier()[0],
        ID {
            client_id: 0,
            counter: 1
        }
    );

    // a:   0 --(merge)--- 1 --- 2 -------
    //            ↑                      |
    //            |                     ↓
    // b:   0 ------------1----------(merge)
    a.push(1).unwrap();
    b.push(1).unwrap();
    b.merge(&a).unwrap();
    assert_eq!(b.next_lamport(), 3);
    assert_eq!(b.frontier().len(), 2);
    assert_eq!(
        b.get_common_ancestor(ID::new(0, 2), ID::new(1, 1)),
        Some(ID::new(1, 0))
    );
}

#[test]
fn two_replicas_step_by_step() {
    let mut a = dag(0);
    let mut b = dag(1);
    a.push(1).unwrap();
    assert_eq!(a.frontier(), &[ID::new(0, 0)]);
    b.push(1).unwrap();
    assert_eq!(b.frontier(), &[ID::new(1, 0)]);
    a.merge(&b).unwrap();
    assert_eq!(a.frontier(), &[ID::new(0, 0), ID::new(1, 0)]);
    a.push(1).unwrap();
    assert_eq!(a.frontier(), &[ID::new(0, 1)]);
    let node = a.get(ID::new(0, 1)).unwrap();
    assert_eq!(node.deps(), &[ID::new(0, 0), ID::new(1, 0)]);
    assert_eq!(node.lamport(), 1);
    a.push(1).unwrap();
    b.push(1).unwrap();
    b.merge(&a).unwrap();
    assert_eq!(b.frontier(), &[ID::new(0, 2), ID::new(1, 1)]);
    assert_eq!(b.version_vector(), vec![(0, 3), (1, 2)]);
    assert_eq!(
        b.get_common_ancestor(ID::new(0, 2), ID::new(1, 1)),
        Some(ID::new(1, 0))
    );
    assert_eq!(
        b.get_common_ancestor(ID::new(1, 1), ID::new(0, 2)),
        Some(ID::new(1, 0))
    );
}

#[test]
fn push_makes_the_end_of_the_span_the_only_head() {
    let mut a = dag(4);
    let mut counter = 0u32;
    let mut lamport = 0u64;
    for len in [1usize, 5, 2, 9, 1] {
        a.push(len).unwrap();
        counter += len as u32;
        lamport += len as u64;
        assert_eq!(a.frontier(), &[ID::new(4, counter - 1)]);
        assert_eq!(a.version_of(4), counter);
        assert_eq!(a.next_lamport(), lamport);
    }
    let last = a.get(ID::new(4, counter - 1)).unwrap();
    assert_eq!(last.id(), ID::new(4, 17));
    assert_eq!(last.len(), 1);
    assert_eq!(last.lamport(), 17);
    assert_eq!(last.deps(), &[ID::new(4, 16)]);
}

#[test]
fn push_of_nothing_is_refused() {
    let mut a = dag(7);
    assert_eq!(a.push(0), Err(DagError::InvalidArgument));
    assert_eq!(a.frontier().len(), 0);
    assert_eq!(a.next_lamport(), 0);
    a.push(3).unwrap();
    assert_eq!(a.push(0), Err(DagError::InvalidArgument));
    assert_eq!(a.frontier(), &[ID::new(7, 2)]);
    assert_eq!(a.version_of(7), 3);
    assert_eq!(DagError::InvalidArgument.message(), "invalid argument");
    assert_eq!(DagError::InconsistentHistory.message(), "inconsistent history");
}

#[test]
fn contains_goes_by_the_version_vector() {
    let mut a = dag(7);
    assert!(!a.contains(ID::new(7, 0)));
    a.push(3).unwrap();
    assert!(a.contains(ID::new(7, 0)));
    assert!(a.contains(ID::new(7, 2)));
    assert!(!a.contains(ID::new(7, 3)));
    assert!(!a.contains(ID::new(8, 0)));
    assert_eq!(a.version_of(8), 0);
    assert!(a.get(ID::new(8, 0)).is_none());
    assert!(a.get(ID::new(7, 3)).is_none());
    assert_eq!(a.lamport_of(ID::new(7, 2)), Some(2));
    assert_eq!(a.lamport_of(ID::new(7, 3)), None);
}

#[test]
fn get_finds_the_node_that_holds_the_position() {
    let mut a = dag(2);
    a.push(4).unwrap();
    a.push(1).unwrap();
    a.push(6).unwrap();
    for counter in 0..4 {
        assert_eq!(a.get(ID::new(2, counter)).unwrap().id(), ID::new(2, 0));
    }
    assert_eq!(a.get(ID::new(2, 4)).unwrap().id(), ID::new(2, 4));
    for counter in 5..11 {
        let node = a.get(ID::new(2, counter)).unwrap();
        assert_eq!(node.id(), ID::new(2, 5));
        assert_eq!(node.len(), 6);
        assert_eq!(a.lamport_of(ID::new(2, counter)), Some(counter as u64));
    }
    assert!(a.get(ID::new(2, 11)).is_none());
}

#[test]
fn roots_are_the_nodes_without_dependencies() {
    let mut a = dag(3);
    let mut b = dag(1);
    let mut c = dag(2);
    assert!(a.roots().is_empty());
    a.push(2).unwrap();
    a.push(1).unwrap();
    b.push(1).unwrap();
    c.merge(&a).unwrap();
    c.push(1).unwrap();
    a.merge(&b).unwrap();
    a.merge(&c).unwrap();
    let roots: Vec<ID> = a.roots().iter().map(|node| node.id()).collect();
    assert_eq!(roots, vec![ID::new(1, 0), ID::new(3, 0)]);
}

#[test]
fn merge_takes_nodes_whose_parents_come_later() {
    // replica 0 depends on replica 1, whose log a merge visits after it
    let mut a = dag(0);
    let mut b = dag(1);
    b.push(2).unwrap();
    a.merge(&b).unwrap();
    a.push(3).unwrap();
    b.merge(&a).unwrap();
    b.push(1).unwrap();
    a.merge(&b).unwrap();
    a.push(1).unwrap();
    let mut c = dag(9);
    c.push(1).unwrap();
    assert_eq!(c.merge(&a), Ok(()));
    assert_eq!(c.version_vector(), vec![(0, 4), (1, 3), (9, 1)]);
    assert_eq!(c.frontier(), &[ID::new(0, 3), ID::new(9, 0)]);
    assert_eq!(c.next_lamport(), a.next_lamport());
    for counter in 0..4 {
        assert_eq!(c.get(ID::new(0, counter)), a.get(ID::new(0, counter)));
    }
    for counter in 0..3 {
        assert_eq!(c.get(ID::new(1, counter)), a.get(ID::new(1, counter)));
    }
}

#[test]
fn merge_is_commutative() {
    let mut a = dag(0);
    let mut b = dag(1);
    let mut c = dag(2);
    a.push(2).unwrap();
    b.push(3).unwrap();
    c.push(1).unwrap();
    a.merge(&c).unwrap();
    a.push(1).unwrap();
    b.merge(&c).unwrap();
    b.push(4).unwrap();
    let mut left = dag(0);
    left.merge(&a).unwrap();
    let mut right = dag(1);
    right.merge(&b).unwrap();
    assert_eq!(left.merge(&b), Ok(()));
    assert_eq!(right.merge(&a), Ok(()));
    assert_eq!(left.frontier(), right.frontier());
    assert_eq!(left.frontier(), &[ID::new(0, 2), ID::new(1, 6)]);
    assert_eq!(left.version_vector(), right.version_vector());
    assert_eq!(left.version_vector(), vec![(0, 3), (1, 7), (2, 1)]);
    assert_eq!(left.next_lamport(), right.next_lamport());
    for (client, end) in left.version_vector() {
        for counter in 0..end {
            let id = ID::new(client, counter);
            assert_eq!(left.get(id), right.get(id));
        }
    }
}

#[test]
fn merge_is_idempotent() {
    let mut a = dag(0);
    let mut b = dag(1);
    a.push(2).unwrap();
    b.push(3).unwrap();
    a.merge(&b).unwrap();
    let frontier = a.frontier().to_vec();
    let vv = a.version_vector();
    let clock = a.next_lamport();
    assert_eq!(a.merge(&b), Ok(()));
    assert_eq!(a.frontier(), &frontier[..]);
    assert_eq!(a.version_vector(), vv);
    assert_eq!(a.next_lamport(), clock);
    let mut twin = dag(0);
    twin.merge(&a).unwrap();
    assert_eq!(a.merge(&twin), Ok(()));
    assert_eq!(a.frontier(), &frontier[..]);
    assert_eq!(a.version_vector(), vv);
    assert_eq!(a.next_lamport(), clock);
}

#[test]
fn merge_refuses_histories_that_do_not_fit() {
    // two engines that both claim replica 7, with spans that do not line up
    let mut a = dag(7);
    let mut b = dag(7);
    a.push(1).unwrap();
    b.push(2).unwrap();
    b.push(1).unwrap();
    assert_eq!(a.merge(&b), Err(DagError::InconsistentHistory));
    assert_eq!(a.version_vector(), vec![(7, 1)]);
    assert_eq!(a.frontier(), &[ID::new(7, 0)]);
    assert_eq!(a.next_lamport(), 1);
}

#[test]
fn merge_keeps_what_fits_when_it_fails() {
    let mut a = dag(7);
    let mut b = dag(7);
    let mut c = dag(3);
    c.push(2).unwrap();
    a.push(1).unwrap();
    b.push(2).unwrap();
    b.push(1).unwrap();
    b.merge(&c).unwrap();
    assert_eq!(a.merge(&b), Err(DagError::InconsistentHistory));
    assert_eq!(a.version_vector(), vec![(3, 2), (7, 1)]);
    assert_eq!(a.frontier(), &[ID::new(3, 1), ID::new(7, 0)]);
    assert_eq!(a.next_lamport(), 2);
}

#[test]
fn common_ancestor_of_an_operation_and_itself() {
    let mut a = dag(0);
    let mut b = dag(1);
    a.push(3).unwrap();
    b.push(2).unwrap();
    a.merge(&b).unwrap();
    a.push(2).unwrap();
    for (client, end) in a.version_vector() {
        for counter in 0..end {
            let id = ID::new(client, counter);
            assert_eq!(a.get_common_ancestor(id, id), Some(id));
        }
    }
    assert_eq!(a.get_common_ancestor(ID::new(0, 5), ID::new(0, 5)), None);
    assert_eq!(a.get_common_ancestor(ID::new(0, 1), ID::new(0, 4)), Some(ID::new(0, 1)));
    assert_eq!(a.get_common_ancestor(ID::new(0, 4), ID::new(0, 1)), Some(ID::new(0, 1)));
    assert_eq!(a.get_common_ancestor(ID::new(0, 4), ID::new(1, 0)), Some(ID::new(1, 0)));
    assert_eq!(a.get_common_ancestor(ID::new(0, 2), ID::new(1, 1)), None);
}

#[test]
fn unrelated_histories_have_no_common_ancestor() {
    let mut a = dag(0);
    let mut b = dag(1);
    a.push(2).unwrap();
    b.push(2).unwrap();
    let mut c = dag(2);
    c.merge(&a).unwrap();
    c.merge(&b).unwrap();
    assert_eq!(c.get_common_ancestor(ID::new(0, 1), ID::new(1, 1)), None);
    assert_eq!(c.get_common_ancestor(ID::new(0, 1), ID::new(5, 0)), None);
}

#[test]
fn of_two_merge_bases_the_lower_replica_wins() {
    let mut a = dag(0);
    let mut b = dag(1);
    a.push(1).unwrap();
    b.push(1).unwrap();
    let mut c = dag(2);
    c.merge(&a).unwrap();
    c.merge(&b).unwrap();
    c.push(1).unwrap();
    let mut d = dag(3);
    d.merge(&a).unwrap();
    d.merge(&b).unwrap();
    d.push(1).unwrap();
    d.merge(&c).unwrap();
    assert_eq!(d.lamport_of(ID::new(0, 0)), Some(0));
    assert_eq!(d.lamport_of(ID::new(1, 0)), Some(0));
    assert_eq!(
        d.get_common_ancestor(ID::new(2, 0), ID::new(3, 0)),
        Some(ID::new(0, 0))
    );
    assert_eq!(
        d.get_common_ancestor(ID::new(3, 0), ID::new(2, 0)),
        Some(ID::new(0, 0))
    );
}

#[test]
fn of_two_merge_bases_the_later_clock_wins() {
    let mut a = dag(0);
    let mut b = dag(1);
    a.push(1).unwrap();
    b.push(4).unwrap();
    let mut c = dag(2);
    c.merge(&a).unwrap();
    c.merge(&b).unwrap();
    c.push(1).unwrap();
    let mut d = dag(3);
    d.merge(&a).unwrap();
    d.merge(&b).unwrap();
    d.push(1).unwrap();
    d.merge(&c).unwrap();
    assert_eq!(
        d.get_common_ancestor(ID::new(2, 0), ID::new(3, 0)),
        Some(ID::new(1, 3))
    );
}
