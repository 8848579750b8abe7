use loro_core::dag::Dag;
use loro_core::id::ID;
use loro_core::node::{DagNode, Node};
use proptest::collection::vec as vec_of;
use proptest::strategy::Strategy;
use proptest::test_runner::{Config, RngAlgorithm, TestCaseError, TestRng, TestRunner};
use std::collections::HashSet;

#[derive(Debug, Clone, Copy)]
struct Interaction {
    dag_idx: usize,
    merge_with: Option<usize>,
    len: usize,
}

fn gen_interaction(num: usize) -> impl Strategy<Value = Interaction> {
    (0..num, 0..num, 1..10usize, 0..2).prop_map(|(dag_idx, merge_with, len, should_merge)| {
        Interaction {
            dag_idx,
            merge_with: if should_merge == 1 && merge_with != dag_idx {
                Some(merge_with)
            } else {
                None
            },
            len,
        }
    })
}

fn runner(cases: u32) -> TestRunner {
    let config = Config {
        cases,
        failure_persistence: None,
        ..Config::default()
    };
    TestRunner::new_with_rng(config, TestRng::deterministic_rng(RngAlgorithm::ChaCha))
}

fn apply(interaction: Interaction, dags: &mut [Dag<Node>]) {
    let Interaction {
        dag_idx,
        len,
        merge_with,
    } = interaction;
    dags[dag_idx].push(len).unwrap();
    if let Some(merge_with) = merge_with {
        let (dag, target) = two(dags, dag_idx, merge_with);
        dag.merge(target).unwrap();
    }
}

fn two(dags: &mut [Dag<Node>], one: usize, other: usize) -> (&mut Dag<Node>, &Dag<Node>) {
    assert!(one != other);
    if one < other {
        let (low, high) = dags.split_at_mut(other);
        (&mut low[one], &high[0])
    } else {
        let (low, high) = dags.split_at_mut(one);
        (&mut high[0], &low[other])
    }
}

/// Every known operation lies in exactly one node, and the nodes of a
/// replica follow one another without gap.
fn assert_partition(dag: &Dag<Node>) {
    for (client, end) in dag.version_vector() {
        assert!(end > 0);
        let mut counter = 0u32;
        while counter < end {
            let node = dag.get(ID::new(client, counter)).unwrap();
            assert_eq!(node.id(), ID::new(client, counter));
            assert!(node.len() >= 1);
            for dep in node.deps() {
                assert!(dag.contains(*dep));
                assert!(dag.lamport_of(*dep).unwrap() < node.lamport());
            }
            for inside in counter..counter + node.len() as u32 {
                assert_eq!(dag.get(ID::new(client, inside)).unwrap().id(), node.id());
            }
            counter += node.len() as u32;
        }
        assert_eq!(counter, end);
        assert!(dag.get(ID::new(client, end)).is_none());
    }
}

fn ancestors(dag: &Dag<Node>, of: ID) -> HashSet<ID> {
    let mut seen = HashSet::new();
    let mut stack = vec![of];
    while let Some(id) = stack.pop() {
        if !seen.insert(id) {
            continue;
        }
        let node = dag.get(id).unwrap();
        if id.counter > 0 {
            stack.push(ID::new(id.client_id, id.counter - 1));
        }
        if id == node.id() {
            stack.extend(node.deps().iter().copied());
        }
    }
    seen
}

/// The common ancestor with the latest clock value, and of those with one
/// clock value that of the lowest replica, by intersecting the sets of all
/// ancestors.
fn brute_force(dag: &Dag<Node>, first: ID, second: ID) -> Option<ID> {
    if !dag.contains(first) || !dag.contains(second) {
        return None;
    }
    let ours = ancestors(dag, first);
    let theirs = ancestors(dag, second);
    let mut best: Option<(u64, ID)> = None;
    for id in ours.intersection(&theirs) {
        let lamport = dag.lamport_of(*id).unwrap();
        best = match best {
            Some((l, b)) if l > lamport || (l == lamport && b.client_id <= id.client_id) => {
                Some((l, b))
            }
            _ => Some((lamport, *id)),
        };
    }
    best.map(|(_, id)| id)
}

fn last_node_start(dag: &Dag<Node>, client: u64) -> ID {
    let end = dag.version_of(client);
    dag.get(ID::new(client, end - 1)).unwrap().id()
}

fn preprocess(interactions: &mut [Interaction], num: usize) {
    for interaction in interactions.iter_mut() {
        interaction.dag_idx %= num;
        if let Some(ref mut merge_with) = interaction.merge_with {
            *merge_with %= num;
            if *merge_with == interaction.dag_idx {
                *merge_with = (*merge_with + 1) % num;
            }
        }
    }
}

fn test(
    dag_num: usize,
    mut before_merge_insertion: Vec<Interaction>,
    mut after_merge_insertion: Vec<Interaction>,
) -> Result<(), TestCaseError> {
    preprocess(&mut before_merge_insertion, dag_num);
    preprocess(&mut after_merge_insertion, dag_num);
    let mut dags: Vec<Dag<Node>> = Vec::new();
    for i in 0..dag_num {
        dags.push(Dag::new(i as u64));
    }
    for interaction in before_merge_insertion {
        apply(interaction, &mut dags);
    }
    for i in 1..dag_num {
        let (dag0, dag) = two(&mut dags, 0, i);
        dag0.merge(dag).unwrap();
    }
    dags[0].push(1).unwrap();
    let expected = dags[0].frontier()[0];
    for i in 1..dag_num {
        let (dag, dag0) = two(&mut dags, i, 0);
        dag.merge(dag0).unwrap();
    }
    for interaction in after_merge_insertion.iter_mut() {
        if let Some(merge) = interaction.merge_with {
            // odd dag merges with the odd
            // even dag merges with the even
            if merge % 2 != interaction.dag_idx % 2 {
                interaction.merge_with = None;
            }
        }
        apply(*interaction, &mut dags);
    }
    dags[1].push(1).unwrap();
    let (dag0, dag1) = two(&mut dags, 0, 1);
    dag0.merge(dag1).unwrap();
    for dag in dags.iter() {
        assert_partition(dag);
    }
    let first = last_node_start(&dags[0], 0);
    let second = last_node_start(&dags[1], 1);
    let actual = dags[0].get_common_ancestor(first, second);
    if actual != Some(expected) {
        return Err(TestCaseError::fail(format!(
            "found {:?}, expected {:?}",
            actual, expected
        )));
    }
    if actual != brute_force(&dags[0], first, second) {
        return Err(TestCaseError::fail("differs from the brute-force result"));
    }
    if dags[0].get_common_ancestor(second, first) != actual {
        return Err(TestCaseError::fail("not symmetric"));
    }
    Ok(())
}

fn run(dag_num: usize, max_len: usize, cases: u32) {
    let strategy = (
        vec_of(gen_interaction(dag_num), 0..max_len),
        vec_of(gen_interaction(dag_num), 0..max_len),
    );
    runner(cases)
        .run(&strategy, |(before, after)| test(dag_num, before, after))
        .unwrap();
}

#[test]
fn test_2dags() {
    run(2, 300, 12);
}

#[test]
fn test_3dags() {
    run(3, 300, 12);
}

#[test]
fn test_4dags() {
    run(4, 300, 12);
}

#[test]
fn test_10dags() {
    run(10, 300, 10);
}

#[test]
fn test_100dags() {
    run(100, 400, 3);
}

#[test]
fn common_ancestor_equals_brute_force_on_every_pair() {
    let strategy = vec_of(gen_interaction(4), 0..40);
    runner(24)
        .run(&strategy, |interactions| {
            let mut dags: Vec<Dag<Node>> = (0..4).map(|i| Dag::new(i as u64)).collect();
            for interaction in interactions {
                apply(interaction, &mut dags);
            }
            for i in 1..4 {
                let (dag0, dag) = two(&mut dags, 0, i);
                dag0.merge(dag).unwrap();
            }
            let dag = &dags[0];
            assert_partition(dag);
            let mut ids = Vec::new();
            for (client, end) in dag.version_vector() {
                for counter in 0..end {
                    ids.push(ID::new(client, counter));
                }
            }
            for (n, first) in ids.iter().enumerate() {
                for second in ids.iter().skip(n % 3).step_by(3) {
                    let found = dag.get_common_ancestor(*first, *second);
                    if found != brute_force(dag, *first, *second) {
                        return Err(TestCaseError::fail(format!(
                            "{:?} and {:?}: found {:?}",
                            first, second, found
                        )));
                    }
                }
            }
            Ok(())
        })
        .unwrap();
}

#[test]
fn merges_both_ways_converge() {
    let strategy = vec_of(gen_interaction(5), 0..60);
    runner(24)
        .run(&strategy, |interactions| {
            let mut dags: Vec<Dag<Node>> = (0..5).map(|i| Dag::new(i as u64)).collect();
            for interaction in interactions {
                apply(interaction, &mut dags);
            }
            let mut left: Dag<Node> = Dag::new(0);
            left.merge(&dags[0]).unwrap();
            left.merge(&dags[1]).unwrap();
            let mut right: Dag<Node> = Dag::new(1);
            right.merge(&dags[1]).unwrap();
            right.merge(&dags[0]).unwrap();
            assert_eq!(left.frontier(), right.frontier());
            assert_eq!(left.version_vector(), right.version_vector());
            assert_eq!(left.next_lamport(), right.next_lamport());
            for (client, end) in left.version_vector() {
                for counter in 0..end {
                    let id = ID::new(client, counter);
                    assert_eq!(left.get(id), right.get(id));
                }
            }
            let frontier = left.frontier().to_vec();
            left.merge(&dags[1]).unwrap();
            left.merge(&right).unwrap();
            assert_eq!(left.frontier(), &frontier[..]);
            assert_eq!(left.version_vector(), right.version_vector());
            Ok(())
        })
        .unwrap();
}
