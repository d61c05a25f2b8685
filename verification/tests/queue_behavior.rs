use traclusdl::cluster::{Cluster, ClusterMember, ClusterSeed};
use traclusdl::geometry::Point;
use traclusdl::priority_queue::PriorityQueueCluster;

fn member(traj_id: usize, segment_id: usize, weight: u32) -> ClusterMember {
    ClusterMember {
        traj_id,
        segment_id,
        weight,
        center: Point { x: 0, y: 0 },
        start: Point { x: 0, y: 0 },
    }
}

fn cluster(seed_id: usize, seed_w: u32, members: Vec<ClusterMember>, sum_distance: u128) -> Cluster {
    let total: u64 = seed_w as u64 + members.iter().map(|m| m.weight as u64).sum::<u64>();
    Cluster {
        seed: ClusterSeed { cm: member(seed_id, 0, seed_w), angle: 0 },
        total_weight: total,
        candidates: Vec::new(),
        members,
        sum_distance,
    }
}

#[test]
fn sort_orders_by_weight_then_distance() {
    let mut q = PriorityQueueCluster::new();
    q.push(cluster(1, 1, vec![], 0));
    q.push(cluster(2, 5, vec![], 9));
    q.push(cluster(3, 5, vec![], 4));
    q.push(cluster(4, 3, vec![], 0));
    q.sort_by_weight();
    let order: Vec<usize> = q.elements.iter().map(|c| c.seed.cm.traj_id).collect();
    // weight descending; the tie between the two fives broken by the
    // smaller distance sum
    assert_eq!(order, vec![3, 2, 4, 1]);
}

#[test]
fn resorting_a_sorted_queue_is_a_no_op() {
    let mut q = PriorityQueueCluster::new();
    q.push(cluster(1, 2, vec![], 7));
    q.push(cluster(2, 9, vec![], 1));
    q.push(cluster(3, 9, vec![], 1));
    q.push(cluster(4, 4, vec![], 0));
    q.sort_by_weight();
    let first: Vec<(usize, u64, u128)> = q
        .elements
        .iter()
        .map(|c| (c.seed.cm.traj_id, c.total_weight, c.sum_distance))
        .collect();
    q.sort_by_weight();
    let second: Vec<(usize, u64, u128)> = q
        .elements
        .iter()
        .map(|c| (c.seed.cm.traj_id, c.total_weight, c.sum_distance))
        .collect();
    assert_eq!(first, second);
    // equal elements keep their insertion order across the ties
    assert_eq!(first[0].0, 2);
    assert_eq!(first[1].0, 3);
}

#[test]
fn pop_and_clean_removes_used_keys_and_light_clusters() {
    let mut q = PriorityQueueCluster::new();
    // heaviest cluster consumes (1,0) and (2,0)
    q.push(cluster(1, 5, vec![member(2, 0, 1)], 0));
    // loses its (2,0) member and falls under the threshold
    q.push(cluster(3, 2, vec![member(2, 0, 2)], 0));
    // its seed is consumed outright
    q.push(cluster(2, 1, vec![], 0));
    q.non_clustered_segments.push(member(1, 0, 5));
    q.non_clustered_segments.push(member(2, 1, 1));
    q.non_clustered_segments.push(member(9, 9, 1));
    let w = q.pop_and_clean(3).expect("queue was not empty");
    assert_eq!(w.seed.cm.traj_id, 1);
    assert_eq!(w.total_weight, 6);
    // nothing else survived the cleaning
    assert_eq!(q.elements.len(), 0);
    // only keys the popped cluster did not consume remain provisional
    let left: Vec<(usize, usize)> = q
        .non_clustered_segments
        .iter()
        .map(|m| (m.traj_id, m.segment_id))
        .collect();
    assert_eq!(left, vec![(2, 1), (9, 9)]);
    assert!(q.pop_and_clean(3).is_none());
}

#[test]
fn pop_and_clean_keeps_independent_clusters_with_reduced_weight() {
    let mut q = PriorityQueueCluster::new();
    q.push(cluster(1, 6, vec![member(2, 0, 1)], 0));
    // shares only the (2,0) key; survives at reduced weight
    q.push(cluster(4, 3, vec![member(2, 0, 1), member(5, 0, 2)], 0));
    let w = q.pop_and_clean(3).expect("queue was not empty");
    assert_eq!(w.seed.cm.traj_id, 1);
    assert_eq!(q.elements.len(), 1);
    let survivor = &q.elements[0];
    assert_eq!(survivor.seed.cm.traj_id, 4);
    assert_eq!(survivor.total_weight, 5);
    assert_eq!(survivor.members.len(), 1);
    assert_eq!(survivor.members[0].traj_id, 5);
    // no key of the survivor was consumed by the popped cluster
    assert!(survivor.seed.cm.traj_id != 2);
}

#[test]
fn empty_queue_pops_nothing() {
    let mut q = PriorityQueueCluster::new();
    assert!(q.pop_and_clean(1).is_none());
}
