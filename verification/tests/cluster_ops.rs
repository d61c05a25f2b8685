use traclusdl::algorithms::SerialTraclusDL;
use traclusdl::args::{ExecutionMode, InterfaceMode, TraclusArgs};
use traclusdl::cluster::{Cluster, ClusterMember, ClusterSeed};
use traclusdl::geometry::Point;
use traclusdl::input_od_line::InputODLine;
use traclusdl::trajectory::Trajectory;

fn member_at(traj_id: usize, x: i64, y: i64, weight: u32) -> ClusterMember {
    ClusterMember {
        traj_id,
        segment_id: 0,
        weight,
        center: Point { x: x + 25, y },
        start: Point { x, y },
    }
}

fn seed_cluster(seed: ClusterMember) -> Cluster {
    Cluster {
        total_weight: seed.weight as u64,
        seed: ClusterSeed { cm: seed, angle: 0 },
        candidates: Vec::new(),
        members: Vec::new(),
        sum_distance: 0,
    }
}

#[test]
fn promotion_moves_candidates_from_the_back_and_accumulates_distances() {
    let mut c = seed_cluster(member_at(1, 0, 0, 1));
    c.candidates.push(member_at(2, 0, 3, 1));
    c.candidates.push(member_at(3, 0, 7, 1));
    c.total_weight = 3;
    c.move_candidates_to_members();
    assert_eq!(c.candidates.len(), 0);
    // stack discipline: the last candidate is promoted first
    assert_eq!(c.members[0].traj_id, 3);
    assert_eq!(c.members[1].traj_id, 2);
    // the only pair is (0,7)-(0,3): grid distance 4
    assert_eq!(c.sum_distance, 4);
    assert_eq!(c.total_weight, 3);
}

#[test]
fn merging_pulls_only_fresh_trajectories() {
    let mut parent = seed_cluster(member_at(1, 0, 0, 2));
    parent.candidates.push(member_at(2, 0, 1, 1));
    parent.total_weight = 3;

    let mut child = seed_cluster(member_at(2, 0, 1, 1));
    child.candidates.push(member_at(1, 0, 0, 2));
    child.candidates.push(member_at(4, 0, 2, 5));
    child.total_weight = 8;

    parent.merge_clusters(child);
    // trajectories 1 and 2 were already represented; only 4 is new
    assert_eq!(parent.candidates.len(), 2);
    assert_eq!(parent.candidates[1].traj_id, 4);
    assert_eq!(parent.total_weight, 8);
    assert!(parent.contains_traj(4));
    assert!(!parent.contains_traj(9));
}

fn horizontal(id: usize, w: u32, y: i64) -> Trajectory {
    Trajectory::new(
        InputODLine {
            line_id: id,
            weight: w,
            start: Point { x: 0, y },
            end: Point { x: 100, y },
        },
        0,
        50,
    )
}

fn engine(max_dist: u64, min_density: u32, max_angle: u32) -> SerialTraclusDL {
    SerialTraclusDL::new(TraclusArgs {
        file: String::new(),
        max_dist,
        min_density,
        max_angle,
        segment_size: 50,
        mode: ExecutionMode::Serial,
        interface_mode: InterfaceMode::Performance,
    })
}

#[test]
fn reachability_collects_candidates_and_checks_density() {
    let t1 = horizontal(1, 1, 0);
    let t2 = horizontal(2, 1, 1);
    let t3 = horizontal(3, 1, 40);
    let nearby: Vec<&Trajectory> = vec![&t1, &t2, &t3];
    let e = engine(5, 2, 100);
    let seed_seg = t1.segments[0];
    let c = e
        .initial_segment_cluster((&seed_seg, &t1), &nearby)
        .expect("density is met");
    // the seed's own trajectory is skipped; the distant line rejected
    assert_eq!(c.candidates.len(), 1);
    assert_eq!(c.candidates[0].traj_id, 2);
    assert_eq!(c.total_weight, 2);
    assert_eq!(c.members.len(), 0);

    // with a stricter density the same pass yields nothing
    let strict = engine(5, 3, 100);
    assert!(strict.initial_segment_cluster((&seed_seg, &t1), &nearby).is_none());
}

#[test]
fn expansion_chains_through_intermediate_members() {
    // lines two units apart: each reaches only its direct neighbor,
    // yet expansion pulls the whole chain into one cluster
    let t1 = horizontal(1, 1, 0);
    let t2 = horizontal(2, 1, 2);
    let t3 = horizontal(3, 1, 4);
    let nearby: Vec<&Trajectory> = vec![&t1, &t2, &t3];
    let e = engine(2, 2, 100);
    let seed_seg = t1.segments[0];
    let mut c = e
        .initial_segment_cluster((&seed_seg, &t1), &nearby)
        .expect("density is met");
    assert_eq!(c.candidates.len(), 1);
    e.expand_segment_cluster(&mut c, &nearby);
    assert_eq!(c.candidates.len(), 0);
    assert_eq!(c.members.len(), 2);
    assert_eq!(c.total_weight, 3);
    let mut ids: Vec<usize> = c.members.iter().map(|m| m.traj_id).collect();
    ids.sort();
    assert_eq!(ids, vec![2, 3]);
}

#[test]
fn expansion_always_compares_against_the_seed_angle() {
    // the middle line's own direction drifts, but candidates are
    // always measured against the original seed angle, so the drifted
    // line joins while a line near it with a far angle does not
    let t1 = horizontal(1, 1, 0);
    let t2 = Trajectory::new(
        InputODLine {
            line_id: 2,
            weight: 1,
            start: Point { x: 0, y: 2 },
            end: Point { x: 100, y: 2 },
        },
        90,
        50,
    );
    let t3 = Trajectory::new(
        InputODLine {
            line_id: 3,
            weight: 1,
            start: Point { x: 0, y: 4 },
            end: Point { x: 100, y: 4 },
        },
        200,
        50,
    );
    let nearby: Vec<&Trajectory> = vec![&t1, &t2, &t3];
    let e = engine(2, 2, 100);
    let seed_seg = t1.segments[0];
    let mut c = e
        .initial_segment_cluster((&seed_seg, &t1), &nearby)
        .expect("density is met");
    e.expand_segment_cluster(&mut c, &nearby);
    // t2 (0.90 degrees off) qualifies against the seed angle 0.00;
    // t3 (2.00 degrees off) is outside max_angle = 1.00 even though
    // it is only 1.10 degrees from t2
    let mut ids: Vec<usize> = c.members.iter().map(|m| m.traj_id).collect();
    ids.sort();
    assert_eq!(ids, vec![2]);
}
