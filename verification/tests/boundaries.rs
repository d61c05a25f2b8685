use traclusdl::algorithms::SerialTraclusDL;
use traclusdl::args::{ExecutionMode, InterfaceMode, TraclusArgs};
use traclusdl::clustered_trajectories::ClusteredTrajectories;
use traclusdl::geometry::Point;
use traclusdl::input_od_line::InputODLine;
use traclusdl::raw_trajectory_store::RawTrajStore;
use traclusdl::trajectory::Trajectory;

fn line(id: usize, w: u32, y: i64, angle: u32, seg: u64) -> Trajectory {
    let input = InputODLine {
        line_id: id,
        weight: w,
        start: Point { x: 0, y },
        end: Point { x: 100, y },
    };
    Trajectory::new(input, angle, seg)
}

fn run_store(
    trajs: Vec<Trajectory>,
    max_dist: u64,
    min_density: u32,
    max_angle: u32,
    seg: u64,
) -> ClusteredTrajectories {
    let bucket = if max_angle == 0 { 1 } else { max_angle };
    let mut store = RawTrajStore::new(bucket);
    for t in trajs {
        store.add_trajectory(t);
    }
    let args = TraclusArgs {
        file: String::new(),
        max_dist,
        min_density,
        max_angle,
        segment_size: seg,
        mode: ExecutionMode::Serial,
        interface_mode: InterfaceMode::Performance,
    };
    let engine = SerialTraclusDL::new(args);
    let mut ct = ClusteredTrajectories::new();
    engine.db_scan_clustering(&store, &mut ct);
    ct
}

#[test]
fn zero_max_angle_requires_identical_rounded_angles() {
    // two lines at exactly the same rounded angle cluster; a third
    // one a hundredth of a degree off does not join them
    let ct = run_store(
        vec![line(1, 1, 0, 0, 50), line(2, 1, 1, 0, 50), line(3, 1, 2, 1, 50)],
        5,
        2,
        0,
        50,
    );
    assert!(ct.corridors.len() > 0);
    for c in &ct.corridors {
        assert_eq!(c.weight, 2);
        assert_eq!(c.cluster.seed.angle, 0);
        for m in &c.cluster.members {
            assert!(m.traj_id == 1 || m.traj_id == 2);
        }
    }
}

#[test]
fn zero_max_dist_requires_passing_through_center() {
    // a line through the seed's center qualifies; one a single grid
    // unit away does not
    let ct = run_store(
        vec![line(1, 1, 0, 0, 50), line(2, 1, 0, 0, 50), line(3, 1, 1, 0, 50)],
        0,
        2,
        100,
        50,
    );
    assert!(ct.corridors.len() > 0);
    for c in &ct.corridors {
        for m in &c.cluster.members {
            assert!(m.traj_id != 3);
        }
    }
    // line 3 never co-clusters, so its sub-segments survive
    let stray: Vec<_> = ct
        .non_clustered_segments
        .iter()
        .filter(|m| m.traj_id == 3)
        .collect();
    assert_eq!(stray.len(), 2);
}

#[test]
fn unit_min_density_gives_every_segment_a_cluster() {
    let ct = run_store(vec![line(1, 1, 0, 0, 50)], 1, 1, 100, 50);
    // each of the two sub-segments becomes its own seed-only corridor
    assert_eq!(ct.corridors.len(), 2);
    for c in &ct.corridors {
        assert_eq!(c.weight, 1);
        assert_eq!(c.cluster.members.len(), 0);
    }
    assert_eq!(ct.non_clustered_segments.len(), 0);
}

#[test]
fn short_trajectory_contributes_no_seed_but_is_visible() {
    // the second line is shorter than one sub-segment: it yields no
    // sub-segments, so it can neither seed nor join a cluster, but
    // the store still sweeps it as a neighbor
    let long = line(1, 1, 0, 0, 50);
    let short = Trajectory::new(
        InputODLine {
            line_id: 2,
            weight: 1,
            start: Point { x: 0, y: 1 },
            end: Point { x: 30, y: 1 },
        },
        0,
        50,
    );
    assert_eq!(short.segments.len(), 0);
    let mut store = RawTrajStore::new(100);
    store.add_trajectory(long);
    store.add_trajectory(short);
    let nearby = store.iter_nearby_angle(0);
    assert_eq!(nearby.len(), 2);
    let args = TraclusArgs {
        file: String::new(),
        max_dist: 5,
        min_density: 2,
        max_angle: 100,
        segment_size: 50,
        mode: ExecutionMode::Serial,
        interface_mode: InterfaceMode::Performance,
    };
    let engine = SerialTraclusDL::new(args);
    let mut ct = ClusteredTrajectories::new();
    engine.db_scan_clustering(&store, &mut ct);
    assert_eq!(ct.corridors.len(), 0);
    // only the long line's sub-segments are classified
    assert_eq!(ct.non_clustered_segments.len(), 2);
    for m in &ct.non_clustered_segments {
        assert_eq!(m.traj_id, 1);
    }
}

#[test]
fn degenerate_line_is_stored_without_segments() {
    let t = Trajectory::new(
        InputODLine {
            line_id: 9,
            weight: 2,
            start: Point { x: 7, y: 7 },
            end: Point { x: 7, y: 7 },
        },
        0,
        50,
    );
    assert_eq!(t.segments.len(), 0);
    let mut store = RawTrajStore::new(500);
    store.add_trajectory(t);
    assert_eq!(store.count, 1);
}

#[test]
fn store_wrap_sweep_sees_the_first_bucket_from_the_last() {
    let mut store = RawTrajStore::new(100);
    // a trajectory whose supplied angle is 359.50 degrees
    let t1 = Trajectory::new(
        InputODLine {
            line_id: 1,
            weight: 1,
            start: Point { x: 0, y: 0 },
            end: Point { x: 100, y: 0 },
        },
        35950,
        50,
    );
    // and one at 0.50 degrees
    let t2 = Trajectory::new(
        InputODLine {
            line_id: 2,
            weight: 1,
            start: Point { x: 0, y: 1 },
            end: Point { x: 100, y: 1 },
        },
        50,
        50,
    );
    store.add_trajectory(t1);
    store.add_trajectory(t2);
    // sweeping from the last bucket finds both
    let seen: Vec<usize> = store.iter_nearby_angle(35950).iter().map(|t| t.id).collect();
    assert!(seen.contains(&1));
    assert!(seen.contains(&2));
    // and sweeping from the first bucket also finds both
    let seen2: Vec<usize> = store.iter_nearby_angle(50).iter().map(|t| t.id).collect();
    assert!(seen2.contains(&1));
    assert!(seen2.contains(&2));
}
