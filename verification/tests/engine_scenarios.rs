use traclusdl::algorithms::SerialTraclusDL;
use traclusdl::args::{ExecutionMode, InterfaceMode, TraclusArgs};
use traclusdl::clustered_trajectories::ClusteredTrajectories;
use traclusdl::geometry::Point;
use traclusdl::input_od_line::InputODLine;
use traclusdl::raw_trajectory_store::RawTrajStore;
use traclusdl::trajectory::Trajectory;

fn angle_cd(x1: f64, y1: f64, x2: f64, y2: f64) -> u32 {
    let mut a = (y2 - y1).atan2(x2 - x1).to_degrees();
    a = (a * 100.0).round() / 100.0;
    if a < 0.0 {
        a += 360.0;
    }
    let cd = (a * 100.0).round() as i64;
    cd.rem_euclid(36000) as u32
}

fn traj(id: usize, w: u32, x1: i64, y1: i64, x2: i64, y2: i64, seg: u64) -> Trajectory {
    let angle = angle_cd(x1 as f64, y1 as f64, x2 as f64, y2 as f64);
    let input = InputODLine {
        line_id: id,
        weight: w,
        start: Point { x: x1, y: y1 },
        end: Point { x: x2, y: y2 },
    };
    Trajectory::new(input, angle, seg)
}

fn run(
    trajs: Vec<Trajectory>,
    max_dist: u64,
    min_density: u32,
    max_angle: u32,
    seg: u64,
) -> ClusteredTrajectories {
    let bucket = if max_angle == 0 { 1 } else { max_angle };
    let mut store = RawTrajStore::new(bucket);
    for t in trajs {
        store.add_trajectory(t);
    }
    let args = TraclusArgs {
        file: String::new(),
        max_dist,
        min_density,
        max_angle,
        segment_size: seg,
        mode: ExecutionMode::Serial,
        interface_mode: InterfaceMode::Performance,
    };
    let engine = SerialTraclusDL::new(args);
    let mut ct = ClusteredTrajectories::new();
    engine.db_scan_clustering(&store, &mut ct);
    ct
}

#[test]
fn three_parallel_lines_form_full_weight_corridors() {
    // three coincident horizontal lines one unit apart; density 3 met
    let ts = vec![
        traj(1, 1, 0, 0, 100, 0, 50),
        traj(2, 1, 0, 1, 100, 1, 50),
        traj(3, 1, 0, 2, 100, 2, 50),
    ];
    let ct = run(ts, 5, 3, 100, 50);
    // one corridor per sub-segment column, each holding all three lines
    assert_eq!(ct.corridors.len(), 2);
    for c in &ct.corridors {
        assert_eq!(c.weight, 3);
    }
    // first corridor: weighted mean start (0, 1), end (50, 1)
    let c0 = &ct.corridors[0];
    assert_eq!(c0.id, 0);
    assert_eq!(c0.start_sum_x, 0);
    assert_eq!(c0.start_sum_y, 3);
    assert_eq!(c0.end_sum_x, 150);
    assert_eq!(c0.end_sum_y, 3);
    // second corridor covers the second column: start (50, 1), end (100, 1)
    let c1 = &ct.corridors[1];
    assert_eq!(c1.id, 1);
    assert_eq!(c1.start_sum_x, 150);
    assert_eq!(c1.start_sum_y, 3);
    assert_eq!(c1.end_sum_x, 300);
    assert_eq!(c1.end_sum_y, 3);
    // every sub-segment was consumed
    assert_eq!(ct.non_clustered_segments.len(), 0);
}

#[test]
fn anti_parallel_lines_do_not_cluster() {
    let ts = vec![traj(1, 1, 0, 0, 100, 0, 50), traj(2, 1, 100, 1, 0, 1, 50)];
    let ct = run(ts, 5, 2, 1000, 50);
    assert_eq!(ct.corridors.len(), 0);
    assert_eq!(ct.non_clustered_segments.len(), 4);
}

#[test]
fn distant_parallel_lines_do_not_cluster() {
    let ts = vec![traj(1, 1, 0, 0, 100, 0, 50), traj(2, 1, 0, 1000, 100, 1000, 50)];
    let ct = run(ts, 10, 2, 100, 50);
    assert_eq!(ct.corridors.len(), 0);
    assert_eq!(ct.non_clustered_segments.len(), 4);
}

#[test]
fn heavy_single_trajectory_satisfies_density_alone() {
    let ts = vec![traj(1, 5, 0, 0, 100, 0, 50)];
    let ct = run(ts, 1, 3, 100, 50);
    assert_eq!(ct.corridors.len(), 2);
    for c in &ct.corridors {
        assert_eq!(c.weight, 5);
        assert_eq!(c.cluster.members.len(), 0);
    }
    // seed-only corridors: endpoints are the sub-segments themselves
    assert_eq!(ct.corridors[0].start_sum_x, 0);
    assert_eq!(ct.corridors[0].end_sum_x, 250);
    assert_eq!(ct.non_clustered_segments.len(), 0);
}

#[test]
fn greedy_invalidation_consumes_overlapping_clusters() {
    // three light lines and one heavy line (coordinates doubled so the
    // 1.5-unit radius becomes the exact grid distance 3)
    let ts = vec![
        traj(1, 1, 0, 0, 200, 0, 100),
        traj(2, 1, 0, 2, 200, 2, 100),
        traj(3, 1, 0, 4, 200, 4, 100),
        traj(4, 10, 0, 2, 200, 2, 100),
    ];
    let ct = run(ts, 3, 3, 100, 100);
    // expansion chains all four lines; one corridor per column, weight 13
    assert_eq!(ct.corridors.len(), 2);
    for c in &ct.corridors {
        assert_eq!(c.weight, 13);
    }
    assert_eq!(ct.non_clustered_segments.len(), 0);
}

#[test]
fn angle_wrap_clusters_across_the_seam() {
    // two nearly-horizontal lines whose supplied direction angles sit
    // on both sides of the 360-degree seam, half a degree each
    let t1 = Trajectory::new(
        InputODLine {
            line_id: 1,
            weight: 1,
            start: Point { x: 0, y: 0 },
            end: Point { x: 100, y: 0 },
        },
        35950,
        50,
    );
    let t2 = Trajectory::new(
        InputODLine {
            line_id: 2,
            weight: 1,
            start: Point { x: 0, y: 1 },
            end: Point { x: 100, y: 1 },
        },
        50,
        50,
    );
    // circular distance is 1.00 degrees, within max_angle = 2 degrees
    let ct = run(vec![t1, t2], 5, 2, 200, 50);
    assert_eq!(ct.corridors.len(), 2);
    for c in &ct.corridors {
        assert_eq!(c.weight, 2);
    }
    assert_eq!(ct.non_clustered_segments.len(), 0);
}

#[test]
fn discovery_twice_on_same_store_is_identical() {
    let build = || {
        vec![
            traj(1, 1, 0, 0, 100, 0, 50),
            traj(2, 1, 0, 1, 100, 1, 50),
            traj(3, 2, 0, 2, 100, 2, 50),
        ]
    };
    let a = run(build(), 5, 3, 100, 50);
    let b = run(build(), 5, 3, 100, 50);
    assert_eq!(a.corridors.len(), b.corridors.len());
    for (ca, cb) in a.corridors.iter().zip(b.corridors.iter()) {
        assert_eq!(ca.id, cb.id);
        assert_eq!(ca.weight, cb.weight);
        assert_eq!(ca.start_sum_x, cb.start_sum_x);
        assert_eq!(ca.start_sum_y, cb.start_sum_y);
        assert_eq!(ca.end_sum_x, cb.end_sum_x);
        assert_eq!(ca.end_sum_y, cb.end_sum_y);
        assert_eq!(ca.cluster.seed.cm.traj_id, cb.cluster.seed.cm.traj_id);
        assert_eq!(ca.cluster.members.len(), cb.cluster.members.len());
    }
    assert_eq!(a.non_clustered_segments.len(), b.non_clustered_segments.len());
}

#[test]
fn classified_rows_partition_all_sub_segments() {
    let ts = vec![
        traj(1, 1, 0, 0, 100, 0, 50),
        traj(2, 1, 0, 1, 100, 1, 50),
        traj(7, 1, 0, 500, 100, 500, 50),
    ];
    let ct = run(ts, 5, 2, 100, 50);
    let rows = ct.get_all_cluster_members_iter();
    // every (trajectory, sub-segment) key appears exactly once
    let mut keys: Vec<(usize, usize)> = rows
        .iter()
        .map(|(_, m)| (m.traj_id, m.segment_id))
        .collect();
    keys.sort();
    let mut expected: Vec<(usize, usize)> = vec![
        (1, 0),
        (1, 1),
        (2, 0),
        (2, 1),
        (7, 0),
        (7, 1),
    ];
    expected.sort();
    assert_eq!(keys, expected);
    // the distant line stayed non-clustered
    for (cid, m) in &rows {
        if m.traj_id == 7 {
            assert_eq!(*cid, -1);
        } else {
            assert!(*cid >= 0);
        }
    }
}
