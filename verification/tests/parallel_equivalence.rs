use rayon::iter::{IntoParallelRefIterator, ParallelIterator};

use traclusdl::algorithms::SerialTraclusDL;
use traclusdl::args::{ExecutionMode, InterfaceMode, TraclusArgs};
use traclusdl::cluster::Cluster;
use traclusdl::clustered_trajectories::ClusteredTrajectories;
use traclusdl::geometry::Point;
use traclusdl::input_od_line::InputODLine;
use traclusdl::raw_trajectory_store::RawTrajStore;
use traclusdl::trajectory::Trajectory;

fn angle_cd(x1: f64, y1: f64, x2: f64, y2: f64) -> u32 {
    let mut a = (y2 - y1).atan2(x2 - x1).to_degrees();
    a = (a * 100.0).round() / 100.0;
    if a < 0.0 {
        a += 360.0;
    }
    ((a * 100.0).round() as i64).rem_euclid(36000) as u32
}

fn traj(id: usize, w: u32, x1: i64, y1: i64, x2: i64, y2: i64, seg: u64) -> Trajectory {
    let angle = angle_cd(x1 as f64, y1 as f64, x2 as f64, y2 as f64);
    let input = InputODLine {
        line_id: id,
        weight: w,
        start: Point { x: x1, y: y1 },
        end: Point { x: x2, y: y2 },
    };
    Trajectory::new(input, angle, seg)
}

fn build_store(seg: u64, bucket: u32) -> RawTrajStore {
    let mut store = RawTrajStore::new(bucket);
    // two bundles of near-parallel lines plus a lone far line
    store.add_trajectory(traj(1, 1, 0, 0, 200, 0, seg));
    store.add_trajectory(traj(2, 2, 0, 2, 200, 2, seg));
    store.add_trajectory(traj(3, 1, 0, 4, 200, 4, seg));
    store.add_trajectory(traj(4, 1, 0, 1000, 200, 1000, seg));
    store.add_trajectory(traj(5, 3, 0, 1002, 200, 1002, seg));
    store.add_trajectory(traj(6, 1, 0, 5000, 200, 5003, seg));
    store
}

fn args(mode: ExecutionMode) -> TraclusArgs {
    TraclusArgs {
        file: String::new(),
        max_dist: 3,
        min_density: 3,
        max_angle: 200,
        segment_size: 100,
        mode,
        interface_mode: InterfaceMode::Performance,
    }
}

/// The parallel discovery pass, as a front end drives it: the outer
/// sweep over buckets and the inner sweep over each bucket's
/// trajectories both run on rayon's pool; the queue is filled
/// serially afterwards.
fn parallel_run(store: &RawTrajStore, engine: &SerialTraclusDL) -> ClusteredTrajectories {
    let results: Vec<Vec<Cluster>> = store
        .traj_buckets
        .par_iter()
        .flat_map(|bucket| {
            let nearby: Vec<&Trajectory> = store.iter_nearby_angle(bucket.angle_start);
            bucket
                .trajectories
                .par_iter()
                .map(|t| engine.individual_trajectory_clustering(t, &nearby))
                .collect::<Vec<_>>()
        })
        .collect();
    let mut ct = ClusteredTrajectories::new();
    for bucket in &store.traj_buckets {
        for t in &bucket.trajectories {
            ct.fill_non_clustered_segments(t);
        }
    }
    for group in results {
        ct.add_list_cluster(group);
    }
    engine.create_corridors(&mut ct);
    ct
}

/// A corridor reduced to its comparable content: weight and the
/// sorted participant keys.
fn corridor_key(ct: &ClusteredTrajectories) -> Vec<(u64, Vec<(usize, usize)>)> {
    let mut keys: Vec<(u64, Vec<(usize, usize)>)> = ct
        .corridors
        .iter()
        .map(|c| {
            let mut ms: Vec<(usize, usize)> = c
                .cluster
                .members
                .iter()
                .map(|m| (m.traj_id, m.segment_id))
                .collect();
            ms.push((c.cluster.seed.cm.traj_id, c.cluster.seed.cm.segment_id));
            ms.sort();
            (c.weight, ms)
        })
        .collect();
    keys.sort();
    keys
}

#[test]
fn parallel_discovery_matches_serial_discovery() {
    let store = build_store(100, 200);
    let serial_engine = SerialTraclusDL::new(args(ExecutionMode::Serial));
    let mut serial_ct = ClusteredTrajectories::new();
    serial_engine.db_scan_clustering(&store, &mut serial_ct);

    let parallel_engine = SerialTraclusDL::new(args(ExecutionMode::ParallelRayon));
    let parallel_ct = parallel_run(&store, &parallel_engine);

    // identical corridors up to queue insertion order: compare the
    // multiset of (weight, sorted participant keys)
    assert_eq!(corridor_key(&serial_ct), corridor_key(&parallel_ct));

    let mut nc_serial: Vec<(usize, usize)> = serial_ct
        .non_clustered_segments
        .iter()
        .map(|m| (m.traj_id, m.segment_id))
        .collect();
    nc_serial.sort();
    let mut nc_parallel: Vec<(usize, usize)> = parallel_ct
        .non_clustered_segments
        .iter()
        .map(|m| (m.traj_id, m.segment_id))
        .collect();
    nc_parallel.sort();
    assert_eq!(nc_serial, nc_parallel);
}
