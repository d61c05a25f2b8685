use traclusdl::args::{
    ExecutionMode, InterfaceMode, TraclusArgs, default_interface_mode, default_max_angle,
    default_max_dist, default_min_density, default_mode, default_segment_size,
};
use traclusdl::circular_diff_cd;
use traclusdl::cluster::{Cluster, ClusterMember, ClusterSeed};
use traclusdl::corridor::Corridor;
use traclusdl::geometry::{Point, Segment, dist_floor, floor_div_sqrt, isqrt, sq_dist};
use traclusdl::gui_parallel_runner::GuiParallelRunner;
use traclusdl::input_od_line::InputODLine;
use traclusdl::trajectory::Trajectory;
use traclusdl::view_model::{ComputeMode, ParameterSet};

#[test]
fn integer_square_root_is_exact() {
    assert_eq!(isqrt(0), 0);
    assert_eq!(isqrt(1), 1);
    assert_eq!(isqrt(15), 3);
    assert_eq!(isqrt(16), 4);
    assert_eq!(isqrt(10_000_000_000_000_000_000), 3_162_277_660);
    assert_eq!(isqrt(u128::MAX), u64::MAX);
}

#[test]
fn floor_division_by_square_root_is_exact() {
    // floor(10 / sqrt(4)) = 5, floor(10 / sqrt(9)) = 3
    assert_eq!(floor_div_sqrt(10, 4), 5);
    assert_eq!(floor_div_sqrt(10, 9), 3);
    assert_eq!(floor_div_sqrt(0, 7), 0);
    // floor(100 / sqrt(2)) = 70
    assert_eq!(floor_div_sqrt(100, 2), 70);
}

#[test]
fn grid_distances_are_euclidean_floors() {
    let o = Point { x: 0, y: 0 };
    assert_eq!(sq_dist(&o, &Point { x: 3, y: 4 }), 25);
    assert_eq!(dist_floor(&o, &Point { x: 3, y: 4 }), 5);
    assert_eq!(dist_floor(&o, &Point { x: 1, y: 1 }), 1);
    assert_eq!(dist_floor(&o, &Point { x: -3, y: -4 }), 5);
}

#[test]
fn circular_angle_distance_wraps() {
    assert_eq!(circular_diff_cd(35950, 50), 100);
    assert_eq!(circular_diff_cd(50, 35950), 100);
    assert_eq!(circular_diff_cd(0, 18000), 18000);
    assert_eq!(circular_diff_cd(100, 35900), 200);
    assert_eq!(circular_diff_cd(123, 123), 0);
}

fn horizontal(id: usize, w: u32, y: i64, seg: u64) -> Trajectory {
    Trajectory::new(
        InputODLine {
            line_id: id,
            weight: w,
            start: Point { x: 0, y },
            end: Point { x: 100, y },
        },
        0,
        seg,
    )
}

#[test]
fn segmentation_divides_into_whole_sub_segments() {
    let t = horizontal(1, 1, 0, 30);
    // length 100 over size 30: three whole sub-segments
    assert_eq!(t.segments.len(), 3);
    for (i, s) in t.segments.iter().enumerate() {
        assert_eq!(s.id, i);
    }
    assert_eq!(t.segments[0].start, Point { x: 0, y: 0 });
    assert_eq!(t.segments[1].start, Point { x: 30, y: 0 });
    assert_eq!(t.segments[2].start, Point { x: 60, y: 0 });
    assert_eq!(t.segments[0].middle, Point { x: 15, y: 0 });
    assert_eq!(t.segments[2].middle, Point { x: 75, y: 0 });
}

#[test]
fn segment_end_and_length_derive_from_start_and_middle() {
    let s = Segment::new(0, Point { x: 0, y: 0 }, Point { x: 25, y: 0 });
    assert_eq!(s.get_end(), Point { x: 50, y: 0 });
    assert_eq!(s.get_length(), 50);
}

#[test]
fn distance_to_point_clamps_to_the_carrier_segment() {
    let t = horizontal(1, 1, 0, 50);
    assert_eq!(t.segments.len(), 2);
    // perpendicular case, first sub-segment
    assert_eq!(t.distance_to_point(&Point { x: 25, y: 7 }), (7, 0));
    // near the far end: perpendicular distance zero, clamped index
    assert_eq!(t.distance_to_point(&Point { x: 99, y: 0 }), (0, 1));
    // before the start: distance to the start point
    assert_eq!(t.distance_to_point(&Point { x: -5, y: 0 }), (5, 0));
    // beyond the end: distance to the end point, index clamped
    let (d, i) = t.distance_to_point(&Point { x: 200, y: 3 });
    assert_eq!(d, 100);
    assert_eq!(i, 1);
}

#[test]
fn reach_segment_tests_the_radius_exactly() {
    let t = horizontal(1, 1, 0, 50);
    assert_eq!(t.reach_segment(&Point { x: 25, y: 7 }, 7), Some(0));
    assert_eq!(t.reach_segment(&Point { x: 25, y: 8 }, 7), None);
    assert_eq!(t.reach_segment(&Point { x: 80, y: -3 }, 3), Some(1));
    // a trajectory without sub-segments is never reached
    let short = Trajectory::new(
        InputODLine {
            line_id: 2,
            weight: 1,
            start: Point { x: 0, y: 0 },
            end: Point { x: 10, y: 0 },
        },
        0,
        50,
    );
    assert_eq!(short.reach_segment(&Point { x: 5, y: 0 }, 100), None);
}

#[test]
fn member_end_point_mirrors_start_through_center() {
    let m = ClusterMember {
        traj_id: 1,
        segment_id: 0,
        weight: 2,
        center: Point { x: 25, y: 1 },
        start: Point { x: 0, y: 0 },
    };
    assert_eq!(m.end_point(), Point { x: 50, y: 2 });
}

#[test]
fn cluster_membership_checks_ids_and_keys() {
    let seed = ClusterSeed {
        cm: ClusterMember {
            traj_id: 1,
            segment_id: 0,
            weight: 1,
            center: Point { x: 0, y: 0 },
            start: Point { x: 0, y: 0 },
        },
        angle: 0,
    };
    let c = Cluster {
        seed,
        total_weight: 3,
        candidates: Vec::new(),
        members: vec![ClusterMember {
            traj_id: 2,
            segment_id: 1,
            weight: 2,
            center: Point { x: 0, y: 0 },
            start: Point { x: 0, y: 0 },
        }],
        sum_distance: 0,
    };
    assert!(c.contains_traj(1));
    assert!(c.contains_traj(2));
    assert!(!c.contains_traj(3));
    assert!(c.contains_segment(1, 0));
    assert!(c.contains_segment(2, 1));
    assert!(!c.contains_segment(2, 0));
}

#[test]
fn corridor_carries_exact_weighted_sums() {
    let seed = ClusterSeed {
        cm: ClusterMember {
            traj_id: 1,
            segment_id: 0,
            weight: 2,
            center: Point { x: 25, y: 0 },
            start: Point { x: 0, y: 0 },
        },
        angle: 0,
    };
    let c = Cluster {
        seed,
        total_weight: 3,
        candidates: Vec::new(),
        members: vec![ClusterMember {
            traj_id: 2,
            segment_id: 0,
            weight: 1,
            center: Point { x: 25, y: 3 },
            start: Point { x: 0, y: 3 },
        }],
        sum_distance: 0,
    };
    let corridor = Corridor::new(c, 0);
    assert_eq!(corridor.weight, 3);
    // starts: 2*(0,0) + 1*(0,3)
    assert_eq!(corridor.start_sum_x, 0);
    assert_eq!(corridor.start_sum_y, 3);
    // ends: 2*(50,0) + 1*(50,3)
    assert_eq!(corridor.end_sum_x, 150);
    assert_eq!(corridor.end_sum_y, 3);
}

#[test]
fn argument_validation_mirrors_the_documented_ranges() {
    let good = TraclusArgs {
        file: String::new(),
        max_dist: 250,
        min_density: 3,
        max_angle: 500,
        segment_size: 500,
        mode: ExecutionMode::Serial,
        interface_mode: InterfaceMode::Gui,
    };
    assert!(good.validate());
    let mut zero_density = good.clone();
    zero_density.min_density = 0;
    assert!(!zero_density.validate());
    let mut wide_angle = good.clone();
    wide_angle.max_angle = 2251;
    assert!(!wide_angle.validate());
    let mut no_segment = good.clone();
    no_segment.segment_size = 0;
    assert!(!no_segment.validate());
}

#[test]
fn defaults_match_the_documented_values() {
    assert_eq!(default_max_dist(), 250);
    assert_eq!(default_min_density(), 3);
    assert_eq!(default_max_angle(), 500);
    assert_eq!(default_segment_size(), 500);
    assert_eq!(default_mode(), ExecutionMode::Serial);
    assert_eq!(default_interface_mode(), InterfaceMode::Gui);
}

#[test]
fn runner_admits_one_task_at_a_time() {
    let mut r = GuiParallelRunner::new();
    assert!(!r.is_running());
    assert!(r.try_acquire());
    assert!(r.is_running());
    assert!(!r.try_acquire());
    r.release();
    assert!(!r.is_running());
    assert!(r.try_acquire());
}

#[test]
fn view_model_defaults() {
    assert_eq!(ComputeMode::default(), ComputeMode::Parallel);
    let p = ParameterSet::default();
    assert_eq!(p.max_angle, 10);
    assert_eq!(p.min_density, 2);
    assert_eq!(p.max_distance, 10);
    assert_eq!(p.seg_size, 5);
}
