use grid_clusters::geometry::cell_size_for;
use grid_clusters::geometry::dist_sq_u64;
use grid_clusters::geometry::grid_side_for;
use grid_clusters::geometry::Point;
use grid_clusters::labeling::SENTINEL;
use grid_clusters::pipeline::cluster;
use grid_clusters::pipeline::ClusterError;
use grid_clusters::sorting::sort_desc;

fn pt(x: u64, y: u64) -> Point {
    Point { x, y }
}

#[test]
fn two_clusters_at_tenth_radius() {
    // radius 0.1 with points (0.05, 0.05), (0.1, 0.05), (0.5, 0.5)
    let pts = vec![pt(50_000, 50_000), pt(100_000, 50_000), pt(500_000, 500_000)];
    let c = cluster(100_000, &pts).unwrap();
    assert_eq!(c.sizes, vec![2, 1]);
}

#[test]
fn oversized_radius_gives_one_cluster() {
    // radius 1.5 spans the whole unit square: any five points join up
    let pts = vec![
        pt(10_000, 990_000),
        pt(990_000, 10_000),
        pt(500_000, 500_000),
        pt(0, 0),
        pt(333_333, 777_777),
    ];
    let c = cluster(1_500_000, &pts).unwrap();
    assert_eq!(c.sizes, vec![5]);
}

#[test]
fn empty_input_gives_empty_sizes_and_sentinel_grid() {
    let pts: Vec<Point> = Vec::new();
    let c = cluster(100_000, &pts).unwrap();
    assert_eq!(c.sizes, Vec::<u64>::new());
    let n = c.side_cells();
    for j in 0..n {
        for i in 0..n {
            assert_eq!(c.color(i, j), SENTINEL);
            assert_eq!(c.occupancy(i, j), 0);
        }
    }
}

#[test]
fn boundary_pair_at_exact_radius_is_connected() {
    // distance is exactly the radius: adjacency uses <=, not <
    let pts = vec![pt(0, 0), pt(100_000, 0)];
    let c = cluster(100_000, &pts).unwrap();
    assert_eq!(c.sizes, vec![2]);
}

#[test]
fn sizes_sum_to_point_count() {
    let pts = vec![
        pt(10_000, 10_000),
        pt(20_000, 10_000),
        pt(900_000, 900_000),
        pt(910_000, 905_000),
        pt(450_000, 200_000),
        pt(455_000, 205_000),
        pt(455_000, 210_000),
    ];
    let c = cluster(50_000, &pts).unwrap();
    let total: u64 = c.sizes.iter().sum();
    assert_eq!(total as usize, pts.len());
}

#[test]
fn permuted_input_gives_same_sizes() {
    let pts1 = vec![pt(50_000, 50_000), pt(100_000, 50_000), pt(500_000, 500_000)];
    let pts2 = vec![pt(500_000, 500_000), pt(100_000, 50_000), pt(50_000, 50_000)];
    let c1 = cluster(100_000, &pts1).unwrap();
    let c2 = cluster(100_000, &pts2).unwrap();
    assert_eq!(c1.sizes, c2.sizes);
}

#[test]
fn rerun_gives_same_sizes() {
    let pts = vec![pt(50_000, 50_000), pt(100_000, 50_000), pt(500_000, 500_000)];
    let c1 = cluster(100_000, &pts).unwrap();
    let c2 = cluster(100_000, &pts).unwrap();
    assert_eq!(c1.sizes, c2.sizes);
}

#[test]
fn larger_radius_merges_clusters() {
    let pts = vec![pt(50_000, 50_000), pt(100_000, 50_000), pt(500_000, 500_000)];
    let small = cluster(100_000, &pts).unwrap();
    let large = cluster(1_000_000, &pts).unwrap();
    assert_eq!(small.sizes, vec![2, 1]);
    assert_eq!(large.sizes, vec![3]);
    assert!(large.sizes.len() <= small.sizes.len());
}

#[test]
fn zero_radius_is_rejected() {
    let pts = vec![pt(50_000, 50_000)];
    assert!(matches!(cluster(0, &pts), Err(ClusterError::InvalidRadius)));
}

#[test]
fn oversized_radius_cap_is_rejected() {
    let pts = vec![pt(50_000, 50_000)];
    assert!(matches!(cluster(2_000_000_001, &pts), Err(ClusterError::InvalidRadius)));
}

#[test]
fn out_of_square_point_is_rejected() {
    let pts = vec![pt(50_000, 50_000), pt(1_000_000, 0)];
    assert!(matches!(cluster(100_000, &pts), Err(ClusterError::PointOutOfRange)));
}

#[test]
fn squared_distance_is_exact() {
    assert_eq!(dist_sq_u64(pt(3, 4), pt(0, 0)), 25);
    assert_eq!(dist_sq_u64(pt(0, 0), pt(100_000, 0)), 10_000_000_000);
    assert_eq!(dist_sq_u64(pt(999_999, 999_999), pt(0, 0)), 2 * 999_999 * 999_999);
}

#[test]
fn cell_side_matches_radius_over_root_two() {
    // radius 0.1: the side is the largest s with 2 * s * s <= r * r
    let s = cell_size_for(100_000);
    assert_eq!(s, 70_710);
    assert_eq!(grid_side_for(s), 15);
    // an oversized radius leaves a single cell
    let s2 = cell_size_for(1_500_000);
    assert_eq!(grid_side_for(s2), 1);
}

#[test]
fn sort_desc_orders_and_keeps_values() {
    let mut v: Vec<u64> = vec![1, 5, 3, 3, 2];
    sort_desc(&mut v);
    assert_eq!(v, vec![5, 3, 3, 2, 1]);
    let mut e: Vec<u64> = Vec::new();
    sort_desc(&mut e);
    assert_eq!(e, Vec::<u64>::new());
}

#[test]
fn same_cell_points_share_a_cluster() {
    // two points in one cell are within the radius by construction
    let pts = vec![pt(10_000, 10_000), pt(60_000, 60_000)];
    let c = cluster(100_000, &pts).unwrap();
    assert_eq!(c.sizes, vec![2]);
}

#[test]
fn grid_colors_partition_occupied_cells() {
    let pts = vec![pt(50_000, 50_000), pt(100_000, 50_000), pt(500_000, 500_000)];
    let c = cluster(100_000, &pts).unwrap();
    let n = c.side_cells();
    let mut occupied = 0;
    for j in 0..n {
        for i in 0..n {
            if c.occupancy(i, j) > 0 {
                let col = c.color(i, j);
                assert!(1 <= col && col as usize <= c.sizes.len());
                occupied += 1;
            } else {
                assert_eq!(c.color(i, j), SENTINEL);
            }
        }
    }
    assert_eq!(occupied, 3);
}
