use closest_pair::brute_force::brute_force_closest_points;
use closest_pair::divide_and_conquer::{divide_and_conquer_closest_points, ClosestPairError};
use closest_pair::geometry::{dist_sq_u64, Point, COORD_LIMIT};
use rand::{RngExt, SeedableRng};
use std::collections::HashSet;

fn pts(coords: &[(i64, i64)]) -> Vec<Point> {
    coords.iter().map(|&(x, y)| Point { x, y }).collect()
}

/// Smallest squared distance over all pairs, computed independently.
fn min_dist_sq(points: &[Point]) -> u64 {
    let mut best = u64::MAX;
    for i in 0..points.len() {
        for j in (i + 1)..points.len() {
            let d = dist_sq_u64(points[i], points[j]);
            if d < best {
                best = d;
            }
        }
    }
    best
}

#[test]
fn test_brute_force() {
    // Define a list of points (x, y)
    let points = pts(&[(1, 2), (3, 3), (2, 8), (8, 1), (4, 6), (7, 5)]);

    // Find the closest pair
    let result = brute_force_closest_points(&points);

    assert_eq!(result, Some((0, 1)));

    let points_2 = pts(&[(0, 0), (10, 10), (0, 1)]);

    // Find the closest pair
    let result_2 = brute_force_closest_points(&points_2);

    // The closest pair is (0, 0) [index 0] and (0, 1) [index 2]
    assert_eq!(result_2, Some((0, 2)));
}

#[test]
fn test_divide_and_conquer() {
    // Define a list of points (x, y)
    let points = pts(&[(1, 2), (3, 3), (2, 8), (8, 1), (4, 6), (7, 5)]);

    // Find the closest pair
    let (idx1, idx2) = divide_and_conquer_closest_points(&points).unwrap();

    // Sort the resulting indices: either order of the pair is correct.
    let mut result_indices = vec![idx1, idx2];
    result_indices.sort();

    assert_eq!(result_indices, vec![0, 1]);

    let points_2 = pts(&[(0, 0), (10, 10), (0, 1)]);

    // Find the closest pair
    let (idx1_2, idx2_2) = divide_and_conquer_closest_points(&points_2).unwrap();

    // Sort indices
    let mut result_indices_2 = vec![idx1_2, idx2_2];
    result_indices_2.sort();

    // The closest pair of indices is 0 and 2.
    assert_eq!(result_indices_2, vec![0, 2]);
}

#[test]
fn six_point_distance_agreement() {
    let points = pts(&[(1, 2), (3, 3), (2, 8), (8, 1), (4, 6), (7, 5)]);
    let (bi, bj) = brute_force_closest_points(&points).unwrap();
    let (di, dj) = divide_and_conquer_closest_points(&points).unwrap();
    let bd = dist_sq_u64(points[bi], points[bj]);
    let dd = dist_sq_u64(points[di], points[dj]);
    // The minimum over all fifteen pairs is (1,2)-(3,3), squared distance 5.
    assert_eq!(bd, 5);
    assert_eq!(dd, 5);
    assert_eq!(min_dist_sq(&points), 5);
}

#[test]
fn unit_distance_pair() {
    let points = pts(&[(0, 0), (10, 10), (0, 1)]);
    assert_eq!(brute_force_closest_points(&points), Some((0, 2)));
    let (i, j) = divide_and_conquer_closest_points(&points).unwrap();
    let mut got = vec![i, j];
    got.sort();
    assert_eq!(got, vec![0, 2]);
    assert_eq!(dist_sq_u64(points[i], points[j]), 1);
}

#[test]
fn insufficient_input() {
    let empty: Vec<Point> = Vec::new();
    assert_eq!(brute_force_closest_points(&empty), None);
    assert_eq!(
        divide_and_conquer_closest_points(&empty),
        Err(ClosestPairError::InsufficientInput)
    );

    let single = pts(&[(3, 4)]);
    assert_eq!(brute_force_closest_points(&single), None);
    assert_eq!(
        divide_and_conquer_closest_points(&single),
        Err(ClosestPairError::InsufficientInput)
    );
}

#[test]
fn duplicate_points_yield_distinct_indices() {
    let points = pts(&[(5, 5), (1, 1), (5, 5)]);
    let (i, j) = divide_and_conquer_closest_points(&points).unwrap();
    assert_ne!(i, j);
    assert_eq!(dist_sq_u64(points[i], points[j]), 0);
    assert_eq!(brute_force_closest_points(&points), Some((0, 2)));

    // Every point duplicated: still two distinct indices.
    let points_2 = pts(&[(7, 7), (7, 7), (7, 7), (7, 7)]);
    let (i2, j2) = divide_and_conquer_closest_points(&points_2).unwrap();
    assert_ne!(i2, j2);
    assert_eq!(dist_sq_u64(points_2[i2], points_2[j2]), 0);
}

#[test]
fn repeated_calls_agree() {
    let points = pts(&[(1, 2), (3, 3), (2, 8), (8, 1), (4, 6), (7, 5)]);
    let b1 = brute_force_closest_points(&points);
    let b2 = brute_force_closest_points(&points);
    assert_eq!(b1, b2);
    let d1 = divide_and_conquer_closest_points(&points);
    let d2 = divide_and_conquer_closest_points(&points);
    assert_eq!(d1, d2);
}

#[test]
fn extreme_coordinates() {
    let points = pts(&[
        (-COORD_LIMIT, -COORD_LIMIT),
        (COORD_LIMIT, COORD_LIMIT),
        (-COORD_LIMIT, -COORD_LIMIT + 1),
    ]);
    assert_eq!(brute_force_closest_points(&points), Some((0, 2)));
    let (i, j) = divide_and_conquer_closest_points(&points).unwrap();
    let mut got = vec![i, j];
    got.sort();
    assert_eq!(got, vec![0, 2]);
    assert_eq!(dist_sq_u64(points[i], points[j]), 1);
}

#[test]
fn indices_are_distinct_and_in_range() {
    let points = pts(&[(0, 0), (4, 4), (9, 0), (0, 9), (5, 5), (2, 7), (8, 8)]);
    let (bi, bj) = brute_force_closest_points(&points).unwrap();
    assert!(bi < points.len() && bj < points.len() && bi != bj);
    let (di, dj) = divide_and_conquer_closest_points(&points).unwrap();
    assert!(di < points.len() && dj < points.len() && di != dj);
}

#[test]
fn random_oracle_agreement() {
    for seed in 0..8u64 {
        let mut rng = rand::rngs::StdRng::seed_from_u64(seed);
        let mut set: HashSet<(i64, i64)> = HashSet::with_capacity(1000);
        while set.len() < 1000 {
            let x: i64 = rng.random_range(0..=32_767);
            let y: i64 = rng.random_range(0..=32_767);
            set.insert((x, y));
        }
        let points: Vec<Point> = set.into_iter().map(|(x, y)| Point { x, y }).collect();
        let (bi, bj) = brute_force_closest_points(&points).unwrap();
        let (di, dj) = divide_and_conquer_closest_points(&points).unwrap();
        let bd = dist_sq_u64(points[bi], points[bj]);
        let dd = dist_sq_u64(points[di], points[dj]);
        assert_eq!(bd, dd, "distance disagreement for seed {}", seed);
        assert_ne!(di, dj);
    }
}

#[test]
fn small_random_sets_agree() {
    for seed in 0..40u64 {
        let mut rng = rand::rngs::StdRng::seed_from_u64(1000 + seed);
        let n: usize = rng.random_range(2..=40);
        let mut points: Vec<Point> = Vec::with_capacity(n);
        for _ in 0..n {
            let x: i64 = rng.random_range(-50..=50);
            let y: i64 = rng.random_range(-50..=50);
            points.push(Point { x, y });
        }
        let (bi, bj) = brute_force_closest_points(&points).unwrap();
        let (di, dj) = divide_and_conquer_closest_points(&points).unwrap();
        let bd = dist_sq_u64(points[bi], points[bj]);
        let dd = dist_sq_u64(points[di], points[dj]);
        assert_eq!(bd, dd, "distance disagreement for seed {}", seed);
        assert_ne!(di, dj);
        assert_eq!(bd, min_dist_sq(&points));
    }
}
