use windelta::cluster::{canberra_distance, choose_centroids, kmeans};

#[test]
fn distance_of_point_to_itself_is_zero() {
    let v: Vec<i64> = vec![5, -3, 0, 7];
    let (num, den) = canberra_distance(&v, &v, 1);
    assert_eq!(num, 0);
    assert!(den > 0);
}

#[test]
fn distance_with_no_informative_dimension_is_one() {
    let a: Vec<i64> = vec![0, 0, 0];
    let b: Vec<i64> = vec![0, 0, 0];
    let (num, den) = canberra_distance(&a, &b, 1);
    assert_eq!((num, den), (1, 1));
}

#[test]
fn distance_fraction_matches_hand_computation() {
    // Dimensions: |2|+|6| = 8 and |0|+|4| = 4 are informative; |0|+|0| is not.
    let a: Vec<i64> = vec![2, 0, 0];
    let b: Vec<i64> = vec![6, 4, 0];
    let (num, den) = canberra_distance(&a, &b, 1);
    assert_eq!((num, den), (4 + 4, 8 + 4));
}

#[test]
fn seed_centroids_take_segment_middles() {
    let data: Vec<Vec<i64>> = (0..6).map(|i| vec![i as i64]).collect();
    let seeds = choose_centroids(&data, 2);
    // Segments of size three: middles at indices 1 and 4.
    assert_eq!(seeds, vec![vec![1], vec![4]]);
}

#[test]
fn kmeans_membership_partitions_input() {
    let data: Vec<Vec<i64>> = vec![
        vec![0, 0],
        vec![1, 0],
        vec![0, 1],
        vec![40, 40],
        vec![41, 40],
        vec![40, 41],
    ];
    let clusters = kmeans(&data, 2);
    assert_eq!(clusters.len(), 2);
    let mut seen = vec![0usize; data.len()];
    for c in &clusters {
        assert_eq!(c.points.len(), c.points_idx.len());
        for &i in &c.points_idx {
            seen[i] += 1;
        }
    }
    assert!(seen.iter().all(|&c| c == 1));
}

#[test]
fn kmeans_separates_two_far_blobs() {
    let mut data: Vec<Vec<i64>> = Vec::new();
    for i in 0..10i64 {
        data.push(vec![i % 3, 4 + i % 2, 0, 0]);
    }
    for i in 0..10i64 {
        data.push(vec![100 + i % 3, 90 + i % 2, 50, 50]);
    }
    let clusters = kmeans(&data, 2);
    // Each blob lands wholly in one cluster.
    for c in &clusters {
        let low = c.points_idx.iter().filter(|&&i| i < 10).count();
        assert!(low == 0 || low == c.points_idx.len());
    }
    let total: usize = clusters.iter().map(|c| c.points_idx.len()).sum();
    assert_eq!(total, 20);
}

#[test]
fn nonempty_cluster_centroid_is_member_mean() {
    let data: Vec<Vec<i64>> = vec![vec![0], vec![2], vec![100], vec![104]];
    let clusters = kmeans(&data, 2);
    for c in &clusters {
        if !c.points.is_empty() {
            assert_eq!(c.weight as usize, c.points.len());
            let mut sums = vec![0i64; c.centroid_sum.len()];
            for p in &c.points {
                for (m, v) in p.iter().enumerate() {
                    sums[m] += v;
                }
            }
            assert_eq!(sums, c.centroid_sum);
        }
    }
}
