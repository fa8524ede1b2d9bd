use petalcluster::cluster::{encode, encode_with_scores, ClusterMap};

#[test]
fn two_clusters_no_noise() {
    // 4 points in 2 clusters {0: [0, 1], 1: [2, 3]}, no noise.
    let map = ClusterMap::from_pairs(vec![(0, vec![0, 1]), (1, vec![2, 3])]);
    let noise: Vec<usize> = Vec::new();
    let r = encode(&map, &noise, 4);
    assert_eq!(r.cluster, vec![Some(1), Some(1), Some(2), Some(2)]);
    assert_eq!(r.n_clusters, 2);
    assert_eq!(r.n_noise, 0);
    assert!(r.outlier_scores.is_none());
}

#[test]
fn noise_points_stay_missing() {
    // {0: [0]} with noise [1, 2]: noise is counted, never labeled.
    let map = ClusterMap::from_pairs(vec![(0, vec![0])]);
    let noise = vec![1, 2];
    let r = encode(&map, &noise, 3);
    assert_eq!(r.cluster, vec![Some(1), None, None]);
    assert_eq!(r.n_clusters, 1);
    assert_eq!(r.n_noise, 2);
}

#[test]
fn empty_input_empty_output() {
    // No points at all: empty assignment, zero counts, no fault.
    let map = ClusterMap::new();
    let noise: Vec<usize> = Vec::new();
    let r = encode(&map, &noise, 0);
    assert_eq!(r.cluster, Vec::<Option<usize>>::new());
    assert_eq!(r.n_clusters, 0);
    assert_eq!(r.n_noise, 0);
}

#[test]
fn renumbering_follows_sorted_ids() {
    // Original ids 5 and 2: id 2 gets label 1, id 5 gets label 2.
    let map = ClusterMap::from_pairs(vec![(5, vec![0, 1]), (2, vec![2, 3])]);
    let r = encode(&map, &Vec::new(), 4);
    assert_eq!(r.cluster, vec![Some(2), Some(2), Some(1), Some(1)]);
    assert_eq!(r.n_clusters, 2);
}

#[test]
fn renumbering_ignores_insertion_order() {
    // The same member sets fed in permuted order give identical output.
    let a = ClusterMap::from_pairs(vec![(5, vec![0, 1]), (2, vec![2, 3])]);
    let b = ClusterMap::from_pairs(vec![(2, vec![2, 3]), (5, vec![0, 1])]);
    let ra = encode(&a, &Vec::new(), 4);
    let rb = encode(&b, &Vec::new(), 4);
    assert_eq!(ra.cluster, rb.cluster);
    assert_eq!(ra.n_clusters, rb.n_clusters);
}

#[test]
fn labels_are_contiguous_from_one() {
    // Ids 3, 7, 10 with one point each: the labels appearing are exactly
    // {1, 2, 3}.
    let map = ClusterMap::from_pairs(vec![(10, vec![2]), (3, vec![0]), (7, vec![1])]);
    let r = encode(&map, &Vec::new(), 3);
    assert_eq!(r.cluster, vec![Some(1), Some(2), Some(3)]);
}

#[test]
fn out_of_range_members_are_dropped() {
    // A member index at or beyond n_points is silently dropped.
    let map = ClusterMap::from_pairs(vec![(0, vec![0, 9])]);
    let r = encode(&map, &Vec::new(), 2);
    assert_eq!(r.cluster, vec![Some(1), None]);
    assert_eq!(r.n_clusters, 1);
}

#[test]
fn duplicate_id_last_wins() {
    // Inserting the same id twice keeps only the later member list.
    let map = ClusterMap::from_pairs(vec![(1, vec![0]), (1, vec![1])]);
    let r = encode(&map, &Vec::new(), 2);
    assert_eq!(r.cluster, vec![None, Some(1)]);
    assert_eq!(r.n_clusters, 1);
}

#[test]
fn scores_pass_through_unchanged() {
    let map = ClusterMap::from_pairs(vec![(0, vec![0, 1])]);
    let scores = vec![0.25f64.to_bits(), 0.5f64.to_bits()];
    let r = encode_with_scores(&map, &Vec::new(), scores.clone(), 2);
    assert_eq!(r.cluster, vec![Some(1), Some(1)]);
    assert_eq!(r.outlier_scores, Some(scores));
}
