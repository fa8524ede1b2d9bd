use petalcluster::cluster::encode;
use petalcluster::error::MarshalError;
use petalcluster::labels::{decode, encode_as_partial_label_format, format_cluster_id,
    parse_cluster_id};

#[test]
fn decode_shifts_indices_to_zero_based() {
    // Names "0" and "1", values 1-based: {0: [0], 1: [1, 2]} once decoded.
    let labels = vec![
        (b"0".to_vec(), vec![1i64]),
        (b"1".to_vec(), vec![2i64, 3i64]),
    ];
    let map = decode(&labels).unwrap();
    let r = encode(&map, &Vec::new(), 3);
    assert_eq!(r.cluster, vec![Some(1), Some(2), Some(2)]);
    assert_eq!(r.n_clusters, 2);
}

#[test]
fn decode_preserves_value_order() {
    let labels = vec![(b"4".to_vec(), vec![3i64, 1i64, 2i64])];
    let map = decode(&labels).unwrap();
    let back = encode_as_partial_label_format(&map);
    assert_eq!(back, vec![(b"4".to_vec(), vec![3i64, 1i64, 2i64])]);
}

#[test]
fn decode_rejects_non_numeric_name() {
    let labels = vec![(b"x".to_vec(), vec![1i64])];
    match decode(&labels) {
        Err(e) => assert_eq!(e, MarshalError::LabelNameNotNumeric),
        Ok(_) => panic!("a non-numeric group name must fault"),
    }
}

#[test]
fn decode_rejects_empty_name() {
    let labels = vec![(Vec::new(), vec![1i64])];
    match decode(&labels) {
        Err(e) => assert_eq!(e, MarshalError::LabelNameNotNumeric),
        Ok(_) => panic!("an empty group name must fault"),
    }
}

#[test]
fn decode_rejects_signed_name() {
    let labels = vec![(b"+7".to_vec(), vec![1i64])];
    match decode(&labels) {
        Err(e) => assert_eq!(e, MarshalError::LabelNameNotNumeric),
        Ok(_) => panic!("a signed group name must fault"),
    }
}

#[test]
fn decode_rejects_non_positive_index() {
    let labels = vec![(b"0".to_vec(), vec![0i64])];
    match decode(&labels) {
        Err(e) => assert_eq!(e, MarshalError::LabelIndexOutOfRange),
        Ok(_) => panic!("a 0 index must fault: host indices are 1-based"),
    }
    let labels = vec![(b"0".to_vec(), vec![-3i64])];
    assert!(decode(&labels).is_err());
}

#[test]
fn decode_first_fault_wins() {
    // The bad name in the first pair is reported, not the bad index later.
    let labels = vec![
        (b"a".to_vec(), vec![1i64]),
        (b"0".to_vec(), vec![0i64]),
    ];
    match decode(&labels) {
        Err(e) => assert_eq!(e, MarshalError::LabelNameNotNumeric),
        Ok(_) => panic!("the first offending pair must fault the call"),
    }
}

#[test]
fn decode_duplicate_name_last_wins() {
    let labels = vec![
        (b"0".to_vec(), vec![1i64]),
        (b"0".to_vec(), vec![2i64]),
    ];
    let map = decode(&labels).unwrap();
    let r = encode(&map, &Vec::new(), 2);
    assert_eq!(r.cluster, vec![None, Some(1)]);
    assert_eq!(r.n_clusters, 1);
}

#[test]
fn parse_accepts_leading_zeros() {
    assert_eq!(parse_cluster_id(&b"007".to_vec()), Some(7));
    assert_eq!(parse_cluster_id(&b"0".to_vec()), Some(0));
    assert_eq!(parse_cluster_id(&b"12345".to_vec()), Some(12345));
}

#[test]
fn parse_rejects_garbage_and_overflow() {
    assert_eq!(parse_cluster_id(&b"".to_vec()), None);
    assert_eq!(parse_cluster_id(&b"1 2".to_vec()), None);
    assert_eq!(parse_cluster_id(&b"-1".to_vec()), None);
    assert_eq!(parse_cluster_id(&b"99999999999999999999999999".to_vec()), None);
}

#[test]
fn format_renders_canonical_decimal() {
    assert_eq!(format_cluster_id(0), b"0".to_vec());
    assert_eq!(format_cluster_id(10), b"10".to_vec());
    assert_eq!(format_cluster_id(90210), b"90210".to_vec());
}

#[test]
fn partial_label_round_trip() {
    // 0-based -> 1-based -> 0-based is the identity on the whole structure.
    let original = vec![(0usize, vec![0usize, 1]), (3, vec![4])];
    let map = petalcluster::cluster::ClusterMap::from_pairs(original);
    let host_form = encode_as_partial_label_format(&map);
    assert_eq!(
        host_form,
        vec![
            (b"0".to_vec(), vec![1i64, 2i64]),
            (b"3".to_vec(), vec![5i64]),
        ]
    );
    let back = decode(&host_form).unwrap();
    let before = encode(&map, &Vec::new(), 5);
    let after = encode(&back, &Vec::new(), 5);
    assert_eq!(before.cluster, after.cluster);
    assert_eq!(before.n_clusters, after.n_clusters);
}
