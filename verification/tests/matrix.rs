use petalcluster::matrix::{convert, NumericMatrix};

fn bits(vals: &[f64]) -> Vec<u64> {
    vals.iter().map(|v| v.to_bits()).collect()
}

#[test]
fn convert_preserves_every_element() {
    // 2 rows x 3 cols, column-major: columns are [1,2], [3,4], [5,6].
    let data = bits(&[1.0, 2.0, 3.0, 4.0, 5.0, 6.0]);
    let m = NumericMatrix::new(data, 2, 3).unwrap();
    let a = convert(&m);
    assert_eq!(a.nrows(), 2);
    assert_eq!(a.ncols(), 3);
    let expected = [[1.0, 3.0, 5.0], [2.0, 4.0, 6.0]];
    for i in 0..2 {
        for j in 0..3 {
            assert_eq!(f64::from_bits(a.at(i, j)), expected[i][j]);
        }
    }
}

#[test]
fn convert_is_bit_identical() {
    // Values with tricky bit patterns survive unchanged: negative zero, NaN.
    let data = vec![f64::to_bits(-0.0), f64::NAN.to_bits(), 1u64, u64::MAX];
    let m = NumericMatrix::new(data.clone(), 2, 2).unwrap();
    let a = convert(&m);
    assert_eq!(a.at(0, 0), data[0]);
    assert_eq!(a.at(1, 0), data[1]);
    assert_eq!(a.at(0, 1), data[2]);
    assert_eq!(a.at(1, 1), data[3]);
}

#[test]
fn wrong_buffer_length_is_rejected() {
    let data = bits(&[1.0, 2.0, 3.0]);
    assert!(NumericMatrix::new(data, 2, 2).is_none());
}

#[test]
fn empty_matrix_converts() {
    let m = NumericMatrix::new(Vec::new(), 0, 0).unwrap();
    let a = convert(&m);
    assert_eq!(a.nrows(), 0);
    assert_eq!(a.ncols(), 0);
}
