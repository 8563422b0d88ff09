use shivya_core::signature::signature_hex;
use shivya_core::sparse::{SparseMatrix, SubstrateError};

fn b(x: f64) -> u64 {
    x.to_bits()
}

#[test]
fn new_matrix_reads_zero() {
    let m = SparseMatrix::new(3, 2);
    assert_eq!(m.rows, 3);
    assert_eq!(m.cols, 2);
    assert_eq!(m.data.len(), 3);
    for r in 0..4 {
        for c in 0..3 {
            assert_eq!(f64::from_bits(m.get(r, c)), 0.0);
        }
    }
}

#[test]
fn insert_overwrites_and_get_reads_back() {
    let mut m = SparseMatrix::new(2, 3);
    m.insert(0, 1, b(1.5)).unwrap();
    m.insert(1, 2, b(-2.0)).unwrap();
    m.insert(0, 1, b(4.0)).unwrap();
    assert_eq!(f64::from_bits(m.get(0, 1)), 4.0);
    assert_eq!(f64::from_bits(m.get(1, 2)), -2.0);
    assert_eq!(m.get(1, 1), 0);
    assert_eq!(m.data[0].len(), 1);
    // out of range reads are zero
    assert_eq!(m.get(5, 0), 0);
}

#[test]
fn insert_out_of_range_is_dimension_mismatch() {
    let mut m = SparseMatrix::new(2, 3);
    assert_eq!(
        m.insert(2, 0, 1),
        Err(SubstrateError::DimensionMismatch { expected: 2, actual: 2 })
    );
    assert_eq!(
        m.insert(1, 7, 1),
        Err(SubstrateError::DimensionMismatch { expected: 3, actual: 7 })
    );
    assert!(m.data.iter().all(|row| row.is_empty()));
}

#[test]
fn transpose_swaps_entries_and_twice_is_identity() {
    let mut m = SparseMatrix::new(2, 3);
    m.insert(0, 0, b(1.0)).unwrap();
    m.insert(0, 2, b(2.0)).unwrap();
    m.insert(1, 1, b(3.0)).unwrap();
    let t = m.transpose().unwrap();
    assert_eq!((t.rows, t.cols), (3, 2));
    assert_eq!(f64::from_bits(t.get(2, 0)), 2.0);
    assert_eq!(f64::from_bits(t.get(1, 1)), 3.0);
    assert_eq!(t.get(0, 1), 0);
    let back = t.transpose().unwrap();
    for r in 0..2 {
        for c in 0..3 {
            assert_eq!(back.get(r, c), m.get(r, c));
        }
    }
}

#[test]
fn transpose_reports_first_out_of_range_entry() {
    let m = SparseMatrix { rows: 2, cols: 2, data: vec![vec![(0, 1), (5, 2)], vec![(9, 3)]] };
    assert_eq!(
        m.transpose().unwrap_err(),
        SubstrateError::DimensionMismatch { expected: 2, actual: 5 }
    );
}

#[test]
fn transpose_of_repeated_column_keeps_last_entry() {
    let m = SparseMatrix { rows: 1, cols: 2, data: vec![vec![(1, 7), (1, 8)]] };
    assert_eq!(m.get(0, 1), 7);
    let t = m.transpose().unwrap();
    assert_eq!(t.get(1, 0), 8);
}

#[test]
fn signature_hex_is_big_endian_lower_hex() {
    assert_eq!(signature_hex(0x0123_4567, 0x89ab_cdef), "0123456789abcdef");
    assert_eq!(signature_hex(0, 0), "0000000000000000");
    for (w0, w1) in [(1u32, 0xffff_ffffu32), (0xdead_beef, 0x0bad_f00d)] {
        assert_eq!(signature_hex(w0, w1), format!("{:08x}{:08x}", w0, w1));
    }
}

#[test]
fn transpose_rows_list_columns_in_increasing_order() {
    let m = SparseMatrix {
        rows: 3,
        cols: 2,
        data: vec![vec![(1, 10)], vec![(1, 20)], vec![(1, 30), (0, 40)]],
    };
    let t = m.transpose().unwrap();
    assert_eq!(t.data, vec![vec![(2, 40)], vec![(0, 10), (1, 20), (2, 30)]]);
}

#[test]
fn out_of_range_insert_on_short_row_list_is_an_error() {
    // the row list is shorter than `rows`: out-of-range indices are still refused
    let mut m = SparseMatrix { rows: 4, cols: 2, data: vec![vec![]] };
    assert_eq!(m.insert(4, 0, 1), Err(SubstrateError::DimensionMismatch { expected: 4, actual: 4 }));
    assert_eq!(m.insert(0, 2, 1), Err(SubstrateError::DimensionMismatch { expected: 2, actual: 2 }));
    assert_eq!(m.get(7, 0), 0);
    m.insert(0, 1, 9).unwrap();
    assert_eq!(m.get(0, 1), 9);
    assert_eq!(m.data.len(), 1);
}

#[test]
fn transpose_reads_only_the_rows_of_the_matrix() {
    // a longer row list: rows past `rows` are not part of the matrix
    let m = SparseMatrix { rows: 1, cols: 2, data: vec![vec![(1, 5)], vec![(9, 9)]] };
    let t = m.transpose().unwrap();
    assert_eq!(t.data, vec![vec![], vec![(0, 5)]]);
}
