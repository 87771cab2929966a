use row_codec::decimal_eq::{contains_nulls, decimal_equal, DecimalArrayData};

fn packed(elems: &[[u8; 4]]) -> Vec<u8> {
    let mut v = Vec::new();
    for e in elems {
        v.extend_from_slice(e);
    }
    v
}

#[test]
fn decimal_equal_no_nulls() {
    let lhs = DecimalArrayData {
        byte_width: 4,
        values: packed(&[[1, 2, 3, 4], [5, 6, 7, 8], [9, 9, 9, 9]]),
        offset: 0,
        validity: None,
    };
    let rhs = DecimalArrayData {
        byte_width: 4,
        values: packed(&[[5, 6, 7, 8], [9, 9, 9, 9], [0, 0, 0, 0]]),
        offset: 0,
        validity: None,
    };
    assert!(decimal_equal(&lhs, &rhs, 1, 0, 2));
    assert!(!decimal_equal(&lhs, &rhs, 0, 0, 1));
}

#[test]
fn decimal_equal_with_nulls_and_offset() {
    let lhs = DecimalArrayData {
        byte_width: 4,
        values: packed(&[[0, 0, 0, 0], [1, 1, 1, 1], [2, 2, 2, 2]]),
        offset: 1,
        validity: Some(vec![true, true, false]),
    };
    let rhs = DecimalArrayData {
        byte_width: 4,
        values: packed(&[[1, 1, 1, 1], [7, 7, 7, 7]]),
        offset: 0,
        validity: Some(vec![true, false]),
    };
    // element 0: both valid, bytes equal; element 1: both null, bytes differ
    assert!(decimal_equal(&lhs, &rhs, 0, 0, 2));
    assert!(contains_nulls(&lhs.validity, 1, 2));
    assert!(!contains_nulls(&lhs.validity, 0, 2));
}
