use learn_arta::{RowVec, RowVecError};

fn row_from_bools(values: &[bool]) -> RowVec {
    let mut row = RowVec::new(values.len());
    for (idx, value) in values.iter().copied().enumerate() {
        row.set(idx, value).unwrap();
    }
    row
}

#[test]
fn new_has_no_ones() {
    let row = RowVec::new(5);
    assert_eq!(row.len(), 5);
    assert!(!row.is_empty());
    assert!(row.ones().is_empty());
    assert_eq!(row.to_bools(), vec![false, false, false, false, false]);
}

#[test]
fn top_has_all_ones() {
    let row = RowVec::top(5);
    assert_eq!(row.len(), 5);
    assert_eq!(row.to_bools(), vec![true, true, true, true, true]);
}

#[test]
fn bot_has_no_ones() {
    let row = RowVec::bot(4);
    assert_eq!(row.len(), 4);
    assert_eq!(row.to_bools(), vec![false, false, false, false]);
}

#[test]
fn set_get_works() {
    let mut row = RowVec::new(4);
    assert_eq!(row.get(0), Some(false));
    assert_eq!(row.get(3), Some(false));
    assert_eq!(row.get(4), None);

    row.set(1, true).unwrap();
    row.set(3, true).unwrap();
    row.set(1, false).unwrap();

    assert_eq!(row.get(0), Some(false));
    assert_eq!(row.get(1), Some(false));
    assert_eq!(row.get(3), Some(true));
    assert_eq!(row.to_string(), "0001");
}

#[test]
fn set_out_of_bounds_returns_error() {
    let mut row = RowVec::new(2);
    assert_eq!(row.set(2, true), Err(RowVecError::IndexOutOfBounds { index: 2, len: 2 }));
}

#[test]
fn push_bit_extends_row() {
    let mut row = RowVec::new(2);
    row.set(0, true).unwrap();
    row.push_bit(false);
    row.push_bit(true);

    assert_eq!(row.len(), 4);
    assert_eq!(row.to_bools(), vec![true, false, false, true]);
}

#[test]
fn and_or_match_pointwise_semantics() {
    let left = row_from_bools(&[true, false, true, false]);
    let right = row_from_bools(&[true, true, false, false]);

    let and = left.and(&right).unwrap();
    let or = left.or(&right).unwrap();

    assert_eq!(and.to_bools(), vec![true, false, false, false]);
    assert_eq!(or.to_bools(), vec![true, true, true, false]);
}

#[test]
fn length_mismatch_is_an_error() {
    let left = RowVec::new(2);
    let right = RowVec::new(3);

    assert_eq!(left.and(&right), Err(RowVecError::LengthMismatch { left: 2, right: 3 }));
    assert_eq!(left.or(&right), Err(RowVecError::LengthMismatch { left: 2, right: 3 }));
    assert_eq!(left.is_subset_of(&right), Err(RowVecError::LengthMismatch { left: 2, right: 3 }));
}

#[test]
fn ones_lists_true_indices_and_subset_follows_pointwise_implication() {
    let row = row_from_bools(&[false, true, true, false, true]);
    assert_eq!(row.ones(), vec![1, 2, 4]);
    let wider = row_from_bools(&[true, true, true, false, true]);
    assert_eq!(row.is_subset_of(&wider), Ok(true));
    assert_eq!(wider.is_subset_of(&row), Ok(false));
    assert_eq!(row.clone(), row);
    assert_ne!(row, wider);
}

#[test]
fn rows_wider_than_one_block_keep_their_bits() {
    let mut row = RowVec::new(130);
    row.set(0, true).unwrap();
    row.set(64, true).unwrap();
    row.set(129, true).unwrap();
    row.push_bit(true);
    assert_eq!(row.ones(), vec![0, 64, 129, 130]);
    let top = RowVec::top(131);
    assert_eq!(row.and(&top).unwrap(), row);
    assert_eq!(row.or(&top).unwrap(), top);
}
