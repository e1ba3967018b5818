use ta_engine::rational::Rat;
use ta_engine::series::{shift, Cell, Series};
use ta_engine::utils::error::CommandError;
use ta_engine::utils::params::EPS_DEN;
use ta_engine::volatility::true_range::true_range;

fn series_of(vals: &[i64]) -> Series {
    Series { cells: vals.iter().map(|v| Cell::Val(Rat::from_int(*v))).collect() }
}

fn val(num: i64, den: i64) -> Cell {
    Cell::Val(Rat { num, den })
}

#[test]
fn test_true_range() {
    let high = series_of(&[10, 12, 11]);
    let low = series_of(&[8, 7, 9]);
    let close = series_of(&[9, 10, 10]);
    let result = true_range(&high, &low, &close, Some(1), Some(0)).unwrap();
    assert_eq!(result.cells.len(), 3);
    // row 0 is invalid by design: the previous close is undefined there
    assert_eq!(result.cells[0], Cell::Nan);
    // row 1: max(|12-7|, |12-9|, |9-7|) = 5
    assert_eq!(result.cells[1], val(5, 1));
    // row 2: max(|11-9|, |11-10|, |10-9|) = 2
    assert_eq!(result.cells[2], val(2, 1));
}

#[test]
fn test_true_range_epsilon_at_flat_bar() {
    // high == low == close everywhere: the high-low candidate is the
    // epsilon and the previous-close candidates are zero
    let high = series_of(&[10, 10]);
    let low = series_of(&[10, 10]);
    let close = series_of(&[10, 10]);
    let result = true_range(&high, &low, &close, Some(1), None).unwrap();
    assert_eq!(result.cells[0], Cell::Nan);
    assert_eq!(result.cells[1], val(1, EPS_DEN));
}

#[test]
fn test_true_range_drift_invalidation() {
    let high = series_of(&[5, 6, 7, 8]);
    let low = series_of(&[1, 2, 3, 4]);
    let close = series_of(&[3, 4, 5, 6]);
    let result = true_range(&high, &low, &close, Some(2), None).unwrap();
    assert_eq!(result.cells[0], Cell::Nan);
    assert_eq!(result.cells[1], Cell::Nan);
    // row 2: prev_close = close[0] = 3; max(|7-3|, |7-3|, |3-3|) = 4
    assert_eq!(result.cells[2], val(4, 1));
}

#[test]
fn test_true_range_shape_mismatch() {
    let two = series_of(&[1, 2]);
    let three = series_of(&[1, 2, 3]);
    assert_eq!(
        true_range(&two, &three, &three, Some(1), None),
        Err(CommandError::ShapeMismatch)
    );
    assert_eq!(
        true_range(&three, &three, &two, Some(1), None),
        Err(CommandError::ShapeMismatch)
    );
}

#[test]
fn test_true_range_offset_equivalence() {
    let high = series_of(&[10, 12, 11, 14, 13]);
    let low = series_of(&[8, 7, 9, 10, 9]);
    let close = series_of(&[9, 10, 10, 12, 11]);
    let plain = true_range(&high, &low, &close, Some(1), None).unwrap();
    let moved = true_range(&high, &low, &close, Some(1), Some(2)).unwrap();
    assert_eq!(moved, shift(&plain, 2));
}

#[test]
fn test_true_range_drift_fallback() {
    let high = series_of(&[10, 12]);
    let low = series_of(&[8, 7]);
    let close = series_of(&[9, 10]);
    let bad = true_range(&high, &low, &close, Some(-3), None).unwrap();
    let one = true_range(&high, &low, &close, Some(1), None).unwrap();
    assert_eq!(bad, one);
}
