use ta_engine::rational::Rat;
use ta_engine::series::{Cell, Series};
use ta_engine::utils::error::CommandError;
use ta_engine::utils::params::{get_drift, get_offset, non_zero_range, EPS_DEN};

fn series_of(vals: &[Option<i64>]) -> Series {
    Series {
        cells: vals
            .iter()
            .map(|o| match o {
                Some(v) => Cell::Val(Rat::from_int(*v)),
                None => Cell::Gap,
            })
            .collect(),
    }
}

#[test]
fn test_get_drift() {
    assert_eq!(get_drift(Some(1)), 1);
    assert_eq!(get_drift(Some(0)), 1);
    assert_eq!(get_drift(Some(-1)), 1);
    assert_eq!(get_drift(None), 1);
}

#[test]
fn test_get_offset() {
    assert_eq!(get_offset(Some(1)), 1);
    assert_eq!(get_offset(Some(0)), 0);
    assert_eq!(get_offset(Some(-1)), 0);
    assert_eq!(get_offset(None), 0);
}

#[test]
fn test_non_zero_range() {
    let high = series_of(&[Some(10), Some(12), Some(7)]);
    let low = series_of(&[Some(8), Some(12), Some(9)]);
    let diff = non_zero_range(&high, &low).unwrap();
    assert_eq!(diff.cells[0], Cell::Val(Rat { num: 2, den: 1 }));
    // equal high and low: the zero range is replaced by the epsilon
    assert_eq!(diff.cells[1], Cell::Val(Rat { num: 1, den: EPS_DEN }));
    // the difference may be negative; the guard only touches exact zeros
    assert_eq!(diff.cells[2], Cell::Val(Rat { num: -2, den: 1 }));
}

#[test]
fn test_non_zero_range_gap_propagates() {
    let high = series_of(&[Some(10), None]);
    let low = series_of(&[None, Some(9)]);
    let diff = non_zero_range(&high, &low).unwrap();
    assert_eq!(diff.cells[0], Cell::Gap);
    assert_eq!(diff.cells[1], Cell::Gap);
}

#[test]
fn test_non_zero_range_shape_mismatch() {
    let high = series_of(&[Some(10), Some(11)]);
    let low = series_of(&[Some(8)]);
    assert_eq!(non_zero_range(&high, &low), Err(CommandError::ShapeMismatch));
}
