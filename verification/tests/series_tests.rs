use ta_engine::rational::Rat;
use ta_engine::series::{
    abs, max_horizontal, prefix_mean, scalar_multiply, shift, subtract, Cell, Series,
};
use ta_engine::utils::error::CommandError;

fn series_of(vals: &[Option<i64>]) -> Series {
    Series {
        cells: vals
            .iter()
            .map(|o| match o {
                Some(v) => Cell::Val(Rat::from_int(*v)),
                None => Cell::Gap,
            })
            .collect(),
    }
}

fn val(num: i64, den: i64) -> Cell {
    Cell::Val(Rat { num, den })
}

#[test]
fn test_shift_introduces_leading_gaps() {
    let s = series_of(&[Some(1), Some(2), Some(3), Some(4)]);
    let r = shift(&s, 2);
    assert_eq!(r.cells.len(), 4);
    assert_eq!(r.cells[0], Cell::Gap);
    assert_eq!(r.cells[1], Cell::Gap);
    assert_eq!(r.cells[2], val(1, 1));
    assert_eq!(r.cells[3], val(2, 1));
}

#[test]
fn test_shift_by_zero_is_identity() {
    let s = series_of(&[Some(5), None, Some(7)]);
    let r = shift(&s, 0);
    assert_eq!(r, s);
}

#[test]
fn test_subtract_elementwise() {
    let a = series_of(&[Some(10), Some(3), None, Some(4)]);
    let b = series_of(&[Some(4), Some(8), Some(1), None]);
    let r = subtract(&a, &b).unwrap();
    assert_eq!(r.cells[0], val(6, 1));
    assert_eq!(r.cells[1], val(-5, 1));
    assert_eq!(r.cells[2], Cell::Gap);
    assert_eq!(r.cells[3], Cell::Gap);
}

#[test]
fn test_subtract_shape_mismatch() {
    let a = series_of(&[Some(1), Some(2)]);
    let b = series_of(&[Some(1)]);
    assert_eq!(subtract(&a, &b), Err(CommandError::ShapeMismatch));
}

#[test]
fn test_subtract_overflow_is_computation_failure() {
    let a = Series { cells: vec![Cell::Val(Rat { num: i64::MAX, den: 1 })] };
    let b = Series { cells: vec![Cell::Val(Rat { num: -1, den: 1 })] };
    assert_eq!(subtract(&a, &b), Err(CommandError::ComputationFailure));
}

#[test]
fn test_scalar_multiply_doubles() {
    let a = series_of(&[Some(3), None, Some(-2)]);
    let r = scalar_multiply(&a, Rat::from_int(2)).unwrap();
    assert_eq!(r.cells[0], val(6, 1));
    assert_eq!(r.cells[1], Cell::Gap);
    assert_eq!(r.cells[2], val(-4, 1));
}

#[test]
fn test_abs_elementwise() {
    let a = series_of(&[Some(-3), Some(4), None]);
    let r = abs(&a).unwrap();
    assert_eq!(r.cells[0], val(3, 1));
    assert_eq!(r.cells[1], val(4, 1));
    assert_eq!(r.cells[2], Cell::Gap);
}

#[test]
fn test_prefix_mean_of_first_three() {
    let s = series_of(&[Some(1), Some(2), Some(3), Some(100)]);
    let m = prefix_mean(&s, 3).unwrap();
    assert_eq!(m, val(2, 1));
}

#[test]
fn test_prefix_mean_skips_gaps() {
    let s = series_of(&[Some(1), None, Some(4), Some(100)]);
    let m = prefix_mean(&s, 3).unwrap();
    // mean of the two non-gap values 1 and 4
    assert_eq!(m, val(5, 2));
}

#[test]
fn test_prefix_mean_all_gaps_is_gap() {
    let s = series_of(&[None, None, Some(7)]);
    let m = prefix_mean(&s, 2).unwrap();
    assert_eq!(m, Cell::Gap);
}

#[test]
fn test_max_horizontal_rowwise() {
    let a = series_of(&[Some(1), Some(9), Some(3)]);
    let b = series_of(&[Some(7), Some(2), Some(3)]);
    let r = max_horizontal(&vec![a, b]).unwrap();
    assert_eq!(r.cells[0], val(7, 1));
    assert_eq!(r.cells[1], val(9, 1));
    assert_eq!(r.cells[2], val(3, 1));
}

#[test]
fn test_max_horizontal_ignores_gaps() {
    let a = series_of(&[None, Some(9), None]);
    let b = series_of(&[Some(7), None, None]);
    let r = max_horizontal(&vec![a, b]).unwrap();
    assert_eq!(r.cells[0], val(7, 1));
    assert_eq!(r.cells[1], val(9, 1));
    assert_eq!(r.cells[2], Cell::Gap);
}

#[test]
fn test_max_horizontal_shape_mismatch() {
    let a = series_of(&[Some(1), Some(2)]);
    let b = series_of(&[Some(1)]);
    assert_eq!(max_horizontal(&vec![a, b]), Err(CommandError::ShapeMismatch));
}

#[test]
fn test_max_horizontal_compares_values_not_representations() {
    // 3/2 against 2: distinct denominators must still order correctly
    let a = Series { cells: vec![Cell::Val(Rat { num: 3, den: 2 })] };
    let b = Series { cells: vec![Cell::Val(Rat { num: 2, den: 1 })] };
    let r = max_horizontal(&vec![a, b]).unwrap();
    assert_eq!(r.cells[0], val(2, 1));
}

#[test]
fn test_prefix_mean_nan_poisons() {
    let s = Series {
        cells: vec![
            Cell::Val(Rat::from_int(1)),
            Cell::Nan,
            Cell::Val(Rat::from_int(3)),
        ],
    };
    assert_eq!(prefix_mean(&s, 3).unwrap(), Cell::Nan);
}

#[test]
fn test_max_horizontal_nan_poisons_row() {
    let a = Series { cells: vec![Cell::Val(Rat::from_int(9))] };
    let b = Series { cells: vec![Cell::Nan] };
    let r = max_horizontal(&vec![a, b]).unwrap();
    assert_eq!(r.cells[0], Cell::Nan);
}
