use ta_engine::overlap::dema::{dema, DemaOptions};
use ta_engine::overlap::ema::{ema, EmaOptions, MaMode};
use ta_engine::rational::Rat;
use ta_engine::series::{scalar_multiply, shift, subtract, Cell, Series};

fn series_of(vals: &[i64]) -> Series {
    Series { cells: vals.iter().map(|v| Cell::Val(Rat::from_int(*v))).collect() }
}

fn val(num: i64, den: i64) -> Cell {
    Cell::Val(Rat { num, den })
}

#[test]
fn test_dema() {
    let close = series_of(&[1, 2, 3, 4, 5, 6, 7, 8, 9, 10, 11, 12]);
    let dema = dema(&close, DemaOptions { ..Default::default() }).unwrap();
    assert_eq!(dema.cells.len(), 12);
    // default length 10: both passes leave gaps before row 9, and at row 9
    // both seeds equal mean(1..=10) = 5.5, so dema[9] = 2*5.5 - 5.5 = 5.5
    for i in 0..9 {
        assert_eq!(dema.cells[i], Cell::Gap);
    }
    assert_eq!(dema.cells[9], val(11, 2));
    // ema1[10] = 13/2, ema2[10] = (2*(13/2) + 9*(11/2))/11 = 125/22,
    // so dema[10] = 13 - 125/22 = 161/22
    assert_eq!(dema.cells[10], val(161, 22));
}

#[test]
fn test_dema_matches_recomputed_ema_passes() {
    let close = series_of(&[2, 7, 1, 8, 2, 8, 1, 8, 2, 8]);
    let length = 4i32;
    let d = dema(
        &close,
        DemaOptions { length: Some(length), ..Default::default() },
    )
    .unwrap();

    // recompute the two passes independently and combine them by hand
    let pass_opts = |_: ()| EmaOptions {
        length: Some(length),
        mamode: Some(MaMode::Sma),
        ..Default::default()
    };
    let ema1 = ema(&close, pass_opts(())).unwrap();
    let ema2 = ema(&ema1, pass_opts(())).unwrap();
    let doubled = scalar_multiply(&ema1, Rat::from_int(2)).unwrap();
    let expected = subtract(&doubled, &ema2).unwrap();
    assert_eq!(d, expected);
}

#[test]
fn test_dema_offset_equivalence() {
    let close = series_of(&[4, 2, 7, 5, 9, 1, 3, 8, 6, 2, 5, 7]);
    let plain = dema(
        &close,
        DemaOptions { length: Some(5), ..Default::default() },
    )
    .unwrap();
    let moved = dema(
        &close,
        DemaOptions { length: Some(5), offset: Some(2), ..Default::default() },
    )
    .unwrap();
    assert_eq!(moved, shift(&plain, 2));
}

#[test]
fn test_dema_length_fallback() {
    let close = series_of(&[1, 2, 3, 4, 5, 6, 7, 8, 9, 10, 11, 12, 13, 14]);
    let bad = dema(&close, DemaOptions { length: Some(0), ..Default::default() }).unwrap();
    let fourteen = dema(&close, DemaOptions { length: Some(14), ..Default::default() }).unwrap();
    assert_eq!(bad, fourteen);
}

#[test]
fn test_dema_output_length_matches_input() {
    let close = series_of(&[9, 8, 7, 6, 5, 4, 3, 2, 1, 0, 1, 2]);
    let out = dema(&close, DemaOptions { length: Some(3), ..Default::default() }).unwrap();
    assert_eq!(out.cells.len(), 12);
}
