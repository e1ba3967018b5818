use ta_engine::overlap::ema::{ema, EmaOptions, MaMode};
use ta_engine::rational::Rat;
use ta_engine::series::{shift, Cell, Series};

fn series_of(vals: &[i64]) -> Series {
    Series { cells: vals.iter().map(|v| Cell::Val(Rat::from_int(*v))).collect() }
}

fn val(num: i64, den: i64) -> Cell {
    Cell::Val(Rat { num, den })
}

#[test]
fn test_ema() {
    let close = series_of(&[1, 2, 3, 4, 5, 6, 7, 8, 9, 10, 11, 12]);
    let ema = ema(
        &close,
        EmaOptions { mamode: Some(MaMode::Ema), ..Default::default() },
    )
    .unwrap();
    assert_eq!(ema.cells.len(), 12);
    // alpha = 2/11 for the default length 10; plain seeding starts at row 0
    assert_eq!(ema.cells[0], val(1, 1));
    assert_eq!(ema.cells[1], val(13, 11));
    assert_eq!(ema.cells[2], val(183, 121));
}

#[test]
fn test_ema_sma() {
    let close = series_of(&[1, 2, 3, 4, 5, 6, 7, 8, 9, 10, 11, 12]);
    let ema = ema(
        &close,
        EmaOptions { mamode: Some(MaMode::Sma), offset: Some(2), ..Default::default() },
    )
    .unwrap();
    assert_eq!(ema.cells.len(), 12);
    // default length 10, so rows 0..8 of the unshifted output are gaps and
    // row 9 is the seed mean 5.5; the offset moves it to row 11
    for i in 0..11 {
        assert_eq!(ema.cells[i], Cell::Gap);
    }
    assert_eq!(ema.cells[11], val(11, 2));
}

#[test]
fn test_ema_sma_seed_scenario() {
    // close [1..10], length 3, sma seed: alpha = 1/2
    let close = series_of(&[1, 2, 3, 4, 5, 6, 7, 8, 9, 10]);
    let ema = ema(
        &close,
        EmaOptions { length: Some(3), mamode: Some(MaMode::Sma), ..Default::default() },
    )
    .unwrap();
    assert_eq!(ema.cells.len(), 10);
    assert_eq!(ema.cells[0], Cell::Gap);
    assert_eq!(ema.cells[1], Cell::Gap);
    // row 2 = mean(1,2,3) = 2.0; row 3 = 0.5*4 + 0.5*2 = 3.0; and so on
    for i in 2..10 {
        assert_eq!(ema.cells[i], val(i as i64, 1));
    }
}

#[test]
fn test_ema_adjust_weighted() {
    // length 3 gives alpha = 1/2; adjusted weighting:
    // row 0 = 1; row 1 = (2 + 0.5*1) / (1 + 0.5) = 5/3
    let close = series_of(&[1, 2]);
    let ema = ema(
        &close,
        EmaOptions {
            length: Some(3),
            adjust: true,
            mamode: Some(MaMode::Ema),
            ..Default::default()
        },
    )
    .unwrap();
    assert_eq!(ema.cells[0], val(1, 1));
    assert_eq!(ema.cells[1], val(5, 3));
}

#[test]
fn test_ema_offset_equivalence() {
    let close = series_of(&[3, 1, 4, 1, 5, 9, 2, 6, 5, 3, 5, 8]);
    let opts = |offset: Option<i32>| EmaOptions {
        length: Some(4),
        mamode: Some(MaMode::Sma),
        offset,
        ..Default::default()
    };
    let plain = ema(&close, opts(None)).unwrap();
    let moved = ema(&close, opts(Some(3))).unwrap();
    assert_eq!(moved, shift(&plain, 3));
}

#[test]
fn test_ema_length_fallback() {
    let close = series_of(&[5, 6, 7]);
    let bad = ema(
        &close,
        EmaOptions { length: Some(-5), mamode: Some(MaMode::Ema), ..Default::default() },
    )
    .unwrap();
    let fourteen = ema(
        &close,
        EmaOptions { length: Some(14), mamode: Some(MaMode::Ema), ..Default::default() },
    )
    .unwrap();
    assert_eq!(bad, fourteen);
}

#[test]
fn test_ema_mamode_fallback() {
    let close = series_of(&[5, 6, 7, 8]);
    let none = ema(
        &close,
        EmaOptions { length: Some(3), mamode: None, ..Default::default() },
    )
    .unwrap();
    let explicit = ema(
        &close,
        EmaOptions { length: Some(3), mamode: Some(MaMode::Ema), ..Default::default() },
    )
    .unwrap();
    assert_eq!(none, explicit);
}

#[test]
fn test_ema_output_length_matches_input() {
    for n in [0usize, 1, 5, 12] {
        let close = series_of(&(0..n as i64).collect::<Vec<_>>());
        let out = ema(
            &close,
            EmaOptions { length: Some(3), mamode: Some(MaMode::Ema), ..Default::default() },
        )
        .unwrap();
        assert_eq!(out.len(), n);
    }
}

#[test]
fn test_ema_overflow_is_computation_failure() {
    // two values whose reduced denominators cannot share a 64-bit word
    let close = Series {
        cells: vec![
            Cell::Val(Rat { num: 1, den: 1i64 << 62 }),
            Cell::Val(Rat { num: 1, den: (1i64 << 62) - 1 }),
        ],
    };
    let r = ema(
        &close,
        EmaOptions { length: Some(3), mamode: Some(MaMode::Ema), ..Default::default() },
    );
    assert_eq!(r, Err(ta_engine::utils::error::CommandError::ComputationFailure));
}

#[test]
fn test_ema_nan_poisons_recurrence() {
    let close = Series {
        cells: vec![
            Cell::Val(Rat::from_int(1)),
            Cell::Nan,
            Cell::Val(Rat::from_int(3)),
        ],
    };
    let out = ema(
        &close,
        EmaOptions { length: Some(3), mamode: Some(MaMode::Ema), ..Default::default() },
    )
    .unwrap();
    assert_eq!(out.cells[0], val(1, 1));
    // an invalid marker enters the recurrence and stays
    assert_eq!(out.cells[1], Cell::Nan);
    assert_eq!(out.cells[2], Cell::Nan);
}
