use crate::rational::{
    frac_add, frac_div, frac_fits, frac_mul, frac_of_int, fnorm, lemma_fnorm, rat_add, rat_div,
    rat_mul, Frac, Rat,
};
use crate::series::{
    mean_fits, prefix_mean, prefix_mean_m, shift, shift_seq, Cell, CellM, Series,
};
use crate::utils::error::{CommandError, CommandResult};
use crate::utils::params::{get_offset, spec_offset};
use vstd::arithmetic::div_mod::lemma_div_is_ordered;
use vstd::prelude::*;

verus! {

/// Seed strategy for the smoothing recurrence.
#[derive(Debug, Clone, Copy, PartialEq, Eq, Structural)]
pub enum MaMode {
    Sma,
    Ema,
}

/// Per-call configuration of the EMA engine.
pub struct EmaOptions {
    pub length: Option<i32>,
    pub adjust: bool,
    pub mamode: Option<MaMode>,
    pub offset: Option<i32>,
    pub fillna: bool,
}

impl Default for EmaOptions {
    /// Defaults: window 10, plain recursive smoothing, simple-average seed.
    fn default() -> (r: EmaOptions)
        ensures
            r.length == Some(10i32),
            r.adjust == false,
            r.mamode == Some(MaMode::Sma),
            r.offset == None::<i32>,
            r.fillna == false,
    {
        EmaOptions { length: Some(10), adjust: false, mamode: Some(MaMode::Sma), offset: None, fillna: false }
    }
}

/// Normalized smoothing window: positive lengths pass through, anything
/// else falls back to 14.
pub open spec fn spec_length(length: Option<i32>) -> int {
    match length {
        Some(l) => if l > 0 {
            l as int
        } else {
            14
        },
        None => 14,
    }
}

/// Normalized seed strategy: an absent mode falls back to plain
/// exponential smoothing.
pub open spec fn spec_mamode(m: Option<MaMode>) -> MaMode {
    match m {
        Some(mm) => mm,
        None => MaMode::Ema,
    }
}

/// The smoothing factor `2 / (length + 1)`, reduced.
pub open spec fn alpha_of(length: int) -> Frac
    recommends
        length >= 1,
{
    fnorm(2, length + 1)
}

/// The complementary weight `1 - alpha`, on the same denominator.
pub open spec fn beta_of(a: Frac) -> Frac {
    Frac { n: a.d - a.n, d: a.d }
}

/// The running state of the plain (`adjust == false`) recurrence after
/// row `i`: a gap before any value was seen, the invalid marker once one
/// entered the recurrence, otherwise the last smoothed value.
pub open spec fn ewm_state(x: Seq<CellM>, a: Frac, i: int) -> CellM
    decreases i + 1,
{
    if i < 0 {
        CellM::Gap
    } else {
        let prev = ewm_state(x, a, i - 1);
        match x[i] {
            CellM::Gap => prev,
            CellM::Nan => CellM::Nan,
            CellM::Val(v) => match prev {
                CellM::Gap => CellM::Val(v),
                CellM::Nan => CellM::Nan,
                CellM::Val(p) => CellM::Val(frac_add(frac_mul(a, v), frac_mul(beta_of(a), p))),
            },
        }
    }
}

/// Plain exponential smoothing: gap rows stay gaps, every other row
/// shows the recurrence state.
pub open spec fn ewm_seq(x: Seq<CellM>, a: Frac) -> Seq<CellM> {
    Seq::new(
        x.len(),
        |i: int|
            if x[i] is Gap {
                CellM::Gap
            } else {
                ewm_state(x, a, i)
            },
    )
}

/// Every intermediate of the plain recurrence over the first `n` rows is
/// representable.
pub open spec fn ewm_fits(x: Seq<CellM>, a: Frac, n: int) -> bool
    decreases n,
{
    if n <= 0 {
        true
    } else {
        ewm_fits(x, a, n - 1) && (x[n - 1] is Val ==> match ewm_state(x, a, n - 2) {
            CellM::Val(p) => {
                let t1 = frac_mul(a, x[n - 1]->Val_0);
                let t2 = frac_mul(beta_of(a), p);
                frac_fits(t1) && frac_fits(t2) && frac_fits(frac_add(t1, t2))
            },
            _ => true,
        })
    }
}

proof fn lemma_ewm_fits_prefix(x: Seq<CellM>, a: Frac, i: int, n: int)
    requires
        0 <= i <= n,
        ewm_fits(x, a, n),
    ensures
        ewm_fits(x, a, i),
    decreases n,
{
    if i < n {
        lemma_ewm_fits_prefix(x, a, i, n - 1);
    }
}

/// The running state of the weighted-average (`adjust == true`)
/// formulation: numerator and decaying denominator, or not yet started,
/// or poisoned by an invalid marker.
pub enum WState {
    Idle,
    Poison,
    Run { nm: Frac, dn: Frac },
}

pub open spec fn ewma_state(x: Seq<CellM>, a: Frac, i: int) -> WState
    decreases i + 1,
{
    if i < 0 {
        WState::Idle
    } else {
        let prev = ewma_state(x, a, i - 1);
        match x[i] {
            CellM::Gap => prev,
            CellM::Nan => WState::Poison,
            CellM::Val(v) => match prev {
                WState::Idle => WState::Run { nm: v, dn: frac_of_int(1) },
                WState::Poison => WState::Poison,
                WState::Run { nm, dn } => WState::Run {
                    nm: frac_add(v, frac_mul(beta_of(a), nm)),
                    dn: frac_add(frac_of_int(1), frac_mul(beta_of(a), dn)),
                },
            },
        }
    }
}

/// Weighted-average smoothing with decaying denominator: gap rows stay
/// gaps; a value row shows numerator over denominator, or the invalid
/// marker once one entered.
pub open spec fn ewma_seq(x: Seq<CellM>, a: Frac) -> Seq<CellM> {
    Seq::new(
        x.len(),
        |i: int|
            match x[i] {
                CellM::Gap => CellM::Gap,
                _ => match ewma_state(x, a, i) {
                    WState::Run { nm, dn } => CellM::Val(frac_div(nm, dn)),
                    _ => CellM::Nan,
                },
            },
    )
}

/// What one value row of the weighted-average formulation must fit.
pub open spec fn ewma_step_fits(v: Frac, prev: WState, a: Frac) -> bool {
    match prev {
        WState::Idle => frac_fits(frac_div(v, frac_of_int(1))),
        WState::Poison => true,
        WState::Run { nm, dn } => {
            let w1 = frac_mul(beta_of(a), nm);
            let nm2 = frac_add(v, w1);
            let w2 = frac_mul(beta_of(a), dn);
            let dn2 = frac_add(frac_of_int(1), w2);
            &&& frac_fits(w1)
            &&& frac_fits(nm2)
            &&& frac_fits(w2)
            &&& frac_fits(dn2)
            &&& frac_fits(frac_div(nm2, dn2))
        },
    }
}

pub open spec fn ewma_fits(x: Seq<CellM>, a: Frac, n: int) -> bool
    decreases n,
{
    if n <= 0 {
        true
    } else {
        ewma_fits(x, a, n - 1) && (x[n - 1] is Val ==> ewma_step_fits(
            x[n - 1]->Val_0,
            ewma_state(x, a, n - 2),
            a,
        ))
    }
}

proof fn lemma_ewma_fits_prefix(x: Seq<CellM>, a: Frac, i: int, n: int)
    requires
        0 <= i <= n,
        ewma_fits(x, a, n),
    ensures
        ewma_fits(x, a, i),
    decreases n,
{
    if i < n {
        lemma_ewma_fits_prefix(x, a, i, n - 1);
    }
}

/// The input re-seeded for SMA mode: leading gaps, the windowed mean at
/// row `length - 1`, and the raw input stream beyond it.
pub open spec fn seeded(x: Seq<CellM>, length: int) -> Seq<CellM>
    recommends
        1 <= length <= x.len(),
{
    Seq::new(
        x.len(),
        |i: int|
            if i < length - 1 {
                CellM::Gap
            } else if i == length - 1 {
                prefix_mean_m(x, length)
            } else {
                x[i]
            },
    )
}

/// The smoothed series before the offset step.
pub open spec fn smoothed(x: Seq<CellM>, length: int, adjust: bool) -> Seq<CellM> {
    if adjust {
        ewma_seq(x, alpha_of(length))
    } else {
        ewm_seq(x, alpha_of(length))
    }
}

/// The exponential moving average, as a function of the normalized
/// parameters: optional SMA re-seeding, the smoothing recurrence, then
/// the positive-offset right shift.
pub open spec fn ema_math(
    x: Seq<CellM>,
    length: int,
    mamode: MaMode,
    adjust: bool,
    offset: int,
) -> Seq<CellM> {
    let base = if mamode is Sma {
        seeded(x, length)
    } else {
        x
    };
    let sm = smoothed(base, length, adjust);
    if offset != 0 {
        shift_seq(sm, offset)
    } else {
        sm
    }
}

/// When the EMA computation succeeds: the seed mean (in SMA mode) and
/// every recurrence intermediate are representable.
pub open spec fn ema_ok(x: Seq<CellM>, length: int, mamode: MaMode, adjust: bool) -> bool {
    let base = if mamode is Sma {
        seeded(x, length)
    } else {
        x
    };
    &&& (mamode is Sma ==> mean_fits(x, length))
    &&& (if adjust {
        ewma_fits(base, alpha_of(length), base.len() as int)
    } else {
        ewm_fits(base, alpha_of(length), base.len() as int)
    })
}

/// The reduced smoothing factor lies in `(0, 1]`.
proof fn lemma_alpha_props(length: int)
    requires
        length >= 1,
    ensures
        alpha_of(length).d >= 1,
        alpha_of(length).d <= length + 1,
        1 <= alpha_of(length).n <= alpha_of(length).d,
        alpha_of(length).n <= 2,
{
    lemma_fnorm(2, length + 1);
    let g = crate::rational::fgcd(2, length + 1);
    lemma_div_is_ordered(2, length + 1, g);
    assert(vstd::math::abs(2) == 2nat);
}

/// Exact smoothing factor `2 / (length + 1)` as a `Rat`.
fn make_alpha(length: i32) -> (a: Rat)
    requires
        length >= 1,
    ensures
        a@ == alpha_of(length as int),
        a.wf(),
        1 <= a.num <= a.den,
{
    proof {
        lemma_alpha_props(length as int);
    }
    Rat::new(2, (length as i64) + 1)
}


/// State invariant tying the executable weighted-average loop to the
/// model state machine.
pub open spec fn ewma_st_inv(poisoned: bool, run: Option<(Rat, Rat)>, stm: WState) -> bool {
    match stm {
        WState::Idle => !poisoned && run is None,
        WState::Poison => poisoned,
        WState::Run { nm, dn } => {
            &&& !poisoned
            &&& run matches Some(p) && p.0@ == nm && p.1@ == dn && p.0.wf() && p.1.wf()
                && p.1.num > 0
        },
    }
}

/// Plain recursive exponential smoothing of a prepared input.
fn ewm(base: &Series, alpha: Rat) -> (r: CommandResult<Series>)
    requires
        base.wf(),
        alpha.wf(),
        0 <= alpha.num <= alpha.den,
    ensures
        r is Ok <==> ewm_fits(base@, alpha@, base@.len() as int),
        r matches Ok(out) ==> out@ == ewm_seq(base@, alpha@) && out@.len() == base@.len()
            && out.wf(),
        r matches Err(e) ==> e == CommandError::ComputationFailure,
{
    let beta = Rat { num: alpha.den - alpha.num, den: alpha.den };
    let n: usize = base.cells.len();
    let mut cells: Vec<Cell> = Vec::new();
    let mut st: Cell = Cell::Gap;
    let mut i: usize = 0;
    while i < n
        invariant
            i <= n,
            n == base@.len(),
            base.wf(),
            alpha.wf(),
            0 <= alpha.num <= alpha.den,
            beta@ == beta_of(alpha@),
            beta.wf(),
            st@ == ewm_state(base@, alpha@, i as int - 1),
            st.wf(),
            ewm_fits(base@, alpha@, i as int),
            cells@.len() == i as int,
            forall|j: int|
                0 <= j < i as int ==> #[trigger] cells@[j]@ == (if base@[j] is Gap {
                    CellM::Gap
                } else {
                    ewm_state(base@, alpha@, j)
                }),
            forall|j: int| 0 <= j < i as int ==> (#[trigger] cells@[j]).wf(),
        decreases n - i,
    {
        proof {
            assert(base@[i as int] == base.cells@[i as int]@);
        }
        match base.cells[i] {
            Cell::Gap => {
                cells.push(Cell::Gap);
            },
            Cell::Nan => {
                st = Cell::Nan;
                cells.push(Cell::Nan);
            },
            Cell::Val(v) => {
                match st {
                    Cell::Gap => {
                        st = Cell::Val(v);
                        cells.push(st);
                    },
                    Cell::Nan => {
                        cells.push(Cell::Nan);
                    },
                    Cell::Val(p) => {
                        let t1 = match rat_mul(alpha, v) {
                            Some(t) => t,
                            None => {
                                proof {
                                    if ewm_fits(base@, alpha@, n as int) {
                                        lemma_ewm_fits_prefix(base@, alpha@, i + 1, n as int);
                                    }
                                }
                                return Err(CommandError::ComputationFailure);
                            },
                        };
                        let t2 = match rat_mul(beta, p) {
                            Some(t) => t,
                            None => {
                                proof {
                                    if ewm_fits(base@, alpha@, n as int) {
                                        lemma_ewm_fits_prefix(base@, alpha@, i + 1, n as int);
                                    }
                                }
                                return Err(CommandError::ComputationFailure);
                            },
                        };
                        let sum = match rat_add(t1, t2) {
                            Some(t) => t,
                            None => {
                                proof {
                                    if ewm_fits(base@, alpha@, n as int) {
                                        lemma_ewm_fits_prefix(base@, alpha@, i + 1, n as int);
                                    }
                                }
                                return Err(CommandError::ComputationFailure);
                            },
                        };
                        st = Cell::Val(sum);
                        cells.push(st);
                    },
                }
            },
        }
        i = i + 1;
    }
    let out = Series { cells };
    proof {
        assert(out@ =~= ewm_seq(base@, alpha@));
    }
    Ok(out)
}

/// Weighted-average smoothing with decaying denominator of a prepared
/// input.
fn ewm_adjusted(base: &Series, alpha: Rat) -> (r: CommandResult<Series>)
    requires
        base.wf(),
        alpha.wf(),
        0 <= alpha.num <= alpha.den,
    ensures
        r is Ok <==> ewma_fits(base@, alpha@, base@.len() as int),
        r matches Ok(out) ==> out@ == ewma_seq(base@, alpha@) && out@.len() == base@.len()
            && out.wf(),
        r matches Err(e) ==> e == CommandError::ComputationFailure,
{
    let beta = Rat { num: alpha.den - alpha.num, den: alpha.den };
    let n: usize = base.cells.len();
    let mut cells: Vec<Cell> = Vec::new();
    let mut poisoned: bool = false;
    let mut run: Option<(Rat, Rat)> = None;
    let mut i: usize = 0;
    while i < n
        invariant
            i <= n,
            n == base@.len(),
            base.wf(),
            alpha.wf(),
            0 <= alpha.num <= alpha.den,
            beta@ == beta_of(alpha@),
            beta.wf(),
            beta.num >= 0,
            ewma_st_inv(poisoned, run, ewma_state(base@, alpha@, i as int - 1)),
            ewma_fits(base@, alpha@, i as int),
            cells@.len() == i as int,
            forall|j: int| 0 <= j < i as int ==> #[trigger] cells@[j]@ == ewma_seq(base@, alpha@)[j],
            forall|j: int| 0 <= j < i as int ==> (#[trigger] cells@[j]).wf(),
        decreases n - i,
    {
        proof {
            assert(base@[i as int] == base.cells@[i as int]@);
        }
        match base.cells[i] {
            Cell::Gap => {
                cells.push(Cell::Gap);
            },
            Cell::Nan => {
                poisoned = true;
                run = None;
                cells.push(Cell::Nan);
            },
            Cell::Val(v) => {
                if poisoned {
                    cells.push(Cell::Nan);
                } else {
                    match run {
                        None => {
                            let one = Rat::from_int(1);
                            let q = match rat_div(v, one) {
                                Some(t) => t,
                                None => {
                                    proof {
                                        if ewma_fits(base@, alpha@, n as int) {
                                            lemma_ewma_fits_prefix(base@, alpha@, i + 1, n as int);
                                        }
                                    }
                                    return Err(CommandError::ComputationFailure);
                                },
                            };
                            run = Some((v, one));
                            cells.push(Cell::Val(q));
                        },
                        Some((nm, dn)) => {
                            let w1 = match rat_mul(beta, nm) {
                                Some(t) => t,
                                None => {
                                    proof {
                                        if ewma_fits(base@, alpha@, n as int) {
                                            lemma_ewma_fits_prefix(base@, alpha@, i + 1, n as int);
                                        }
                                    }
                                    return Err(CommandError::ComputationFailure);
                                },
                            };
                            let nm2 = match rat_add(v, w1) {
                                Some(t) => t,
                                None => {
                                    proof {
                                        if ewma_fits(base@, alpha@, n as int) {
                                            lemma_ewma_fits_prefix(base@, alpha@, i + 1, n as int);
                                        }
                                    }
                                    return Err(CommandError::ComputationFailure);
                                },
                            };
                            let w2 = match rat_mul(beta, dn) {
                                Some(t) => t,
                                None => {
                                    proof {
                                        if ewma_fits(base@, alpha@, n as int) {
                                            lemma_ewma_fits_prefix(base@, alpha@, i + 1, n as int);
                                        }
                                    }
                                    return Err(CommandError::ComputationFailure);
                                },
                            };
                            let one = Rat::from_int(1);
                            let dn2 = match rat_add(one, w2) {
                                Some(t) => t,
                                None => {
                                    proof {
                                        if ewma_fits(base@, alpha@, n as int) {
                                            lemma_ewma_fits_prefix(base@, alpha@, i + 1, n as int);
                                        }
                                    }
                                    return Err(CommandError::ComputationFailure);
                                },
                            };
                            proof {
                                assert(beta@.n * dn@.n >= 0) by (nonlinear_arith)
                                    requires
                                        beta@.n >= 0,
                                        dn@.n > 0,
                                ;
                                assert(beta@.d * dn@.d > 0) by (nonlinear_arith)
                                    requires
                                        beta@.d > 0,
                                        dn@.d > 0,
                                ;
                                lemma_fnorm(beta@.n * dn@.n, beta@.d * dn@.d);
                                assert(w2@.n >= 0);
                                assert(1 * w2@.d + w2@.n * 1 > 0);
                                lemma_fnorm(1 * w2@.d + w2@.n * 1, 1 * w2@.d);
                                assert(dn2@.n > 0);
                            }
                            let q = match rat_div(nm2, dn2) {
                                Some(t) => t,
                                None => {
                                    proof {
                                        if ewma_fits(base@, alpha@, n as int) {
                                            lemma_ewma_fits_prefix(base@, alpha@, i + 1, n as int);
                                        }
                                    }
                                    return Err(CommandError::ComputationFailure);
                                },
                            };
                            run = Some((nm2, dn2));
                            cells.push(Cell::Val(q));
                        },
                    }
                }
            },
        }
        i = i + 1;
    }
    let out = Series { cells };
    proof {
        assert(out@ =~= ewma_seq(base@, alpha@));
    }
    Ok(out)
}

/// Exponential moving average of a close series.
///
/// A non-positive or absent window length falls back to 14; an absent
/// seed mode falls back to plain exponential seeding; only a positive
/// offset shifts the output. The output always has the input's length.
pub fn ema(close: &Series, options: EmaOptions) -> (r: CommandResult<Series>)
    requires
        close.wf(),
        spec_mamode(options.mamode) == MaMode::Sma ==> spec_length(options.length)
            <= close@.len(),
    ensures
        r is Ok <==> ema_ok(
            close@,
            spec_length(options.length),
            spec_mamode(options.mamode),
            options.adjust,
        ),
        r matches Ok(out) ==> out@ == ema_math(
            close@,
            spec_length(options.length),
            spec_mamode(options.mamode),
            options.adjust,
            spec_offset(options.offset),
        ) && out@.len() == close@.len() && out.wf(),
        r matches Err(e) ==> e == CommandError::ComputationFailure,
{
    let length: i32 = match options.length {
        Some(l) => if l > 0 {
            l
        } else {
            14
        },
        None => 14,
    };
    let mamode: MaMode = match options.mamode {
        Some(m) => m,
        None => MaMode::Ema,
    };
    let offset: i32 = get_offset(options.offset);
    let alpha: Rat = make_alpha(length);

    let base: Series = if let MaMode::Sma = mamode {
        let seed: Cell = match prefix_mean(close, length as usize) {
            Ok(c) => c,
            Err(_) => {
                return Err(CommandError::ComputationFailure);
            },
        };
        let n: usize = close.cells.len();
        let mut cells: Vec<Cell> = Vec::new();
        let mut i: usize = 0;
        while i < n
            invariant
                i <= n,
                n == close@.len(),
                close.wf(),
                length >= 1,
                length as int <= n as int,
                seed@ == prefix_mean_m(close@, length as int),
                seed.wf(),
                cells@.len() == i as int,
                forall|j: int| 0 <= j < i as int ==> #[trigger] cells@[j]@ == seeded(close@, length as int)[j],
                forall|j: int| 0 <= j < i as int ==> (#[trigger] cells@[j]).wf(),
            decreases n - i,
        {
            proof {
                assert(close@[i as int] == close.cells@[i as int]@);
            }
            if i < (length - 1) as usize {
                cells.push(Cell::Gap);
            } else if i == (length - 1) as usize {
                cells.push(seed);
            } else {
                cells.push(close.cells[i]);
            }
            i = i + 1;
        }
        let b = Series { cells };
        proof {
            assert(b@ =~= seeded(close@, length as int));
        }
        b
    } else {
        Series { cells: close.cells.clone() }
    };
    proof {
        if !(mamode is Sma) {
            assert(base@ =~= close@);
        }
    }

    let sm: Series = if options.adjust {
        match ewm_adjusted(&base, alpha) {
            Ok(s) => s,
            Err(e) => {
                return Err(e);
            },
        }
    } else {
        match ewm(&base, alpha) {
            Ok(s) => s,
            Err(e) => {
                return Err(e);
            },
        }
    };

    if offset != 0 {
        Ok(shift(&sm, offset as usize))
    } else {
        Ok(sm)
    }
}


/// An all-gap prefix leaves the plain recurrence unstarted.
proof fn lemma_ewm_state_gap_prefix(x: Seq<CellM>, a: Frac, i: int)
    requires
        i < x.len(),
        forall|j: int| 0 <= j <= i ==> (#[trigger] x[j]) is Gap,
    ensures
        ewm_state(x, a, i) == CellM::Gap,
    decreases i + 1,
{
    if i >= 0 {
        lemma_ewm_state_gap_prefix(x, a, i - 1);
    }
}

/// Law: with an SMA seed and no offset, rows `0 .. length-2` are gaps,
/// and row `length-1` is exactly the arithmetic mean of the non-gap
/// values among input rows `0 .. length-1`.
pub proof fn lemma_ema_sma_seed(x: Seq<CellM>, length: int)
    requires
        1 <= length <= x.len(),
    ensures
        forall|i: int|
            0 <= i < length - 1 ==> ema_math(x, length, MaMode::Sma, false, 0)[i] == CellM::Gap,
        ema_math(x, length, MaMode::Sma, false, 0)[length - 1] == prefix_mean_m(x, length),
{
    let b = seeded(x, length);
    let a = alpha_of(length);
    let out = ema_math(x, length, MaMode::Sma, false, 0);
    assert(out == ewm_seq(b, a));
    assert forall|i: int| 0 <= i < length - 1 implies out[i] == CellM::Gap by {
        assert(b[i] is Gap);
    }
    lemma_ewm_state_gap_prefix(b, a, length - 2);
    assert(b[length - 1] == prefix_mean_m(x, length));
    assert(out[length - 1] == prefix_mean_m(x, length));
}

/// Law: a positive offset is the same as computing the EMA with no
/// offset and shifting the result right afterwards.
pub proof fn lemma_ema_offset(x: Seq<CellM>, length: int, mamode: MaMode, adjust: bool, k: int)
    requires
        k > 0,
    ensures
        ema_math(x, length, mamode, adjust, k) == shift_seq(
            ema_math(x, length, mamode, adjust, 0),
            k,
        ),
{
}


/// Law: the EMA output always has the input's length.
pub proof fn lemma_ema_len(x: Seq<CellM>, length: int, mamode: MaMode, adjust: bool, offset: int)
    ensures
        ema_math(x, length, mamode, adjust, offset).len() == x.len(),
{
}

} // verus!
