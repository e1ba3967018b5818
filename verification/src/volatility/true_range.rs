use crate::rational::{frac_sub, lemma_fnorm};
use crate::series::{
    abs, abs_fits, abs_seq, cellm_wf, max_horizontal, maxh_seq, row_max_upto, seq_wf, shift,
    shift_seq, sub_fits, sub_seq, subtract, views_of, Cell, CellM, Series,
};
use crate::utils::error::{CommandError, CommandResult};
use crate::utils::params::{eps_frac, get_drift, get_offset, non_zero_range, nzr_seq, spec_drift, spec_offset};
use vstd::prelude::*;

verus! {

/// The first `drift` rows forced to the invalid marker: the previous
/// close is undefined there, so the rows are computed but known-invalid.
pub open spec fn tr_drift_nan(s: Seq<CellM>, drift: int) -> Seq<CellM> {
    Seq::new(
        s.len(),
        |i: int|
            if i < drift {
                CellM::Nan
            } else {
                s[i]
            },
    )
}

/// True range before the offset step: the per-row maximum of the guarded
/// high-low range and the two previous-close-relative ranges, with the
/// first `drift` rows invalidated.
pub open spec fn tr_core(h: Seq<CellM>, l: Seq<CellM>, c: Seq<CellM>, drift: int) -> Seq<CellM>
    recommends
        h.len() == l.len() && l.len() == c.len(),
        drift >= 1,
{
    let pc = shift_seq(c, drift);
    let r1 = abs_seq(nzr_seq(h, l));
    let r2 = abs_seq(sub_seq(h, pc));
    let r3 = abs_seq(sub_seq(pc, l));
    tr_drift_nan(maxh_seq(seq![r1, r2, r3]), drift)
}

/// True range as a function of the normalized parameters.
pub open spec fn tr_math(
    h: Seq<CellM>,
    l: Seq<CellM>,
    c: Seq<CellM>,
    drift: int,
    offset: int,
) -> Seq<CellM> {
    let t = tr_core(h, l, c, drift);
    if offset != 0 {
        shift_seq(t, offset)
    } else {
        t
    }
}

/// When the true-range computation succeeds: every elementwise
/// difference and absolute value is representable.
pub open spec fn tr_fits(h: Seq<CellM>, l: Seq<CellM>, c: Seq<CellM>, drift: int) -> bool {
    let pc = shift_seq(c, drift);
    &&& sub_fits(h, l)
    &&& sub_fits(h, pc)
    &&& sub_fits(pc, l)
    &&& abs_fits(nzr_seq(h, l))
    &&& abs_fits(sub_seq(h, pc))
    &&& abs_fits(sub_seq(pc, l))
}

/// True Range of aligned high, low and close series.
///
/// A non-positive or absent drift falls back to 1; only a positive
/// offset shifts the output. Mismatched input lengths always fail with
/// `ShapeMismatch`; otherwise the output has the inputs' length.
pub fn true_range(
    high: &Series,
    low: &Series,
    close: &Series,
    drift: Option<i32>,
    offset: Option<i32>,
) -> (r: CommandResult<Series>)
    requires
        high.wf(),
        low.wf(),
        close.wf(),
    ensures
        r is Ok <==> (high@.len() == low@.len() && low@.len() == close@.len() && tr_fits(
            high@,
            low@,
            close@,
            spec_drift(drift),
        )),
        r matches Ok(out) ==> out@ == tr_math(
            high@,
            low@,
            close@,
            spec_drift(drift),
            spec_offset(offset),
        ) && out@.len() == high@.len() && out.wf(),
        !(high@.len() == low@.len() && low@.len() == close@.len()) ==> r
            == CommandResult::<Series>::Err(CommandError::ShapeMismatch),
        high@.len() == low@.len() && low@.len() == close@.len() && !tr_fits(
            high@,
            low@,
            close@,
            spec_drift(drift),
        ) ==> r == CommandResult::<Series>::Err(CommandError::ComputationFailure),
{
    let drift: i32 = get_drift(drift);
    let offset: i32 = get_offset(offset);

    let n: usize = high.cells.len();
    if low.cells.len() != n || close.cells.len() != n {
        return Err(CommandError::ShapeMismatch);
    }

    let prev_close: Series = shift(close, drift as usize);

    let high_low_range: Series = match non_zero_range(high, low) {
        Ok(s) => s,
        Err(_) => {
            return Err(CommandError::ComputationFailure);
        },
    };
    let high_minus_prev_close: Series = match subtract(high, &prev_close) {
        Ok(s) => s,
        Err(_) => {
            return Err(CommandError::ComputationFailure);
        },
    };
    let prev_close_minus_low: Series = match subtract(&prev_close, low) {
        Ok(s) => s,
        Err(_) => {
            return Err(CommandError::ComputationFailure);
        },
    };

    let r1: Series = match abs(&high_low_range) {
        Ok(s) => s,
        Err(_) => {
            return Err(CommandError::ComputationFailure);
        },
    };
    let r2: Series = match abs(&high_minus_prev_close) {
        Ok(s) => s,
        Err(_) => {
            return Err(CommandError::ComputationFailure);
        },
    };
    let r3: Series = match abs(&prev_close_minus_low) {
        Ok(s) => s,
        Err(_) => {
            return Err(CommandError::ComputationFailure);
        },
    };

    let ghost gr1 = r1@;
    let ghost gr2 = r2@;
    let ghost gr3 = r3@;
    let mut ranges: Vec<Series> = Vec::new();
    ranges.push(r1);
    ranges.push(r2);
    ranges.push(r3);
    proof {
        assert(views_of(ranges@) =~= seq![gr1, gr2, gr3]);
    }

    let mx: Series = match max_horizontal(&ranges) {
        Ok(s) => s,
        Err(_) => {
            proof {
                assert(false);
            }
            return Err(CommandError::ShapeMismatch);
        },
    };

    let mut cells: Vec<Cell> = Vec::new();
    let mut i: usize = 0;
    while i < n
        invariant
            i <= n,
            drift >= 1,
            n == mx@.len(),
            mx.wf(),
            cells@.len() == i as int,
            forall|j: int|
                0 <= j < i as int ==> #[trigger] cells@[j]@ == (if j < drift as int {
                    CellM::Nan
                } else {
                    mx@[j]
                }),
            forall|j: int| 0 <= j < i as int ==> (#[trigger] cells@[j]).wf(),
        decreases n - i,
    {
        proof {
            assert(mx@[i as int] == mx.cells@[i as int]@);
        }
        if i < drift as usize {
            cells.push(Cell::Nan);
        } else {
            cells.push(mx.cells[i]);
        }
        i = i + 1;
    }
    let invalidated = Series { cells };
    proof {
        assert(invalidated@ =~= tr_core(high@, low@, close@, drift as int));
    }

    if offset != 0 {
        Ok(shift(&invalidated, offset as usize))
    } else {
        Ok(invalidated)
    }
}


/// Law: rows `0 .. drift-1` of the true range — rows `offset ..
/// offset+drift-1` once a positive offset has shifted the output — hold
/// the invalid marker, never a gap and never a value, whatever the
/// inputs hold.
pub proof fn lemma_true_range_invalidation(
    h: Seq<CellM>,
    l: Seq<CellM>,
    c: Seq<CellM>,
    drift: int,
    offset: int,
    i: int,
)
    requires
        offset >= 0,
        offset <= i < offset + drift,
        i < h.len(),
    ensures
        tr_math(h, l, c, drift, offset)[i] == CellM::Nan,
{
}

/// Law: at a row where high and low hold equal values, the guarded
/// high-low candidate is exactly the minimal epsilon.
pub proof fn lemma_true_range_epsilon_at_equal(h: Seq<CellM>, l: Seq<CellM>, i: int)
    requires
        seq_wf(h),
        seq_wf(l),
        h.len() == l.len(),
        0 <= i < h.len(),
        h[i] is Val,
        l[i] is Val,
        h[i]->Val_0.n * l[i]->Val_0.d == l[i]->Val_0.n * h[i]->Val_0.d,
    ensures
        nzr_seq(h, l)[i] == CellM::Val(eps_frac()),
{
    let hv = h[i]->Val_0;
    let lv = l[i]->Val_0;
    assert(cellm_wf(h[i]) && cellm_wf(l[i]));
    assert(hv.d * lv.d > 0) by (nonlinear_arith)
        requires
            hv.d > 0,
            lv.d > 0,
    ;
    lemma_fnorm(hv.n * lv.d - lv.n * hv.d, hv.d * lv.d);
    assert(frac_sub(hv, lv).n == 0);
}

/// Law: the epsilon guard changes the true range only at rows where high
/// equals low; at every other row past the drift window the true range
/// is exactly the maximum of the three exact absolute ranges.
pub proof fn lemma_true_range_exact(h: Seq<CellM>, l: Seq<CellM>, c: Seq<CellM>, drift: int, i: int)
    requires
        seq_wf(h),
        seq_wf(l),
        h.len() == l.len(),
        l.len() == c.len(),
        0 <= drift <= i < h.len(),
        !(h[i] is Val && l[i] is Val && h[i]->Val_0.n * l[i]->Val_0.d == l[i]->Val_0.n
            * h[i]->Val_0.d),
    ensures
        tr_core(h, l, c, drift)[i] == ({
            let pc = shift_seq(c, drift);
            maxh_seq(
                seq![abs_seq(sub_seq(h, l)), abs_seq(sub_seq(h, pc)), abs_seq(sub_seq(pc, l))],
            )[i]
        }),
{
    let pc = shift_seq(c, drift);
    if h[i] is Val && l[i] is Val {
        let hv = h[i]->Val_0;
        let lv = l[i]->Val_0;
        assert(cellm_wf(h[i]) && cellm_wf(l[i]));
        assert(hv.d * lv.d > 0) by (nonlinear_arith)
            requires
                hv.d > 0,
                lv.d > 0,
        ;
        lemma_fnorm(hv.n * lv.d - lv.n * hv.d, hv.d * lv.d);
        assert(frac_sub(hv, lv).n != 0);
    }
    assert(nzr_seq(h, l)[i] == sub_seq(h, l)[i]);
    let ss1 = seq![abs_seq(nzr_seq(h, l)), abs_seq(sub_seq(h, pc)), abs_seq(sub_seq(pc, l))];
    let ss2 = seq![abs_seq(sub_seq(h, l)), abs_seq(sub_seq(h, pc)), abs_seq(sub_seq(pc, l))];
    assert(ss1[0][i] == ss2[0][i]);
    assert(row_max_upto(ss1, 0, i) == row_max_upto(ss2, 0, i));
    assert(row_max_upto(ss1, 1, i) == row_max_upto(ss2, 1, i));
    assert(row_max_upto(ss1, 2, i) == row_max_upto(ss2, 2, i));
    assert(row_max_upto(ss1, 3, i) == row_max_upto(ss2, 3, i));
    assert(tr_core(h, l, c, drift)[i] == maxh_seq(ss1)[i]);
}

/// Law: a positive offset is the same as computing the true range with
/// no offset and shifting the result right afterwards.
pub proof fn lemma_true_range_offset(
    h: Seq<CellM>,
    l: Seq<CellM>,
    c: Seq<CellM>,
    drift: int,
    k: int,
)
    requires
        k > 0,
    ensures
        tr_math(h, l, c, drift, k) == shift_seq(tr_math(h, l, c, drift, 0), k),
{
}


/// Law: the true-range output always has the high series' length.
pub proof fn lemma_true_range_len(
    h: Seq<CellM>,
    l: Seq<CellM>,
    c: Seq<CellM>,
    drift: int,
    offset: int,
)
    ensures
        tr_math(h, l, c, drift, offset).len() == h.len(),
{
}

} // verus!
