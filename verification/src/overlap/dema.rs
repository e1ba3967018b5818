use crate::overlap::ema::{ema, ema_math, ema_ok, spec_length, EmaOptions, MaMode};
use crate::rational::{frac_of_int, Rat};
use crate::series::{scl_fits, scl_seq, shift, shift_seq, sub_fits, sub_seq, CellM, Series};
use crate::series::{scalar_multiply, subtract};
use crate::utils::error::{CommandError, CommandResult};
use crate::utils::params::{get_offset, spec_offset};
use vstd::prelude::*;

verus! {

/// Per-call configuration of the DEMA engine.
pub struct DemaOptions {
    pub length: Option<i32>,
    pub offset: Option<i32>,
    pub fillna: bool,
}

impl Default for DemaOptions {
    /// Defaults: window 10, no offset.
    fn default() -> (r: DemaOptions)
        ensures
            r.length == Some(10i32),
            r.offset == None::<i32>,
            r.fillna == false,
    {
        DemaOptions { length: Some(10), offset: None, fillna: false }
    }
}

/// The double exponential moving average: `2*ema1 - ema2`, where `ema2`
/// smooths `ema1` (not the raw input), and the positive offset is
/// applied once, after the subtraction.
pub open spec fn dema_math(x: Seq<CellM>, length: int, offset: int) -> Seq<CellM> {
    let e1 = ema_math(x, length, MaMode::Sma, false, 0);
    let e2 = ema_math(e1, length, MaMode::Sma, false, 0);
    let d = sub_seq(scl_seq(e1, frac_of_int(2)), e2);
    if offset != 0 {
        shift_seq(d, offset)
    } else {
        d
    }
}

/// When the DEMA computation succeeds: both EMA passes, the doubling and
/// the subtraction are representable.
pub open spec fn dema_ok(x: Seq<CellM>, length: int) -> bool {
    let e1 = ema_math(x, length, MaMode::Sma, false, 0);
    let e2 = ema_math(e1, length, MaMode::Sma, false, 0);
    &&& ema_ok(x, length, MaMode::Sma, false)
    &&& ema_ok(e1, length, MaMode::Sma, false)
    &&& scl_fits(e1, frac_of_int(2))
    &&& sub_fits(scl_seq(e1, frac_of_int(2)), e2)
}

/// Law: the double EMA decomposes into two independently computed EMA
/// passes — the second consuming the first pass's output — combined as
/// `2*ema1 - ema2`, with the offset shift applied after the subtraction.
pub proof fn lemma_dema_decomposition(x: Seq<CellM>, length: int, offset: int)
    ensures
        ({
            let e1 = ema_math(x, length, MaMode::Sma, false, 0);
            let e2 = ema_math(e1, length, MaMode::Sma, false, 0);
            let d = sub_seq(scl_seq(e1, frac_of_int(2)), e2);
            dema_math(x, length, offset) == if offset != 0 {
                shift_seq(d, offset)
            } else {
                d
            }
        }),
{
}

/// Law: a positive offset is the same as computing with no offset and
/// shifting the result right afterwards.
pub proof fn lemma_dema_offset(x: Seq<CellM>, length: int, k: int)
    requires
        k > 0,
    ensures
        dema_math(x, length, k) == shift_seq(dema_math(x, length, 0), k),
{
}

/// Double exponential moving average of a close series.
///
/// A non-positive or absent window length falls back to 14; only a
/// positive offset shifts the output. The output always has the input's
/// length.
pub fn dema(close: &Series, options: DemaOptions) -> (r: CommandResult<Series>)
    requires
        close.wf(),
        spec_length(options.length) <= close@.len(),
    ensures
        r is Ok <==> dema_ok(close@, spec_length(options.length)),
        r matches Ok(out) ==> out@ == dema_math(
            close@,
            spec_length(options.length),
            spec_offset(options.offset),
        ) && out@.len() == close@.len() && out.wf(),
        r matches Err(e) ==> e == CommandError::ComputationFailure,
{
    let length: i32 = match options.length {
        Some(l) => if l > 0 {
            l
        } else {
            14
        },
        None => 14,
    };
    let offset: i32 = get_offset(options.offset);

    let ema1: Series = match ema(
        close,
        EmaOptions {
            length: Some(length),
            adjust: false,
            mamode: Some(MaMode::Sma),
            offset: None,
            fillna: false,
        },
    ) {
        Ok(s) => s,
        Err(e) => {
            return Err(e);
        },
    };

    let ema2: Series = match ema(
        &ema1,
        EmaOptions {
            length: Some(length),
            adjust: false,
            mamode: Some(MaMode::Sma),
            offset: None,
            fillna: false,
        },
    ) {
        Ok(s) => s,
        Err(e) => {
            return Err(e);
        },
    };

    let doubled: Series = match scalar_multiply(&ema1, Rat::from_int(2)) {
        Ok(s) => s,
        Err(e) => {
            return Err(e);
        },
    };

    let d: Series = match subtract(&doubled, &ema2) {
        Ok(s) => s,
        Err(_) => {
            return Err(CommandError::ComputationFailure);
        },
    };

    if offset != 0 {
        Ok(shift(&d, offset as usize))
    } else {
        Ok(d)
    }
}


/// Law: the DEMA output always has the input's length.
pub proof fn lemma_dema_len(x: Seq<CellM>, length: int, offset: int)
    ensures
        dema_math(x, length, offset).len() == x.len(),
{
    crate::overlap::ema::lemma_ema_len(x, length, MaMode::Sma, false, 0);
}

} // verus!
