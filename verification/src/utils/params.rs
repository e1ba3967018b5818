use crate::rational::{Frac, Rat};
use crate::series::{sub_fits, sub_seq, subtract, Cell, CellM, Series};
use crate::utils::error::{CommandError, CommandResult};
use vstd::prelude::*;

verus! {

/// Denominator of the minimal epsilon used by the non-zero-range guard:
/// the epsilon is `1 / 2^52`.
pub const EPS_DEN: i64 = 0x10000000000000;

/// The minimal epsilon substituted for a zero high-low range.
pub open spec fn eps_frac() -> Frac {
    Frac { n: 1, d: 0x10000000000000 }
}

/// A zero difference becomes the minimal epsilon; everything else is kept.
pub open spec fn nzr_cell_m(c: CellM) -> CellM {
    match c {
        CellM::Val(f) => if f.n == 0 {
            CellM::Val(eps_frac())
        } else {
            c
        },
        _ => c,
    }
}

/// The guarded high-low range: elementwise difference with zero rows
/// replaced by the minimal epsilon.
pub open spec fn nzr_seq(h: Seq<CellM>, l: Seq<CellM>) -> Seq<CellM>
    recommends
        h.len() == l.len(),
{
    Seq::new(h.len(), |i: int| nzr_cell_m(sub_seq(h, l)[i]))
}

/// Normalized drift parameter: only positive values take effect,
/// anything else falls back to 1.
pub open spec fn spec_drift(drift: Option<i32>) -> int {
    match drift {
        Some(d) => if d > 0 { d as int } else { 1 },
        None => 1,
    }
}

/// Normalized offset parameter: only positive values take effect,
/// anything else falls back to 0 (no shift).
pub open spec fn spec_offset(x: Option<i32>) -> int {
    match x {
        Some(v) => if v > 0 { v as int } else { 0 },
        None => 0,
    }
}

pub fn get_drift(drift: Option<i32>) -> (r: i32)
    ensures
        r as int == spec_drift(drift),
        r >= 1,
{
    match drift {
        Some(d) => if d > 0 { d } else { 1 },
        None => 1,
    }
}

pub fn get_offset(x: Option<i32>) -> (r: i32)
    ensures
        r as int == spec_offset(x),
        r >= 0,
{
    match x {
        Some(v) => if v > 0 { v } else { 0 },
        None => 0,
    }
}


/// Difference `high - low` with a minimal epsilon substituted wherever the
/// two are equal, so the range is never degenerate zero.
pub fn non_zero_range(high: &Series, low: &Series) -> (r: CommandResult<Series>)
    requires
        high.wf(),
        low.wf(),
    ensures
        r is Ok <==> high@.len() == low@.len() && sub_fits(high@, low@),
        r matches Ok(out) ==> out@ == nzr_seq(high@, low@) && out@.len() == high@.len()
            && out.wf(),
        high@.len() != low@.len() ==> r == CommandResult::<Series>::Err(
            CommandError::ShapeMismatch,
        ),
        high@.len() == low@.len() && !sub_fits(high@, low@) ==> r == CommandResult::<Series>::Err(
            CommandError::ComputationFailure,
        ),
{
    let diff: Series = match subtract(high, low) {
        Ok(d) => d,
        Err(e) => {
            return Err(e);
        },
    };
    let n: usize = diff.cells.len();
    let mut cells: Vec<Cell> = Vec::new();
    let mut i: usize = 0;
    while i < n
        invariant
            i <= n,
            n == diff@.len(),
            diff@ == sub_seq(high@, low@),
            high@.len() == low@.len() == n,
            diff.wf(),
            cells@.len() == i as int,
            forall|j: int| 0 <= j < i as int ==> #[trigger] cells@[j]@ == nzr_cell_m(diff@[j]),
            forall|j: int| 0 <= j < i as int ==> (#[trigger] cells@[j]).wf(),
        decreases n - i,
    {
        proof {
            assert(diff@[i as int] == diff.cells@[i as int]@);
        }
        let c: Cell = match diff.cells[i] {
            Cell::Val(v) => {
                if v.num == 0 {
                    Cell::Val(Rat { num: 1, den: EPS_DEN })
                } else {
                    Cell::Val(v)
                }
            },
            other => other,
        };
        cells.push(c);
        i = i + 1;
    }
    let out = Series { cells };
    proof {
        assert(out@ =~= nzr_seq(high@, low@));
    }
    Ok(out)
}

} // verus!
