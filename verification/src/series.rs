use crate::rational::{frac_abs, frac_add, frac_fits, frac_lt, frac_mul, frac_of_int, frac_sub, rat_abs, rat_add, rat_lt, rat_mul, rat_sub, Frac, Rat};
use crate::utils::error::{CommandError, CommandResult};
use vstd::prelude::*;

verus! {

/// Model of one row of a series: a value, a gap (structurally absent),
/// or the computed-but-invalid marker.
pub enum CellM {
    Gap,
    Nan,
    Val(Frac),
}

/// One row of a series. A gap means "no value produced"; `Nan` means
/// "computed but known-invalid" — the two are kept distinct throughout.
#[derive(Debug, Clone, Copy, PartialEq, Eq, Structural)]
pub enum Cell {
    Gap,
    Nan,
    Val(Rat),
}

impl View for Cell {
    type V = CellM;

    open spec fn view(&self) -> CellM {
        match *self {
            Cell::Gap => CellM::Gap,
            Cell::Nan => CellM::Nan,
            Cell::Val(r) => CellM::Val(r@),
        }
    }
}

impl Cell {
    pub open spec fn wf(self) -> bool {
        match self {
            Cell::Val(r) => r.wf(),
            _ => true,
        }
    }
}

pub open spec fn cellm_wf(c: CellM) -> bool {
    match c {
        CellM::Val(f) => f.d > 0,
        _ => true,
    }
}

pub open spec fn seq_wf(s: Seq<CellM>) -> bool {
    forall|i: int| 0 <= i < s.len() ==> cellm_wf(#[trigger] s[i])
}

/// An ordered, indexable sequence of optional values, positionally
/// aligned to an implicit timeline.
#[derive(Debug, Clone, PartialEq, Eq)]
pub struct Series {
    pub cells: Vec<Cell>,
}

impl View for Series {
    type V = Seq<CellM>;

    open spec fn view(&self) -> Seq<CellM> {
        self.cells@.map_values(|c: Cell| c@)
    }
}

impl Series {
    pub open spec fn wf(self) -> bool {
        seq_wf(self@)
    }

    /// Number of rows.
    pub fn len(&self) -> (n: usize)
        ensures
            n == self@.len(),
    {
        self.cells.len()
    }
}

/// Right shift by `k` rows: row `i` holds row `i - k` of the input,
/// and the first `k` rows are gaps.
pub open spec fn shift_seq(s: Seq<CellM>, k: int) -> Seq<CellM> {
    Seq::new(s.len(), |i: int| if i < k { CellM::Gap } else { s[i - k] })
}

/// Elementwise difference; a gap if either operand is a gap, the invalid
/// marker if either operand carries it.
pub open spec fn sub_cell_m(a: CellM, b: CellM) -> CellM {
    match (a, b) {
        (CellM::Gap, _) => CellM::Gap,
        (_, CellM::Gap) => CellM::Gap,
        (CellM::Nan, _) => CellM::Nan,
        (_, CellM::Nan) => CellM::Nan,
        (CellM::Val(x), CellM::Val(y)) => CellM::Val(frac_sub(x, y)),
    }
}

pub open spec fn sub_seq(a: Seq<CellM>, b: Seq<CellM>) -> Seq<CellM>
    recommends
        a.len() == b.len(),
{
    Seq::new(a.len(), |i: int| sub_cell_m(a[i], b[i]))
}

/// Every elementwise difference is representable.
pub open spec fn sub_fits(a: Seq<CellM>, b: Seq<CellM>) -> bool {
    forall|i: int|
        0 <= i < a.len() && (#[trigger] a[i]) is Val && b[i] is Val ==> frac_fits(
            frac_sub(a[i]->Val_0, b[i]->Val_0),
        )
}

pub open spec fn scl_cell_m(c: CellM, k: Frac) -> CellM {
    match c {
        CellM::Gap => CellM::Gap,
        CellM::Nan => CellM::Nan,
        CellM::Val(x) => CellM::Val(frac_mul(x, k)),
    }
}

pub open spec fn scl_seq(s: Seq<CellM>, k: Frac) -> Seq<CellM> {
    Seq::new(s.len(), |i: int| scl_cell_m(s[i], k))
}

pub open spec fn scl_fits(s: Seq<CellM>, k: Frac) -> bool {
    forall|i: int|
        0 <= i < s.len() && (#[trigger] s[i]) is Val ==> frac_fits(frac_mul(s[i]->Val_0, k))
}

pub open spec fn abs_cell_m(c: CellM) -> CellM {
    match c {
        CellM::Gap => CellM::Gap,
        CellM::Nan => CellM::Nan,
        CellM::Val(x) => CellM::Val(frac_abs(x)),
    }
}

pub open spec fn abs_seq(s: Seq<CellM>) -> Seq<CellM> {
    Seq::new(s.len(), |i: int| abs_cell_m(s[i]))
}

pub open spec fn abs_fits(s: Seq<CellM>) -> bool {
    forall|i: int|
        0 <= i < s.len() && (#[trigger] s[i]) is Val ==> frac_fits(frac_abs(s[i]->Val_0))
}

/// Positional right shift, used by the drift and offset steps.
pub fn shift(s: &Series, k: usize) -> (r: Series)
    requires
        s.wf(),
    ensures
        r@ == shift_seq(s@, k as int),
        r@.len() == s@.len(),
        r.wf(),
{
    let n: usize = s.cells.len();
    let mut cells: Vec<Cell> = Vec::new();
    let mut i: usize = 0;
    while i < n
        invariant
            i <= n,
            n == s@.len(),
            s.wf(),
            cells@.len() == i as int,
            forall|j: int|
                0 <= j < i as int ==> #[trigger] cells@[j] == (if j < k as int {
                    Cell::Gap
                } else {
                    s.cells@[j - k as int]
                }),
        decreases n - i,
    {
        if i < k {
            cells.push(Cell::Gap);
        } else {
            cells.push(s.cells[i - k]);
        }
        i = i + 1;
    }
    let r = Series { cells };
    proof {
        assert(r@ =~= shift_seq(s@, k as int));
    }
    r
}

/// Elementwise `a - b`. Fails with `ShapeMismatch` when the lengths
/// differ, with `ComputationFailure` when a difference is unrepresentable.
pub fn subtract(a: &Series, b: &Series) -> (r: CommandResult<Series>)
    requires
        a.wf(),
        b.wf(),
    ensures
        r is Ok <==> a@.len() == b@.len() && sub_fits(a@, b@),
        r matches Ok(out) ==> out@ == sub_seq(a@, b@) && out@.len() == a@.len() && out.wf(),
        a@.len() != b@.len() ==> r == CommandResult::<Series>::Err(CommandError::ShapeMismatch),
        a@.len() == b@.len() && !sub_fits(a@, b@) ==> r == CommandResult::<Series>::Err(
            CommandError::ComputationFailure,
        ),
{
    let n: usize = a.cells.len();
    if b.cells.len() != n {
        return Err(CommandError::ShapeMismatch);
    }
    let mut cells: Vec<Cell> = Vec::new();
    let mut i: usize = 0;
    while i < n
        invariant
            i <= n,
            n == a@.len() == b@.len(),
            a.wf(),
            b.wf(),
            cells@.len() == i as int,
            forall|j: int| 0 <= j < i as int ==> #[trigger] cells@[j]@ == sub_cell_m(a@[j], b@[j]),
            forall|j: int| 0 <= j < i as int ==> (#[trigger] cells@[j]).wf(),
            forall|j: int|
                0 <= j < i as int && (#[trigger] a@[j]) is Val && b@[j] is Val ==> frac_fits(
                    frac_sub(a@[j]->Val_0, b@[j]->Val_0),
                ),
        decreases n - i,
    {
        proof {
            assert(a@[i as int] == a.cells@[i as int]@);
            assert(b@[i as int] == b.cells@[i as int]@);
        }
        let c: Cell = match (a.cells[i], b.cells[i]) {
            (Cell::Gap, _) => Cell::Gap,
            (_, Cell::Gap) => Cell::Gap,
            (Cell::Nan, _) => Cell::Nan,
            (_, Cell::Nan) => Cell::Nan,
            (Cell::Val(x), Cell::Val(y)) => {
                match rat_sub(x, y) {
                    Some(v) => Cell::Val(v),
                    None => {
                        return Err(CommandError::ComputationFailure);
                    },
                }
            },
        };
        cells.push(c);
        i = i + 1;
    }
    let out = Series { cells };
    proof {
        assert(out@ =~= sub_seq(a@, b@));
    }
    Ok(out)
}

/// Elementwise multiplication by a scalar; gaps and invalid markers
/// propagate.
pub fn scalar_multiply(a: &Series, k: Rat) -> (r: CommandResult<Series>)
    requires
        a.wf(),
        k.wf(),
    ensures
        r is Ok <==> scl_fits(a@, k@),
        r matches Ok(out) ==> out@ == scl_seq(a@, k@) && out@.len() == a@.len() && out.wf(),
        r matches Err(e) ==> e == CommandError::ComputationFailure,
{
    let n: usize = a.cells.len();
    let mut cells: Vec<Cell> = Vec::new();
    let mut i: usize = 0;
    while i < n
        invariant
            i <= n,
            n == a@.len(),
            a.wf(),
            k.wf(),
            cells@.len() == i as int,
            forall|j: int| 0 <= j < i as int ==> #[trigger] cells@[j]@ == scl_cell_m(a@[j], k@),
            forall|j: int| 0 <= j < i as int ==> (#[trigger] cells@[j]).wf(),
            forall|j: int|
                0 <= j < i as int && (#[trigger] a@[j]) is Val ==> frac_fits(
                    frac_mul(a@[j]->Val_0, k@),
                ),
        decreases n - i,
    {
        proof {
            assert(a@[i as int] == a.cells@[i as int]@);
        }
        let c: Cell = match a.cells[i] {
            Cell::Gap => Cell::Gap,
            Cell::Nan => Cell::Nan,
            Cell::Val(x) => {
                match rat_mul(x, k) {
                    Some(v) => Cell::Val(v),
                    None => {
                        return Err(CommandError::ComputationFailure);
                    },
                }
            },
        };
        cells.push(c);
        i = i + 1;
    }
    let out = Series { cells };
    proof {
        assert(out@ =~= scl_seq(a@, k@));
    }
    Ok(out)
}

/// Elementwise absolute value; gaps and invalid markers propagate.
pub fn abs(a: &Series) -> (r: CommandResult<Series>)
    requires
        a.wf(),
    ensures
        r is Ok <==> abs_fits(a@),
        r matches Ok(out) ==> out@ == abs_seq(a@) && out@.len() == a@.len() && out.wf(),
        r matches Err(e) ==> e == CommandError::ComputationFailure,
{
    let n: usize = a.cells.len();
    let mut cells: Vec<Cell> = Vec::new();
    let mut i: usize = 0;
    while i < n
        invariant
            i <= n,
            n == a@.len(),
            a.wf(),
            cells@.len() == i as int,
            forall|j: int| 0 <= j < i as int ==> #[trigger] cells@[j]@ == abs_cell_m(a@[j]),
            forall|j: int| 0 <= j < i as int ==> (#[trigger] cells@[j]).wf(),
            forall|j: int|
                0 <= j < i as int && (#[trigger] a@[j]) is Val ==> frac_fits(frac_abs(a@[j]->Val_0)),
        decreases n - i,
    {
        proof {
            assert(a@[i as int] == a.cells@[i as int]@);
        }
        let c: Cell = match a.cells[i] {
            Cell::Gap => Cell::Gap,
            Cell::Nan => Cell::Nan,
            Cell::Val(x) => {
                match rat_abs(x) {
                    Some(v) => Cell::Val(v),
                    None => {
                        return Err(CommandError::ComputationFailure);
                    },
                }
            },
        };
        cells.push(c);
        i = i + 1;
    }
    let out = Series { cells };
    proof {
        assert(out@ =~= abs_seq(a@));
    }
    Ok(out)
}

/// Whether the invalid marker occurs among the first `n` rows.
pub open spec fn has_nan_prefix(s: Seq<CellM>, n: int) -> bool {
    exists|i: int| 0 <= i < n && (#[trigger] s[i]) is Nan
}

/// How many of the first `n` rows hold a value.
pub open spec fn count_val(s: Seq<CellM>, n: int) -> int
    decreases n,
{
    if n <= 0 {
        0
    } else {
        count_val(s, n - 1) + (if s[n - 1] is Val {
            1int
        } else {
            0int
        })
    }
}

/// Sum of the values among the first `n` rows, accumulated in row order.
pub open spec fn sum_val(s: Seq<CellM>, n: int) -> Frac
    decreases n,
{
    if n <= 0 {
        frac_of_int(0)
    } else {
        let rest = sum_val(s, n - 1);
        match s[n - 1] {
            CellM::Val(v) => frac_add(rest, v),
            _ => rest,
        }
    }
}

/// Every partial sum of the first `n` rows is representable.
pub open spec fn sum_fits(s: Seq<CellM>, n: int) -> bool
    decreases n,
{
    if n <= 0 {
        true
    } else {
        sum_fits(s, n - 1) && (s[n - 1] is Val ==> frac_fits(
            frac_add(sum_val(s, n - 1), s[n - 1]->Val_0),
        ))
    }
}

/// The arithmetic mean of the non-gap values among the first `n` rows:
/// a gap when there is none, the invalid marker when one occurs there.
pub open spec fn prefix_mean_m(s: Seq<CellM>, n: int) -> CellM {
    if has_nan_prefix(s, n) {
        CellM::Nan
    } else if count_val(s, n) == 0 {
        CellM::Gap
    } else {
        CellM::Val(frac_mul(sum_val(s, n), Frac { n: 1, d: count_val(s, n) }))
    }
}

/// When the mean computation succeeds: an invalid marker short-circuits,
/// otherwise all partial sums and the final division must fit.
pub open spec fn mean_fits(s: Seq<CellM>, n: int) -> bool {
    has_nan_prefix(s, n) || (sum_fits(s, n) && (count_val(s, n) > 0 ==> frac_fits(
        frac_mul(sum_val(s, n), Frac { n: 1, d: count_val(s, n) }),
    )))
}

/// Fitting all partial sums up to `n` fits them up to any earlier row.
proof fn lemma_sum_fits_prefix(s: Seq<CellM>, i: int, n: int)
    requires
        0 <= i <= n,
        sum_fits(s, n),
    ensures
        sum_fits(s, i),
    decreases n,
{
    if i < n {
        lemma_sum_fits_prefix(s, i, n - 1);
    }
}

/// Windowed seed mean over the first `n` rows.
pub fn prefix_mean(s: &Series, n: usize) -> (r: CommandResult<Cell>)
    requires
        s.wf(),
        n <= s@.len(),
        n <= i64::MAX,
    ensures
        r is Ok <==> mean_fits(s@, n as int),
        r matches Ok(c) ==> c@ == prefix_mean_m(s@, n as int) && c.wf(),
        r matches Err(e) ==> e == CommandError::ComputationFailure,
{
    let mut i: usize = 0;
    while i < n
        invariant
            i <= n,
            n <= s@.len(),
            s.wf(),
            forall|j: int| 0 <= j < i as int ==> !((#[trigger] s@[j]) is Nan),
        decreases n - i,
    {
        proof {
            assert(s@[i as int] == s.cells@[i as int]@);
        }
        if let Cell::Nan = s.cells[i] {
            return Ok(Cell::Nan);
        }
        i = i + 1;
    }
    let mut acc: Rat = Rat::from_int(0);
    let mut cnt: usize = 0;
    let mut i: usize = 0;
    while i < n
        invariant
            i <= n,
            n <= s@.len(),
            n <= i64::MAX,
            s.wf(),
            !has_nan_prefix(s@, n as int),
            acc@ == sum_val(s@, i as int),
            acc.wf(),
            cnt as int == count_val(s@, i as int),
            cnt <= i,
            sum_fits(s@, i as int),
        decreases n - i,
    {
        proof {
            assert(s@[i as int] == s.cells@[i as int]@);
        }
        if let Cell::Val(v) = s.cells[i] {
            match rat_add(acc, v) {
                Some(a2) => {
                    acc = a2;
                    cnt = cnt + 1;
                },
                None => {
                    proof {
                        assert(!sum_fits(s@, i + 1));
                        if sum_fits(s@, n as int) {
                            lemma_sum_fits_prefix(s@, i + 1, n as int);
                        }
                    }
                    return Err(CommandError::ComputationFailure);
                },
            }
        }
        i = i + 1;
    }
    if cnt == 0 {
        return Ok(Cell::Gap);
    }
    let divisor = Rat { num: 1, den: cnt as i64 };
    match rat_mul(acc, divisor) {
        Some(m) => Ok(Cell::Val(m)),
        None => Err(CommandError::ComputationFailure),
    }
}

/// The larger of an accumulated maximum and one more cell: gaps are
/// absent from the comparison, the invalid marker poisons it.
pub open spec fn max_cell_m(acc: CellM, c: CellM) -> CellM {
    match c {
        CellM::Gap => acc,
        CellM::Nan => CellM::Nan,
        CellM::Val(v) => match acc {
            CellM::Gap => CellM::Val(v),
            CellM::Nan => CellM::Nan,
            CellM::Val(m) => if frac_lt(m, v) {
                CellM::Val(v)
            } else {
                CellM::Val(m)
            },
        },
    }
}

/// Maximum at row `i` across the first `j` series.
pub open spec fn row_max_upto(ss: Seq<Seq<CellM>>, j: int, i: int) -> CellM
    decreases j,
{
    if j <= 0 {
        CellM::Gap
    } else {
        max_cell_m(row_max_upto(ss, j - 1, i), ss[j - 1][i])
    }
}

/// Per-row maximum across all series; row length is taken from the first.
pub open spec fn maxh_seq(ss: Seq<Seq<CellM>>) -> Seq<CellM> {
    let len = if ss.len() == 0 {
        0nat
    } else {
        ss[0].len()
    };
    Seq::new(len, |i: int| row_max_upto(ss, ss.len() as int, i))
}

pub open spec fn equal_lens(ss: Seq<Seq<CellM>>) -> bool {
    forall|j: int| 0 <= j < ss.len() ==> (#[trigger] ss[j]).len() == ss[0].len()
}

pub open spec fn views_of(list: Seq<Series>) -> Seq<Seq<CellM>> {
    list.map_values(|s: Series| s@)
}

/// Per-row maximum of the non-gap values across all input series; a gap
/// where every input is a gap. Fails with `ShapeMismatch` when the input
/// lengths differ.
pub fn max_horizontal(series_list: &Vec<Series>) -> (r: CommandResult<Series>)
    requires
        forall|j: int| 0 <= j < series_list@.len() ==> (#[trigger] series_list@[j]).wf(),
    ensures
        r is Ok <==> equal_lens(views_of(series_list@)),
        r matches Ok(out) ==> out@ == maxh_seq(views_of(series_list@)) && out.wf(),
        r matches Err(e) ==> e == CommandError::ShapeMismatch,
{
    let ghost ss = views_of(series_list@);
    let m: usize = series_list.len();
    if m == 0 {
        let out = Series { cells: Vec::new() };
        proof {
            assert(out@ =~= maxh_seq(ss));
        }
        return Ok(out);
    }
    proof {
        assert(ss[0] == series_list@[0]@);
    }
    let n: usize = series_list[0].cells.len();
    let mut j: usize = 1;
    while j < m
        invariant
            1 <= j <= m,
            m == series_list@.len(),
            ss == views_of(series_list@),
            n == series_list@[0]@.len(),
            forall|jj: int| 0 <= jj < j as int ==> (#[trigger] ss[jj]).len() == n as int,
        decreases m - j,
    {
        proof {
            assert(ss[j as int] == series_list@[j as int]@);
        }
        if series_list[j].cells.len() != n {
            return Err(CommandError::ShapeMismatch);
        }
        j = j + 1;
    }
    let mut cells: Vec<Cell> = Vec::new();
    let mut i: usize = 0;
    while i < n
        invariant
            i <= n,
            m == series_list@.len(),
            m >= 1,
            ss == views_of(series_list@),
            n == series_list@[0]@.len(),
            equal_lens(ss),
            forall|j: int| 0 <= j < series_list@.len() ==> (#[trigger] series_list@[j]).wf(),
            cells@.len() == i as int,
            forall|k: int|
                0 <= k < i as int ==> #[trigger] cells@[k]@ == row_max_upto(ss, m as int, k),
            forall|k: int| 0 <= k < i as int ==> (#[trigger] cells@[k]).wf(),
        decreases n - i,
    {
        let mut acc: Cell = Cell::Gap;
        let mut j: usize = 0;
        while j < m
            invariant
                j <= m,
                i < n,
                m == series_list@.len(),
                ss == views_of(series_list@),
                n == series_list@[0]@.len(),
                equal_lens(ss),
                forall|jj: int| 0 <= jj < series_list@.len() ==> (#[trigger] series_list@[jj]).wf(),
                acc@ == row_max_upto(ss, j as int, i as int),
                acc.wf(),
            decreases m - j,
        {
            proof {
                assert(ss[j as int] == series_list@[j as int]@);
                assert(series_list@[j as int]@[i as int]
                    == series_list@[j as int].cells@[i as int]@);
            }
            let c: Cell = series_list[j].cells[i];
            acc = match c {
                Cell::Gap => acc,
                Cell::Nan => Cell::Nan,
                Cell::Val(v) => match acc {
                    Cell::Gap => Cell::Val(v),
                    Cell::Nan => Cell::Nan,
                    Cell::Val(mx) => if rat_lt(mx, v) {
                        Cell::Val(v)
                    } else {
                        Cell::Val(mx)
                    },
                },
            };
            j = j + 1;
        }
        cells.push(acc);
        i = i + 1;
    }
    let out = Series { cells };
    proof {
        assert(out@ =~= maxh_seq(ss));
    }
    Ok(out)
}

} // verus!
