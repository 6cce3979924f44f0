//! The basis-curve model of a response curve: a baseline, a linear
//! correction and a few weighted basis curves, all tabulated over the
//! same uniform grid.

use vstd::prelude::*;
use crate::curve::{lerp_slice, uniform_sample};
use crate::fixed::{
    ONE,
    clamp_between,
    fx_add,
    fx_clamp,
    fx_max,
    fx_mul,
    max_of,
    product,
    saturate,
};

verus! {

/// How many basis curves a model weighs.
pub const FACTOR_SLOTS: usize = 6;

/// The rows of a set of tables: the baseline, the linear correction, and
/// one row for each basis curve.
pub const TABLE_ROWS: usize = 8;

/// The greatest number of samples in a row.
pub const MAX_SAMPLES: usize = 65536;

/// The least rise over the whole of an exported curve: five thousandths,
/// rounded down.
pub const EXPORT_RISE: i64 = 5368709;

/// The tabulated curves of the model. Row 0 is the baseline, row 1 the
/// linear correction, rows 2 and up the basis curves. The tables are
/// made elsewhere and never change.
#[derive(Debug, Clone)]
pub struct BasisTables {
    pub rows: Vec<Vec<i64>>,
}

/// Whether rows can serve as tables: there are `TABLE_ROWS` of them, all
/// of one length, which is at least two and at most `MAX_SAMPLES`.
pub open spec fn well_shaped(rows: Seq<Vec<i64>>) -> bool {
    &&& rows.len() == TABLE_ROWS
    &&& 2 <= rows[0].len() <= MAX_SAMPLES
    &&& forall|j: int| 0 <= j < rows.len() ==> (#[trigger] rows[j]).len() == rows[0].len()
}

impl BasisTables {
    /// The rows are well shaped.
    pub open spec fn wf(&self) -> bool {
        well_shaped(self.rows@)
    }

    /// The number of samples in each row.
    pub open spec fn sample_count(&self) -> int {
        self.rows@[0].len() as int
    }

    /// Row `j` as a sequence.
    pub open spec fn row(&self, j: int) -> Seq<i64> {
        self.rows@[j]@
    }

    /// Takes rows as tables where they are well shaped.
    pub fn new(rows: Vec<Vec<i64>>) -> (r: Option<BasisTables>)
        ensures
            r.is_some() <==> well_shaped(rows@),
            r.is_some() ==> r.unwrap().rows == rows && r.unwrap().wf(),
    {
        if rows.len() != TABLE_ROWS {
            return None;
        }
        let samples: usize = rows[0].len();
        if samples < 2 || samples > MAX_SAMPLES {
            return None;
        }
        let mut j: usize = 0;
        while j < rows.len()
            invariant
                0 <= j <= rows.len(),
                samples == rows[0].len(),
                forall|k: int| 0 <= k < j ==> (#[trigger] rows@[k]).len() == samples,
            decreases rows.len() - j,
        {
            if rows[j].len() != samples {
                return None;
            }
            j = j + 1;
        }
        Some(BasisTables { rows })
    }

    /// The number of samples in each row.
    pub fn samples(&self) -> (n: usize)
        requires
            self.wf(),
        ensures
            n == self.sample_count(),
            2 <= n <= MAX_SAMPLES,
    {
        self.rows[0].len()
    }

    /// The entry of row `j` at index `i`.
    pub fn entry(&self, j: usize, i: usize) -> (v: i64)
        requires
            self.wf(),
            j < TABLE_ROWS,
            i < self.sample_count(),
        ensures
            v == self.row(j as int)[i as int],
    {
        assert(self.rows@[j as int].len() == self.rows@[0].len());
        self.rows[j][i]
    }
}

/// The model at a tabulated index, with the first `n` weights applied:
/// the baseline and the linear correction, and each of the first `n`
/// basis curves times its weight, every sum saturating.
pub open spec fn combined_at_index(tables: BasisTables, factors: Seq<i64>, i: int, n: int) -> int
    decreases n,
{
    if n <= 0 {
        saturate(tables.row(0)[i] + tables.row(1)[i])
    } else {
        saturate(
            combined_at_index(tables, factors, i, n - 1) + product(
                tables.row(n + 1)[i] as int,
                factors[n - 1] as int,
            ),
        )
    }
}

/// The model at a position `x` of `[0, ONE]`, with the first `n` weights
/// applied: as at an index, with each row sampled at `x`.
pub open spec fn combined_at(tables: BasisTables, factors: Seq<i64>, x: int, n: int) -> int
    decreases n,
{
    if n <= 0 {
        saturate(uniform_sample(tables.row(0), x) + uniform_sample(tables.row(1), x))
    } else {
        saturate(
            combined_at(tables, factors, x, n - 1) + product(
                uniform_sample(tables.row(n + 1), x),
                factors[n - 1] as int,
            ),
        )
    }
}

/// Evaluates the model at a tabulated index.
pub fn emor_at_index(tables: &BasisTables, factors: &Vec<i64>, i: usize) -> (y: i64)
    requires
        tables.wf(),
        factors.len() <= FACTOR_SLOTS,
        i < tables.sample_count(),
    ensures
        y == combined_at_index(*tables, factors@, i as int, factors.len() as int),
{
    let mut y: i64 = fx_add(tables.entry(0, i), tables.entry(1, i));
    let mut j: usize = 0;
    while j < factors.len()
        invariant
            0 <= j <= factors.len() <= FACTOR_SLOTS,
            tables.wf(),
            i < tables.sample_count(),
            y == combined_at_index(*tables, factors@, i as int, j as int),
        decreases factors.len() - j,
    {
        y = fx_add(y, fx_mul(tables.entry(j + 2, i), factors[j]));
        j = j + 1;
    }
    y
}

/// Evaluates the model at a position of `[0, ONE]`, which need not be a
/// tabulated one.
pub fn eval_emor(tables: &BasisTables, factors: &Vec<i64>, x: i64) -> (y: i64)
    requires
        tables.wf(),
        factors.len() <= FACTOR_SLOTS,
        0 <= x <= ONE,
    ensures
        y == combined_at(*tables, factors@, x as int, factors.len() as int),
{
    assert(forall|j: int| 0 <= j < TABLE_ROWS ==> (#[trigger] tables.rows@[j]).len() >= 2);
    let mut y: i64 = fx_add(lerp_slice(&tables.rows[0], x), lerp_slice(&tables.rows[1], x));
    let mut j: usize = 0;
    while j < factors.len()
        invariant
            0 <= j <= factors.len() <= FACTOR_SLOTS,
            tables.wf(),
            0 <= x <= ONE,
            forall|k: int| 0 <= k < TABLE_ROWS ==> (#[trigger] tables.rows@[k]).len() >= 2,
            y == combined_at(*tables, factors@, x as int, j as int),
        decreases factors.len() - j,
    {
        y = fx_add(y, fx_mul(lerp_slice(&tables.rows[j + 2], x), factors[j]));
        j = j + 1;
    }
    y
}

/// A value lifted so that it stands at least `min_delta` above the one
/// before it.
pub open spec fn lifted_over(prev: int, value: int, min_delta: int) -> int {
    max_of(value, saturate(prev + min_delta))
}

/// Lifts a value over the one before it. Both the soft penalty of a fit
/// and the hard floor of an exported curve are built on this.
pub fn lift_over(prev: i64, value: i64, min_delta: i64) -> (r: i64)
    ensures
        r == lifted_over(prev as int, value as int, min_delta as int),
{
    fx_max(value, fx_add(prev, min_delta))
}

/// Entry `i` of a sequence after the walk that lifts each entry over the
/// lifted entry before it. The first entry stays.
pub open spec fn lifted_entry(raw: Seq<i64>, min_delta: int, i: int) -> int
    decreases i,
{
    if i <= 0 {
        raw[0] as int
    } else {
        lifted_over(lifted_entry(raw, min_delta, i - 1), raw[i] as int, min_delta)
    }
}

/// A lifted entry is an `i64`, and where the least step is not negative
/// it is not below the entry before it.
pub proof fn lemma_lifted_entry(raw: Seq<i64>, min_delta: int, i: int)
    requires
        0 <= i < raw.len(),
        0 <= min_delta <= i64::MAX,
    ensures
        i64::MIN <= lifted_entry(raw, min_delta, i) <= i64::MAX,
        i > 0 ==> lifted_entry(raw, min_delta, i - 1) <= lifted_entry(raw, min_delta, i),
        i > 0 && lifted_entry(raw, min_delta, i) < i64::MAX ==> lifted_entry(raw, min_delta, i - 1)
            + min_delta <= lifted_entry(raw, min_delta, i),
    decreases i,
{
    if i > 0 {
        lemma_lifted_entry(raw, min_delta, i - 1);
    }
}

/// The least step between neighbouring entries of an exported curve of
/// `len` entries.
pub open spec fn export_step(len: int) -> int
    recommends
        len > 0,
{
    EXPORT_RISE as int / len
}

/// The model at every tabulated index, as a sequence.
pub open spec fn raw_curve(tables: BasisTables, factors: Seq<i64>) -> Seq<i64> {
    Seq::new(
        tables.sample_count() as nat,
        |i: int| combined_at_index(tables, factors, i, factors.len() as int) as i64,
    )
}

/// Entry `i` of the curve that a factor vector stands for: the model at
/// index `i`, lifted to keep the least step, then kept within `[0, ONE]`.
pub open spec fn curve_entry(tables: BasisTables, factors: Seq<i64>, i: int) -> int {
    clamp_between(
        lifted_entry(raw_curve(tables, factors), export_step(tables.sample_count()), i),
        0,
        ONE as int,
    )
}

/// The curve of any factor vector can be used as a table: its entries
/// lie in `[0, ONE]` and none is below the one before it. Between two
/// neighbours that the bounds did not cut, the first above `0` and the
/// second below `ONE`, the step is at least the least step.
pub proof fn lemma_curve_is_monotonic(tables: BasisTables, factors: Seq<i64>, i: int)
    requires
        tables.wf(),
        0 < i < tables.sample_count(),
    ensures
        0 <= curve_entry(tables, factors, i - 1) <= curve_entry(tables, factors, i) <= ONE,
        0 < curve_entry(tables, factors, i - 1) && curve_entry(tables, factors, i) < ONE
            ==> curve_entry(tables, factors, i) - curve_entry(tables, factors, i - 1)
            >= export_step(tables.sample_count()),
{
    let len = tables.sample_count();
    let step = export_step(len);
    vstd::arithmetic::div_mod::lemma_div_pos_is_pos(EXPORT_RISE as int, len);
    vstd::arithmetic::div_mod::lemma_div_is_ordered_by_denominator(EXPORT_RISE as int, 1, len);
    lemma_lifted_entry(raw_curve(tables, factors), step, i);
}

/// The curve that a factor vector stands for, ready to be used as a
/// table whatever the factors are.
pub fn emor_factors_to_curve(tables: &BasisTables, factors: &Vec<i64>) -> (curve: Vec<i64>)
    requires
        tables.wf(),
        factors.len() <= FACTOR_SLOTS,
    ensures
        curve.len() == tables.sample_count(),
        forall|i: int|
            0 <= i < curve.len() ==> curve[i] == curve_entry(*tables, factors@, i),
        forall|i: int| 0 <= i < curve.len() ==> 0 <= #[trigger] curve[i] <= ONE,
        forall|i: int| 0 < i < curve.len() ==> curve[i - 1] <= #[trigger] curve[i],
        forall|i: int|
            0 < i < curve.len() && 0 < curve[i - 1] && #[trigger] curve[i] < ONE ==> curve[i]
                - curve[i - 1] >= export_step(tables.sample_count()),
{
    let len: usize = tables.samples();
    let min_diff: i64 = EXPORT_RISE / (len as i64);
    let ghost raw = raw_curve(*tables, factors@);
    let mut curve: Vec<i64> = Vec::new();
    let mut prev: i64 = 0;
    let mut i: usize = 0;
    while i < len
        invariant
            0 <= i <= len,
            len == tables.sample_count(),
            tables.wf(),
            factors.len() <= FACTOR_SLOTS,
            min_diff == export_step(len as int),
            raw == raw_curve(*tables, factors@),
            curve.len() == i,
            i > 0 ==> prev == lifted_entry(raw, min_diff as int, i - 1),
            forall|k: int| 0 <= k < i ==> curve[k] == curve_entry(*tables, factors@, k),
        decreases len - i,
    {
        let y: i64 = emor_at_index(tables, factors, i);
        let lifted: i64 = if i == 0 {
            y
        } else {
            lift_over(prev, y, min_diff)
        };
        curve.push(fx_clamp(lifted, 0, ONE));
        prev = lifted;
        i = i + 1;
    }
    proof {
        assert forall|k: int| 0 < k < curve.len() implies curve[k - 1] <= #[trigger] curve[k]
            && 0 <= curve[k] <= ONE && (0 < curve[k - 1] && curve[k] < ONE ==> curve[k] - curve[k
            - 1] >= export_step(tables.sample_count())) by {
            lemma_curve_is_monotonic(*tables, factors@, k);
        }
    }
    curve
}

} // verus!
