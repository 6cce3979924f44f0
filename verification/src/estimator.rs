//! The estimator: gradient descent on the weights of the basis curves,
//! driven round by round by its caller.

use vstd::prelude::*;
use crate::emor::{BasisTables, FACTOR_SLOTS};
use crate::fit::{all_usable, calc_error, fit_error};
use crate::fixed::{
    floor_div,
    floor_ratio,
    fx_add,
    fx_sub,
    lemma_product_range,
    min_of,
    narrow,
    saturate,
    wide_mul,
};
use crate::mapping::ExposureMapping;
use crate::root::{isqrt, lemma_root_zero, root_of};

verus! {

/// By how much a weight is moved to measure the slope of the error: a
/// thousandth, rounded down. The step of the last round comes down to
/// this too.
pub const DELTA: i64 = 1073741;

/// The step of the first round.
pub const START_STEP_SIZE: i64 = 1073741824;

/// The rounds of an estimate that is made in one call.
pub const ROUNDS: usize = 300;

/// The greatest sum of squares that is kept: the greatest `u128`.
pub const SQUARES_LIMIT: u128 = 0xffff_ffff_ffff_ffff_ffff_ffff_ffff_ffff;

/// Where an estimator stands.
#[derive(Debug, Copy, Clone, PartialEq, Eq, Structural)]
pub enum Phase {
    /// Rounds can be made.
    Fitting,
    /// The slope of the error vanished, or the rounds are used up.
    Converged,
    /// The caller gave the estimate up.
    Cancelled,
}

/// What an estimator holds at any time.
pub struct Estimate {
    pub factors: Seq<i64>,
    pub error: int,
    pub rounds: int,
    pub phase: Phase,
}

/// The step of a round: from `START_STEP_SIZE` in round 0 it comes down
/// evenly towards `DELTA`, which the round after the last would have.
pub open spec fn step_size(round: int, budget: int) -> int
    recommends
        0 <= round < budget,
{
    START_STEP_SIZE - (round * (START_STEP_SIZE - DELTA)) / budget
}

/// The step of a round lies above `DELTA`, and a later round's is no
/// greater than an earlier one's.
pub proof fn lemma_step_size_decays(earlier: int, later: int, budget: int)
    requires
        0 <= earlier <= later < budget,
    ensures
        DELTA < step_size(later, budget) <= step_size(earlier, budget) <= START_STEP_SIZE,
        step_size(0, budget) == START_STEP_SIZE,
{
    let span = START_STEP_SIZE - DELTA;
    assert(0 <= earlier * span <= later * span < budget * span) by (nonlinear_arith)
        requires
            0 <= earlier <= later < budget,
            span > 0,
    ;
    vstd::arithmetic::div_mod::lemma_div_pos_is_pos(earlier * span, budget);
    vstd::arithmetic::div_mod::lemma_div_is_ordered(earlier * span, later * span, budget);
    vstd::arithmetic::div_mod::lemma_div_is_ordered(later * span, budget * span, budget);
    vstd::arithmetic::div_mod::lemma_div_multiples_vanish(span, budget);
    assert(budget * span == span * budget) by (nonlinear_arith);
    let q = (later * span) / budget;
    let r = (later * span) % budget;
    vstd::arithmetic::div_mod::lemma_fundamental_div_mod(later * span, budget);
    vstd::arithmetic::div_mod::lemma_mod_bound(later * span, budget);
    assert(q < span) by (nonlinear_arith)
        requires
            later * span == budget * q + r,
            0 <= r < budget,
            later * span < budget * span,
            budget > 0,
    ;
    assert(0 * span == 0) by (nonlinear_arith);
}

/// The weights with weight `i` moved up by `DELTA`.
pub open spec fn nudged(factors: Seq<i64>, i: int) -> Seq<i64> {
    factors.update(i, saturate(factors[i] + DELTA) as i64)
}

/// By how much the error changes as each weight is moved up by `DELTA`.
pub open spec fn error_diffs(
    tables: BasisTables,
    mappings: Seq<ExposureMapping>,
    factors: Seq<i64>,
    error: int,
) -> Seq<i64> {
    Seq::new(
        factors.len(),
        |i: int| saturate(fit_error(tables, mappings, nudged(factors, i)) - error) as i64,
    )
}

/// The sum of the squares of the first `n` changes.
pub open spec fn squares_upto(diffs: Seq<i64>, n: int) -> int
    decreases n,
{
    if n <= 0 {
        0
    } else {
        squares_upto(diffs, n - 1) + diffs[n - 1] * diffs[n - 1]
    }
}

/// The length of the vector of changes, rounded down; the sum of squares
/// under the root is kept within `SQUARES_LIMIT`.
pub open spec fn gradient_length(diffs: Seq<i64>) -> int {
    root_of(min_of(squares_upto(diffs, diffs.len() as int), SQUARES_LIMIT as int))
}

/// A sum of squares is not negative, and is zero exactly where every
/// change that it sums is.
pub proof fn lemma_squares_vanish(diffs: Seq<i64>, n: int)
    requires
        0 <= n <= diffs.len(),
    ensures
        squares_upto(diffs, n) >= 0,
        squares_upto(diffs, n) == 0 <==> forall|i: int| 0 <= i < n ==> diffs[i] == 0,
    decreases n,
{
    if n > 0 {
        lemma_squares_vanish(diffs, n - 1);
        let d = diffs[n - 1] as int;
        assert(d * d >= 0 && (d * d == 0 <==> d == 0)) by (nonlinear_arith);
    }
}

/// The slope of the error has vanished, its length being zero, exactly
/// where no weight changes the error at all.
pub proof fn lemma_gradient_vanishes(diffs: Seq<i64>)
    ensures
        gradient_length(diffs) == 0 <==> forall|i: int| 0 <= i < diffs.len() ==> diffs[i] == 0,
{
    lemma_squares_vanish(diffs, diffs.len() as int);
    lemma_root_zero(min_of(squares_upto(diffs, diffs.len() as int), SQUARES_LIMIT as int));
}

/// The weights after a step of the given size against the changes.
pub open spec fn stepped(factors: Seq<i64>, diffs: Seq<i64>, length: int, step: int) -> Seq<i64> {
    Seq::new(
        factors.len(),
        |i: int| saturate(factors[i] - saturate(floor_ratio(diffs[i] * step, length))) as i64,
    )
}

/// The weights that every estimate starts from: all zero.
pub open spec fn zero_factors() -> Seq<i64> {
    Seq::new(FACTOR_SLOTS as nat, |i: int| 0i64)
}

/// A fresh estimate.
pub open spec fn initial_estimate(
    tables: BasisTables,
    mappings: Seq<ExposureMapping>,
    budget: int,
) -> Estimate {
    Estimate {
        factors: zero_factors(),
        error: fit_error(tables, mappings, zero_factors()),
        rounds: 0,
        phase: if budget <= 0 {
            Phase::Converged
        } else {
            Phase::Fitting
        },
    }
}

/// An estimate one round on. Only a fitting estimate moves. Where no
/// weight changes the error, it has converged as it stands. Otherwise
/// every weight steps against its change, by the round's step size over
/// the length of all changes; with the last round of the budget the
/// estimate has converged.
pub open spec fn round_of(
    tables: BasisTables,
    mappings: Seq<ExposureMapping>,
    budget: int,
    s: Estimate,
) -> Estimate {
    if s.phase != Phase::Fitting {
        s
    } else {
        let diffs = error_diffs(tables, mappings, s.factors, s.error);
        let length = gradient_length(diffs);
        if length == 0 {
            Estimate { phase: Phase::Converged, ..s }
        } else {
            let factors = stepped(s.factors, diffs, length, step_size(s.rounds, budget));
            Estimate {
                factors,
                error: fit_error(tables, mappings, factors),
                rounds: s.rounds + 1,
                phase: if s.rounds + 1 >= budget {
                    Phase::Converged
                } else {
                    Phase::Fitting
                },
            }
        }
    }
}

/// An estimate `n` rounds on.
pub open spec fn after_rounds(
    tables: BasisTables,
    mappings: Seq<ExposureMapping>,
    budget: int,
    s: Estimate,
    n: int,
) -> Estimate
    decreases n,
{
    if n <= 0 {
        s
    } else {
        round_of(tables, mappings, budget, after_rounds(tables, mappings, budget, s, n - 1))
    }
}

/// An estimate that is no longer fitting stays as it is, however many
/// rounds are asked of it.
pub proof fn lemma_settled_stays(
    tables: BasisTables,
    mappings: Seq<ExposureMapping>,
    budget: int,
    s: Estimate,
    n: int,
)
    requires
        s.phase != Phase::Fitting,
    ensures
        after_rounds(tables, mappings, budget, s, n) == s,
    decreases n,
{
    if n > 0 {
        lemma_settled_stays(tables, mappings, budget, s, n - 1);
    }
}

/// Rounds add up: `m` rounds and then `n` more are `m + n` rounds.
pub proof fn lemma_rounds_add(
    tables: BasisTables,
    mappings: Seq<ExposureMapping>,
    budget: int,
    s: Estimate,
    m: int,
    n: int,
)
    requires
        m >= 0,
        n >= 0,
    ensures
        after_rounds(
            tables,
            mappings,
            budget,
            after_rounds(tables, mappings, budget, s, m),
            n,
        ) == after_rounds(tables, mappings, budget, s, m + n),
    decreases n,
{
    if n > 0 {
        lemma_rounds_add(tables, mappings, budget, s, m, n - 1);
    }
}

/// The number of rounds made never passes the budget, and is below it
/// while the estimate is fitting.
pub open spec fn within_budget(s: Estimate, budget: int) -> bool {
    &&& 0 <= s.rounds
    &&& s.factors.len() == FACTOR_SLOTS
    &&& s.phase == Phase::Fitting ==> s.rounds < budget
}

/// An estimator of a response curve from a set of exposure mappings.
pub struct EmorEstimator<'a> {
    tables: &'a BasisTables,
    mappings: &'a Vec<ExposureMapping>,
    factors: Vec<i64>,
    err: i64,
    rounds: usize,
    budget: usize,
    phase: Phase,
}

fn zeros() -> (v: Vec<i64>)
    ensures
        v@ == zero_factors(),
{
    let mut v: Vec<i64> = Vec::new();
    let mut i: usize = 0;
    while i < FACTOR_SLOTS
        invariant
            0 <= i <= FACTOR_SLOTS,
            v.len() == i,
            forall|k: int| 0 <= k < i ==> v[k] == 0,
        decreases FACTOR_SLOTS - i,
    {
        v.push(0);
        i = i + 1;
    }
    assert(v@ =~= zero_factors());
    v
}

fn copy_of(factors: &Vec<i64>) -> (v: Vec<i64>)
    ensures
        v@ == factors@,
{
    let mut v: Vec<i64> = Vec::new();
    let mut i: usize = 0;
    while i < factors.len()
        invariant
            0 <= i <= factors.len(),
            v.len() == i,
            forall|k: int| 0 <= k < i ==> v[k] == factors[k],
        decreases factors.len() - i,
    {
        v.push(factors[i]);
        i = i + 1;
    }
    assert(v@ =~= factors@);
    v
}

fn nudge(factors: &Vec<i64>, i: usize) -> (v: Vec<i64>)
    requires
        i < factors.len(),
    ensures
        v@ == nudged(factors@, i as int),
{
    let mut v: Vec<i64> = copy_of(factors);
    v.set(i, fx_add(factors[i], DELTA));
    v
}

fn step_size_of(round: usize, budget: usize) -> (s: i64)
    requires
        round < budget,
    ensures
        s == step_size(round as int, budget as int),
        DELTA < s <= START_STEP_SIZE,
{
    proof {
        lemma_step_size_decays(round as int, round as int, budget as int);
    }
    assert(0 <= round * (START_STEP_SIZE - DELTA) <= 0x4000_0000_0000_0000_0000_0000)
        by (nonlinear_arith)
        requires
            0 <= round <= 0x1_0000_0000_0000_0000,
    ;
    let span: u128 = (START_STEP_SIZE - DELTA) as u128;
    let down: u128 = ((round as u128) * span) / (budget as u128);
    START_STEP_SIZE - (down as i64)
}

fn length_of(diffs: &Vec<i64>) -> (length: u128)
    ensures
        length == gradient_length(diffs@),
        length < 0x1_0000_0000_0000_0000,
{
    let mut sum: u128 = 0;
    let mut i: usize = 0;
    while i < diffs.len()
        invariant
            0 <= i <= diffs.len(),
            squares_upto(diffs@, i as int) >= 0,
            sum == min_of(squares_upto(diffs@, i as int), SQUARES_LIMIT as int),
        decreases diffs.len() - i,
    {
        let d: i64 = diffs[i];
        proof {
            lemma_product_range(d as int, d as int);
            assert(d * d >= 0) by (nonlinear_arith);
        }
        let square: u128 = wide_mul(d, d) as u128;
        if square > SQUARES_LIMIT - sum {
            sum = SQUARES_LIMIT;
        } else {
            sum = sum + square;
        }
        i = i + 1;
    }
    isqrt(sum)
}

impl<'a> EmorEstimator<'a> {
    /// The tables that the estimator fits with.
    pub closed spec fn tables(&self) -> BasisTables {
        *self.tables
    }

    /// The mappings that the estimator fits to.
    pub closed spec fn mappings(&self) -> Seq<ExposureMapping> {
        self.mappings@
    }

    /// The rounds that the estimator may make in all.
    pub closed spec fn budget(&self) -> int {
        self.budget as int
    }

    /// What the estimator holds.
    pub closed spec fn model(&self) -> Estimate {
        Estimate {
            factors: self.factors@,
            error: self.err as int,
            rounds: self.rounds as int,
            phase: self.phase,
        }
    }

    /// The estimator is consistent: it has tables, at least one mapping
    /// and a full set of weights, its error is that of its weights, and
    /// its rounds are within its budget.
    pub closed spec fn wf(&self) -> bool {
        &&& self.tables.wf()
        &&& self.mappings@.len() >= 1
        &&& all_usable(self.mappings@)
        &&& self.err == fit_error(*self.tables, self.mappings@, self.factors@)
        &&& within_budget(self.model(), self.budget as int)
    }

    /// Starts an estimate, or declines where there is nothing to fit.
    pub fn new(
        tables: &'a BasisTables,
        mappings: &'a Vec<ExposureMapping>,
        round_budget: usize,
    ) -> (r: Option<EmorEstimator<'a>>)
        requires
            tables.wf(),
            all_usable(mappings@),
        ensures
            r.is_some() <==> mappings.len() >= 1,
            r.is_some() ==> {
                &&& r.unwrap().wf()
                &&& r.unwrap().tables() == *tables
                &&& r.unwrap().mappings() == mappings@
                &&& r.unwrap().budget() == round_budget
                &&& r.unwrap().model() == initial_estimate(
                    *tables,
                    mappings@,
                    round_budget as int,
                )
            },
    {
        if mappings.len() == 0 {
            return None;
        }
        let factors = zeros();
        let err: i64 = calc_error(tables, mappings, &factors);
        let phase = if round_budget == 0 {
            Phase::Converged
        } else {
            Phase::Fitting
        };
        Some(EmorEstimator { tables, mappings, factors, err, rounds: 0, budget: round_budget, phase })
    }

    /// Makes one round.
    fn round(&mut self)
        requires
            old(self).wf(),
        ensures
            final(self).wf(),
            final(self).tables() == old(self).tables(),
            final(self).mappings() == old(self).mappings(),
            final(self).budget() == old(self).budget(),
            final(self).model() == round_of(
                old(self).tables(),
                old(self).mappings(),
                old(self).budget(),
                old(self).model(),
            ),
    {
        if self.phase != Phase::Fitting {
            return ;
        }
        let ghost start = self.factors@;
        let ghost expected = error_diffs(*self.tables, self.mappings@, start, self.err as int);
        let mut diffs: Vec<i64> = Vec::new();
        let mut i: usize = 0;
        while i < FACTOR_SLOTS
            invariant
                0 <= i <= FACTOR_SLOTS,
                self.wf(),
                self.factors@ == start,
                self.factors.len() == FACTOR_SLOTS,
                *self == *old(self),
                expected == error_diffs(*self.tables, self.mappings@, start, self.err as int),
                diffs.len() == i,
                forall|k: int| 0 <= k < i ==> diffs[k] == expected[k],
            decreases FACTOR_SLOTS - i,
        {
            let test = nudge(&self.factors, i);
            let e: i64 = calc_error(self.tables, self.mappings, &test);
            diffs.push(fx_sub(e, self.err));
            i = i + 1;
        }
        assert(diffs@ =~= expected);
        let length: u128 = length_of(&diffs);
        if length == 0 {
            self.phase = Phase::Converged;
            return ;
        }
        let step: i64 = step_size_of(self.rounds, self.budget);
        let ghost target = stepped(start, diffs@, length as int, step as int);
        let mut moved: Vec<i64> = Vec::new();
        let mut j: usize = 0;
        while j < FACTOR_SLOTS
            invariant
                0 <= j <= FACTOR_SLOTS,
                self.factors@ == start,
                start.len() == FACTOR_SLOTS,
                diffs.len() == FACTOR_SLOTS,
                0 < length < 0x1_0000_0000_0000_0000,
                target == stepped(start, diffs@, length as int, step as int),
                moved.len() == j,
                forall|k: int| 0 <= k < j ==> moved[k] == target[k],
            decreases FACTOR_SLOTS - j,
        {
            let part: i64 = narrow(floor_div(wide_mul(diffs[j], step), length as i128));
            moved.push(fx_sub(self.factors[j], part));
            j = j + 1;
        }
        assert(moved@ =~= target);
        self.err = calc_error(self.tables, self.mappings, &moved);
        self.factors = moved;
        self.rounds = self.rounds + 1;
        if self.rounds >= self.budget {
            self.phase = Phase::Converged;
        }
    }

    /// Makes up to `rounds` rounds, fewer where the estimate settles
    /// before. Nothing can be given up within a call: a caller that is
    /// to stop between any two rounds asks for one round at a time, as
    /// `schedule::next_of` has it.
    pub fn advance(&mut self, rounds: usize)
        requires
            old(self).wf(),
        ensures
            final(self).wf(),
            final(self).tables() == old(self).tables(),
            final(self).mappings() == old(self).mappings(),
            final(self).budget() == old(self).budget(),
            final(self).model() == after_rounds(
                old(self).tables(),
                old(self).mappings(),
                old(self).budget(),
                old(self).model(),
                rounds as int,
            ),
    {
        let ghost start = self.model();
        let mut done: usize = 0;
        while done < rounds && self.phase == Phase::Fitting
            invariant
                0 <= done <= rounds,
                self.wf(),
                self.tables() == old(self).tables(),
                self.mappings() == old(self).mappings(),
                self.budget() == old(self).budget(),
                start == old(self).model(),
                self.model() == after_rounds(
                    self.tables(),
                    self.mappings(),
                    self.budget(),
                    start,
                    done as int,
                ),
            decreases rounds - done,
        {
            self.round();
            done = done + 1;
        }
        proof {
            if done < rounds {
                lemma_settled_stays(
                    self.tables(),
                    self.mappings(),
                    self.budget(),
                    self.model(),
                    rounds - done,
                );
                lemma_rounds_add(
                    self.tables(),
                    self.mappings(),
                    self.budget(),
                    start,
                    done as int,
                    rounds - done,
                );
            }
        }
    }

    /// Gives the estimate up. A settled estimate stays as it is.
    pub fn cancel(&mut self)
        requires
            old(self).wf(),
        ensures
            final(self).wf(),
            final(self).tables() == old(self).tables(),
            final(self).mappings() == old(self).mappings(),
            final(self).budget() == old(self).budget(),
            final(self).model() == (Estimate {
                phase: if old(self).model().phase == Phase::Fitting {
                    Phase::Cancelled
                } else {
                    old(self).model().phase
                },
                ..old(self).model()
            }),
    {
        if self.phase == Phase::Fitting {
            self.phase = Phase::Cancelled;
        }
    }

    /// A copy of the weights and the error as they stand.
    pub fn current_estimate(&self) -> (r: (Vec<i64>, i64))
        requires
            self.wf(),
        ensures
            r.0@ == self.model().factors,
            r.1 == self.model().error,
            r.0.len() == FACTOR_SLOTS,
            r.1 == fit_error(self.tables(), self.mappings(), r.0@),
    {
        (copy_of(&self.factors), self.err)
    }

    /// Where the estimator stands.
    pub fn phase(&self) -> (p: Phase)
        ensures
            p == self.model().phase,
    {
        self.phase
    }

    /// How many rounds were made.
    pub fn rounds_elapsed(&self) -> (n: usize)
        ensures
            n == self.model().rounds,
    {
        self.rounds
    }
}

/// Estimates the weights of a response curve from a set of mappings in
/// `ROUNDS` rounds, and gives them with their error; nothing where
/// there is no mapping.
pub fn estimate_emor(tables: &BasisTables, mappings: &Vec<ExposureMapping>) -> (r: Option<
    (Vec<i64>, i64),
>)
    requires
        tables.wf(),
        all_usable(mappings@),
    ensures
        r.is_some() <==> mappings.len() >= 1,
        r.is_some() ==> {
            let end = after_rounds(
                *tables,
                mappings@,
                ROUNDS as int,
                initial_estimate(*tables, mappings@, ROUNDS as int),
                ROUNDS as int,
            );
            r.unwrap().0@ == end.factors && r.unwrap().1 == end.error
        },
{
    match EmorEstimator::new(tables, mappings, ROUNDS) {
        Some(mut estimator) => {
            estimator.advance(ROUNDS);
            Some(estimator.current_estimate())
        },
        None => None,
    }
}

} // verus!
