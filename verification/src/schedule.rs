//! The course of an estimation that its caller watches. The caller looks
//! before every round, and may give the run up at each look; the
//! estimate is published whenever a batch of rounds is full.

use vstd::prelude::*;

verus! {

/// How many rounds a run of a single mapping makes between two
/// publications; with more mappings each round costs more, and there
/// are fewer.
pub const ROUNDS_PER_UPDATE: usize = 1000;

/// Where a run stands.
#[derive(Debug, Copy, Clone, PartialEq, Eq, Structural)]
pub enum RunState {
    /// Nothing was asked yet.
    Idle,
    /// `rounds_done` rounds are made, of the whole batches of `batch`
    /// rounds that `total_rounds` allow.
    Running { batch: usize, total_rounds: usize, rounds_done: usize },
    /// There was nothing to fit.
    Declined,
    /// All batches are made.
    Finished,
    /// The caller gave the run up.
    Cancelled,
}

/// What the caller reports.
#[derive(Debug, Copy, Clone, PartialEq, Eq, Structural)]
pub enum RunEvent {
    /// A run is wanted, with so many mappings and rounds in all.
    Start { mapping_count: usize, total_rounds: usize },
    /// The caller has looked: it says whether the run is to be given up.
    Look { cancel: bool },
}

/// What the caller is to do next.
#[derive(Debug, Copy, Clone, PartialEq, Eq, Structural)]
pub enum RunAction {
    /// Look, then report back.
    Report,
    /// Make one round after the `rounds_before` already made; where
    /// `publish` is set, the batch is full and the estimate is to be
    /// published; then look, and report back.
    Round { rounds_before: usize, publish: bool },
    /// Stop: the run is over.
    Stop,
}

/// The rounds of one batch: `ROUNDS_PER_UPDATE` shared among the
/// mappings, and at least one.
pub open spec fn batch_size(mapping_count: int) -> int
    recommends
        mapping_count >= 1,
{
    if ROUNDS_PER_UPDATE as int / mapping_count >= 1 {
        ROUNDS_PER_UPDATE as int / mapping_count
    } else {
        1
    }
}

/// The rounds that a run makes in all: those of the whole batches that
/// the rounds allow.
pub open spec fn whole_rounds(total_rounds: int, batch: int) -> int
    recommends
        batch >= 1,
{
    total_rounds - total_rounds % batch
}

/// Computes the rounds of one batch.
pub fn rounds_per_update(mapping_count: usize) -> (rounds: usize)
    requires
        mapping_count >= 1,
    ensures
        rounds == batch_size(mapping_count as int),
        1 <= rounds <= ROUNDS_PER_UPDATE,
{
    let shared: usize = ROUNDS_PER_UPDATE / mapping_count;
    proof {
        vstd::arithmetic::div_mod::lemma_div_is_ordered_by_denominator(
            ROUNDS_PER_UPDATE as int,
            1,
            mapping_count as int,
        );
    }
    if shared >= 1 {
        shared
    } else {
        1
    }
}

/// The state and the action that follow a state and an event.
///
/// A start with no mapping is declined. Any other start begins a run
/// and asks for a look. At each look a running run is given up if the
/// caller says so; it goes on with one round, and no more, if a round of
/// its whole batches is left; and it is finished otherwise. The round
/// that fills a batch is the one to publish after. Whatever else is
/// reported changes nothing and stops.
pub open spec fn next_of(state: RunState, event: RunEvent) -> (RunState, RunAction) {
    match (state, event) {
        (RunState::Idle, RunEvent::Start { mapping_count, total_rounds }) => {
            if mapping_count == 0 {
                (RunState::Declined, RunAction::Stop)
            } else {
                (
                    RunState::Running {
                        batch: batch_size(mapping_count as int) as usize,
                        total_rounds,
                        rounds_done: 0,
                    },
                    RunAction::Report,
                )
            }
        },
        (RunState::Running { batch, total_rounds, rounds_done }, RunEvent::Look { cancel }) => {
            if cancel {
                (RunState::Cancelled, RunAction::Stop)
            } else if batch >= 1 && rounds_done < whole_rounds(total_rounds as int, batch as int) {
                (
                    RunState::Running {
                        batch,
                        total_rounds,
                        rounds_done: (rounds_done + 1) as usize,
                    },
                    RunAction::Round {
                        rounds_before: rounds_done,
                        publish: (rounds_done + 1) % (batch as int) == 0,
                    },
                )
            } else {
                (RunState::Finished, RunAction::Stop)
            }
        },
        _ => (state, RunAction::Stop),
    }
}

/// Decides what follows a state and an event.
pub fn next_step(state: RunState, event: RunEvent) -> (r: (RunState, RunAction))
    ensures
        r == next_of(state, event),
{
    match (state, event) {
        (RunState::Idle, RunEvent::Start { mapping_count, total_rounds }) => {
            if mapping_count == 0 {
                (RunState::Declined, RunAction::Stop)
            } else {
                (
                    RunState::Running {
                        batch: rounds_per_update(mapping_count),
                        total_rounds,
                        rounds_done: 0,
                    },
                    RunAction::Report,
                )
            }
        },
        (RunState::Running { batch, total_rounds, rounds_done }, RunEvent::Look { cancel }) => {
            if cancel {
                (RunState::Cancelled, RunAction::Stop)
            } else if batch == 0 {
                (RunState::Finished, RunAction::Stop)
            } else {
                proof {
                    vstd::arithmetic::div_mod::lemma_mod_decreases(
                        total_rounds as nat,
                        batch as nat,
                    );
                }
                let whole: usize = total_rounds - total_rounds % batch;
                if rounds_done < whole {
                    let made: usize = rounds_done + 1;
                    (
                        RunState::Running { batch, total_rounds, rounds_done: made },
                        RunAction::Round {
                            rounds_before: rounds_done,
                            publish: made % batch == 0,
                        },
                    )
                } else {
                    (RunState::Finished, RunAction::Stop)
                }
            }
        },
        _ => (state, RunAction::Stop),
    }
}

/// How many rounds a run has made.
pub open spec fn rounds_made(state: RunState) -> int {
    match state {
        RunState::Running { batch, total_rounds, rounds_done } => rounds_done as int,
        _ => 0,
    }
}

/// The caller's word is taken before every round: a round is asked for
/// only of a running run, only at a look, and only where the look did
/// not give the run up; and it is a single round.
pub proof fn lemma_round_follows_look(state: RunState, event: RunEvent)
    requires
        next_of(state, event).1 is Round,
    ensures
        state is Running,
        event == (RunEvent::Look { cancel: false }),
        next_of(state, event).1->rounds_before == rounds_made(state),
        rounds_made(next_of(state, event).0) == rounds_made(state) + 1,
{
}

/// A look that gives the run up ends it at once, whatever is left of it,
/// and no round is asked for after.
pub proof fn lemma_cancel_ends_run(state: RunState, event: RunEvent)
    requires
        state is Running,
        event == (RunEvent::Look { cancel: true }),
    ensures
        next_of(state, event) == (RunState::Cancelled, RunAction::Stop),
        forall|later: RunEvent|
            next_of(RunState::Cancelled, later) == (RunState::Cancelled, RunAction::Stop),
{
}

/// A running run is in order: its batches have at least one round, and
/// it has made no more rounds than its whole batches hold, which are no
/// more than it was started with.
pub open spec fn in_order(state: RunState) -> bool {
    match state {
        RunState::Running { batch, total_rounds, rounds_done } => {
            &&& batch >= 1
            &&& rounds_done <= whole_rounds(total_rounds as int, batch as int) <= total_rounds
        },
        _ => true,
    }
}

/// A run makes the rounds of its whole batches and no more: a start
/// gives a run in order, and a run in order stays so. The round that
/// ends a run fills a batch, so that what is published last is the
/// estimate of the last round.
pub proof fn lemma_run_ends_published(state: RunState, event: RunEvent)
    requires
        in_order(state),
    ensures
        in_order(next_of(state, event).0),
        next_of(state, event).0 matches RunState::Running { batch, total_rounds, rounds_done }
            ==> (next_of(state, event).1 matches RunAction::Round { rounds_before, publish }
            ==> (rounds_done == whole_rounds(total_rounds as int, batch as int) ==> publish)),
{
    match (state, event) {
        (RunState::Running { batch, total_rounds, rounds_done }, RunEvent::Look { cancel }) => {
            let t = total_rounds as int;
            let b = batch as int;
            vstd::arithmetic::div_mod::lemma_fundamental_div_mod(t, b);
            vstd::arithmetic::div_mod::lemma_mod_multiples_basic(t / b, b);
            assert(whole_rounds(t, b) == (t / b) * b) by (nonlinear_arith)
                requires
                    t == b * (t / b) + t % b,
                    whole_rounds(t, b) == t - t % b,
            ;
        },
        (RunState::Idle, RunEvent::Start { mapping_count, total_rounds }) => {
            if mapping_count != 0 {
                let t = total_rounds as int;
                let b = batch_size(mapping_count as int);
                vstd::arithmetic::div_mod::lemma_div_is_ordered_by_denominator(
                    ROUNDS_PER_UPDATE as int,
                    1,
                    mapping_count as int,
                );
                vstd::arithmetic::div_mod::lemma_mod_bound(t, b);
                vstd::arithmetic::div_mod::lemma_mod_decreases(t as nat, b as nat);
            }
        },
        _ => {},
    }
}

} // verus!
