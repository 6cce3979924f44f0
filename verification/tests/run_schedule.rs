use sensor_analysis::schedule::{
    next_step, rounds_per_update, RunAction, RunEvent, RunState, ROUNDS_PER_UPDATE,
};

#[test]
fn batches_shrink_with_the_mappings() {
    assert_eq!(ROUNDS_PER_UPDATE, 1000);
    assert_eq!(rounds_per_update(1), 1000);
    assert_eq!(rounds_per_update(3), 333);
    assert_eq!(rounds_per_update(1000), 1);
    assert_eq!(rounds_per_update(1001), 1);
    assert_eq!(rounds_per_update(usize::MAX), 1);
}

#[test]
fn run_without_mappings_is_declined() {
    let start = RunEvent::Start { mapping_count: 0, total_rounds: 4000 };
    assert_eq!(next_step(RunState::Idle, start), (RunState::Declined, RunAction::Stop));
}

#[test]
fn run_asks_for_one_round_at_each_look() {
    let start = RunEvent::Start { mapping_count: 1, total_rounds: 4000 };
    let look = RunEvent::Look { cancel: false };
    let (s0, a0) = next_step(RunState::Idle, start);
    assert_eq!(s0, RunState::Running { batch: 1000, total_rounds: 4000, rounds_done: 0 });
    assert_eq!(a0, RunAction::Report);
    let (s1, a1) = next_step(s0, look);
    assert_eq!(s1, RunState::Running { batch: 1000, total_rounds: 4000, rounds_done: 1 });
    assert_eq!(a1, RunAction::Round { rounds_before: 0, publish: false });
    let (s2, a2) = next_step(s1, look);
    assert_eq!(s2, RunState::Running { batch: 1000, total_rounds: 4000, rounds_done: 2 });
    assert_eq!(a2, RunAction::Round { rounds_before: 1, publish: false });
}

#[test]
fn run_publishes_when_a_batch_is_full() {
    let start = RunEvent::Start { mapping_count: 3, total_rounds: 1000 };
    let look = RunEvent::Look { cancel: false };
    let (mut state, mut action) = next_step(RunState::Idle, start);
    assert_eq!(state, RunState::Running { batch: 333, total_rounds: 1000, rounds_done: 0 });
    assert_eq!(action, RunAction::Report);
    let mut rounds: usize = 0;
    let mut published: Vec<usize> = Vec::new();
    loop {
        let next = next_step(state, look);
        state = next.0;
        action = next.1;
        match action {
            RunAction::Round { rounds_before, publish } => {
                assert_eq!(rounds_before, rounds);
                rounds += 1;
                if publish {
                    published.push(rounds);
                }
            }
            _ => break,
        }
    }
    // One round of the thousand is left over: no whole batch.
    assert_eq!(rounds, 999);
    assert_eq!(published, vec![333, 666, 999]);
    assert_eq!((state, action), (RunState::Finished, RunAction::Stop));
}

#[test]
fn run_of_fewer_rounds_than_a_batch_makes_none() {
    let start = RunEvent::Start { mapping_count: 1, total_rounds: 999 };
    let (s0, a0) = next_step(RunState::Idle, start);
    assert_eq!(a0, RunAction::Report);
    assert_eq!(
        next_step(s0, RunEvent::Look { cancel: false }),
        (RunState::Finished, RunAction::Stop)
    );
}

#[test]
fn run_is_given_up_between_any_two_rounds() {
    let start = RunEvent::Start { mapping_count: 2, total_rounds: 4000 };
    let give_up = RunEvent::Look { cancel: true };
    let look = RunEvent::Look { cancel: false };
    let (s0, _) = next_step(RunState::Idle, start);
    // Before the first round.
    assert_eq!(next_step(s0, give_up), (RunState::Cancelled, RunAction::Stop));
    // After one round, in the middle of a batch.
    let (s1, a1) = next_step(s0, look);
    assert_eq!(a1, RunAction::Round { rounds_before: 0, publish: false });
    assert_eq!(next_step(s1, give_up), (RunState::Cancelled, RunAction::Stop));
    // After any number of rounds.
    let mut state = s1;
    for _ in 0..737 {
        state = next_step(state, look).0;
    }
    assert_eq!(state, RunState::Running { batch: 500, total_rounds: 4000, rounds_done: 738 });
    assert_eq!(next_step(state, give_up), (RunState::Cancelled, RunAction::Stop));
    // And before the round that would be the last.
    let last = RunState::Running { batch: 500, total_rounds: 4000, rounds_done: 3999 };
    assert_eq!(next_step(last, give_up), (RunState::Cancelled, RunAction::Stop));
    assert_eq!(
        next_step(last, look),
        (
            RunState::Running { batch: 500, total_rounds: 4000, rounds_done: 4000 },
            RunAction::Round { rounds_before: 3999, publish: true }
        )
    );
}

#[test]
fn run_that_is_over_stays_over() {
    let look = RunEvent::Look { cancel: false };
    let start = RunEvent::Start { mapping_count: 2, total_rounds: 4000 };
    for state in [RunState::Declined, RunState::Finished, RunState::Cancelled] {
        assert_eq!(next_step(state, look), (state, RunAction::Stop));
        assert_eq!(next_step(state, start), (state, RunAction::Stop));
    }
    assert_eq!(next_step(RunState::Idle, look), (RunState::Idle, RunAction::Stop));
    let running = RunState::Running { batch: 5, total_rounds: 20, rounds_done: 5 };
    assert_eq!(next_step(running, start), (running, RunAction::Stop));
    // A state that no start gives is finished rather than followed.
    let broken = RunState::Running { batch: 0, total_rounds: 20, rounds_done: 5 };
    assert_eq!(next_step(broken, look), (RunState::Finished, RunAction::Stop));
    let past = RunState::Running { batch: 5, total_rounds: 20, rounds_done: usize::MAX };
    assert_eq!(next_step(past, look), (RunState::Finished, RunAction::Stop));
}
