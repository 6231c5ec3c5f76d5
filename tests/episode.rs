use rl_solver::blackjack::{next_state, start_state, stick_at_20_policy, State, Action};
use rl_solver::episode::play_episode;

// A walk over 0..5: stepping right from 4 ends it with reward 1, stepping
// left from 0 ends it with reward 0.
fn walk(s: &i32, right: &bool) -> (Option<i32>, i32) {
    match (*s, *right) {
        (4, true) => (None, 1),
        (0, false) => (None, 0),
        (s, true) => (Some(s + 1), 0),
        (s, false) => (Some(s - 1), 0),
    }
}

#[test]
fn always_right_walks_to_the_end() {
    let steps = play_episode(2, &|_s: &i32| true, &walk, 10).unwrap();
    assert_eq!(steps, vec![(2, true, 0), (3, true, 0), (4, true, 1)]);
}

#[test]
fn an_episode_may_use_all_its_steps() {
    let steps = play_episode(2, &|_s: &i32| false, &walk, 3).unwrap();
    assert_eq!(steps, vec![(2, false, 0), (1, false, 0), (0, false, 0)]);
}

#[test]
fn endless_episode_is_cut() {
    // Right from even states, left from odd ones: it never ends.
    let err = play_episode(2, &|s: &i32| s % 2 == 0, &walk, 50).unwrap_err();
    assert_eq!(err.steps, 50);
    assert_eq!(play_episode(2, &|_s: &i32| true, &walk, 0).unwrap_err().steps, 0);
}

#[test]
fn blackjack_episodes_end_within_bound() {
    for _ in 0..500 {
        let next = |s: &State, a: &Action| next_state(s, a);
        let steps = play_episode(start_state(), &stick_at_20_policy, &next, 22).unwrap();
        assert!(!steps.is_empty() && steps.len() <= 22);
    }
}
