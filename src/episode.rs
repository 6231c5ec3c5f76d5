//! Episodes played through callables: a policy picks each action and the
//! environment answers with the next state, or none at the end, and a reward.
use vstd::prelude::*;

verus! {

/// An episode was cut after this many steps without reaching its end.
#[derive(Clone, Copy, Debug, PartialEq, Eq, Structural)]
pub struct EpisodeOverrun {
    pub steps: usize,
}

/// `steps` follow each other from `start`: each action is one that `pick`
/// may choose in its state, and `next` led from each step to the state of the
/// step after it.
pub open spec fn is_chain<S, A, R, P: Fn(&S) -> A, N: Fn(&S, &A) -> (Option<S>, R)>(
    start: S,
    pick: P,
    next: N,
    steps: Seq<(S, A, R)>,
) -> bool {
    &&& steps.len() > 0 ==> steps[0].0 == start
    &&& forall|i: int| 0 <= i < steps.len() ==> pick.ensures((&(#[trigger] steps[i]).0,), steps[i].1)
    &&& forall|i: int|
        0 <= i < steps.len() - 1 ==> next.ensures(
            (&(#[trigger] steps[i]).0, &steps[i].1),
            (Some(steps[i + 1].0), steps[i].2),
        )
}

/// `steps` are a chain from `start` that has not ended: `next` led from its
/// last step (if any) on to `current`, where the episode stands now.
pub open spec fn is_open_chain<S, A, R, P: Fn(&S) -> A, N: Fn(&S, &A) -> (Option<S>, R)>(
    start: S,
    pick: P,
    next: N,
    steps: Seq<(S, A, R)>,
    current: S,
) -> bool {
    &&& is_chain(start, pick, next, steps)
    &&& steps.len() == 0 ==> current == start
    &&& steps.len() > 0 ==> next.ensures(
        (&steps.last().0, &steps.last().1),
        (Some(current), steps.last().2),
    )
}

/// `steps` make a whole episode from `start`: a chain whose last step ends it.
pub open spec fn is_episode<S, A, R, P: Fn(&S) -> A, N: Fn(&S, &A) -> (Option<S>, R)>(
    start: S,
    pick: P,
    next: N,
    steps: Seq<(S, A, R)>,
) -> bool {
    &&& steps.len() > 0
    &&& is_chain(start, pick, next, steps)
    &&& next.ensures((&steps.last().0, &steps.last().1), (None::<S>, steps.last().2))
}

/// Plays one episode from `start`, at most `max_steps` steps: each step
/// records the state, the action `pick` chose in it and the reward that `next`
/// gave. An episode that has not ended after `max_steps` steps is cut.
pub fn play_episode<S, A, R, P, N>(start: S, pick: &P, next: &N, max_steps: usize) -> (r: Result<
    Vec<(S, A, R)>,
    EpisodeOverrun,
>) where P: Fn(&S) -> A, N: Fn(&S, &A) -> (Option<S>, R)
    requires
        forall|s: &S| pick.requires((s,)),
        forall|s: &S, a: &A| next.requires((s, a)),
    ensures
        r matches Ok(steps) ==> steps@.len() <= max_steps && is_episode(start, *pick, *next, steps@),
        r matches Err(e) ==> e.steps == max_steps && exists|steps: Seq<(S, A, R)>, current: S|
            steps.len() == max_steps && #[trigger] is_open_chain(start, *pick, *next, steps, current),
{
    let mut episode: Vec<(S, A, R)> = Vec::new();
    let mut state = start;
    while episode.len() < max_steps
        invariant
            forall|s: &S| pick.requires((s,)),
            forall|s: &S, a: &A| next.requires((s, a)),
            episode@.len() <= max_steps,
            is_open_chain(start, *pick, *next, episode@, state),
        decreases max_steps - episode@.len(),
    {
        let action = pick(&state);
        let outcome = next(&state, &action);
        let ghost before = episode@;
        let ghost seen = outcome;
        let (new_state, reward) = outcome;
        match new_state {
            None => {
                episode.push((state, action, reward));
                proof {
                    assert(episode@.drop_last() =~= before);
                    assert forall|i: int| 0 <= i < episode@.len() - 1 implies next.ensures(
                        (&(#[trigger] episode@[i]).0, &episode@[i].1),
                        (Some(episode@[i + 1].0), episode@[i].2),
                    ) by {
                        assert(episode@[i] == before[i]);
                        if i < before.len() - 1 {
                            assert(episode@[i + 1] == before[i + 1]);
                        }
                    }
                }
                return Ok(episode);
            },
            Some(s) => {
                episode.push((state, action, reward));
                state = s;
                proof {
                    assert forall|i: int| 0 <= i < episode@.len() - 1 implies next.ensures(
                        (&(#[trigger] episode@[i]).0, &episode@[i].1),
                        (Some(episode@[i + 1].0), episode@[i].2),
                    ) by {
                        assert(episode@[i] == before[i]);
                        if i < before.len() - 1 {
                            assert(episode@[i + 1] == before[i + 1]);
                        }
                    }
                }
            },
        }
    }
    assert(is_open_chain(start, *pick, *next, episode@, state));
    Err(EpisodeOverrun { steps: max_steps })
}

} // verus!
