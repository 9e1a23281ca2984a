//! Random playouts: the match played on from a snapshot by two players who
//! pick their actions at random, until it is over.
//!
//! In a playout both players move. On each day the searching player picks
//! one of the actions offered in the snapshot, the opponent then picks one
//! of the actions that are legal for it, and the next day begins.

use crate::action::Action;
use crate::eval::{evaluate, outcome, BEST_OUTCOME};
use crate::random::choose_action;
use crate::rules::{
    applicable, apply_action, effect, legal, legal_actions, lemma_legal_is_applicable, new_day,
    start_next_day, state_fits,
};
use crate::search::{node_wf, SearchTree};
use crate::state::{GameState, Snapshot, FINAL_DAY};
use rand::rngs::StdRng;
use vstd::prelude::*;

verus! {

/// The snapshot after a day on which the searching player chose `mine` and
/// the opponent then chose `theirs`.
pub open spec fn day_played(s: Snapshot, mine: Action, theirs: Action) -> Snapshot {
    new_day(effect(effect(s, mine, true), theirs, false))
}

/// Whether `next` can follow `s` after one day of a playout: the searching
/// player chose one of the actions offered in `s`, and the opponent one of
/// the actions that were legal for it then.
pub open spec fn one_day(s: Snapshot, next: Snapshot) -> bool {
    &&& s.day < FINAL_DAY
    &&& exists|mine: Action, theirs: Action|
        {
            &&& s.action_list.contains(mine)
            &&& legal(effect(s, mine, true), theirs, false)
            &&& next == #[trigger] day_played(s, mine, theirs)
        }
}

/// Whether a playout can lead from `s` to `end` in `days` days.
pub open spec fn reaches(s: Snapshot, end: Snapshot, days: nat) -> bool
    decreases days,
{
    if days == 0 {
        s == end
    } else {
        exists|before: Snapshot|
            reaches(s, before, (days - 1) as nat) && #[trigger] one_day(before, end)
    }
}

/// Whether a playout ends at `s`: the match is over, or the searching player
/// is offered no action.
pub open spec fn played_out(s: Snapshot) -> bool {
    s.day >= FINAL_DAY || s.action_list.len() == 0
}

/// Plays one day: the searching player's action, the opponent's, and the
/// start of the next day.
pub fn play_day(state: &mut GameState, mine: Action, theirs: Action)
    requires
        old(state).wf(),
        old(state)@.day < FINAL_DAY,
        applicable(old(state)@, mine, true),
        applicable(effect(old(state)@, mine, true), theirs, false),
    ensures
        final(state)@ == day_played(old(state)@, mine, theirs),
        state_fits(final(state)@),
        final(state)@.day == old(state)@.day + 1,
{
    apply_action(state, mine, true);
    apply_action(state, theirs, false);
    start_next_day(state);
    proof {
        let s = state@;
        assert forall|j: int| 0 <= j < s.action_list.len() implies applicable(
            s,
            #[trigger] s.action_list[j],
            true,
        ) by {
            lemma_legal_is_applicable(s, s.action_list[j], true);
        }
    }
}

/// Plays one day with actions picked at random, if the searching player is
/// offered any action; reports whether a day was played.
pub fn rollout_policy(state: &mut GameState, rng: &mut StdRng) -> (moved: bool)
    requires
        state_fits(old(state)@),
        old(state)@.day < FINAL_DAY,
    ensures
        state_fits(final(state)@),
        moved <==> old(state)@.action_list.len() > 0,
        moved ==> one_day(old(state)@, final(state)@),
        moved ==> final(state)@.day == old(state)@.day + 1,
        !moved ==> final(state)@ == old(state)@,
{
    let ghost s = state@;
    let picked = choose_action(&state.action_list, rng);
    match picked {
        None => false,
        Some(mine) => {
            proof {
                let j = choose|j: int| 0 <= j < s.action_list.len() && s.action_list[j] == mine;
                assert(applicable(s, s.action_list[j], true));
            }
            let mut after = state.duplicate();
            apply_action(&mut after, mine, true);
            let replies = legal_actions(&after, false);
            assert(replies@.contains(Action::Wait));
            let reply = choose_action(&replies, rng);
            let theirs = reply.unwrap();
            proof {
                lemma_legal_is_applicable(after@, theirs, false);
            }
            play_day(state, mine, theirs);
            assert(one_day(s, state@));
            true
        },
    }
}

/// One more day extends a playout.
pub proof fn lemma_reaches_one_more(s: Snapshot, before: Snapshot, end: Snapshot, days: nat)
    requires
        reaches(s, before, days),
        one_day(before, end),
    ensures
        reaches(s, end, days + 1),
{
    assert(reaches(s, before, ((days + 1) - 1) as nat));
}

/// The outcome of a random playout from `node`: the value of a snapshot
/// that a playout can lead to and at which it ends.
pub fn rollout(tree: &SearchTree, node: usize, rng: &mut StdRng) -> (value: i64)
    requires
        tree.wf(),
        node < tree@.len(),
    ensures
        -BEST_OUTCOME <= value <= BEST_OUTCOME,
        exists|end: Snapshot, days: nat|
            #[trigger] reaches(tree@[node as int].state, end, days) && played_out(end) && value
                == outcome(end),
{
    let ghost start = tree@[node as int].state;
    assert(node_wf(tree@, node as int));
    let mut current = tree.nodes[node].state.duplicate();
    let ghost mut days: nat = 0;
    let mut moving = true;
    while moving && current.day < FINAL_DAY
        invariant
            state_fits(current@),
            reaches(start, current@, days),
            !moving ==> played_out(current@),
        decreases FINAL_DAY - current@.day, moving as int,
    {
        let ghost before = current@;
        moving = rollout_policy(&mut current, rng);
        proof {
            if moving {
                lemma_reaches_one_more(start, before, current@, days);
                days = days + 1;
            }
        }
    }
    evaluate(&current)
}

} // verus!
