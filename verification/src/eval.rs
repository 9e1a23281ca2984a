//! How good a snapshot is for the searching player.

use crate::state::{GameState, Snapshot, Tree};
use vstd::prelude::*;

verus! {

/// The best outcome a snapshot can have; the worst is its negative.
pub const BEST_OUTCOME: i64 = 1000;

/// A lead of more than this many thirds of a point is a clear lead.
pub const CLEAR_LEAD: i64 = 15;

/// What a player holds, in thirds of a point: the score, and a third of a
/// point for each sun not yet spent.
pub open spec fn holdings(score: int, sun: int) -> int {
    3 * score + sun
}

/// By how many thirds of a point the searching player leads.
pub open spec fn lead(s: Snapshot) -> int {
    holdings(s.score, s.sun) - holdings(s.op_score, s.op_sun)
}

/// Number of trees of the player among the first `k`.
pub open spec fn trees_of(forest: Seq<Tree>, mine: bool, k: int) -> int
    decreases k,
{
    if k <= 0 {
        0
    } else {
        trees_of(forest, mine, k - 1) + if forest[k - 1].is_mine == mine {
            1int
        } else {
            0int
        }
    }
}

/// 1, 0 or -1 as `x` is above, at or below zero.
pub open spec fn sign(x: int) -> int {
    if x > 0 {
        1
    } else if x < 0 {
        -1
    } else {
        0
    }
}

/// The outcome for a player who leads by `ahead` thirds of a point, `ahead`
/// being positive: a narrow lead counts 50 for each third, up to 750; a clear
/// lead counts 900 and one more for each third beyond, up to 1000.
pub open spec fn lead_value(ahead: int) -> int {
    if ahead > CLEAR_LEAD {
        if ahead - CLEAR_LEAD >= 100 {
            1000
        } else {
            900 + (ahead - CLEAR_LEAD)
        }
    } else {
        50 * ahead
    }
}

/// The outcome of a snapshot for the searching player, from -1000 to 1000.
/// It goes by the lead; where nobody leads, by who has more trees standing
/// (20), and then by who has the higher score (10).
pub open spec fn outcome(s: Snapshot) -> int {
    let ahead = lead(s);
    let n = s.forest.len() as int;
    let more_trees = trees_of(s.forest, true, n) - trees_of(s.forest, false, n);
    if ahead > 0 {
        lead_value(ahead)
    } else if ahead < 0 {
        -lead_value(-ahead)
    } else if more_trees != 0 {
        20 * sign(more_trees)
    } else {
        10 * sign(s.score - s.op_score)
    }
}

/// A larger lead never has a smaller value, and no lead has a value above
/// the best outcome.
pub proof fn lemma_lead_value_monotonic(a: int, b: int)
    requires
        0 < a <= b,
    ensures
        0 < lead_value(a) <= lead_value(b) <= BEST_OUTCOME,
{
}

/// Number of trees of the player.
pub fn count_trees(forest: &Vec<Tree>, mine: bool) -> (n: usize)
    ensures
        n == trees_of(forest@, mine, forest@.len() as int),
        n <= forest@.len(),
{
    let mut n: usize = 0;
    let mut i: usize = 0;
    while i < forest.len()
        invariant
            i <= forest.len(),
            n <= i,
            n == trees_of(forest@, mine, i as int),
        decreases forest.len() - i,
    {
        if forest[i].is_mine == mine {
            n += 1;
        }
        i += 1;
    }
    n
}

/// The outcome of a snapshot for the searching player.
pub fn evaluate(state: &GameState) -> (value: i64)
    requires
        state.wf(),
    ensures
        value == outcome(state@),
        -BEST_OUTCOME <= value <= BEST_OUTCOME,
{
    let ahead: i64 = (3 * state.score + state.sun) - (3 * state.op_score + state.op_sun);
    if ahead > 0 {
        lead_value_of(ahead)
    } else if ahead < 0 {
        -lead_value_of(-ahead)
    } else {
        let mine = count_trees(&state.forest, true);
        let theirs = count_trees(&state.forest, false);
        if mine > theirs {
            20
        } else if mine < theirs {
            -20
        } else if state.score > state.op_score {
            10
        } else if state.score < state.op_score {
            -10
        } else {
            0
        }
    }
}

/// The outcome for a player who leads by `ahead` thirds of a point.
pub fn lead_value_of(ahead: i64) -> (value: i64)
    requires
        0 < ahead,
    ensures
        value == lead_value(ahead as int),
        0 < value <= BEST_OUTCOME,
{
    if ahead > CLEAR_LEAD {
        if ahead - CLEAR_LEAD >= 100 {
            1000
        } else {
            900 + (ahead - CLEAR_LEAD)
        }
    } else {
        50 * ahead
    }
}

} // verus!
