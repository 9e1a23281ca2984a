//! The rules of the game: what each action costs and changes, and how one
//! snapshot follows from another.

use crate::action::Action;
use crate::board::{link, Cell, OFF_BOARD};
use crate::shadow::{get_is_shadowed, is_shadowed};
use crate::state::{
    find_tree, forest_fits, lemma_forest_size, lemma_position_unique, occupied, position_of,
    resources_within, snapshot_wf, structure_wf, GameState, Snapshot, Tree, FINAL_DAY, MAX_SIZE,
};
use vstd::prelude::*;

verus! {

/// Sun paid for throwing a seed. The price does not rise with the number of
/// seeds the player already has on the board.
pub const SEED_COST: i64 = 4;

/// Sun paid for harvesting a tree.
pub const COMPLETE_COST: i64 = 4;

/// Sun paid for growing a tree to size `size`.
pub open spec fn grow_cost(size: int) -> int {
    if size <= 1 {
        1
    } else if size == 2 {
        3
    } else {
        7
    }
}

/// Points that the soil of a harvested tree adds to the nutrient pool's.
pub open spec fn richness_bonus(richness: int) -> int {
    if richness <= 1 {
        0
    } else if richness == 2 {
        2
    } else {
        4
    }
}

/// Points earned by a harvest: what the pool holds, if anything, and the
/// soil's bonus.
pub open spec fn harvest_value(nutrients: int, richness: int) -> int {
    (if nutrients > 0 {
        nutrients
    } else {
        0
    }) + richness_bonus(richness)
}

/// The sun of the searching player (`mine`) or of the opponent.
pub open spec fn sun_of(s: Snapshot, mine: bool) -> int {
    if mine {
        s.sun
    } else {
        s.op_sun
    }
}

/// The snapshot after the player has paid `cost` sun.
pub open spec fn charge(s: Snapshot, mine: bool, cost: int) -> Snapshot {
    if mine {
        Snapshot { sun: s.sun - cost, ..s }
    } else {
        Snapshot { op_sun: s.op_sun - cost, ..s }
    }
}

/// The snapshot after the player has scored `points`.
pub open spec fn credit(s: Snapshot, mine: bool, points: int) -> Snapshot {
    if mine {
        Snapshot { score: s.score + points, ..s }
    } else {
        Snapshot { op_score: s.op_score + points, ..s }
    }
}

/// Sun that tree `t` earns its owner today: its size, unless it is in shadow
/// or belongs to the other player.
pub open spec fn tree_income(s: Snapshot, t: Tree, mine: bool) -> int {
    if t.is_mine == mine && !is_shadowed(s, t.size as int, t.cell_index as int) {
        t.size as int
    } else {
        0
    }
}

/// Sun that the first `k` trees earn the player today.
pub open spec fn income(s: Snapshot, mine: bool, k: int) -> int
    decreases k,
{
    if k <= 0 {
        0
    } else {
        income(s, mine, k - 1) + tree_income(s, s.forest[k - 1], mine)
    }
}

/// Tree `t` with its shadow flag set for today's light.
pub open spec fn lit(s: Snapshot, t: Tree) -> Tree {
    Tree { is_shadowed: is_shadowed(s, t.size as int, t.cell_index as int), ..t }
}

/// The snapshot after income is settled: each tree that is not in shadow
/// earns its owner as much sun as its size, and every tree records whether
/// it was in shadow.
pub open spec fn settle_income(s: Snapshot) -> Snapshot {
    Snapshot {
        sun: s.sun + income(s, true, s.forest.len() as int),
        op_sun: s.op_sun + income(s, false, s.forest.len() as int),
        forest: Seq::new(s.forest.len(), |i: int| lit(s, s.forest[i])),
        ..s
    }
}

/// Whether the rules can carry out the action for the player: the trees and
/// cells it names are there.
pub open spec fn applicable(s: Snapshot, a: Action, mine: bool) -> bool {
    match a {
        Action::Wait => true,
        Action::Grow(c) => {
            &&& occupied(s.forest, c as int)
            &&& s.forest[position_of(s.forest, c as int)].is_mine == mine
            &&& s.forest[position_of(s.forest, c as int)].size < MAX_SIZE
        },
        Action::Seed(src, dst) => {
            &&& occupied(s.forest, src as int)
            &&& s.forest[position_of(s.forest, src as int)].is_mine == mine
            &&& 0 <= dst < s.area.len()
            &&& !occupied(s.forest, dst as int)
        },
        Action::Complete(c) => {
            &&& occupied(s.forest, c as int)
            &&& s.forest[position_of(s.forest, c as int)].is_mine == mine
            &&& s.forest[position_of(s.forest, c as int)].size == MAX_SIZE
        },
    }
}

/// What the action changes within the day.
///
/// Waiting settles the income of both players when the searching player
/// waits, and only marks the opponent as waiting when the opponent does.
/// Growing makes the tree one size larger and dormant. Seeding puts a dormant
/// seed on the target cell and makes the source tree dormant. Harvesting
/// removes the tree, scores the pool's value and the soil's bonus, and takes
/// one from the pool. Each action but waiting is paid for in sun.
pub open spec fn effect(s: Snapshot, a: Action, mine: bool) -> Snapshot {
    match a {
        Action::Wait => if mine {
            settle_income(s)
        } else {
            Snapshot { op_is_waiting: true, ..s }
        },
        Action::Grow(c) => {
            let i = position_of(s.forest, c as int);
            let t = s.forest[i];
            let grown = Tree { size: (t.size + 1) as i32, is_dormant: true, ..t };
            charge(Snapshot { forest: s.forest.update(i, grown), ..s }, mine, grow_cost(t.size + 1))
        },
        Action::Seed(src, dst) => {
            let i = position_of(s.forest, src as int);
            let rested = Tree { is_dormant: true, ..s.forest[i] };
            let seed = Tree {
                cell_index: dst,
                size: 0,
                is_mine: mine,
                is_dormant: true,
                is_shadowed: false,
            };
            charge(
                Snapshot { forest: s.forest.update(i, rested).push(seed), ..s },
                mine,
                SEED_COST as int,
            )
        },
        Action::Complete(c) => {
            let i = position_of(s.forest, c as int);
            let points = harvest_value(s.nutrients, s.area[c as int].richness as int);
            credit(
                charge(
                    Snapshot { forest: s.forest.remove(i), nutrients: s.nutrients - 1, ..s },
                    mine,
                    COMPLETE_COST as int,
                ),
                mine,
                points,
            )
        },
    }
}

/// Sun paid for growing a tree to size `size`.
pub fn grow_cost_of(size: i32) -> (cost: i64)
    ensures
        cost == grow_cost(size as int),
        1 <= cost <= 7,
{
    if size <= 1 {
        1
    } else if size == 2 {
        3
    } else {
        7
    }
}

/// Points earned by harvesting a tree on soil of tier `richness` while the
/// pool holds `nutrients`.
pub fn harvest_value_of(nutrients: i64, richness: i32) -> (points: i64)
    requires
        nutrients <= i32::MAX,
    ensures
        points == harvest_value(nutrients as int, richness as int),
        0 <= points <= i32::MAX + 4,
{
    let base: i64 = if nutrients > 0 {
        nutrients
    } else {
        0
    };
    let bonus: i64 = if richness <= 1 {
        0
    } else if richness == 2 {
        2
    } else {
        4
    };
    base + bonus
}

/// Whether the rules can carry out the action for the player.
pub fn is_applicable(state: &GameState, action: Action, mine: bool) -> (ok: bool)
    requires
        structure_wf(state@),
    ensures
        ok == applicable(state@, action, mine),
{
    match action {
        Action::Wait => true,
        Action::Grow(c) => match find_tree(&state.forest, c) {
            Some(i) => {
                proof {
                    lemma_position_unique(state@.area.len() as int, state@.forest, i as int);
                }
                state.forest[i].is_mine == mine && state.forest[i].size < MAX_SIZE
            },
            None => false,
        },
        Action::Seed(src, dst) => match find_tree(&state.forest, src) {
            Some(i) => {
                proof {
                    lemma_position_unique(state@.area.len() as int, state@.forest, i as int);
                }
                state.forest[i].is_mine == mine && 0 <= dst && (dst as usize) < state.area.len()
                    && find_tree(&state.forest, dst).is_none()
            },
            None => false,
        },
        Action::Complete(c) => match find_tree(&state.forest, c) {
            Some(i) => {
                proof {
                    lemma_position_unique(state@.area.len() as int, state@.forest, i as int);
                }
                state.forest[i].is_mine == mine && state.forest[i].size == MAX_SIZE
            },
            None => false,
        },
    }
}

/// Settles the income of both players for today's light.
pub fn settle(state: &mut GameState)
    requires
        structure_wf(old(state)@),
        resources_within(old(state)@, 2 * old(state)@.day),
    ensures
        final(state)@ == settle_income(old(state)@),
        structure_wf(final(state)@),
        resources_within(final(state)@, 2 * old(state)@.day + 1),
{
    let ghost s = state@;
    let mut forest: Vec<Tree> = Vec::new();
    let mut gain: i64 = 0;
    let mut op_gain: i64 = 0;
    let mut i: usize = 0;
    proof {
        lemma_forest_size(s.area.len() as int, s.forest);
    }
    while i < state.forest.len()
        invariant
            state@ == s,
            structure_wf(s),
            i <= s.forest.len() <= s.area.len() <= i32::MAX,
            forest@.len() == i,
            forall|j: int| 0 <= j < i ==> forest@[j] == lit(s, #[trigger] s.forest[j]),
            gain == income(s, true, i as int),
            op_gain == income(s, false, i as int),
            0 <= gain <= 3 * i,
            0 <= op_gain <= 3 * i,
        decreases s.forest.len() - i,
    {
        let t = state.forest[i];
        let shadowed = get_is_shadowed(state, t.size, t.cell_index);
        if !shadowed {
            if t.is_mine {
                gain = gain + t.size as i64;
            } else {
                op_gain = op_gain + t.size as i64;
            }
        }
        forest.push(
            Tree {
                cell_index: t.cell_index,
                size: t.size,
                is_mine: t.is_mine,
                is_dormant: t.is_dormant,
                is_shadowed: shadowed,
            },
        );
        i += 1;
    }
    assert(forest@ =~= Seq::new(s.forest.len(), |j: int| lit(s, s.forest[j])));
    state.sun = state.sun + gain;
    state.op_sun = state.op_sun + op_gain;
    state.forest = forest;
}

/// Carries out one action of a player within the day. The searching player
/// moves first in a day, the opponent second.
pub fn apply_action(state: &mut GameState, action: Action, mine: bool)
    requires
        structure_wf(old(state)@),
        resources_within(
            old(state)@,
            2 * old(state)@.day + if mine {
                0int
            } else {
                1int
            },
        ),
        applicable(old(state)@, action, mine),
    ensures
        final(state)@ == effect(old(state)@, action, mine),
        structure_wf(final(state)@),
        resources_within(
            final(state)@,
            2 * old(state)@.day + if mine {
                1int
            } else {
                2int
            },
        ),
{
    let ghost s = state@;
    match action {
        Action::Wait => {
            if mine {
                settle(state);
            } else {
                state.op_is_waiting = true;
            }
        },
        Action::Grow(c) => {
            let found = find_tree(&state.forest, c);
            let i = found.unwrap();
            proof {
                lemma_position_unique(s.area.len() as int, s.forest, i as int);
            }
            let t = state.forest[i];
            let cost = grow_cost_of(t.size + 1);
            state.forest.set(
                i,
                Tree {
                    cell_index: t.cell_index,
                    size: t.size + 1,
                    is_mine: t.is_mine,
                    is_dormant: true,
                    is_shadowed: t.is_shadowed,
                },
            );
            if mine {
                state.sun = state.sun - cost;
            } else {
                state.op_sun = state.op_sun - cost;
            }
        },
        Action::Seed(src, dst) => {
            let found = find_tree(&state.forest, src);
            let i = found.unwrap();
            proof {
                lemma_position_unique(s.area.len() as int, s.forest, i as int);
            }
            let t = state.forest[i];
            state.forest.set(
                i,
                Tree {
                    cell_index: t.cell_index,
                    size: t.size,
                    is_mine: t.is_mine,
                    is_dormant: true,
                    is_shadowed: t.is_shadowed,
                },
            );
            state.forest.push(
                Tree {
                    cell_index: dst,
                    size: 0,
                    is_mine: mine,
                    is_dormant: true,
                    is_shadowed: false,
                },
            );
            if mine {
                state.sun = state.sun - SEED_COST;
            } else {
                state.op_sun = state.op_sun - SEED_COST;
            }
        },
        Action::Complete(c) => {
            let found = find_tree(&state.forest, c);
            let i = found.unwrap();
            proof {
                lemma_position_unique(s.area.len() as int, s.forest, i as int);
            }
            let points = harvest_value_of(state.nutrients, state.area.richness(c));
            state.forest.remove(i);
            state.nutrients = state.nutrients - 1;
            if mine {
                state.sun = state.sun - COMPLETE_COST;
                state.score = state.score + points;
            } else {
                state.op_sun = state.op_sun - COMPLETE_COST;
                state.op_score = state.op_score + points;
            }
        },
    }
}

/// Whether `to` lies within `hops` links of `from`.
pub open spec fn reachable(area: Seq<Cell>, from: int, to: int, hops: int) -> bool
    decreases hops,
{
    if hops < 0 {
        false
    } else if from == to {
        true
    } else if hops == 0 {
        false
    } else {
        exists|d: int|
            0 <= d < 6 && #[trigger] link(area, from, d) != OFF_BOARD && reachable(
                area,
                link(area, from, d),
                to,
                hops - 1,
            )
    }
}

/// Whether the player may choose the action: the rules can carry it out, the
/// tree that acts is awake, and the player has the sun it costs. A seed is
/// thrown by a tree onto a free cell with usable soil that lies no more
/// links away than the tree is tall.
pub open spec fn legal(s: Snapshot, a: Action, mine: bool) -> bool {
    match a {
        Action::Wait => true,
        Action::Grow(c) => {
            let t = s.forest[position_of(s.forest, c as int)];
            &&& occupied(s.forest, c as int)
            &&& t.is_mine == mine
            &&& !t.is_dormant
            &&& t.size < MAX_SIZE
            &&& sun_of(s, mine) >= grow_cost(t.size + 1)
        },
        Action::Seed(src, dst) => {
            let t = s.forest[position_of(s.forest, src as int)];
            &&& occupied(s.forest, src as int)
            &&& t.is_mine == mine
            &&& !t.is_dormant
            &&& 0 <= dst < s.area.len()
            &&& s.area[dst as int].richness > 0
            &&& !occupied(s.forest, dst as int)
            &&& reachable(s.area, src as int, dst as int, t.size as int)
            &&& sun_of(s, mine) >= SEED_COST
        },
        Action::Complete(c) => {
            let t = s.forest[position_of(s.forest, c as int)];
            &&& occupied(s.forest, c as int)
            &&& t.is_mine == mine
            &&& !t.is_dormant
            &&& t.size == MAX_SIZE
            &&& sun_of(s, mine) >= COMPLETE_COST
        },
    }
}

/// The snapshot is fit to search from: it is well formed, and the rules can
/// carry out each of the actions it offers.
pub open spec fn state_fits(s: Snapshot) -> bool {
    &&& snapshot_wf(s)
    &&& forall|j: int|
        0 <= j < s.action_list.len() ==> applicable(s, #[trigger] s.action_list[j], true)
}

/// What a player may choose can be carried out.
pub proof fn lemma_legal_is_applicable(s: Snapshot, a: Action, mine: bool)
    requires
        legal(s, a, mine),
    ensures
        applicable(s, a, mine),
{
}

/// Whether `to` lies within `hops` links of `from`.
pub fn can_reach(state: &GameState, from: i32, to: i32, hops: i32) -> (ok: bool)
    requires
        structure_wf(state@),
        0 <= from < state@.area.len(),
    ensures
        ok == reachable(state@.area, from as int, to as int, hops as int),
    decreases hops,
{
    if hops < 0 {
        return false;
    }
    if from == to {
        return true;
    }
    if hops == 0 {
        return false;
    }
    let mut d: usize = 0;
    while d < 6
        invariant
            d <= 6,
            hops > 0,
            from != to,
            structure_wf(state@),
            0 <= from < state@.area.len(),
            forall|e: int|
                0 <= e < d ==> !(#[trigger] link(state@.area, from as int, e) != OFF_BOARD
                    && reachable(
                    state@.area,
                    link(state@.area, from as int, e),
                    to as int,
                    hops - 1,
                )),
        decreases 6 - d,
    {
        let next = state.area.neighbor(from, d);
        if next != OFF_BOARD && can_reach(state, next, to, hops - 1) {
            return true;
        }
        d += 1;
    }
    false
}

/// Whether the snapshot is fit to search from.
pub fn is_fit(state: &GameState) -> (fit: bool)
    ensures
        fit == state_fits(state@),
{
    if !state.is_well_formed() {
        return false;
    }
    let mut j: usize = 0;
    while j < state.action_list.len()
        invariant
            state.wf(),
            j <= state@.action_list.len(),
            forall|l: int|
                0 <= l < j ==> applicable(state@, #[trigger] state@.action_list[l], true),
        decreases state@.action_list.len() - j,
    {
        if !is_applicable(state, state.action_list[j], true) {
            return false;
        }
        j += 1;
    }
    true
}

/// Whether the player may choose the action.
pub fn is_legal(state: &GameState, action: Action, mine: bool) -> (ok: bool)
    requires
        structure_wf(state@),
    ensures
        ok == legal(state@, action, mine),
{
    let sun = if mine {
        state.sun
    } else {
        state.op_sun
    };
    match action {
        Action::Wait => true,
        Action::Grow(c) => match find_tree(&state.forest, c) {
            Some(i) => {
                proof {
                    lemma_position_unique(state@.area.len() as int, state@.forest, i as int);
                }
                let t = state.forest[i];
                t.is_mine == mine && !t.is_dormant && t.size < MAX_SIZE && sun >= grow_cost_of(
                    t.size + 1,
                )
            },
            None => false,
        },
        Action::Seed(src, dst) => match find_tree(&state.forest, src) {
            Some(i) => {
                proof {
                    lemma_position_unique(state@.area.len() as int, state@.forest, i as int);
                }
                let t = state.forest[i];
                t.is_mine == mine && !t.is_dormant && 0 <= dst && (dst as usize)
                    < state.area.len() && state.area.richness(dst) > 0 && find_tree(
                    &state.forest,
                    dst,
                ).is_none() && can_reach(state, src, dst, t.size) && sun >= SEED_COST
            },
            None => false,
        },
        Action::Complete(c) => match find_tree(&state.forest, c) {
            Some(i) => {
                proof {
                    lemma_position_unique(state@.area.len() as int, state@.forest, i as int);
                }
                let t = state.forest[i];
                t.is_mine == mine && !t.is_dormant && t.size == MAX_SIZE && sun >= COMPLETE_COST
            },
            None => false,
        },
    }
}

/// `list` with `a` added at its end if the player may choose it.
pub open spec fn offer(list: Seq<Action>, s: Snapshot, a: Action, mine: bool) -> Seq<Action> {
    if legal(s, a, mine) {
        list.push(a)
    } else {
        list
    }
}

/// `list` followed by the seeds that the tree on `src` may throw onto the
/// cells before `upto`, by rising target cell.
pub open spec fn with_seeds(list: Seq<Action>, s: Snapshot, mine: bool, src: i32, upto: int) -> Seq<
    Action,
>
    decreases upto,
{
    if upto <= 0 {
        list
    } else {
        offer(with_seeds(list, s, mine, src, upto - 1), s, Action::Seed(src, (upto - 1) as i32), mine)
    }
}

/// `list` followed by what tree `i` may do: be harvested, grow, throw seeds.
pub open spec fn with_tree(list: Seq<Action>, s: Snapshot, mine: bool, i: int) -> Seq<Action> {
    let c = s.forest[i].cell_index;
    with_seeds(
        offer(offer(list, s, Action::Complete(c), mine), s, Action::Grow(c), mine),
        s,
        mine,
        c,
        s.area.len() as int,
    )
}

/// Waiting, followed by what the first `k` trees may do.
pub open spec fn actions_upto(s: Snapshot, mine: bool, k: int) -> Seq<Action>
    decreases k,
{
    if k <= 0 {
        seq![Action::Wait]
    } else {
        with_tree(actions_upto(s, mine, k - 1), s, mine, k - 1)
    }
}

/// The actions that the player may choose, in the order in which they are
/// offered: waiting first, then tree by tree.
pub open spec fn legal_action_list(s: Snapshot, mine: bool) -> Seq<Action> {
    actions_upto(s, mine, s.forest.len() as int)
}

/// Whether the action is one of the tree on cell `c`.
pub open spec fn acts_from(a: Action, c: i32) -> bool {
    match a {
        Action::Grow(x) => x == c,
        Action::Seed(x, _) => x == c,
        Action::Complete(x) => x == c,
        Action::Wait => false,
    }
}

/// Whether the action is a seed thrown from `src` onto a cell before `upto`.
pub open spec fn seeds_before(a: Action, src: i32, upto: int) -> bool {
    match a {
        Action::Seed(x, t) => x == src && 0 <= t < upto,
        _ => false,
    }
}

proof fn lemma_push_fresh(list: Seq<Action>, a: Action)
    requires
        list.no_duplicates(),
        !list.contains(a),
    ensures
        list.push(a).no_duplicates(),
{
    let r = list.push(a);
    assert forall|i: int, j: int| 0 <= i < r.len() && 0 <= j < r.len() && i != j implies r[i]
        != r[j] by {
        if i < list.len() && j < list.len() {
        } else if i < list.len() {
            assert(list.contains(list[i]));
        } else {
            assert(list.contains(list[j]));
        }
    }
}

proof fn lemma_with_seeds(list: Seq<Action>, s: Snapshot, mine: bool, src: i32, upto: int)
    requires
        0 <= upto <= i32::MAX,
    ensures
        forall|a: Action|
            #[trigger] with_seeds(list, s, mine, src, upto).contains(a) <==> list.contains(a) || (
            seeds_before(a, src, upto) && legal(s, a, mine)),
        list.no_duplicates() && (forall|a: Action| #[trigger]
            list.contains(a) ==> !seeds_before(a, src, upto)) ==> with_seeds(
            list,
            s,
            mine,
            src,
            upto,
        ).no_duplicates(),
    decreases upto,
{
    broadcast use vstd::seq_lib::lemma_seq_contains_after_push;

    if upto > 0 {
        lemma_with_seeds(list, s, mine, src, upto - 1);
        let rest = with_seeds(list, s, mine, src, upto - 1);
        let a0 = Action::Seed(src, (upto - 1) as i32);
        let r = with_seeds(list, s, mine, src, upto);
        assert(r == offer(rest, s, a0, mine));
        assert forall|a: Action| #[trigger] r.contains(a) <==> list.contains(a) || (seeds_before(
            a,
            src,
            upto,
        ) && legal(s, a, mine)) by {
            assert(rest.contains(a) <==> list.contains(a) || (seeds_before(a, src, upto - 1)
                && legal(s, a, mine)));
            if legal(s, a0, mine) {
                assert(rest.push(a0).contains(a) <==> a0 == a || rest.contains(a));
            }
        }
        if list.no_duplicates() && (forall|a: Action| #[trigger]
            list.contains(a) ==> !seeds_before(a, src, upto)) {
            assert forall|a: Action| #[trigger] list.contains(a) implies !seeds_before(
                a,
                src,
                upto - 1,
            ) by {
                assert(!seeds_before(a, src, upto));
            }
            assert(rest.no_duplicates());
            if legal(s, a0, mine) {
                assert(!rest.contains(a0)) by {
                    assert(!seeds_before(a0, src, upto - 1));
                    if list.contains(a0) {
                        assert(!seeds_before(a0, src, upto));
                    }
                }
                lemma_push_fresh(rest, a0);
            }
        }
    }
}

proof fn lemma_with_tree(list: Seq<Action>, s: Snapshot, mine: bool, i: int)
    requires
        structure_wf(s),
        0 <= i < s.forest.len(),
    ensures
        forall|a: Action|
            #[trigger] with_tree(list, s, mine, i).contains(a) <==> list.contains(a) || (acts_from(
                a,
                s.forest[i].cell_index,
            ) && legal(s, a, mine)),
        list.no_duplicates() && (forall|a: Action| #[trigger]
            list.contains(a) ==> !acts_from(a, s.forest[i].cell_index)) ==> with_tree(
            list,
            s,
            mine,
            i,
        ).no_duplicates(),
{
    broadcast use vstd::seq_lib::lemma_seq_contains_after_push;

    let c = s.forest[i].cell_index;
    let n = s.area.len() as int;
    let harvest = Action::Complete(c);
    let grow = Action::Grow(c);
    let l1 = offer(list, s, harvest, mine);
    let l2 = offer(l1, s, grow, mine);
    let r = with_tree(list, s, mine, i);
    lemma_with_seeds(l2, s, mine, c, n);
    assert forall|a: Action| #[trigger] l2.contains(a) <==> list.contains(a) || ((a == harvest || a
        == grow) && legal(s, a, mine)) by {
        if legal(s, harvest, mine) {
            assert(list.push(harvest).contains(a) <==> harvest == a || list.contains(a));
        }
        if legal(s, grow, mine) {
            assert(l1.push(grow).contains(a) <==> grow == a || l1.contains(a));
        }
    }
    assert forall|a: Action| #[trigger] r.contains(a) <==> list.contains(a) || (acts_from(a, c)
        && legal(s, a, mine)) by {
        assert(r.contains(a) <==> l2.contains(a) || (seeds_before(a, c, n) && legal(s, a, mine)));
    }
    if list.no_duplicates() && (forall|a: Action| #[trigger]
        list.contains(a) ==> !acts_from(a, c)) {
        if legal(s, harvest, mine) {
            assert(!list.contains(harvest)) by {
                if list.contains(harvest) {
                    assert(!acts_from(harvest, c));
                }
            }
            lemma_push_fresh(list, harvest);
        }
        assert(l1.no_duplicates());
        if legal(s, grow, mine) {
            assert(!l1.contains(grow)) by {
                if list.contains(grow) {
                    assert(!acts_from(grow, c));
                }
            }
            lemma_push_fresh(l1, grow);
        }
        assert(l2.no_duplicates());
        assert forall|a: Action| #[trigger] l2.contains(a) implies !seeds_before(a, c, n) by {
            if list.contains(a) {
                assert(!acts_from(a, c));
            }
        }
    }
}

/// Whether the action is one of a tree among the first `k`.
pub open spec fn acts_among(s: Snapshot, a: Action, k: int) -> bool {
    exists|i: int| 0 <= i < k && acts_from(a, (#[trigger] s.forest[i]).cell_index)
}

proof fn lemma_actions_upto(s: Snapshot, mine: bool, k: int)
    requires
        structure_wf(s),
        0 <= k <= s.forest.len(),
    ensures
        forall|a: Action|
            #[trigger] actions_upto(s, mine, k).contains(a) <==> a == Action::Wait || (acts_among(
                s,
                a,
                k,
            ) && legal(s, a, mine)),
        actions_upto(s, mine, k).no_duplicates(),
    decreases k,
{
    let r = actions_upto(s, mine, k);
    if k == 0 {
        assert(r[0] == Action::Wait);
        assert forall|a: Action| #[trigger] r.contains(a) <==> a == Action::Wait by {
            if a == Action::Wait {
                assert(r[0] == a);
            }
        }
        assert forall|a: Action| !acts_among(s, a, 0) by {}
    } else {
        lemma_actions_upto(s, mine, k - 1);
        let rest = actions_upto(s, mine, k - 1);
        let c = s.forest[k - 1].cell_index;
        lemma_with_tree(rest, s, mine, k - 1);
        assert forall|a: Action| #[trigger] rest.contains(a) implies !acts_from(a, c) by {
            if acts_among(s, a, k - 1) && acts_from(a, c) {
                let i = choose|i: int|
                    0 <= i < k - 1 && acts_from(a, (#[trigger] s.forest[i]).cell_index);
                assert(s.forest[i].cell_index != s.forest[k - 1].cell_index);
            }
        }
        assert forall|a: Action| #[trigger] r.contains(a) <==> a == Action::Wait || (acts_among(
            s,
            a,
            k,
        ) && legal(s, a, mine)) by {
            assert(r.contains(a) <==> rest.contains(a) || (acts_from(a, c) && legal(s, a, mine)));
            if acts_among(s, a, k) {
                let i = choose|i: int|
                    0 <= i < k && acts_from(a, (#[trigger] s.forest[i]).cell_index);
                if i < k - 1 {
                    assert(acts_among(s, a, k - 1));
                }
            }
            if acts_from(a, c) {
                assert(acts_from(a, s.forest[k - 1].cell_index));
            }
            if acts_among(s, a, k - 1) {
                let i = choose|i: int|
                    0 <= i < k - 1 && acts_from(a, (#[trigger] s.forest[i]).cell_index);
                assert(acts_from(a, s.forest[i].cell_index));
            }
        }
    }
}

/// The list of legal actions holds each action that the player may choose,
/// once, and nothing else.
pub proof fn lemma_legal_action_list(s: Snapshot, mine: bool)
    requires
        structure_wf(s),
    ensures
        forall|a: Action| #[trigger] legal_action_list(s, mine).contains(a) <==> legal(s, a, mine),
        legal_action_list(s, mine).no_duplicates(),
        legal_action_list(s, mine).len() > 0,
        legal_action_list(s, mine)[0] == Action::Wait,
{
    let n = s.forest.len() as int;
    lemma_actions_upto(s, mine, n);
    lemma_actions_start(s, mine, n);
    assert forall|a: Action| #[trigger]
        legal_action_list(s, mine).contains(a) <==> legal(s, a, mine) by {
        if legal(s, a, mine) && a != Action::Wait {
            let c = match a {
                Action::Grow(x) => x,
                Action::Seed(x, _) => x,
                Action::Complete(x) => x,
                Action::Wait => 0,
            };
            assert(occupied(s.forest, c as int));
            let i = position_of(s.forest, c as int);
            assert(acts_from(a, s.forest[i].cell_index));
        }
    }
}

proof fn lemma_with_seeds_start(list: Seq<Action>, s: Snapshot, mine: bool, src: i32, upto: int)
    requires
        list.len() > 0,
    ensures
        with_seeds(list, s, mine, src, upto).len() >= list.len(),
        with_seeds(list, s, mine, src, upto)[0] == list[0],
    decreases upto,
{
    if upto > 0 {
        lemma_with_seeds_start(list, s, mine, src, upto - 1);
    }
}

proof fn lemma_actions_start(s: Snapshot, mine: bool, k: int)
    ensures
        actions_upto(s, mine, k).len() > 0,
        actions_upto(s, mine, k)[0] == Action::Wait,
    decreases k,
{
    if k > 0 {
        lemma_actions_start(s, mine, k - 1);
        let rest = actions_upto(s, mine, k - 1);
        let c = s.forest[k - 1].cell_index;
        let l2 = offer(offer(rest, s, Action::Complete(c), mine), s, Action::Grow(c), mine);
        lemma_with_seeds_start(l2, s, mine, c, s.area.len() as int);
    }
}

/// The actions that the player may choose: waiting first, then for each
/// tree its harvest, its growth and its seeds by rising target cell.
pub fn legal_actions(state: &GameState, mine: bool) -> (list: Vec<Action>)
    requires
        structure_wf(state@),
    ensures
        list@ == legal_action_list(state@, mine),
        forall|a: Action| #[trigger] list@.contains(a) <==> legal(state@, a, mine),
        list@.no_duplicates(),
{
    let ghost s = state@;
    let mut list: Vec<Action> = Vec::new();
    list.push(Action::Wait);
    assert(list@ =~= actions_upto(s, mine, 0));
    let cells = state.area.len();
    let mut i: usize = 0;
    while i < state.forest.len()
        invariant
            s == state@,
            structure_wf(s),
            cells == s.area.len(),
            i <= s.forest.len(),
            list@ == actions_upto(s, mine, i as int),
        decreases s.forest.len() - i,
    {
        let c = state.forest[i].cell_index;
        if is_legal(state, Action::Complete(c), mine) {
            list.push(Action::Complete(c));
        }
        if is_legal(state, Action::Grow(c), mine) {
            list.push(Action::Grow(c));
        }
        let ghost base = list@;
        let mut t: usize = 0;
        while t < cells
            invariant
                s == state@,
                structure_wf(s),
                cells == s.area.len(),
                t <= cells,
                list@ == with_seeds(base, s, mine, c, t as int),
            decreases cells - t,
        {
            if is_legal(state, Action::Seed(c, t as i32), mine) {
                list.push(Action::Seed(c, t as i32));
            }
            t += 1;
        }
        i += 1;
    }
    proof {
        lemma_legal_action_list(s, mine);
    }
    list
}

/// Tree `t`, awake.
pub open spec fn awake(t: Tree) -> Tree {
    Tree { is_dormant: false, ..t }
}

/// The snapshot at the start of the next day: every tree is awake again, the
/// opponent is no longer waiting, and the searching player is offered the
/// actions that are legal then.
pub open spec fn new_day(s: Snapshot) -> Snapshot {
    let dawn = Snapshot {
        day: s.day + 1,
        op_is_waiting: false,
        forest: Seq::new(s.forest.len(), |i: int| awake(s.forest[i])),
        ..s
    };
    Snapshot { action_list: legal_action_list(dawn, true), ..dawn }
}

/// The snapshot that follows when the searching player chooses `a`: the
/// action takes effect and the next day begins.
pub open spec fn next_state(s: Snapshot, a: Action) -> Snapshot {
    new_day(effect(s, a, true))
}

/// Moves on to the next day.
pub fn start_next_day(state: &mut GameState)
    requires
        structure_wf(old(state)@),
        old(state)@.day < FINAL_DAY,
        resources_within(old(state)@, 2 * old(state)@.day + 2),
    ensures
        final(state)@ == new_day(old(state)@),
        final(state).wf(),
        forall|j: int|
            0 <= j < final(state)@.action_list.len() ==> legal(
                final(state)@,
                #[trigger] final(state)@.action_list[j],
                true,
            ),
{
    let ghost s = state@;
    let mut i: usize = 0;
    while i < state.forest.len()
        invariant
            i <= s.forest.len(),
            state@.forest.len() == s.forest.len(),
            forall|j: int| 0 <= j < i ==> state@.forest[j] == awake(#[trigger] s.forest[j]),
            forall|j: int| i <= j < s.forest.len() ==> state@.forest[j] == #[trigger] s.forest[j],
            state@ == (Snapshot { forest: state@.forest, ..s }),
        decreases s.forest.len() - i,
    {
        let t = state.forest[i];
        state.forest.set(
            i,
            Tree {
                cell_index: t.cell_index,
                size: t.size,
                is_mine: t.is_mine,
                is_dormant: false,
                is_shadowed: t.is_shadowed,
            },
        );
        i += 1;
    }
    assert(state@.forest =~= Seq::new(s.forest.len(), |j: int| awake(s.forest[j])));
    state.day = state.day + 1;
    state.op_is_waiting = false;
    assert(forest_fits(s.area.len() as int, state@.forest)) by {
        assert forall|a: int, b: int| 0 <= a < b < state@.forest.len() implies (
        #[trigger] state@.forest[a]).cell_index != (#[trigger] state@.forest[b]).cell_index by {
            assert(s.forest[a].cell_index != s.forest[b].cell_index);
        }
    }
    let list = legal_actions(state, true);
    assert forall|j: int| 0 <= j < list@.len() implies legal(state@, #[trigger] list@[j], true) by {
        assert(list@.contains(list@[j]));
    }
    state.action_list = list;
}

/// The snapshot that follows `state` when the searching player chooses
/// `action`. `state` itself stays as it is.
pub fn get_new_state(state: &GameState, action: Action) -> (next: GameState)
    requires
        state.wf(),
        state@.day < FINAL_DAY,
        applicable(state@, action, true),
    ensures
        next@ == next_state(state@, action),
        next.wf(),
        next@.day == state@.day + 1,
        next@.area == state@.area,
        next@.nutrients == state@.nutrients - if action is Complete {
            1int
        } else {
            0int
        },
        forall|j: int|
            0 <= j < next@.action_list.len() ==> applicable(
                next@,
                #[trigger] next@.action_list[j],
                true,
            ),
{
    let mut next = state.duplicate();
    apply_action(&mut next, action, true);
    start_next_day(&mut next);
    next
}

/// The snapshot reached from `s` when the searching player chooses the
/// actions of `actions` one after the other.
pub open spec fn run(s: Snapshot, actions: Seq<Action>) -> Snapshot
    decreases actions.len(),
{
    if actions.len() == 0 {
        s
    } else {
        next_state(run(s, actions.drop_last()), actions.last())
    }
}

/// Number of harvests among `actions`.
pub open spec fn harvests(actions: Seq<Action>) -> int
    decreases actions.len(),
{
    if actions.len() == 0 {
        0
    } else {
        harvests(actions.drop_last()) + if actions.last() is Complete {
            1int
        } else {
            0int
        }
    }
}

/// A harvest, whoever makes it, takes one from the nutrient pool, and no
/// other action touches the pool.
pub proof fn lemma_effect_on_nutrients(s: Snapshot, a: Action, mine: bool)
    ensures
        a is Complete ==> effect(s, a, mine).nutrients == s.nutrients - 1,
        !(a is Complete) ==> effect(s, a, mine).nutrients == s.nutrients,
        next_state(s, a).nutrients == effect(s, a, true).nutrients,
        next_state(s, a).nutrients <= s.nutrients,
{
}

/// Along any sequence of transitions the nutrient pool never rises, and it
/// falls by exactly one for each harvest in the sequence.
pub proof fn lemma_nutrients_fall_by_harvests(s: Snapshot, actions: Seq<Action>)
    ensures
        run(s, actions).nutrients == s.nutrients - harvests(actions),
        run(s, actions).nutrients <= s.nutrients,
        harvests(actions) >= 0,
    decreases actions.len(),
{
    if actions.len() > 0 {
        lemma_nutrients_fall_by_harvests(s, actions.drop_last());
        lemma_effect_on_nutrients(run(s, actions.drop_last()), actions.last(), true);
    }
}

/// The transition reads its input and leaves it alone: from two copies of a
/// snapshot, whatever was done with either before, the same action leads to
/// the same snapshot, and another action on one of them changes nothing for
/// the other.
pub proof fn lemma_transition_reads_only(first: GameState, second: GameState, a: Action, b: Action)
    requires
        first@ == second@,
    ensures
        next_state(first@, a) == next_state(second@, a),
        next_state(first@, b) == next_state(second@, b),
{
}

/// Each transition moves the match on by one day.
pub proof fn lemma_day_advances(s: Snapshot, a: Action)
    ensures
        next_state(s, a).day == s.day + 1,
        next_state(s, a).area == s.area,
{
}

} // verus!
