use forest_mcts::action::Action;
use forest_mcts::board::{Board, Cell};
use forest_mcts::rules::{
    apply_action, can_reach, get_new_state, grow_cost_of, harvest_value_of, is_applicable,
    is_legal, legal_actions, settle, start_next_day, COMPLETE_COST, SEED_COST,
};
use forest_mcts::state::{GameState, Tree};

fn row_of(richness: &[i32]) -> Board {
    let cells = richness.len() as i32;
    let mut list = Vec::new();
    for index in 0..cells {
        let mut neighbors_ids = [-1; 6];
        if index + 1 < cells {
            neighbors_ids[0] = index + 1;
        }
        if index > 0 {
            neighbors_ids[3] = index - 1;
        }
        list.push(Cell { index, richness: richness[index as usize], neighbors_ids });
    }
    Board::new(list).unwrap()
}

fn mine(cell_index: i32, size: i32) -> Tree {
    Tree { cell_index, size, is_mine: true, is_dormant: false, is_shadowed: false }
}

fn theirs(cell_index: i32, size: i32) -> Tree {
    Tree { cell_index, size, is_mine: false, is_dormant: false, is_shadowed: false }
}

fn state(day: i32, sun: i64, richness: &[i32], forest: Vec<Tree>) -> GameState {
    GameState {
        day,
        nutrients: 20,
        sun,
        score: 0,
        op_sun: 5,
        op_score: 0,
        op_is_waiting: true,
        area: row_of(richness),
        forest,
        action_list: vec![Action::Wait],
    }
}

#[test]
fn grow_costs_1_3_7() {
    assert_eq!(grow_cost_of(1), 1);
    assert_eq!(grow_cost_of(2), 3);
    assert_eq!(grow_cost_of(3), 7);
    assert_eq!(SEED_COST, 4);
    assert_eq!(COMPLETE_COST, 4);
}

#[test]
fn harvest_is_worth_the_pool_and_the_soil() {
    assert_eq!(harvest_value_of(20, 1), 20);
    assert_eq!(harvest_value_of(20, 2), 22);
    assert_eq!(harvest_value_of(20, 3), 24);
    assert_eq!(harvest_value_of(0, 3), 4);
    assert_eq!(harvest_value_of(-2, 2), 2);
}

#[test]
fn grow_makes_the_tree_larger_and_takes_the_price() {
    for (size, cost) in [(0, 1), (1, 3), (2, 7)] {
        let before = state(3, 10, &[1, 1], vec![mine(0, size), theirs(1, 2)]);
        let after = get_new_state(&before, Action::Grow(0));
        assert_eq!(after.forest.len(), 2);
        assert_eq!(after.forest[0].cell_index, 0);
        assert_eq!(after.forest[0].size, size + 1);
        assert!(after.forest[0].is_mine);
        assert_eq!(after.forest[1], theirs(1, 2));
        assert_eq!(after.sun, 10 - cost);
        assert_eq!(after.op_sun, 5);
        assert_eq!(after.score, 0);
        assert_eq!(after.nutrients, 20);
        assert_eq!(after.day, 4);
        assert!(!after.op_is_waiting);
    }
}

#[test]
fn grown_tree_is_dormant_for_the_rest_of_the_day() {
    let mut s = state(3, 10, &[1, 1], vec![mine(0, 1)]);
    apply_action(&mut s, Action::Grow(0), true);
    assert!(s.forest[0].is_dormant);
    assert_eq!(s.forest[0].size, 2);
    assert_eq!(s.day, 3);
    assert!(!is_legal(&s, Action::Grow(0), true));
    start_next_day(&mut s);
    assert!(!s.forest[0].is_dormant);
    assert_eq!(s.day, 4);
    assert!(is_legal(&s, Action::Grow(0), true));
}

#[test]
fn seed_adds_a_dormant_seed_and_rests_the_source() {
    let mut s = state(0, 9, &[1, 1, 1], vec![mine(0, 1)]);
    apply_action(&mut s, Action::Seed(0, 1), true);
    assert_eq!(s.forest.len(), 2);
    assert_eq!(
        s.forest[0],
        Tree { cell_index: 0, size: 1, is_mine: true, is_dormant: true, is_shadowed: false }
    );
    assert_eq!(
        s.forest[1],
        Tree { cell_index: 1, size: 0, is_mine: true, is_dormant: true, is_shadowed: false }
    );
    assert_eq!(s.sun, 5);
    assert_eq!(s.nutrients, 20);
}

#[test]
fn seed_price_does_not_rise_with_seeds_on_the_board() {
    let s = state(0, 20, &[1, 1, 1, 1], vec![mine(0, 2), mine(1, 0), mine(2, 0)]);
    let after = get_new_state(&s, Action::Seed(0, 3));
    assert_eq!(after.sun, 16);
}

#[test]
fn complete_removes_the_tree_scores_and_takes_from_the_pool() {
    let before = state(5, 10, &[3, 1], vec![mine(0, 3), theirs(1, 1)]);
    let after = get_new_state(&before, Action::Complete(0));
    assert_eq!(after.forest, vec![theirs(1, 1)]);
    assert_eq!(after.score, 24);
    assert_eq!(after.sun, 6);
    assert_eq!(after.nutrients, 19);
    assert_eq!(after.op_score, 0);
    assert_eq!(after.day, 6);
}

#[test]
fn opponent_pays_and_scores_for_its_own_actions() {
    let mut s = state(5, 10, &[3, 2], vec![mine(0, 3), theirs(1, 3)]);
    apply_action(&mut s, Action::Wait, true);
    let sun = s.sun;
    let op_sun = s.op_sun;
    apply_action(&mut s, Action::Complete(1), false);
    assert_eq!(s.op_score, 22);
    assert_eq!(s.op_sun, op_sun - 4);
    assert_eq!(s.sun, sun);
    assert_eq!(s.score, 0);
    assert_eq!(s.nutrients, 19);
    assert_eq!(s.forest, vec![Tree { is_shadowed: false, ..mine(0, 3) }]);
}

#[test]
fn opponent_waiting_is_only_recorded() {
    let mut s = state(5, 10, &[3, 2], vec![mine(0, 3), theirs(1, 3)]);
    s.op_is_waiting = false;
    apply_action(&mut s, Action::Wait, false);
    assert!(s.op_is_waiting);
    assert_eq!(s.sun, 10);
    assert_eq!(s.op_sun, 5);
}

#[test]
fn wait_settles_income_for_both_players() {
    // Day 1 looks in direction 4, where this board has no links: no shadow.
    let before = state(1, 10, &[1, 1, 1, 1], vec![mine(0, 3), mine(1, 1), theirs(2, 2), mine(3, 0)]);
    let after = get_new_state(&before, Action::Wait);
    assert_eq!(after.sun, 14);
    assert_eq!(after.op_sun, 7);
    assert_eq!(after.score, 0);
    assert_eq!(after.nutrients, 20);
    assert_eq!(after.day, 2);
    assert_eq!(after.forest.len(), 4);
}

#[test]
fn tree_in_shadow_earns_nothing() {
    // Day 0 looks in direction 3: the tree on cell 1 stands behind the one on cell 0.
    let mut s = state(0, 0, &[1, 1, 1], vec![mine(0, 2), mine(1, 2), theirs(2, 3)]);
    settle(&mut s);
    assert_eq!(s.sun, 2);
    assert_eq!(s.op_sun, 5 + 3);
    assert!(!s.forest[0].is_shadowed);
    assert!(s.forest[1].is_shadowed);
    assert!(!s.forest[2].is_shadowed);
}

#[test]
fn transition_leaves_its_input_as_it_was() {
    let before = state(2, 10, &[2, 2, 2], vec![mine(0, 3), mine(1, 1)]);
    let grown = get_new_state(&before, Action::Grow(1));
    let harvested = get_new_state(&before, Action::Complete(0));
    let grown_again = get_new_state(&before, Action::Grow(1));
    assert_eq!(before.day, 2);
    assert_eq!(before.sun, 10);
    assert_eq!(before.nutrients, 20);
    assert_eq!(before.forest, vec![mine(0, 3), mine(1, 1)]);
    assert_eq!(before.action_list, vec![Action::Wait]);
    assert_eq!(grown.forest, grown_again.forest);
    assert_eq!(grown.sun, grown_again.sun);
    assert_eq!(grown.action_list, grown_again.action_list);
    assert_eq!(grown.nutrients, 20);
    assert_eq!(harvested.nutrients, 19);
    assert_eq!(harvested.forest, vec![mine(1, 1)]);
    assert_eq!(grown.forest, vec![mine(0, 3), mine(1, 2)]);
}

#[test]
fn pool_falls_by_one_for_each_harvest_and_never_rises() {
    let mut s = state(0, 100, &[2, 2, 2], vec![mine(0, 3), mine(1, 2), mine(2, 3)]);
    let plan = [
        (Action::Wait, 20),
        (Action::Complete(0), 19),
        (Action::Grow(1), 19),
        (Action::Complete(2), 18),
        (Action::Wait, 18),
        (Action::Complete(1), 17),
        (Action::Wait, 17),
    ];
    for (action, pool) in plan {
        assert!(is_applicable(&s, action, true));
        let next = get_new_state(&s, action);
        assert!(next.nutrients <= s.nutrients);
        assert_eq!(next.nutrients, pool);
        assert_eq!(next.day, s.day + 1);
        s = next;
    }
}

#[test]
fn pool_goes_on_falling_below_zero() {
    let mut s = state(0, 100, &[2], vec![mine(0, 3)]);
    s.nutrients = 0;
    let next = get_new_state(&s, Action::Complete(0));
    assert_eq!(next.nutrients, -1);
    assert_eq!(next.score, 2);
}

#[test]
fn only_waiting_is_legal_on_an_empty_board() {
    let s = state(0, 10, &[1], Vec::new());
    assert_eq!(legal_actions(&s, true), vec![Action::Wait]);
    assert!(!is_legal(&s, Action::Grow(0), true));
    assert!(!is_legal(&s, Action::Seed(0, 0), true));
    assert!(!is_legal(&s, Action::Complete(0), true));
    assert!(!is_applicable(&s, Action::Grow(0), true));
    assert!(is_applicable(&s, Action::Wait, true));
}

#[test]
fn legal_actions_are_listed_tree_by_tree() {
    let s = state(
        0,
        10,
        &[1, 1, 0, 1, 1],
        vec![mine(1, 1), theirs(3, 3), mine(4, 3), mine(0, 0)],
    );
    assert_eq!(
        legal_actions(&s, true),
        vec![
            Action::Wait,
            Action::Grow(1),
            Action::Complete(4),
            Action::Grow(0),
        ]
    );
    assert_eq!(legal_actions(&s, false), vec![Action::Wait, Action::Complete(3)]);
}

#[test]
fn seeds_fly_as_far_as_the_tree_is_tall() {
    let s = state(0, 4, &[1, 1, 1, 1, 1, 1], vec![mine(2, 2)]);
    assert_eq!(
        legal_actions(&s, true),
        vec![
            Action::Wait,
            Action::Seed(2, 0),
            Action::Seed(2, 1),
            Action::Seed(2, 3),
            Action::Seed(2, 4),
        ]
    );
}

#[test]
fn seeds_need_usable_soil_a_free_cell_and_the_price() {
    let s = state(0, 4, &[0, 1, 1, 1], vec![mine(1, 1), theirs(2, 0)]);
    assert!(!is_legal(&s, Action::Seed(1, 0), true));
    assert!(!is_legal(&s, Action::Seed(1, 2), true));
    assert!(!is_legal(&s, Action::Seed(1, 1), true));
    assert!(!is_legal(&s, Action::Seed(1, 3), true));
    assert!(!is_legal(&s, Action::Seed(1, 4), true));
    assert!(!is_legal(&s, Action::Seed(1, -1), true));
    let s = state(0, 3, &[1, 1, 1, 1], vec![mine(1, 1)]);
    assert!(!is_legal(&s, Action::Seed(1, 0), true));
    assert!(is_applicable(&s, Action::Seed(1, 0), true));
    let s = state(0, 4, &[1, 1, 1, 1], vec![mine(1, 1)]);
    assert!(is_legal(&s, Action::Seed(1, 0), true));
    assert!(is_legal(&s, Action::Seed(1, 2), true));
}

#[test]
fn actions_need_their_price_in_sun() {
    let s = state(0, 6, &[1, 1], vec![mine(0, 2), mine(1, 3)]);
    assert!(!is_legal(&s, Action::Grow(0), true));
    assert!(is_legal(&s, Action::Complete(1), true));
    let s = state(0, 3, &[1, 1], vec![mine(0, 2), mine(1, 3)]);
    assert!(!is_legal(&s, Action::Complete(1), true));
    let s = state(0, 7, &[1, 1], vec![mine(0, 2), mine(1, 3)]);
    assert!(is_legal(&s, Action::Grow(0), true));
}

#[test]
fn dormant_trees_and_foreign_trees_do_not_act() {
    let mut s = state(0, 50, &[1, 1, 1], vec![mine(0, 2), theirs(1, 1)]);
    s.forest[0].is_dormant = true;
    assert!(!is_legal(&s, Action::Grow(0), true));
    assert!(!is_legal(&s, Action::Seed(0, 2), true));
    assert!(!is_legal(&s, Action::Grow(1), true));
    assert!(is_legal(&s, Action::Grow(1), false));
    assert!(is_applicable(&s, Action::Grow(0), true));
    assert!(!is_applicable(&s, Action::Grow(1), true));
}

#[test]
fn mature_trees_do_not_grow_and_young_trees_are_not_harvested() {
    let s = state(0, 50, &[1, 1], vec![mine(0, 3), mine(1, 2)]);
    assert!(!is_applicable(&s, Action::Grow(0), true));
    assert!(!is_applicable(&s, Action::Complete(1), true));
    assert!(is_applicable(&s, Action::Complete(0), true));
    assert!(is_applicable(&s, Action::Grow(1), true));
}

#[test]
fn reach_counts_links() {
    let s = state(0, 0, &[1, 1, 1, 1], Vec::new());
    assert!(can_reach(&s, 0, 0, 0));
    assert!(!can_reach(&s, 0, 1, 0));
    assert!(can_reach(&s, 0, 1, 1));
    assert!(!can_reach(&s, 0, 2, 1));
    assert!(can_reach(&s, 0, 3, 3));
    assert!(can_reach(&s, 3, 0, 3));
    assert!(!can_reach(&s, 0, 0, -1));
    assert!(!can_reach(&s, 0, 7, 3));
}

#[test]
fn successor_offers_the_actions_that_are_legal_then() {
    let before = state(0, 10, &[1, 1], vec![mine(0, 2)]);
    let after = get_new_state(&before, Action::Grow(0));
    // Seven sun went into the growth; three are left, one less than any action costs.
    assert_eq!(after.sun, 3);
    assert_eq!(after.action_list, vec![Action::Wait]);
    let after = get_new_state(&before, Action::Wait);
    assert_eq!(
        after.action_list,
        vec![Action::Wait, Action::Grow(0), Action::Seed(0, 1)]
    );
}
