use forest_mcts::board::{Board, Cell};
use forest_mcts::shadow::{check_neighbor, get_is_shadowed};
use forest_mcts::state::{GameState, Tree};

/// A row of cells: direction 0 leads to the next cell, direction 3 back.
fn row(cells: i32) -> Board {
    let mut list = Vec::new();
    for index in 0..cells {
        let mut neighbors_ids = [-1; 6];
        if index + 1 < cells {
            neighbors_ids[0] = index + 1;
        }
        if index > 0 {
            neighbors_ids[3] = index - 1;
        }
        list.push(Cell { index, richness: 2, neighbors_ids });
    }
    Board::new(list).unwrap()
}

fn tree(cell_index: i32, size: i32) -> Tree {
    Tree { cell_index, size, is_mine: true, is_dormant: false, is_shadowed: false }
}

fn state_on(day: i32, cells: i32, forest: Vec<Tree>) -> GameState {
    GameState {
        day,
        nutrients: 20,
        sun: 0,
        score: 0,
        op_sun: 0,
        op_score: 0,
        op_is_waiting: false,
        area: row(cells),
        forest,
        action_list: Vec::new(),
    }
}

#[test]
fn shadow_on_day_0_is_sought_in_direction_3() {
    // Day 0 looks from cell 2 towards cell 1 and cell 0.
    let state = state_on(0, 5, vec![tree(1, 1), tree(2, 1)]);
    assert!(get_is_shadowed(&state, 1, 2));
    // Nothing stands behind cell 3 in direction 0 that day.
    let state = state_on(0, 5, vec![tree(3, 1), tree(2, 1)]);
    assert!(!get_is_shadowed(&state, 1, 2));
}

#[test]
fn shadow_on_day_3_is_sought_in_direction_0() {
    let state = state_on(3, 5, vec![tree(3, 1), tree(2, 1)]);
    assert!(get_is_shadowed(&state, 1, 2));
    let state = state_on(3, 5, vec![tree(1, 1), tree(2, 1)]);
    assert!(!get_is_shadowed(&state, 1, 2));
}

#[test]
fn light_turns_every_day_and_returns_after_six() {
    // The blocker stands in direction 3, which is looked at on days 0, 6, 12, 18.
    for day in 0..24 {
        let state = state_on(day, 3, vec![tree(0, 2), tree(1, 2)]);
        assert_eq!(get_is_shadowed(&state, 2, 1), day % 6 == 0, "day {}", day);
    }
}

#[test]
fn seed_is_never_in_shadow() {
    let state = state_on(0, 5, vec![tree(1, 3), tree(2, 0)]);
    assert!(!get_is_shadowed(&state, 0, 2));
}

#[test]
fn smaller_tree_casts_no_shadow_on_a_larger_one() {
    let state = state_on(0, 5, vec![tree(1, 1), tree(2, 2)]);
    assert!(!get_is_shadowed(&state, 2, 2));
    let state = state_on(0, 5, vec![tree(1, 2), tree(2, 2)]);
    assert!(get_is_shadowed(&state, 2, 2));
    let state = state_on(0, 5, vec![tree(1, 3), tree(2, 2)]);
    assert!(get_is_shadowed(&state, 2, 2));
}

#[test]
fn tree_looks_as_far_as_it_is_tall() {
    // A blocker three cells away is seen by a tree of size 3 only.
    let state = state_on(0, 5, vec![tree(0, 3), tree(3, 3)]);
    assert!(get_is_shadowed(&state, 3, 3));
    let state = state_on(0, 5, vec![tree(0, 3), tree(3, 2)]);
    assert!(!get_is_shadowed(&state, 2, 3));
    let state = state_on(0, 5, vec![tree(0, 3), tree(4, 3)]);
    assert!(!get_is_shadowed(&state, 3, 4));
}

#[test]
fn walk_ends_at_the_rim() {
    let state = state_on(0, 5, vec![tree(0, 3)]);
    assert!(!get_is_shadowed(&state, 3, 0));
    assert!(!get_is_shadowed(&state, 1, 0));
}

#[test]
fn walk_goes_on_past_a_small_tree() {
    let state = state_on(0, 5, vec![tree(0, 3), tree(1, 1), tree(2, 2)]);
    assert!(get_is_shadowed(&state, 2, 2));
}

#[test]
fn check_neighbor_counts_hops() {
    let state = state_on(0, 5, vec![tree(0, 2)]);
    assert!(!check_neighbor(&state, 2, 3, 2, 1));
    assert!(check_neighbor(&state, 2, 3, 2, 2));
    assert!(!check_neighbor(&state, 2, 3, 2, 0));
    assert!(!check_neighbor(&state, 2, 3, 2, -1));
    assert!(!check_neighbor(&state, 3, 3, 2, 2));
}

#[test]
fn larger_tree_is_in_shadow_where_a_smaller_one_is_if_all_trees_are_mature() {
    let forest = vec![tree(0, 3), tree(1, 3)];
    for day in 0..6 {
        for cell in 0..5 {
            for small in 0..=3 {
                let state = state_on(day, 5, forest.clone());
                if get_is_shadowed(&state, small, cell) {
                    for large in small..=3 {
                        assert!(get_is_shadowed(&state, large, cell));
                    }
                }
            }
        }
    }
}

#[test]
fn small_blocker_shadows_a_small_tree_but_not_a_large_one() {
    let state = state_on(0, 5, vec![tree(1, 1)]);
    assert!(get_is_shadowed(&state, 1, 2));
    assert!(!get_is_shadowed(&state, 3, 2));
}
