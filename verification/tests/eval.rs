use forest_mcts::board::{Board, Cell};
use forest_mcts::eval::{count_trees, evaluate, lead_value_of, BEST_OUTCOME};
use forest_mcts::state::{GameState, Tree};

fn board(cells: i32) -> Board {
    let mut list = Vec::new();
    for index in 0..cells {
        list.push(Cell { index, richness: 1, neighbors_ids: [-1; 6] });
    }
    Board::new(list).unwrap()
}

fn tree(cell_index: i32, is_mine: bool) -> Tree {
    Tree { cell_index, size: 1, is_mine, is_dormant: false, is_shadowed: false }
}

fn state(score: i64, sun: i64, op_score: i64, op_sun: i64, forest: Vec<Tree>) -> GameState {
    GameState {
        day: 24,
        nutrients: 10,
        sun,
        score,
        op_sun,
        op_score,
        op_is_waiting: false,
        area: board(4),
        forest,
        action_list: Vec::new(),
    }
}

#[test]
fn narrow_lead_counts_fifty_for_each_third_of_a_point() {
    assert_eq!(lead_value_of(1), 50);
    assert_eq!(lead_value_of(2), 100);
    assert_eq!(lead_value_of(15), 750);
}

#[test]
fn clear_lead_starts_at_900_and_rises_slowly_to_1000() {
    assert_eq!(lead_value_of(16), 901);
    assert_eq!(lead_value_of(66), 951);
    assert_eq!(lead_value_of(114), 999);
    assert_eq!(lead_value_of(115), 1000);
    assert_eq!(lead_value_of(116), 1000);
    assert_eq!(lead_value_of(1_000_000), 1000);
    assert_eq!(BEST_OUTCOME, 1000);
}

#[test]
fn sun_counts_a_third_of_a_point() {
    // 2 points and 3 sun against 3 points: nobody leads, nobody has trees, the score decides.
    assert_eq!(evaluate(&state(2, 3, 3, 0, Vec::new())), -10);
    // 2 points and 4 sun against 3 points: a third of a point ahead.
    assert_eq!(evaluate(&state(2, 4, 3, 0, Vec::new())), 50);
    assert_eq!(evaluate(&state(2, 2, 3, 0, Vec::new())), -50);
}

#[test]
fn outcome_of_a_lead_is_mirrored_for_the_opponent() {
    assert_eq!(evaluate(&state(10, 0, 0, 0, Vec::new())), 915);
    assert_eq!(evaluate(&state(0, 0, 10, 0, Vec::new())), -915);
    assert_eq!(evaluate(&state(5, 0, 0, 0, Vec::new())), 750);
    assert_eq!(evaluate(&state(0, 0, 5, 0, Vec::new())), -750);
    assert_eq!(evaluate(&state(5, 1, 0, 0, Vec::new())), 901);
    assert_eq!(evaluate(&state(500, 0, 0, 0, Vec::new())), 1000);
    assert_eq!(evaluate(&state(0, 0, 500, 0, Vec::new())), -1000);
}

#[test]
fn tie_goes_to_the_player_with_more_trees() {
    let forest = vec![tree(0, true), tree(1, false), tree(2, true)];
    assert_eq!(evaluate(&state(4, 0, 4, 0, forest)), 20);
    let forest = vec![tree(0, false), tree(1, false), tree(2, true)];
    assert_eq!(evaluate(&state(4, 0, 4, 0, forest)), -20);
    // More trees decide before the score does.
    let forest = vec![tree(0, false)];
    assert_eq!(evaluate(&state(4, 0, 3, 3, forest)), -20);
}

#[test]
fn tie_with_equal_trees_goes_by_score() {
    let forest = vec![tree(0, true), tree(1, false)];
    assert_eq!(evaluate(&state(4, 0, 3, 3, forest.clone())), 10);
    assert_eq!(evaluate(&state(3, 3, 4, 0, forest.clone())), -10);
    assert_eq!(evaluate(&state(4, 1, 4, 1, forest)), 0);
    assert_eq!(evaluate(&state(0, 0, 0, 0, Vec::new())), 0);
}

#[test]
fn trees_are_counted_by_owner() {
    let forest = vec![tree(0, true), tree(1, false), tree(2, true)];
    assert_eq!(count_trees(&forest, true), 2);
    assert_eq!(count_trees(&forest, false), 1);
    assert_eq!(count_trees(&Vec::new(), true), 0);
}
