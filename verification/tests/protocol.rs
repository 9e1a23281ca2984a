use forest_mcts::action::Action;
use forest_mcts::board::{Board, Cell};
use forest_mcts::protocol::{
    action_bytes, cell_from_numbers, parse_action, parse_number, parse_numbers, push_digits,
    push_number, split_fields, state_from_numbers, tree_from_numbers,
};
use forest_mcts::state::Tree;

#[test]
fn numbers_are_read_with_or_without_a_sign() {
    assert_eq!(parse_number(b"0"), Some(0));
    assert_eq!(parse_number(b"7"), Some(7));
    assert_eq!(parse_number(b"36"), Some(36));
    assert_eq!(parse_number(b"-1"), Some(-1));
    assert_eq!(parse_number(b"+12"), Some(12));
    assert_eq!(parse_number(b"007"), Some(7));
    assert_eq!(parse_number(b"-0"), Some(0));
}

#[test]
fn numbers_are_read_up_to_the_limits_of_32_bits() {
    assert_eq!(parse_number(b"2147483647"), Some(i32::MAX));
    assert_eq!(parse_number(b"-2147483648"), Some(i32::MIN));
    assert_eq!(parse_number(b"2147483648"), None);
    assert_eq!(parse_number(b"-2147483649"), None);
    assert_eq!(parse_number(b"+2147483648"), None);
    assert_eq!(parse_number(b"99999999999999999999999999"), None);
    assert_eq!(parse_number(b"00000000000000000000000012"), Some(12));
}

#[test]
fn text_that_is_no_number_is_not_read() {
    assert_eq!(parse_number(b""), None);
    assert_eq!(parse_number(b"-"), None);
    assert_eq!(parse_number(b"+"), None);
    assert_eq!(parse_number(b"12a"), None);
    assert_eq!(parse_number(b"a12"), None);
    assert_eq!(parse_number(b" 12"), None);
    assert_eq!(parse_number(b"12 "), None);
    assert_eq!(parse_number(b"--1"), None);
    assert_eq!(parse_number(b"1-"), None);
    assert_eq!(parse_number(b"1.5"), None);
}

#[test]
fn numbers_are_written_without_leading_zeros() {
    let mut out = Vec::new();
    push_digits(&mut out, 0);
    assert_eq!(out, b"0");
    push_digits(&mut out, 9);
    push_digits(&mut out, 10);
    push_digits(&mut out, 18446744073709551615);
    assert_eq!(out, b"091018446744073709551615");
    let mut out = b"x".to_vec();
    push_number(&mut out, -2147483648);
    push_number(&mut out, 2147483647);
    push_number(&mut out, -5);
    push_number(&mut out, 0);
    assert_eq!(out, b"x-21474836482147483647-50");
}

#[test]
fn lines_are_split_at_each_space() {
    let split = |line: &[u8]| -> Vec<String> {
        split_fields(line).into_iter().map(|f| String::from_utf8(f).unwrap()).collect()
    };
    assert_eq!(split(b""), vec![""]);
    assert_eq!(split(b"WAIT"), vec!["WAIT"]);
    assert_eq!(split(b"SEED 3 12"), vec!["SEED", "3", "12"]);
    assert_eq!(split(b" a  b "), vec!["", "a", "", "b", ""]);
    assert_eq!(split(b" "), vec!["", ""]);
}

#[test]
fn actions_are_read_from_their_lines() {
    assert_eq!(parse_action(b"WAIT"), Some(Action::Wait));
    assert_eq!(parse_action(b"GROW 5"), Some(Action::Grow(5)));
    assert_eq!(parse_action(b"SEED 3 12"), Some(Action::Seed(3, 12)));
    assert_eq!(parse_action(b"COMPLETE 36"), Some(Action::Complete(36)));
    assert_eq!(parse_action(b"GROW -1"), Some(Action::Grow(-1)));
}

#[test]
fn lines_that_are_no_action_are_not_read() {
    for line in [
        &b""[..],
        b"wait",
        b"WAIT ",
        b" WAIT",
        b"WAIT 1",
        b"WAITING",
        b"GROW",
        b"GROW ",
        b"GROW x",
        b"GROW 1 2",
        b"GROW  1",
        b"SEED 1",
        b"SEED 1 2 3",
        b"SEED 1  2",
        b"COMPLETE",
        b"COMPLETE 99999999999",
        b"COMPLET 3",
        b"HARVEST 3",
        b"GROW 5\n",
    ] {
        assert_eq!(parse_action(line), None, "{:?}", String::from_utf8_lossy(line));
    }
}

#[test]
fn actions_are_written_as_their_lines() {
    assert_eq!(action_bytes(Action::Wait), b"WAIT");
    assert_eq!(action_bytes(Action::Grow(5)), b"GROW 5");
    assert_eq!(action_bytes(Action::Seed(3, 12)), b"SEED 3 12");
    assert_eq!(action_bytes(Action::Complete(36)), b"COMPLETE 36");
    assert_eq!(action_bytes(Action::Seed(-1, 0)), b"SEED -1 0");
}

#[test]
fn written_actions_are_read_back() {
    let mut actions = vec![Action::Wait];
    for c in [0, 1, 9, 10, 36, 100, i32::MAX, -1, i32::MIN] {
        actions.push(Action::Grow(c));
        actions.push(Action::Complete(c));
        actions.push(Action::Seed(c, 36 - (c % 37)));
        actions.push(Action::Seed(7, c));
    }
    for action in actions {
        assert_eq!(parse_action(&action_bytes(action)), Some(action));
    }
}

#[test]
fn lines_of_numbers_are_read_whole_or_not_at_all() {
    assert_eq!(parse_numbers(b"0 3 1 2 3 4 5 6"), Some(vec![0, 3, 1, 2, 3, 4, 5, 6]));
    assert_eq!(parse_numbers(b"7 1 -1 -1 -1 -1 -1 0"), Some(vec![7, 1, -1, -1, -1, -1, -1, 0]));
    assert_eq!(parse_numbers(b"37"), Some(vec![37]));
    assert_eq!(parse_numbers(b""), None);
    assert_eq!(parse_numbers(b"1  2"), None);
    assert_eq!(parse_numbers(b"1 2 "), None);
    assert_eq!(parse_numbers(b"1 x 2"), None);
}

#[test]
fn cell_is_built_from_eight_numbers() {
    let cell = cell_from_numbers(&vec![4, 2, 12, 13, 3, 0, 5, -1]).unwrap();
    assert_eq!(cell.index, 4);
    assert_eq!(cell.richness, 2);
    assert_eq!(cell.neighbors_ids, [12, 13, 3, 0, 5, -1]);
    assert!(cell_from_numbers(&vec![4, 2, 12, 13, 3, 0, 5]).is_none());
    assert!(cell_from_numbers(&vec![4, 2, 12, 13, 3, 0, 5, -1, 0]).is_none());
    assert!(cell_from_numbers(&Vec::new()).is_none());
    let blank = Cell::new();
    assert_eq!(cell_from_numbers(&vec![0, 0, -1, -1, -1, -1, -1, -1]).unwrap().index, blank.index);
}

#[test]
fn tree_is_built_from_four_numbers() {
    assert_eq!(
        tree_from_numbers(&vec![17, 2, 1, 0]),
        Some(Tree { cell_index: 17, size: 2, is_mine: true, is_dormant: false, is_shadowed: false })
    );
    assert_eq!(
        tree_from_numbers(&vec![3, 0, 0, 1]),
        Some(Tree { cell_index: 3, size: 0, is_mine: false, is_dormant: true, is_shadowed: false })
    );
    // Only 1 sets a flag.
    assert_eq!(
        tree_from_numbers(&vec![3, 0, 2, -1]),
        Some(Tree { cell_index: 3, size: 0, is_mine: false, is_dormant: false, is_shadowed: false })
    );
    assert_eq!(tree_from_numbers(&vec![3, 0, 0]), None);
    assert_eq!(tree_from_numbers(&vec![3, 0, 0, 1, 1]), None);
}

#[test]
fn snapshot_is_built_from_the_numbers_of_a_turn() {
    let area = || Board::new(vec![Cell { index: 0, richness: 2, neighbors_ids: [-1; 6] }]).unwrap();
    let forest = vec![tree_from_numbers(&vec![0, 3, 1, 0]).unwrap()];
    let actions = vec![Action::Wait, Action::Complete(0)];
    let state =
        state_from_numbers(7, 18, &vec![5, 40], &vec![9, 37, 1], area(), forest.clone(), actions.clone())
            .unwrap();
    assert_eq!(state.day, 7);
    assert_eq!(state.nutrients, 18);
    assert_eq!(state.sun, 5);
    assert_eq!(state.score, 40);
    assert_eq!(state.op_sun, 9);
    assert_eq!(state.op_score, 37);
    assert!(state.op_is_waiting);
    assert_eq!(state.area.len(), 1);
    assert_eq!(state.forest, forest);
    assert_eq!(state.action_list, actions);
    assert!(state.is_well_formed());
    let state =
        state_from_numbers(7, 18, &vec![5, 40], &vec![9, 37, 0], area(), Vec::new(), Vec::new())
            .unwrap();
    assert!(!state.op_is_waiting);
    assert!(state_from_numbers(7, 18, &vec![5], &vec![9, 37, 0], area(), Vec::new(), Vec::new())
        .is_none());
    assert!(state_from_numbers(7, 18, &vec![5, 40], &vec![9, 37], area(), Vec::new(), Vec::new())
        .is_none());
    assert!(state_from_numbers(7, 18, &vec![5, 40, 1], &vec![9, 37, 0], area(), Vec::new(), Vec::new())
        .is_none());
}
