//! The text of the host: numbers, lines of numbers and actions, as bytes.

use crate::action::Action;
use crate::board::{Board, Cell};
use crate::state::{GameState, Tree};
use vstd::prelude::*;

verus! {

/// The byte that separates the fields of a line.
pub const SPACE: u8 = 32;

/// The sign of a negative number.
pub const MINUS: u8 = 45;

/// The sign that a number at or above zero may carry.
pub const PLUS: u8 = 43;

/// The digit 0.
pub const ZERO: u8 = 48;

/// Whether the byte is a decimal digit.
pub open spec fn is_digit(b: u8) -> bool {
    48 <= b <= 57
}

/// Whether the text is one digit or more, and nothing else.
pub open spec fn all_digits(text: Seq<u8>) -> bool {
    text.len() > 0 && forall|i: int| 0 <= i < text.len() ==> is_digit(#[trigger] text[i])
}

/// The number that a text of digits stands for.
pub open spec fn digits_value(text: Seq<u8>) -> nat
    decreases text.len(),
{
    if text.len() == 0 {
        0
    } else {
        (digits_value(text.drop_last()) * 10 + (text.last() - 48)) as nat
    }
}

/// The number that a text stands for: digits, after a sign or without one.
pub open spec fn number_value(text: Seq<u8>) -> Option<int> {
    if text.len() > 0 && text[0] == MINUS {
        if all_digits(text.drop_first()) {
            Some(-(digits_value(text.drop_first()) as int))
        } else {
            None
        }
    } else if text.len() > 0 && text[0] == PLUS {
        if all_digits(text.drop_first()) {
            Some(digits_value(text.drop_first()) as int)
        } else {
            None
        }
    } else if all_digits(text) {
        Some(digits_value(text) as int)
    } else {
        None
    }
}

/// The number that a text stands for, if it is one that 32 bits hold.
pub open spec fn small_number(text: Seq<u8>) -> Option<i32> {
    match number_value(text) {
        Some(v) => if i32::MIN <= v <= i32::MAX {
            Some(v as i32)
        } else {
            None
        },
        None => None,
    }
}

/// The digits of a number, without leading zeros.
pub open spec fn digits_of(n: nat) -> Seq<u8>
    decreases n,
{
    if n < 10 {
        seq![(48 + n) as u8]
    } else {
        digits_of(n / 10).push((48 + n % 10) as u8)
    }
}

/// The text of a number: its digits, after a minus sign if it is negative.
pub open spec fn number_text(v: int) -> Seq<u8> {
    if v < 0 {
        seq![MINUS] + digits_of((-v) as nat)
    } else {
        digits_of(v as nat)
    }
}

/// The digits of a number are digits, and stand for the number.
pub proof fn lemma_digits_round_trip(n: nat)
    ensures
        all_digits(digits_of(n)),
        digits_value(digits_of(n)) == n,
        forall|i: int| 0 <= i < digits_of(n).len() ==> (#[trigger] digits_of(n)[i]) != SPACE,
    decreases n,
{
    if n < 10 {
        let d = digits_of(n);
        assert(d.drop_last() =~= Seq::<u8>::empty());
        assert(digits_value(d.drop_last()) == 0);
    } else {
        lemma_digits_round_trip(n / 10);
        let d = digits_of(n);
        assert(d.drop_last() =~= digits_of(n / 10));
    }
}

/// The text of a number stands for the number.
pub proof fn lemma_number_round_trip(v: int)
    ensures
        number_value(number_text(v)) == Some(v),
        number_text(v).len() > 0,
        forall|i: int| 0 <= i < number_text(v).len() ==> (#[trigger] number_text(v)[i]) != SPACE,
{
    if v < 0 {
        lemma_digits_round_trip((-v) as nat);
        assert(number_text(v).drop_first() =~= digits_of((-v) as nat));
    } else {
        lemma_digits_round_trip(v as nat);
    }
}

/// Appends the digits of `n` to `out`.
pub fn push_digits(out: &mut Vec<u8>, n: u64)
    ensures
        final(out)@ == old(out)@ + digits_of(n as nat),
    decreases n,
{
    if n >= 10 {
        push_digits(out, n / 10);
    }
    out.push(ZERO + (n % 10) as u8);
    assert(out@ =~= old(out)@ + digits_of(n as nat));
}

/// Appends the text of `v` to `out`.
pub fn push_number(out: &mut Vec<u8>, v: i32)
    ensures
        final(out)@ == old(out)@ + number_text(v as int),
{
    if v < 0 {
        out.push(MINUS);
        push_digits(out, (-(v as i64)) as u64);
        assert(out@ =~= old(out)@ + number_text(v as int));
    } else {
        push_digits(out, v as u64);
    }
}

/// Reads the digits of `text` from `start` on.
fn parse_digits(text: &[u8], start: usize) -> (value: Option<u64>)
    requires
        start <= text@.len(),
    ensures
        match value {
            Some(v) => all_digits(text@.skip(start as int)) && v == digits_value(
                text@.skip(start as int),
            ) && v <= 0x8000_0000,
            None => !all_digits(text@.skip(start as int)) || digits_value(
                text@.skip(start as int),
            ) > 0x8000_0000,
        },
{
    let ghost rest = text@.skip(start as int);
    if start == text.len() {
        return None;
    }
    let mut value: u64 = 0;
    let mut over = false;
    let mut i: usize = start;
    while i < text.len()
        invariant
            start <= i <= text@.len(),
            rest == text@.skip(start as int),
            forall|j: int| 0 <= j < i - start ==> is_digit(#[trigger] rest[j]),
            !over ==> value == digits_value(rest.take(i - start)) && value <= 0x8000_0000,
            over ==> digits_value(rest.take(i - start)) > 0x8000_0000,
        decreases text@.len() - i,
    {
        let b = text[i];
        assert(b == rest[i - start]);
        if b < 48 || b > 57 {
            return None;
        }
        proof {
            let longer = rest.take(i - start + 1);
            assert(longer.drop_last() =~= rest.take(i - start));
            assert(longer.last() == b);
        }
        if !over {
            value = value * 10 + (b - 48) as u64;
            if value > 0x8000_0000 {
                over = true;
            }
        }
        i += 1;
    }
    assert(rest.take(rest.len() as int) =~= rest);
    if over {
        None
    } else {
        Some(value)
    }
}

/// Reads a number that 32 bits hold.
pub fn parse_number(text: &[u8]) -> (value: Option<i32>)
    ensures
        value == small_number(text@),
{
    if text.len() == 0 {
        return None;
    }
    let negative = text[0] == MINUS;
    let start: usize = if negative || text[0] == PLUS {
        1
    } else {
        0
    };
    assert(text@.skip(1) =~= text@.drop_first());
    assert(text@.skip(0) =~= text@);
    match parse_digits(text, start) {
        None => None,
        Some(v) => {
            if negative {
                Some((-(v as i64)) as i32)
            } else if v <= 0x7FFF_FFFF {
                Some(v as i32)
            } else {
                None
            }
        },
    }
}

/// The fields of a line: what stands between its spaces. A line without a
/// space is one field, and two spaces in a row hold an empty field.
pub open spec fn fields_of(line: Seq<u8>) -> Seq<Seq<u8>>
    decreases line.len(),
{
    if line.len() == 0 {
        seq![Seq::empty()]
    } else {
        let before = fields_of(line.drop_last());
        if line.last() == SPACE {
            before.push(Seq::empty())
        } else {
            before.drop_last().push(before.last().push(line.last()))
        }
    }
}

/// The fields as sequences of bytes.
pub open spec fn views(fields: Seq<Vec<u8>>) -> Seq<Seq<u8>> {
    Seq::new(fields.len(), |i: int| fields[i]@)
}

/// A line has one field at least.
pub proof fn lemma_fields_not_empty(line: Seq<u8>)
    ensures
        fields_of(line).len() > 0,
    decreases line.len(),
{
    if line.len() > 0 {
        lemma_fields_not_empty(line.drop_last());
    }
}

/// Splits a line at its spaces.
pub fn split_fields(line: &[u8]) -> (fields: Vec<Vec<u8>>)
    ensures
        views(fields@) == fields_of(line@),
{
    let mut fields: Vec<Vec<u8>> = Vec::new();
    let mut current: Vec<u8> = Vec::new();
    let mut i: usize = 0;
    assert(line@.take(0) =~= Seq::<u8>::empty());
    assert(views(fields@).push(current@) =~= fields_of(line@.take(0)));
    while i < line.len()
        invariant
            i <= line@.len(),
            views(fields@).push(current@) == fields_of(line@.take(i as int)),
        decreases line@.len() - i,
    {
        let b = line[i];
        let ghost before = fields_of(line@.take(i as int));
        let ghost done = views(fields@);
        proof {
            let longer = line@.take(i + 1);
            assert(longer.drop_last() =~= line@.take(i as int));
            assert(longer.last() == b);
            assert(before.drop_last() =~= done);
            assert(before.last() == current@);
        }
        if b == SPACE {
            fields.push(current);
            current = Vec::new();
            assert(views(fields@) =~= before);
        } else {
            current.push(b);
        }
        assert(views(fields@).push(current@) =~= fields_of(line@.take(i + 1)));
        i += 1;
    }
    assert(line@.take(line@.len() as int) =~= line@);
    let ghost done = views(fields@);
    let ghost last = current@;
    fields.push(current);
    assert(views(fields@) =~= done.push(last));
    fields
}

/// The word for waiting.
pub open spec fn wait_word() -> Seq<u8> {
    seq![87u8, 65u8, 73u8, 84u8]
}

/// The word for growing.
pub open spec fn grow_word() -> Seq<u8> {
    seq![71u8, 82u8, 79u8, 87u8]
}

/// The word for seeding.
pub open spec fn seed_word() -> Seq<u8> {
    seq![83u8, 69u8, 69u8, 68u8]
}

/// The word for harvesting.
pub open spec fn complete_word() -> Seq<u8> {
    seq![67u8, 79u8, 77u8, 80u8, 76u8, 69u8, 84u8, 69u8]
}

/// The action that the fields of a line stand for: a word, followed by as
/// many numbers as the action names cells.
pub open spec fn action_of_fields(fields: Seq<Seq<u8>>) -> Option<Action> {
    if fields.len() == 1 && fields[0] == wait_word() {
        Some(Action::Wait)
    } else if fields.len() == 2 && fields[0] == grow_word() {
        match small_number(fields[1]) {
            Some(c) => Some(Action::Grow(c)),
            None => None,
        }
    } else if fields.len() == 2 && fields[0] == complete_word() {
        match small_number(fields[1]) {
            Some(c) => Some(Action::Complete(c)),
            None => None,
        }
    } else if fields.len() == 3 && fields[0] == seed_word() {
        match (small_number(fields[1]), small_number(fields[2])) {
            (Some(src), Some(dst)) => Some(Action::Seed(src, dst)),
            _ => None,
        }
    } else {
        None
    }
}

/// The action that a line stands for.
pub open spec fn parsed_action(line: Seq<u8>) -> Option<Action> {
    action_of_fields(fields_of(line))
}

/// The line that stands for an action.
pub open spec fn action_text(a: Action) -> Seq<u8> {
    match a {
        Action::Wait => wait_word(),
        Action::Grow(c) => grow_word() + seq![SPACE] + number_text(c as int),
        Action::Complete(c) => complete_word() + seq![SPACE] + number_text(c as int),
        Action::Seed(src, dst) => seed_word() + seq![SPACE] + number_text(src as int) + seq![SPACE]
            + number_text(dst as int),
    }
}

/// Whether the field is the given word.
fn is_word(field: &Vec<u8>, word: &Vec<u8>) -> (same: bool)
    ensures
        same == (field@ == word@),
{
    if field.len() != word.len() {
        return false;
    }
    let mut i: usize = 0;
    while i < field.len()
        invariant
            i <= field@.len(),
            field@.len() == word@.len(),
            forall|j: int| 0 <= j < i ==> field@[j] == word@[j],
        decreases field@.len() - i,
    {
        if field[i] != word[i] {
            return false;
        }
        i += 1;
    }
    assert(field@ =~= word@);
    true
}

/// Reads an action from a line.
pub fn parse_action(line: &[u8]) -> (action: Option<Action>)
    ensures
        action == parsed_action(line@),
{
    let fields = split_fields(line);
    proof {
        lemma_fields_not_empty(line@);
    }
    let ghost f = fields_of(line@);
    let count = fields.len();
    assert(forall|i: int| 0 <= i < count ==> fields@[i]@ == #[trigger] f[i]);
    let wait: Vec<u8> = vec![87u8, 65u8, 73u8, 84u8];
    let grow: Vec<u8> = vec![71u8, 82u8, 79u8, 87u8];
    let seed: Vec<u8> = vec![83u8, 69u8, 69u8, 68u8];
    let complete: Vec<u8> = vec![67u8, 79u8, 77u8, 80u8, 76u8, 69u8, 84u8, 69u8];
    assert(wait@ =~= wait_word());
    assert(grow@ =~= grow_word());
    assert(seed@ =~= seed_word());
    assert(complete@ =~= complete_word());
    assert(fields@[0]@ == f[0]);
    if count == 1 && is_word(&fields[0], &wait) {
        Some(Action::Wait)
    } else if count == 2 && is_word(&fields[0], &grow) {
        assert(fields@[1]@ == f[1]);
        match parse_number(fields[1].as_slice()) {
            Some(c) => Some(Action::Grow(c)),
            None => None,
        }
    } else if count == 2 && is_word(&fields[0], &complete) {
        assert(fields@[1]@ == f[1]);
        match parse_number(fields[1].as_slice()) {
            Some(c) => Some(Action::Complete(c)),
            None => None,
        }
    } else if count == 3 && is_word(&fields[0], &seed) {
        assert(fields@[1]@ == f[1]);
        assert(fields@[2]@ == f[2]);
        match (parse_number(fields[1].as_slice()), parse_number(fields[2].as_slice())) {
            (Some(src), Some(dst)) => Some(Action::Seed(src, dst)),
            _ => None,
        }
    } else {
        None
    }
}

/// Writes the line that stands for an action.
pub fn action_bytes(action: Action) -> (line: Vec<u8>)
    ensures
        line@ == action_text(action),
{
    match action {
        Action::Wait => {
            let line: Vec<u8> = vec![87u8, 65u8, 73u8, 84u8];
            assert(line@ =~= wait_word());
            line
        },
        Action::Grow(c) => {
            let mut line: Vec<u8> = vec![71u8, 82u8, 79u8, 87u8, 32u8];
            assert(line@ =~= grow_word() + seq![SPACE]);
            push_number(&mut line, c);
            line
        },
        Action::Complete(c) => {
            let mut line: Vec<u8> = vec![67u8, 79u8, 77u8, 80u8, 76u8, 69u8, 84u8, 69u8, 32u8];
            assert(line@ =~= complete_word() + seq![SPACE]);
            push_number(&mut line, c);
            line
        },
        Action::Seed(src, dst) => {
            let mut line: Vec<u8> = vec![83u8, 69u8, 69u8, 68u8, 32u8];
            assert(line@ =~= seed_word() + seq![SPACE]);
            push_number(&mut line, src);
            line.push(SPACE);
            assert(line@ =~= seed_word() + seq![SPACE] + number_text(src as int) + seq![SPACE]);
            push_number(&mut line, dst);
            line
        },
    }
}

/// Whether the text holds no space.
pub open spec fn spaceless(text: Seq<u8>) -> bool {
    forall|i: int| 0 <= i < text.len() ==> (#[trigger] text[i]) != SPACE
}

/// A text without a space is one field.
pub proof fn lemma_one_field(word: Seq<u8>)
    requires
        spaceless(word),
    ensures
        fields_of(word) == seq![word],
    decreases word.len(),
{
    if word.len() == 0 {
        assert(word =~= Seq::<u8>::empty());
        assert(fields_of(word) =~= seq![word]);
    } else {
        let shorter = word.drop_last();
        assert(spaceless(shorter)) by {
            assert forall|i: int| 0 <= i < shorter.len() implies (#[trigger] shorter[i])
                != SPACE by {
                assert(word[i] != SPACE);
            }
        }
        lemma_one_field(shorter);
        assert(word[word.len() - 1] != SPACE);
        let before = fields_of(shorter);
        assert(before.last() == shorter);
        assert(before.drop_last() =~= Seq::<Seq<u8>>::empty());
        assert(shorter.push(word.last()) =~= word);
        assert(fields_of(word) =~= seq![word]);
    }
}

/// A space and a text without a space add one field to a line.
pub proof fn lemma_one_more_field(line: Seq<u8>, word: Seq<u8>)
    requires
        spaceless(word),
    ensures
        fields_of(line + seq![SPACE] + word) == fields_of(line).push(word),
    decreases word.len(),
{
    let whole = line + seq![SPACE] + word;
    if word.len() == 0 {
        assert(word =~= Seq::<u8>::empty());
        assert(whole.drop_last() =~= line);
        assert(whole.last() == SPACE);
        assert(fields_of(whole) =~= fields_of(line).push(word));
    } else {
        let shorter = word.drop_last();
        assert(spaceless(shorter)) by {
            assert forall|i: int| 0 <= i < shorter.len() implies (#[trigger] shorter[i])
                != SPACE by {
                assert(word[i] != SPACE);
            }
        }
        lemma_one_more_field(line, shorter);
        assert(whole.drop_last() =~= line + seq![SPACE] + shorter);
        assert(whole.last() == word.last());
        assert(word[word.len() - 1] != SPACE);
        let before = fields_of(whole.drop_last());
        assert(before == fields_of(line).push(shorter));
        assert(before.last() == shorter);
        assert(before.drop_last() =~= fields_of(line));
        assert(shorter.push(word.last()) =~= word);
        assert(fields_of(whole) =~= fields_of(line).push(word));
    }
}

/// The line that stands for an action is read back as that action.
pub proof fn lemma_action_round_trip(a: Action)
    ensures
        parsed_action(action_text(a)) == Some(a),
{
    match a {
        Action::Wait => {
            lemma_one_field(wait_word());
        },
        Action::Grow(c) => {
            lemma_one_field(grow_word());
            lemma_number_round_trip(c as int);
            lemma_one_more_field(grow_word(), number_text(c as int));
        },
        Action::Complete(c) => {
            lemma_one_field(complete_word());
            lemma_number_round_trip(c as int);
            lemma_one_more_field(complete_word(), number_text(c as int));
        },
        Action::Seed(src, dst) => {
            lemma_one_field(seed_word());
            lemma_number_round_trip(src as int);
            lemma_number_round_trip(dst as int);
            lemma_one_more_field(seed_word(), number_text(src as int));
            lemma_one_more_field(
                seed_word() + seq![SPACE] + number_text(src as int),
                number_text(dst as int),
            );
        },
    }
}

/// Whether each field is a number that 32 bits hold.
pub open spec fn all_numbers(fields: Seq<Seq<u8>>) -> bool {
    forall|i: int| 0 <= i < fields.len() ==> small_number(#[trigger] fields[i]) is Some
}

/// The numbers that the fields stand for.
pub open spec fn numbers_of(fields: Seq<Seq<u8>>) -> Seq<i32> {
    Seq::new(fields.len(), |i: int| small_number(fields[i]).unwrap())
}

/// Reads a line of numbers that spaces separate.
pub fn parse_numbers(line: &[u8]) -> (numbers: Option<Vec<i32>>)
    ensures
        numbers is Some <==> all_numbers(fields_of(line@)),
        numbers is Some ==> numbers.unwrap()@ == numbers_of(fields_of(line@)),
{
    let fields = split_fields(line);
    let ghost f = fields_of(line@);
    let mut numbers: Vec<i32> = Vec::new();
    let mut i: usize = 0;
    while i < fields.len()
        invariant
            i <= fields@.len(),
            views(fields@) == f,
            f == fields_of(line@),
            numbers@.len() == i,
            forall|j: int| 0 <= j < i ==> small_number(#[trigger] f[j]) == Some(numbers@[j]),
        decreases fields@.len() - i,
    {
        assert(fields@[i as int]@ == f[i as int]);
        match parse_number(fields[i].as_slice()) {
            Some(v) => {
                numbers.push(v);
            },
            None => {
                assert(f.len() == fields@.len());
                assert(small_number(f[i as int]) is None);
                assert(!all_numbers(f));
                return None;
            },
        }
        i += 1;
    }
    assert(numbers@ =~= numbers_of(f));
    Some(numbers)
}

/// The cell that eight numbers stand for: its position, its soil, and its
/// six neighbours.
pub open spec fn cell_of(numbers: Seq<i32>) -> Option<Cell> {
    if numbers.len() == 8 {
        Some(
            Cell {
                index: numbers[0],
                richness: numbers[1],
                neighbors_ids: [
                    numbers[2],
                    numbers[3],
                    numbers[4],
                    numbers[5],
                    numbers[6],
                    numbers[7],
                ],
            },
        )
    } else {
        None
    }
}

/// Builds a cell from the numbers of its line.
pub fn cell_from_numbers(numbers: &Vec<i32>) -> (cell: Option<Cell>)
    ensures
        cell == cell_of(numbers@),
{
    if numbers.len() != 8 {
        return None;
    }
    Some(
        Cell {
            index: numbers[0],
            richness: numbers[1],
            neighbors_ids: [
                numbers[2],
                numbers[3],
                numbers[4],
                numbers[5],
                numbers[6],
                numbers[7],
            ],
        },
    )
}

/// The tree that four numbers stand for: its cell, its size, and two flags
/// that are 1 where the tree is the searching player's and where it is
/// dormant.
pub open spec fn tree_of(numbers: Seq<i32>) -> Option<Tree> {
    if numbers.len() == 4 {
        Some(
            Tree {
                cell_index: numbers[0],
                size: numbers[1],
                is_mine: numbers[2] == 1,
                is_dormant: numbers[3] == 1,
                is_shadowed: false,
            },
        )
    } else {
        None
    }
}

/// Builds a tree from the numbers of its line.
pub fn tree_from_numbers(numbers: &Vec<i32>) -> (tree: Option<Tree>)
    ensures
        tree == tree_of(numbers@),
{
    if numbers.len() != 4 {
        return None;
    }
    Some(
        Tree {
            cell_index: numbers[0],
            size: numbers[1],
            is_mine: numbers[2] == 1,
            is_dormant: numbers[3] == 1,
            is_shadowed: false,
        },
    )
}

/// Builds the snapshot of a turn from what the host states: the day, the
/// nutrient pool, the searching player's sun and score, the opponent's sun,
/// score and a flag that is 1 where the opponent is waiting, and then the
/// board, the trees and the actions offered. There is no snapshot where the
/// player's line does not hold two numbers or the opponent's not three.
pub fn state_from_numbers(
    day: i32,
    nutrients: i32,
    own: &Vec<i32>,
    opponent: &Vec<i32>,
    area: Board,
    forest: Vec<Tree>,
    action_list: Vec<Action>,
) -> (state: Option<GameState>)
    ensures
        state is Some <==> own@.len() == 2 && opponent@.len() == 3,
        state is Some ==> {
            let s = state.unwrap()@;
            &&& s.day == day
            &&& s.nutrients == nutrients
            &&& s.sun == own@[0]
            &&& s.score == own@[1]
            &&& s.op_sun == opponent@[0]
            &&& s.op_score == opponent@[1]
            &&& s.op_is_waiting == (opponent@[2] == 1)
            &&& s.area == area@
            &&& s.forest == forest@
            &&& s.action_list == action_list@
        },
{
    if own.len() != 2 || opponent.len() != 3 {
        return None;
    }
    Some(
        GameState {
            day,
            nutrients: nutrients as i64,
            sun: own[0] as i64,
            score: own[1] as i64,
            op_sun: opponent[0] as i64,
            op_score: opponent[1] as i64,
            op_is_waiting: opponent[2] == 1,
            area,
            forest,
            action_list,
        },
    )
}

} // verus!
