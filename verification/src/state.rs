//! The snapshot of a match at one moment, and its mathematical model.

use crate::action::Action;
use crate::board::{cells_form_board, Board, Cell};
use vstd::prelude::*;
use vstd::set_lib::{lemma_int_range, lemma_len_subset, set_int_range};

verus! {

/// The day on which the match is over.
pub const FINAL_DAY: i32 = 24;

/// The size of a mature tree.
pub const MAX_SIZE: i32 = 3;

/// One standing tree.
#[derive(Clone, Copy, Debug, PartialEq, Eq, Structural)]
pub struct Tree {
    /// The cell the tree stands on.
    pub cell_index: i32,
    /// 0 is a seed, 3 a mature tree.
    pub size: i32,
    /// Whether the searching player owns the tree.
    pub is_mine: bool,
    /// Whether the tree has already acted today.
    pub is_dormant: bool,
    /// Whether the tree stood in shadow when income was last settled.
    pub is_shadowed: bool,
}

/// The mutable facts of a match at one moment, with the board they refer to
/// and the actions the searching player may choose from.
#[derive(Debug)]
pub struct GameState {
    pub day: i32,
    pub nutrients: i64,
    pub sun: i64,
    pub score: i64,
    pub op_sun: i64,
    pub op_score: i64,
    pub op_is_waiting: bool,
    pub area: Board,
    pub forest: Vec<Tree>,
    pub action_list: Vec<Action>,
}

/// The model of a `GameState`: the same facts as mathematical values.
pub struct Snapshot {
    pub day: int,
    pub nutrients: int,
    pub sun: int,
    pub score: int,
    pub op_sun: int,
    pub op_score: int,
    pub op_is_waiting: bool,
    pub area: Seq<Cell>,
    pub forest: Seq<Tree>,
    pub action_list: Seq<Action>,
}

impl View for GameState {
    type V = Snapshot;

    open spec fn view(&self) -> Snapshot {
        Snapshot {
            day: self.day as int,
            nutrients: self.nutrients as int,
            sun: self.sun as int,
            score: self.score as int,
            op_sun: self.op_sun as int,
            op_score: self.op_score as int,
            op_is_waiting: self.op_is_waiting,
            area: self.area@,
            forest: self.forest@,
            action_list: self.action_list@,
        }
    }
}

/// Whether some tree of `forest` stands on `cell`.
pub open spec fn occupied(forest: Seq<Tree>, cell: int) -> bool {
    exists|i: int| 0 <= i < forest.len() && (#[trigger] forest[i]).cell_index == cell
}

/// The position in `forest` of the tree on `cell`, where there is one.
pub open spec fn position_of(forest: Seq<Tree>, cell: int) -> int {
    choose|i: int| 0 <= i < forest.len() && (#[trigger] forest[i]).cell_index == cell
}

/// Every tree stands on a cell of the board, has a size, and shares its cell
/// with no other tree.
pub open spec fn forest_fits(cells: int, forest: Seq<Tree>) -> bool {
    &&& forall|i: int|
        0 <= i < forest.len() ==> 0 <= (#[trigger] forest[i]).cell_index < cells && 0
            <= forest[i].size <= MAX_SIZE
    &&& forall|i: int, j: int|
        0 <= i < j < forest.len() ==> (#[trigger] forest[i]).cell_index != (
        #[trigger] forest[j]).cell_index
}

/// The range in which a counter of sun or score stays after `ticks` moves:
/// what a 32-bit counter can hold, widened by what each move can add or take.
pub open spec fn within_drift(amount: int, ticks: int) -> bool {
    -(ticks + 1) * 0x2_0000_0000 <= amount <= (ticks + 1) * 0x2_0000_0000
}

/// The board is a board, the day is a day of the match, and the forest fits
/// the board.
pub open spec fn structure_wf(s: Snapshot) -> bool {
    &&& cells_form_board(s.area)
    &&& 0 <= s.day <= FINAL_DAY
    &&& forest_fits(s.area.len() as int, s.forest)
}

/// The counters of the snapshot are in the range that `ticks` moves allow.
pub open spec fn resources_within(s: Snapshot, ticks: int) -> bool {
    &&& -ticks <= s.nutrients <= i32::MAX
    &&& within_drift(s.sun, ticks)
    &&& within_drift(s.score, ticks)
    &&& within_drift(s.op_sun, ticks)
    &&& within_drift(s.op_score, ticks)
}

/// The snapshot invariant. Each day holds two moves, one of each player.
pub open spec fn snapshot_wf(s: Snapshot) -> bool {
    &&& structure_wf(s)
    &&& resources_within(s, 2 * s.day)
}

/// Finds the tree that stands on `cell`.
pub fn find_tree(forest: &Vec<Tree>, cell: i32) -> (found: Option<usize>)
    ensures
        found is Some <==> occupied(forest@, cell as int),
        found is Some ==> found.unwrap() < forest@.len() && forest@[found.unwrap() as int].cell_index
            == cell,
        found is Some ==> forall|j: int|
            0 <= j < found.unwrap() ==> (#[trigger] forest@[j]).cell_index != cell,
{
    let mut i: usize = 0;
    while i < forest.len()
        invariant
            i <= forest.len(),
            forall|j: int| 0 <= j < i ==> (#[trigger] forest@[j]).cell_index != cell,
        decreases forest.len() - i,
    {
        if forest[i].cell_index == cell {
            return Some(i);
        }
        i += 1;
    }
    None
}

/// In a forest whose trees stand on distinct cells, the tree on a cell is
/// found at one position only.
pub proof fn lemma_position_unique(cells: int, forest: Seq<Tree>, i: int)
    requires
        forest_fits(cells, forest),
        0 <= i < forest.len(),
    ensures
        occupied(forest, forest[i].cell_index as int),
        position_of(forest, forest[i].cell_index as int) == i,
{
    let p = position_of(forest, forest[i].cell_index as int);
    if p < i {
        assert(forest[p].cell_index != forest[i].cell_index);
    } else if i < p {
        assert(forest[i].cell_index != forest[p].cell_index);
    }
}

/// Trees that stand on distinct cells of a board are no more than its cells,
/// and fewer where a cell is free.
pub proof fn lemma_forest_size(cells: int, forest: Seq<Tree>)
    requires
        0 <= cells,
        forest_fits(cells, forest),
    ensures
        forest.len() <= cells,
        forall|free: int| 0 <= free < cells && !occupied(forest, free) ==> forest.len() < cells,
{
    let spots = forest.map_values(|t: Tree| t.cell_index as int);
    assert(spots.no_duplicates());
    spots.unique_seq_to_set();
    let all = set_int_range(0, cells);
    lemma_int_range(0, cells);
    assert forall|c: int| spots.to_set().contains(c) implies all.contains(c) by {
        let i = choose|i: int| 0 <= i < spots.len() && spots[i] == c;
        assert(forest[i].cell_index == c);
    }
    lemma_len_subset(spots.to_set(), all);
    assert forall|free: int| 0 <= free < cells && !occupied(forest, free) implies forest.len()
        < cells by {
        let rest = all.remove(free);
        assert forall|c: int| spots.to_set().contains(c) implies rest.contains(c) by {
            let i = choose|i: int| 0 <= i < spots.len() && spots[i] == c;
            assert(forest[i].cell_index == c);
        }
        lemma_len_subset(spots.to_set(), rest);
    }
}

/// An independent copy of a forest.
pub fn copy_forest(forest: &Vec<Tree>) -> (copy: Vec<Tree>)
    ensures
        copy@ == forest@,
{
    let mut copy: Vec<Tree> = Vec::new();
    let mut i: usize = 0;
    while i < forest.len()
        invariant
            i <= forest.len(),
            copy@ == forest@.take(i as int),
        decreases forest.len() - i,
    {
        copy.push(forest[i]);
        assert(forest@.take(i as int).push(forest@[i as int]) == forest@.take(i + 1));
        i += 1;
    }
    assert(forest@.take(forest@.len() as int) == forest@);
    copy
}

/// An independent copy of a list of actions.
pub fn copy_actions(actions: &Vec<Action>) -> (copy: Vec<Action>)
    ensures
        copy@ == actions@,
{
    let mut copy: Vec<Action> = Vec::new();
    let mut i: usize = 0;
    while i < actions.len()
        invariant
            i <= actions.len(),
            copy@ == actions@.take(i as int),
        decreases actions.len() - i,
    {
        copy.push(actions[i]);
        assert(actions@.take(i as int).push(actions@[i as int]) == actions@.take(i + 1));
        i += 1;
    }
    assert(actions@.take(actions@.len() as int) == actions@);
    copy
}

/// Whether `amount` lies within `reach` of zero.
fn counter_within(amount: i64, reach: i64) -> (ok: bool)
    requires
        0 <= reach < i64::MAX,
    ensures
        ok == (-reach <= amount <= reach),
{
    -reach <= amount && amount <= reach
}

/// Decides whether the forest fits a board of `cells` cells.
pub fn forest_is_fitting(cells: usize, forest: &Vec<Tree>) -> (ok: bool)
    ensures
        ok == forest_fits(cells as int, forest@),
{
    let mut i: usize = 0;
    while i < forest.len()
        invariant
            i <= forest.len(),
            forall|a: int|
                0 <= a < i ==> 0 <= (#[trigger] forest@[a]).cell_index < cells && 0
                    <= forest@[a].size <= MAX_SIZE,
            forall|a: int, b: int|
                0 <= a < b < i ==> (#[trigger] forest@[a]).cell_index != (
                #[trigger] forest@[b]).cell_index,
        decreases forest.len() - i,
    {
        let t = forest[i];
        if t.cell_index < 0 || t.cell_index as usize >= cells || t.size < 0 || t.size > MAX_SIZE {
            return false;
        }
        let mut j: usize = 0;
        while j < i
            invariant
                j <= i < forest.len(),
                t == forest@[i as int],
                forall|a: int| 0 <= a < j ==> (#[trigger] forest@[a]).cell_index != t.cell_index,
            decreases i - j,
        {
            if forest[j].cell_index == t.cell_index {
                return false;
            }
            j += 1;
        }
        i += 1;
    }
    true
}

impl GameState {
    /// The snapshot invariant.
    pub open spec fn wf(&self) -> bool {
        snapshot_wf(self@)
    }

    /// Decides the snapshot invariant.
    pub fn is_well_formed(&self) -> (ok: bool)
        ensures
            ok == self.wf(),
    {
        if !Board::cells_are_board(&self.area.cells) || self.day < 0 || self.day > FINAL_DAY {
            return false;
        }
        if !forest_is_fitting(self.area.len(), &self.forest) {
            return false;
        }
        let ticks: i64 = 2 * (self.day as i64);
        let reach: i64 = (ticks + 1) * 0x2_0000_0000;
        -ticks <= self.nutrients && self.nutrients <= i32::MAX as i64 && counter_within(
            self.sun,
            reach,
        ) && counter_within(self.score, reach) && counter_within(self.op_sun, reach)
            && counter_within(self.op_score, reach)
    }

    /// An independent copy of the snapshot.
    pub fn duplicate(&self) -> (copy: GameState)
        ensures
            copy@ == self@,
    {
        GameState {
            day: self.day,
            nutrients: self.nutrients,
            sun: self.sun,
            score: self.score,
            op_sun: self.op_sun,
            op_score: self.op_score,
            op_is_waiting: self.op_is_waiting,
            area: self.area.duplicate(),
            forest: copy_forest(&self.forest),
            action_list: copy_actions(&self.action_list),
        }
    }
}

} // verus!
