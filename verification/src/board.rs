//! The static board: cells, their soil and their six neighbour links.

use vstd::prelude::*;

verus! {

/// Number of directions in which a hex cell has a neighbour link.
pub const DIRECTIONS: usize = 6;

/// The neighbour link of a cell that has no neighbour in that direction.
pub const OFF_BOARD: i32 = -1;

/// The best soil tier a cell can have.
pub const MAX_RICHNESS: i32 = 3;

/// One cell of the board.
#[derive(Clone, Copy, Debug)]
pub struct Cell {
    /// Position of the cell on the board.
    pub index: i32,
    /// Soil tier: 0 is unusable, 1 to 3 are usable.
    pub richness: i32,
    /// The cell reached in each direction, or `OFF_BOARD`.
    pub neighbors_ids: [i32; 6],
}

impl Cell {
    /// A cell at position 0 with unusable soil and no neighbours.
    pub fn new() -> (cell: Self)
        ensures
            cell.index == 0,
            cell.richness == 0,
            forall|d: int| 0 <= d < 6 ==> cell.neighbors_ids[d] == OFF_BOARD,
    {
        Cell { index: 0, richness: 0, neighbors_ids: [-1, -1, -1, -1, -1, -1] }
    }
}

/// The direction opposite to `d`.
pub open spec fn opposite(d: int) -> int {
    (d + 3) % 6
}

/// The link that leaves cell `c` in direction `d`.
pub open spec fn link(cells: Seq<Cell>, c: int, d: int) -> int {
    cells[c].neighbors_ids[d] as int
}

/// Cell `c` sits at its own position, has a soil tier, and each of its links
/// is either `OFF_BOARD` or a position on the board.
pub open spec fn cell_fits(cells: Seq<Cell>, c: int) -> bool {
    &&& cells[c].index == c
    &&& 0 <= cells[c].richness <= MAX_RICHNESS
    &&& forall|d: int|
        0 <= d < 6 ==> link(cells, c, d) == OFF_BOARD || 0 <= #[trigger] link(cells, c, d)
            < cells.len()
}

/// Stepping from `c` in direction `d` and then back in the opposite direction
/// ends on `c`, unless one of the two links leaves the board.
pub open spec fn link_returns(cells: Seq<Cell>, c: int, d: int) -> bool {
    let n = link(cells, c, d);
    n != OFF_BOARD && link(cells, n, opposite(d)) != OFF_BOARD ==> link(cells, n, opposite(d)) == c
}

/// What makes a sequence of cells a board.
pub open spec fn cells_form_board(cells: Seq<Cell>) -> bool {
    &&& cells.len() <= i32::MAX
    &&& forall|c: int| 0 <= c < cells.len() ==> #[trigger] cell_fits(cells, c)
    &&& forall|c: int, d: int|
        0 <= c < cells.len() && 0 <= d < 6 ==> #[trigger] link_returns(cells, c, d)
}

/// The fixed topology of a match.
#[derive(Debug)]
pub struct Board {
    pub cells: Vec<Cell>,
}

impl View for Board {
    type V = Seq<Cell>;

    open spec fn view(&self) -> Seq<Cell> {
        self.cells@
    }
}

/// Whether cell `c` of `cells`, whose links are known to fit, returns from
/// each of its neighbours.
fn cell_links_return(cells: &Vec<Cell>, c: usize) -> (ok: bool)
    requires
        c < cells.len() <= i32::MAX,
        forall|k: int| 0 <= k < cells.len() ==> #[trigger] cell_fits(cells@, k),
    ensures
        ok == forall|d: int| 0 <= d < 6 ==> #[trigger] link_returns(cells@, c as int, d),
{
    let mut d: usize = 0;
    while d < 6
        invariant
            d <= 6,
            c < cells.len() <= i32::MAX,
            forall|k: int| 0 <= k < cells.len() ==> #[trigger] cell_fits(cells@, k),
            forall|e: int| 0 <= e < d ==> #[trigger] link_returns(cells@, c as int, e),
        decreases 6 - d,
    {
        let n: i32 = cells[c].neighbors_ids[d];
        assert(n == link(cells@, c as int, d as int));
        if n != OFF_BOARD {
            assert(cell_fits(cells@, c as int));
            let back: i32 = cells[n as usize].neighbors_ids[(d + 3) % 6];
            assert(back == link(cells@, n as int, opposite(d as int)));
            if back != OFF_BOARD && back != c as i32 {
                assert(!link_returns(cells@, c as int, d as int));
                return false;
            }
            assert(link_returns(cells@, c as int, d as int));
        } else {
            assert(link_returns(cells@, c as int, d as int));
        }
        d += 1;
    }
    true
}

/// Whether cell `c` of `cells` sits at its position with links that fit.
fn cell_is_fitting(cells: &Vec<Cell>, c: usize) -> (ok: bool)
    requires
        c < cells.len() <= i32::MAX,
    ensures
        ok == cell_fits(cells@, c as int),
{
    let cell = cells[c];
    if cell.index < 0 || cell.index as usize != c || cell.richness < 0 || cell.richness
        > MAX_RICHNESS {
        return false;
    }
    let mut d: usize = 0;
    while d < 6
        invariant
            d <= 6,
            c < cells.len() <= i32::MAX,
            cell == cells@[c as int],
            forall|e: int|
                0 <= e < d ==> link(cells@, c as int, e) == OFF_BOARD || 0 <= #[trigger] link(
                    cells@,
                    c as int,
                    e,
                ) < cells.len(),
        decreases 6 - d,
    {
        let n: i32 = cell.neighbors_ids[d];
        assert(n == link(cells@, c as int, d as int));
        if n != OFF_BOARD && (n < 0 || n as usize >= cells.len()) {
            return false;
        }
        d += 1;
    }
    true
}

impl Board {
    /// The board invariant.
    pub open spec fn wf(&self) -> bool {
        cells_form_board(self@)
    }

    /// Builds a board from its cells, if they form one.
    pub fn new(cells: Vec<Cell>) -> (board: Option<Board>)
        ensures
            board is Some <==> cells_form_board(cells@),
            board is Some ==> board.unwrap()@ == cells@ && board.unwrap().wf(),
    {
        if Board::cells_are_board(&cells) {
            Some(Board { cells })
        } else {
            None
        }
    }

    /// Decides the board invariant for a sequence of cells.
    pub fn cells_are_board(cells: &Vec<Cell>) -> (ok: bool)
        ensures
            ok == cells_form_board(cells@),
    {
        if cells.len() > i32::MAX as usize {
            return false;
        }
        let mut c: usize = 0;
        while c < cells.len()
            invariant
                c <= cells.len() <= i32::MAX,
                forall|k: int| 0 <= k < c ==> #[trigger] cell_fits(cells@, k),
            decreases cells.len() - c,
        {
            if !cell_is_fitting(cells, c) {
                return false;
            }
            c += 1;
        }
        let mut c: usize = 0;
        while c < cells.len()
            invariant
                c <= cells.len() <= i32::MAX,
                forall|k: int| 0 <= k < cells.len() ==> #[trigger] cell_fits(cells@, k),
                forall|k: int, d: int|
                    0 <= k < c && 0 <= d < 6 ==> #[trigger] link_returns(cells@, k, d),
            decreases cells.len() - c,
        {
            if !cell_links_return(cells, c) {
                return false;
            }
            c += 1;
        }
        true
    }

    /// Number of cells.
    pub fn len(&self) -> (n: usize)
        ensures
            n == self@.len(),
    {
        self.cells.len()
    }

    /// The cell reached from `cell_index` in direction `direction`, or
    /// `OFF_BOARD`.
    pub fn neighbor(&self, cell_index: i32, direction: usize) -> (n: i32)
        requires
            self.wf(),
            0 <= cell_index < self@.len(),
            direction < 6,
        ensures
            n == link(self@, cell_index as int, direction as int),
            n == OFF_BOARD || 0 <= n < self@.len(),
    {
        assert(cell_fits(self@, cell_index as int));
        self.cells[cell_index as usize].neighbors_ids[direction]
    }

    /// Soil tier of a cell.
    pub fn richness(&self, cell_index: i32) -> (r: i32)
        requires
            self.wf(),
            0 <= cell_index < self@.len(),
        ensures
            r == self@[cell_index as int].richness,
            0 <= r <= MAX_RICHNESS,
    {
        assert(cell_fits(self@, cell_index as int));
        self.cells[cell_index as usize].richness
    }

    /// An independent copy of the board.
    pub fn duplicate(&self) -> (copy: Board)
        ensures
            copy@ == self@,
    {
        let mut cells: Vec<Cell> = Vec::new();
        let mut c: usize = 0;
        while c < self.cells.len()
            invariant
                c <= self.cells.len(),
                cells@ == self.cells@.take(c as int),
            decreases self.cells.len() - c,
        {
            cells.push(self.cells[c]);
            assert(self.cells@.take(c as int).push(self.cells@[c as int])
                == self.cells@.take(c + 1));
            c += 1;
        }
        assert(self.cells@.take(self.cells@.len() as int) == self.cells@);
        Board { cells }
    }
}

/// Neighbour symmetry: on a board, a step in some direction followed by a
/// step in the opposite direction leads back to the starting cell whenever
/// neither step leaves the board.
pub proof fn lemma_neighbor_symmetry(board: Board, c: int, d: int)
    requires
        board.wf(),
        0 <= c < board@.len(),
        0 <= d < 6,
        link(board@, c, d) != OFF_BOARD,
        link(board@, link(board@, c, d), opposite(d)) != OFF_BOARD,
    ensures
        link(board@, link(board@, c, d), opposite(d)) == c,
{
    assert(link_returns(board@, c, d));
}

} // verus!
