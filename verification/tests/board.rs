use forest_mcts::board::{Board, Cell, OFF_BOARD};

const STEPS: [(i32, i32, i32); 6] =
    [(1, -1, 0), (1, 0, -1), (0, 1, -1), (-1, 1, 0), (-1, 0, 1), (0, -1, 1)];

fn step(at: (i32, i32, i32), direction: usize) -> (i32, i32, i32) {
    let d = STEPS[direction];
    (at.0 + d.0, at.1 + d.1, at.2 + d.2)
}

/// The cells of a hexagonal board of the given radius, numbered from the
/// centre outwards in a spiral.
fn hex_cells(radius: i32) -> Vec<Cell> {
    let mut places: Vec<(i32, i32, i32)> = vec![(0, 0, 0)];
    let mut at = step((0, 0, 0), 0);
    for distance in 1..=radius {
        for side in 0..6 {
            for _ in 0..distance {
                places.push(at);
                at = step(at, (side + 2) % 6);
            }
        }
        at = step(at, 0);
    }
    let mut cells = Vec::new();
    for (index, place) in places.iter().enumerate() {
        let mut neighbors_ids = [OFF_BOARD; 6];
        for direction in 0..6 {
            let next = step(*place, direction);
            if let Some(found) = places.iter().position(|p| *p == next) {
                neighbors_ids[direction] = found as i32;
            }
        }
        let rank = place.0.abs().max(place.1.abs()).max(place.2.abs());
        cells.push(Cell { index: index as i32, richness: 3 - rank.min(2), neighbors_ids });
    }
    cells
}

#[test]
fn new_cell_is_blank() {
    let cell = Cell::new();
    assert_eq!(cell.index, 0);
    assert_eq!(cell.richness, 0);
    assert_eq!(cell.neighbors_ids, [-1; 6]);
}

#[test]
fn hex_board_of_37_cells_is_accepted() {
    let cells = hex_cells(3);
    assert_eq!(cells.len(), 37);
    let board = Board::new(cells).expect("the hex board is a board");
    assert_eq!(board.len(), 37);
    assert_eq!(board.richness(0), 3);
    assert_eq!(board.richness(36), 1);
}

#[test]
fn hex_board_links_return() {
    let board = Board::new(hex_cells(3)).unwrap();
    let mut links = 0;
    for c in 0..37 {
        for d in 0..6 {
            let n = board.neighbor(c, d);
            if n != OFF_BOARD {
                let back = board.neighbor(n, (d + 3) % 6);
                assert_eq!(back, c);
                links += 1;
            }
        }
    }
    // 37 cells with six links each, less the 42 links that leave the rim.
    assert_eq!(links, 37 * 6 - 42);
}

#[test]
fn centre_has_six_neighbours() {
    let board = Board::new(hex_cells(3)).unwrap();
    for d in 0..6 {
        assert_eq!(board.neighbor(0, d), d as i32 + 1);
    }
}

#[test]
fn single_cell_board_is_accepted() {
    let cell = Cell { index: 0, richness: 1, neighbors_ids: [-1; 6] };
    assert!(Board::new(vec![cell]).is_some());
}

#[test]
fn empty_board_is_accepted() {
    assert!(Board::cells_are_board(&Vec::new()));
}

#[test]
fn misplaced_cell_is_rejected() {
    let cell = Cell { index: 1, richness: 1, neighbors_ids: [-1; 6] };
    assert!(Board::new(vec![cell]).is_none());
}

#[test]
fn soil_out_of_range_is_rejected() {
    let rich = Cell { index: 0, richness: 4, neighbors_ids: [-1; 6] };
    assert!(Board::new(vec![rich]).is_none());
    let poor = Cell { index: 0, richness: -1, neighbors_ids: [-1; 6] };
    assert!(Board::new(vec![poor]).is_none());
}

#[test]
fn link_off_the_cells_is_rejected() {
    let cell = Cell { index: 0, richness: 1, neighbors_ids: [1, -1, -1, -1, -1, -1] };
    assert!(Board::new(vec![cell]).is_none());
    let cell = Cell { index: 0, richness: 1, neighbors_ids: [-2, -1, -1, -1, -1, -1] };
    assert!(Board::new(vec![cell]).is_none());
}

#[test]
fn one_way_link_is_accepted_where_the_way_back_leaves_the_board() {
    let a = Cell { index: 0, richness: 1, neighbors_ids: [1, -1, -1, -1, -1, -1] };
    let b = Cell { index: 1, richness: 1, neighbors_ids: [-1; 6] };
    assert!(Board::new(vec![a, b]).is_some());
}

#[test]
fn link_that_returns_elsewhere_is_rejected() {
    let a = Cell { index: 0, richness: 1, neighbors_ids: [1, -1, -1, -1, -1, -1] };
    let b = Cell { index: 1, richness: 1, neighbors_ids: [-1, -1, -1, 2, -1, -1] };
    let c = Cell { index: 2, richness: 1, neighbors_ids: [1, -1, -1, -1, -1, -1] };
    assert!(Board::new(vec![a, b, c]).is_none());
}

#[test]
fn duplicate_is_equal_cell_by_cell() {
    let board = Board::new(hex_cells(2)).unwrap();
    let copy = board.duplicate();
    assert_eq!(copy.len(), board.len());
    for c in 0..board.len() as i32 {
        assert_eq!(copy.richness(c), board.richness(c));
        for d in 0..6 {
            assert_eq!(copy.neighbor(c, d), board.neighbor(c, d));
        }
    }
}
