//! The light model: which trees stand in the shadow of another tree.

use crate::board::{link, Cell, OFF_BOARD};
use crate::state::{find_tree, forest_fits, structure_wf, GameState, Snapshot, Tree};
use vstd::prelude::*;

verus! {

/// The direction in which shadows fall on the given day. The light turns by
/// one direction a day, and a shadow falls opposite to where it comes from.
pub open spec fn sun_direction(day: int) -> int {
    ((day % 6) + 3) % 6
}

/// Whether a tree of at least `size` stands on `cell`.
pub open spec fn blocked_at(forest: Seq<Tree>, cell: int, size: int) -> bool {
    exists|i: int|
        0 <= i < forest.len() && (#[trigger] forest[i]).cell_index == cell && forest[i].size
            >= size
}

/// Whether a tree of at least `size` stands within `hops` links of `cell` in
/// direction `dir`. The walk ends where the board ends.
pub open spec fn shadow_on_ray(
    area: Seq<Cell>,
    forest: Seq<Tree>,
    dir: int,
    size: int,
    cell: int,
    hops: int,
) -> bool
    decreases hops,
{
    if hops <= 0 {
        false
    } else {
        let next = link(area, cell, dir);
        if next == OFF_BOARD {
            false
        } else if blocked_at(forest, next, size) {
            true
        } else {
            shadow_on_ray(area, forest, dir, size, next, hops - 1)
        }
    }
}

/// Whether a tree of the given size on the given cell is in shadow: a tree
/// that is at least as large stands within `size` links along today's light.
pub open spec fn is_shadowed(s: Snapshot, size: int, cell: int) -> bool {
    shadow_on_ray(s.area, s.forest, sun_direction(s.day), size, cell, size)
}

/// Walks up to `count` links from `cell_index` in direction `sun_index` and
/// reports whether a tree of at least `root_tree_size` is met.
pub fn check_neighbor(
    state: &GameState,
    root_tree_size: i32,
    sun_index: usize,
    cell_index: i32,
    count: i32,
) -> (shadowed: bool)
    requires
        structure_wf(state@),
        sun_index < 6,
        0 <= cell_index < state@.area.len(),
    ensures
        shadowed == shadow_on_ray(
            state@.area,
            state@.forest,
            sun_index as int,
            root_tree_size as int,
            cell_index as int,
            count as int,
        ),
    decreases count,
{
    if count <= 0 {
        return false;
    }
    let neighbor_index = state.area.neighbor(cell_index, sun_index);
    if neighbor_index == OFF_BOARD {
        return false;
    }
    match find_tree(&state.forest, neighbor_index) {
        Some(i) => {
            if state.forest[i].size >= root_tree_size {
                return true;
            }
            proof {
                lemma_only_tree_decides(
                    state@.area.len() as int,
                    state@.forest,
                    i as int,
                    root_tree_size as int,
                );
            }
        },
        None => {},
    }
    check_neighbor(state, root_tree_size, sun_index, neighbor_index, count - 1)
}

/// Where trees stand on distinct cells, the one tree on a cell decides
/// whether that cell blocks the light.
pub proof fn lemma_only_tree_decides(cells: int, forest: Seq<Tree>, i: int, size: int)
    requires
        forest_fits(cells, forest),
        0 <= i < forest.len(),
    ensures
        blocked_at(forest, forest[i].cell_index as int, size) == (forest[i].size >= size),
{
    if blocked_at(forest, forest[i].cell_index as int, size) {
        let j = choose|j: int|
            0 <= j < forest.len() && (#[trigger] forest[j]).cell_index == forest[i].cell_index
                && forest[j].size >= size;
        if j < i {
            assert(forest[j].cell_index != forest[i].cell_index);
        } else if i < j {
            assert(forest[i].cell_index != forest[j].cell_index);
        }
    }
}

/// Whether a tree of size `size` on `cell_index` is in shadow today.
pub fn get_is_shadowed(state: &GameState, size: i32, cell_index: i32) -> (shadowed: bool)
    requires
        structure_wf(state@),
        0 <= cell_index < state@.area.len(),
    ensures
        shadowed == is_shadowed(state@, size as int, cell_index as int),
{
    let sun_index: i32 = ((state.day % 6) + 3) % 6;
    check_neighbor(state, size, sun_index as usize, cell_index, size)
}

/// A longer walk and a lower bar only add shadow: what blocks a walk of
/// `hops` links for trees of `size` blocks a walk of `more_hops` links for
/// trees of `lower_size`.
pub proof fn lemma_shadow_on_ray_monotonic(
    area: Seq<Cell>,
    forest: Seq<Tree>,
    dir: int,
    size: int,
    lower_size: int,
    cell: int,
    hops: int,
    more_hops: int,
)
    requires
        lower_size <= size,
        hops <= more_hops,
        shadow_on_ray(area, forest, dir, size, cell, hops),
    ensures
        shadow_on_ray(area, forest, dir, lower_size, cell, more_hops),
    decreases hops,
{
    let next = link(area, cell, dir);
    if blocked_at(forest, next, size) {
        let i = choose|i: int|
            0 <= i < forest.len() && (#[trigger] forest[i]).cell_index == next && forest[i].size
                >= size;
        assert(forest[i].size >= lower_size);
    } else {
        lemma_shadow_on_ray_monotonic(
            area,
            forest,
            dir,
            size,
            lower_size,
            next,
            hops - 1,
            more_hops - 1,
        );
    }
}

/// No standing tree has a size from `low` up to, but not including, `high`.
pub open spec fn no_tree_between(forest: Seq<Tree>, low: int, high: int) -> bool {
    forall|i: int| 0 <= i < forest.len() ==> !(low <= (#[trigger] forest[i]).size < high)
}

/// Where no tree is smaller than `large`, a tree of that size finds on a walk
/// whatever a walk of the same length finds for `small`.
proof fn lemma_same_blockers(
    area: Seq<Cell>,
    forest: Seq<Tree>,
    dir: int,
    small: int,
    large: int,
    cell: int,
    hops: int,
)
    requires
        small <= large,
        no_tree_between(forest, small, large),
        shadow_on_ray(area, forest, dir, small, cell, hops),
    ensures
        shadow_on_ray(area, forest, dir, large, cell, hops),
    decreases hops,
{
    let next = link(area, cell, dir);
    if blocked_at(forest, next, small) {
        let i = choose|i: int|
            0 <= i < forest.len() && (#[trigger] forest[i]).cell_index == next && forest[i].size
                >= small;
        assert(forest[i].size >= large);
    } else {
        assert(!blocked_at(forest, next, large)) by {
            if blocked_at(forest, next, large) {
                let i = choose|i: int|
                    0 <= i < forest.len() && (#[trigger] forest[i]).cell_index == next
                        && forest[i].size >= large;
                assert(forest[i].size >= small);
            }
        }
        lemma_same_blockers(area, forest, dir, small, large, next, hops - 1);
    }
}

/// Shadow grows with tree size wherever the trees that could block the
/// smaller tree can block the larger one too: on a day and a cell on which a
/// tree of size `small` is in shadow, a tree of size `large` is in shadow as
/// well, provided no standing tree is at least `small` and less than `large`.
pub proof fn lemma_shadow_monotonic_in_size(s: Snapshot, small: int, large: int, cell: int)
    requires
        small <= large,
        no_tree_between(s.forest, small, large),
        is_shadowed(s, small, cell),
    ensures
        is_shadowed(s, large, cell),
{
    let dir = sun_direction(s.day);
    lemma_same_blockers(s.area, s.forest, dir, small, large, cell, small);
    lemma_shadow_on_ray_monotonic(s.area, s.forest, dir, large, large, cell, small, large);
}

} // verus!
