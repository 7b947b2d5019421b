//! Patterns that a generation leaves as they are.

use vstd::prelude::*;
use crate::cell::CellType;
use crate::grid::{cell_at, written};
use crate::loc::{succ, Loc};
use crate::rules::{
    alive_around, beside_next_life, count_of, generations, next_state, stepped,
};

verus! {

/// One where a position holds `kind`, zero where it does not.
pub open spec fn tally(grid: Map<Loc, CellType>, loc: Loc, kind: CellType) -> nat {
    if cell_at(grid, loc) == kind {
        1
    } else {
        0
    }
}

/// Counting over one more position of a list adds the tally of that
/// position.
proof fn lemma_count_take(grid: Map<Loc, CellType>, locs: Seq<Loc>, i: int, kind: CellType)
    requires
        0 <= i < locs.len(),
    ensures
        count_of(grid, locs.take(i + 1), kind) == count_of(grid, locs.take(i), kind) + tally(
            grid,
            locs[i],
            kind,
        ),
{
    assert(locs.take(i + 1).drop_last() =~= locs.take(i));
    assert(locs.take(i + 1).last() == locs[i]);
}

/// The count around a position is the sum over its eight neighbours.
pub proof fn lemma_count_around(grid: Map<Loc, CellType>, loc: Loc, kind: CellType)
    ensures
        count_of(grid, loc.neighbor_seq(), kind) == tally(grid, loc.neighbor_seq()[0], kind)
            + tally(grid, loc.neighbor_seq()[1], kind) + tally(grid, loc.neighbor_seq()[2], kind)
            + tally(grid, loc.neighbor_seq()[3], kind) + tally(grid, loc.neighbor_seq()[4], kind)
            + tally(grid, loc.neighbor_seq()[5], kind) + tally(grid, loc.neighbor_seq()[6], kind)
            + tally(grid, loc.neighbor_seq()[7], kind),
{
    let s = loc.neighbor_seq();
    assert(s.take(8) =~= s);
    assert(count_of(grid, s.take(0), kind) == 0);
    lemma_count_take(grid, s, 0, kind);
    lemma_count_take(grid, s, 1, kind);
    lemma_count_take(grid, s, 2, kind);
    lemma_count_take(grid, s, 3, kind);
    lemma_count_take(grid, s, 4, kind);
    lemma_count_take(grid, s, 5, kind);
    lemma_count_take(grid, s, 6, kind);
    lemma_count_take(grid, s, 7, kind);
}

/// The four positions of the square whose top left corner is `corner`.
pub open spec fn in_block(corner: Loc, loc: Loc) -> bool {
    &&& (loc.row == corner.row || loc.row == succ(corner.row))
    &&& (loc.col == corner.col || loc.col == succ(corner.col))
}

/// The buffer that holds a square of four cells of one colour after each
/// of them was written into an empty buffer.
pub open spec fn block(corner: Loc, colour: CellType) -> Map<Loc, CellType> {
    let right = Loc { row: corner.row, col: succ(corner.col) };
    let below = Loc { row: succ(corner.row), col: corner.col };
    let across = Loc { row: succ(corner.row), col: succ(corner.col) };
    written(
        written(written(written(Map::empty(), corner, colour), right, colour), below, colour),
        across,
        colour,
    )
}

/// The cells of a block are the four of the square; every other cell is
/// dead.
pub proof fn lemma_block_cells(corner: Loc, colour: CellType, loc: Loc)
    ensures
        cell_at(block(corner, colour), loc) == if in_block(corner, loc) {
            colour
        } else {
            CellType::Dead
        },
{
}

/// In a block each of the four cells has the other three around it, and
/// no other position has three live cells around it: the next state of
/// every position is its present one.
pub proof fn lemma_block_next_state(corner: Loc, colour: CellType, loc: Loc)
    requires
        colour.alive(),
    ensures
        next_state(block(corner, colour), loc) == cell_at(block(corner, colour), loc),
        in_block(corner, loc) ==> alive_around(block(corner, colour), loc) == 3,
        !in_block(corner, loc) ==> alive_around(block(corner, colour), loc) <= 2,
{
    let grid = block(corner, colour);
    let around = loc.neighbor_seq();
    lemma_count_around(grid, loc, CellType::Red);
    lemma_count_around(grid, loc, CellType::Blue);
    lemma_block_cells(corner, colour, loc);
    lemma_block_cells(corner, colour, around[0]);
    lemma_block_cells(corner, colour, around[1]);
    lemma_block_cells(corner, colour, around[2]);
    lemma_block_cells(corner, colour, around[3]);
    lemma_block_cells(corner, colour, around[4]);
    lemma_block_cells(corner, colour, around[5]);
    lemma_block_cells(corner, colour, around[6]);
    lemma_block_cells(corner, colour, around[7]);
}

/// A block is a still life: a generation that starts from it, with
/// nothing staged, ends in the same buffer, entry for entry.
pub proof fn lemma_block_is_still(corner: Loc, colour: CellType)
    requires
        colour.alive(),
    ensures
        stepped(block(corner, colour), Map::empty()) == block(corner, colour),
{
    let grid = block(corner, colour);
    let after = stepped(grid, Map::empty());
    assert forall|loc: Loc| after.contains_key(loc) == grid.contains_key(loc) by {
        lemma_block_cells(corner, colour, loc);
        lemma_block_next_state(corner, colour, loc);
        if beside_next_life(grid, loc) {
            let n = choose|n: Loc| #[trigger] loc.adjacent(n) && next_state(grid, n).alive();
            lemma_block_next_state(corner, colour, n);
            lemma_block_cells(corner, colour, n);
            loc.lemma_adjacent_symmetric(n);
        }
        if grid.contains_key(loc) && !in_block(corner, loc) {
            let n = if corner.adjacent(loc) {
                corner
            } else if (Loc { row: corner.row, col: succ(corner.col) }).adjacent(loc) {
                Loc { row: corner.row, col: succ(corner.col) }
            } else if (Loc { row: succ(corner.row), col: corner.col }).adjacent(loc) {
                Loc { row: succ(corner.row), col: corner.col }
            } else {
                Loc { row: succ(corner.row), col: succ(corner.col) }
            };
            lemma_block_next_state(corner, colour, n);
            lemma_block_cells(corner, colour, n);
            loc.lemma_adjacent_symmetric(n);
            assert(loc.adjacent(n) && next_state(grid, n).alive());
        }
    }
    assert forall|loc: Loc| after.contains_key(loc) implies after[loc] == grid[loc] by {
        lemma_block_cells(corner, colour, loc);
        lemma_block_next_state(corner, colour, loc);
    }
    assert(after =~= grid);
}

/// A block stays what it is through any number of generations.
pub proof fn lemma_block_stays_still(corner: Loc, colour: CellType, n: nat)
    requires
        colour.alive(),
    ensures
        generations(block(corner, colour), n) == block(corner, colour),
    decreases n,
{
    if n > 0 {
        lemma_block_stays_still(corner, colour, (n - 1) as nat);
        lemma_block_is_still(corner, colour);
    }
}

} // verus!
