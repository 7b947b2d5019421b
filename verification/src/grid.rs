//! Sparse grids as maps from positions to cell states, and what a write
//! does to one.

use vstd::prelude::*;
use crate::cell::CellType;
use crate::loc::Loc;

verus! {

/// The state of a position in a sparse grid: what the grid records for it,
/// and `Dead` where it records nothing.
pub open spec fn cell_at(grid: Map<Loc, CellType>, loc: Loc) -> CellType {
    if grid.contains_key(loc) {
        grid[loc]
    } else {
        CellType::Dead
    }
}

/// The grid after `cell` is written at `loc`: the position holds `cell`,
/// and around a live cell every position that had no entry gets a dead one.
/// Entries that were there stay as they are.
pub open spec fn written(grid: Map<Loc, CellType>, loc: Loc, cell: CellType) -> Map<
    Loc,
    CellType,
> {
    Map::new(
        |k: Loc| grid.contains_key(k) || k == loc || (cell.alive() && loc.adjacent(k)),
        |k: Loc|
            if k == loc {
                cell
            } else {
                cell_at(grid, k)
            },
    )
}

/// Whether every live cell of a grid has an entry for each of its eight
/// neighbours.
pub open spec fn materialized(grid: Map<Loc, CellType>) -> bool {
    forall|loc: Loc, n: Loc|
        cell_at(grid, loc).alive() && #[trigger] loc.adjacent(n) ==> #[trigger] grid.contains_key(n)
}

/// In a grid that nothing was written to, every cell is dead.
pub proof fn lemma_empty_is_dead(loc: Loc)
    ensures
        cell_at(Map::<Loc, CellType>::empty(), loc) == CellType::Dead,
        materialized(Map::<Loc, CellType>::empty()),
{
}

/// A write sets the state of its own position and changes the state of no
/// other: a cell that was never written is as dead as it was at the start.
pub proof fn lemma_written_states(grid: Map<Loc, CellType>, loc: Loc, cell: CellType, other: Loc)
    ensures
        cell_at(written(grid, loc, cell), loc) == cell,
        other != loc ==> cell_at(written(grid, loc, cell), other) == cell_at(grid, other),
{
}

/// After a live cell is written, each of its eight neighbours has an entry,
/// and no entry that was there is lost.
pub proof fn lemma_written_entries(grid: Map<Loc, CellType>, loc: Loc, cell: CellType, other: Loc)
    ensures
        written(grid, loc, cell).contains_key(loc),
        cell.alive() && loc.adjacent(other) ==> written(grid, loc, cell).contains_key(other),
        grid.contains_key(other) ==> written(grid, loc, cell).contains_key(other),
{
}

/// Writes keep a grid materialized: where every live cell had its eight
/// neighbours before a write, every live cell has them after it.
pub proof fn lemma_written_materialized(grid: Map<Loc, CellType>, loc: Loc, cell: CellType)
    requires
        materialized(grid),
    ensures
        materialized(written(grid, loc, cell)),
{
    let after = written(grid, loc, cell);
    assert forall|at: Loc, n: Loc|
        cell_at(after, at).alive() && #[trigger] at.adjacent(n) implies #[trigger] after.contains_key(
        n,
    ) by {
        if at != loc {
            assert(cell_at(grid, at).alive());
            assert(grid.contains_key(n));
        }
    }
}

} // verus!
