//! The rule that takes a cell from one generation to the next.

use vstd::prelude::*;
use crate::cell::CellType;
use crate::grid::{cell_at, materialized};
use crate::loc::Loc;

verus! {

/// How many of the listed positions hold exactly `kind`.
pub open spec fn count_of(grid: Map<Loc, CellType>, locs: Seq<Loc>, kind: CellType) -> nat
    decreases locs.len(),
{
    if locs.len() == 0 {
        0
    } else {
        count_of(grid, locs.drop_last(), kind) + if cell_at(grid, locs.last()) == kind {
            1nat
        } else {
            0nat
        }
    }
}

/// The number of red cells around a position.
pub open spec fn red_around(grid: Map<Loc, CellType>, loc: Loc) -> nat {
    count_of(grid, loc.neighbor_seq(), CellType::Red)
}

/// The number of blue cells around a position.
pub open spec fn blue_around(grid: Map<Loc, CellType>, loc: Loc) -> nat {
    count_of(grid, loc.neighbor_seq(), CellType::Blue)
}

/// The number of live cells around a position.
pub open spec fn alive_around(grid: Map<Loc, CellType>, loc: Loc) -> nat {
    red_around(grid, loc) + blue_around(grid, loc)
}

/// The next state of a cell that is `current` now and has `red` red and
/// `blue` blue cells around it. A live cell keeps its colour with two or
/// three live cells around it and dies otherwise. A dead cell comes alive
/// with exactly three, in the colour that most of them have.
pub open spec fn next_type(current: CellType, red: nat, blue: nat) -> CellType {
    if current.alive() {
        if red + blue == 2 || red + blue == 3 {
            current
        } else {
            CellType::Dead
        }
    } else if red + blue == 3 {
        if red > blue {
            CellType::Red
        } else {
            CellType::Blue
        }
    } else {
        CellType::Dead
    }
}

/// The next state of a position of a grid.
pub open spec fn next_state(grid: Map<Loc, CellType>, loc: Loc) -> CellType {
    next_type(cell_at(grid, loc), red_around(grid, loc), blue_around(grid, loc))
}

/// Whether a position is a live cell or has one beside it. Only such
/// positions can hold a live cell in the next generation.
pub open spec fn near_life(grid: Map<Loc, CellType>, loc: Loc) -> bool {
    cell_at(grid, loc).alive() || exists|n: Loc| #[trigger] loc.adjacent(n) && cell_at(grid, n).alive()
}

/// Whether a generation records a state for a position: it does so for
/// every cell that is alive before it or after it.
pub open spec fn touched(grid: Map<Loc, CellType>, loc: Loc) -> bool {
    cell_at(grid, loc).alive() || next_state(grid, loc).alive()
}

/// Whether a position has beside it a cell that is alive in the next
/// generation.
pub open spec fn beside_next_life(grid: Map<Loc, CellType>, loc: Loc) -> bool {
    exists|n: Loc| #[trigger] loc.adjacent(n) && next_state(grid, n).alive()
}

/// The buffer that one generation leaves behind, given the grid that it
/// reads and what the buffer under construction held before. Every cell that
/// is alive before or after gets its next state; around each cell that is
/// alive after, positions without an entry get a dead one; what the buffer
/// held elsewhere stays.
pub open spec fn stepped(current: Map<Loc, CellType>, staged: Map<Loc, CellType>) -> Map<
    Loc,
    CellType,
> {
    Map::new(
        |loc: Loc|
            staged.contains_key(loc) || touched(current, loc) || beside_next_life(current, loc),
        |loc: Loc|
            if touched(current, loc) {
                next_state(current, loc)
            } else {
                cell_at(staged, loc)
            },
    )
}

/// The buffer after `n` generations, each started with nothing staged.
pub open spec fn generations(grid: Map<Loc, CellType>, n: nat) -> Map<Loc, CellType>
    decreases n,
{
    if n == 0 {
        grid
    } else {
        stepped(generations(grid, (n - 1) as nat), Map::empty())
    }
}

/// Computes the next state of a cell from its state and the numbers of red
/// and blue cells around it.
pub fn next_cell(current: CellType, red: u8, blue: u8) -> (next: CellType)
    ensures
        next == next_type(current, red as nat, blue as nat),
{
    let total: u16 = red as u16 + blue as u16;
    let current_alive = current.is_alive();
    let will_be_alive = if current_alive {
        total == 2 || total == 3
    } else {
        total == 3
    };
    if will_be_alive {
        if current_alive {
            current
        } else if red > blue {
            CellType::Red
        } else if blue > red {
            CellType::Blue
        } else if red > 0 {
            CellType::Red
        } else {
            CellType::Blue
        }
    } else {
        CellType::Dead
    }
}

/// A live cell with two or three live cells around it stays as it is; with
/// any other number it dies.
pub proof fn lemma_survival(current: CellType, red: nat, blue: nat)
    requires
        current.alive(),
    ensures
        red + blue == 2 || red + blue == 3 ==> next_type(current, red, blue) == current,
        red + blue != 2 && red + blue != 3 ==> next_type(current, red, blue) == CellType::Dead,
{
}

/// A dead cell comes alive exactly when three live cells are around it.
pub proof fn lemma_birth(red: nat, blue: nat)
    ensures
        next_type(CellType::Dead, red, blue).alive() == (red + blue == 3),
{
}

/// Three live cells are never split evenly, so a newborn cell always takes
/// the colour of a strict majority: red with two or three red cells around
/// it, blue with two or three blue ones.
pub proof fn lemma_birth_majority(red: nat, blue: nat)
    requires
        red + blue == 3,
    ensures
        red != blue,
        next_type(CellType::Dead, red, blue) == CellType::Red <==> red >= 2,
        next_type(CellType::Dead, red, blue) == CellType::Blue <==> blue >= 2,
        red > blue <==> red >= 2,
        blue > red <==> blue >= 2,
{
}

/// A count over a list never exceeds the length of the list, and the red
/// and blue counts together do not either.
pub proof fn lemma_count_bounds(grid: Map<Loc, CellType>, locs: Seq<Loc>)
    ensures
        count_of(grid, locs, CellType::Red) + count_of(grid, locs, CellType::Blue) <= locs.len(),
    decreases locs.len(),
{
    if locs.len() > 0 {
        lemma_count_bounds(grid, locs.drop_last());
    }
}

/// Where a count is positive, one of the listed positions holds that state.
pub proof fn lemma_count_witness(grid: Map<Loc, CellType>, locs: Seq<Loc>, kind: CellType)
    requires
        count_of(grid, locs, kind) > 0,
    ensures
        exists|i: int| 0 <= i < locs.len() && cell_at(grid, #[trigger] locs[i]) == kind,
    decreases locs.len(),
{
    if cell_at(grid, locs.last()) == kind {
        assert(cell_at(grid, locs[locs.len() - 1]) == kind);
    } else {
        lemma_count_witness(grid, locs.drop_last(), kind);
        let i = choose|i: int|
            0 <= i < locs.drop_last().len() && cell_at(grid, #[trigger] locs.drop_last()[i])
                == kind;
        assert(locs[i] == locs.drop_last()[i]);
    }
}

/// A cell that is alive before or after a generation is a live cell or has
/// one beside it.
pub proof fn lemma_touched_near_life(grid: Map<Loc, CellType>, loc: Loc)
    requires
        touched(grid, loc),
    ensures
        near_life(grid, loc),
{
    if !cell_at(grid, loc).alive() {
        let locs = loc.neighbor_seq();
        let kind = if red_around(grid, loc) > 0 {
            CellType::Red
        } else {
            CellType::Blue
        };
        lemma_count_witness(grid, locs, kind);
        let i = choose|i: int| 0 <= i < locs.len() && cell_at(grid, #[trigger] locs[i]) == kind;
        loc.lemma_neighbor_seq_adjacent(locs[i]);
        assert(locs.contains(locs[i]));
        assert(loc.adjacent(locs[i]) && cell_at(grid, locs[i]).alive());
    }
}

/// A live cell with two or three live cells around it is, after a
/// generation, what it was before; with any other number it is dead.
pub proof fn lemma_stepped_live_cell(
    current: Map<Loc, CellType>,
    staged: Map<Loc, CellType>,
    loc: Loc,
)
    requires
        cell_at(current, loc).alive(),
    ensures
        alive_around(current, loc) == 2 || alive_around(current, loc) == 3 ==> cell_at(
            stepped(current, staged),
            loc,
        ) == cell_at(current, loc),
        alive_around(current, loc) != 2 && alive_around(current, loc) != 3 ==> cell_at(
            stepped(current, staged),
            loc,
        ) == CellType::Dead,
{
}

/// A dead cell with exactly three live cells around it is alive after a
/// generation. With any other number the generation does not write it: it
/// is then what the buffer under construction held for it, so it is dead
/// unless a live cell was staged there.
pub proof fn lemma_stepped_dead_cell(
    current: Map<Loc, CellType>,
    staged: Map<Loc, CellType>,
    loc: Loc,
)
    requires
        !cell_at(current, loc).alive(),
    ensures
        alive_around(current, loc) == 3 ==> cell_at(stepped(current, staged), loc).alive(),
        alive_around(current, loc) != 3 ==> cell_at(stepped(current, staged), loc) == cell_at(
            staged,
            loc,
        ),
        !cell_at(staged, loc).alive() ==> cell_at(stepped(current, staged), loc).alive() == (
        alive_around(current, loc) == 3),
{
}

/// A cell that is born takes the colour that two or three of the three
/// live cells around it have; the two colours are never tied.
pub proof fn lemma_stepped_birth_colour(
    current: Map<Loc, CellType>,
    staged: Map<Loc, CellType>,
    loc: Loc,
)
    requires
        !cell_at(current, loc).alive(),
        alive_around(current, loc) == 3,
    ensures
        red_around(current, loc) != blue_around(current, loc),
        red_around(current, loc) >= 2 ==> cell_at(stepped(current, staged), loc) == CellType::Red,
        blue_around(current, loc) >= 2 ==> cell_at(stepped(current, staged), loc)
            == CellType::Blue,
{
}

/// A generation keeps the buffer that it writes materialized: where every
/// live cell staged there had entries for its eight neighbours, every live
/// cell has them afterwards.
pub proof fn lemma_stepped_materialized(current: Map<Loc, CellType>, staged: Map<Loc, CellType>)
    requires
        materialized(staged),
    ensures
        materialized(stepped(current, staged)),
{
    let after = stepped(current, staged);
    assert forall|at: Loc, n: Loc|
        cell_at(after, at).alive() && #[trigger] at.adjacent(n) implies #[trigger] after.contains_key(
        n,
    ) by {
        if touched(current, at) {
            at.lemma_adjacent_symmetric(n);
            assert(n.adjacent(at) && next_state(current, at).alive());
        } else {
            assert(cell_at(staged, at).alive());
            assert(staged.contains_key(n));
        }
    }
}

} // verus!
