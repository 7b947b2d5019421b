//! The world: two sparse buffers, one shown and one being written.

use std::collections::HashMap;
use std::collections::HashSet;
use vstd::prelude::*;
use vstd::std_specs::hash::*;
use vstd::std_specs::iter::IteratorSpec;
use crate::cell::CellType;
use crate::key::{
    decode, encode, key_of, lemma_key_injective, lemma_key_of_loc, lemma_loc_of_key, loc_of,
};
use crate::grid::{
    cell_at, lemma_empty_is_dead, lemma_written_materialized, materialized, written,
};
use crate::loc::Loc;
use crate::rules::{
    beside_next_life, blue_around, count_of, lemma_count_bounds, lemma_stepped_materialized,
    lemma_touched_near_life, near_life, next_cell, next_state, red_around, stepped, touched,
};

verus! {

broadcast use vstd::std_specs::hash::group_hash_axioms;

/// A sparse, double-buffered grid of cells. Reads see the current buffer;
/// a generation is built in the other one and then promoted.
pub struct World {
    buffer_1: HashMap<u128, CellType>,
    buffer_2: HashMap<u128, CellType>,
    using_buffer_1: bool,
}

/// The grid that a buffer holds, position by position.
spec fn grid_of(buffer: Map<u128, CellType>) -> Map<Loc, CellType> {
    Map::new(|loc: Loc| buffer.contains_key(key_of(loc)), |loc: Loc| buffer[key_of(loc)])
}

/// An empty buffer holds the empty grid.
proof fn lemma_grid_of_empty()
    ensures
        grid_of(Map::<u128, CellType>::empty()) == Map::<Loc, CellType>::empty(),
{
    assert(grid_of(Map::<u128, CellType>::empty()) =~= Map::<Loc, CellType>::empty());
}

/// Writes `cell_type` at `loc` into a buffer and, where it is alive, gives
/// each neighbour without an entry a dead one.
fn write_cell(buffer: &mut HashMap<u128, CellType>, loc: &Loc, cell_type: CellType)
    ensures
        grid_of(final(buffer)@) == written(grid_of(old(buffer)@), *loc, cell_type),
{
    let ghost before = buffer@;
    let key = encode(loc);
    buffer.insert(key, cell_type);
    if cell_type.is_alive() {
        let neighbors = loc.neighbors();
        let mut i: usize = 0;
        while i < 8
            invariant
                i <= 8,
                key == key_of(*loc),
                neighbors@ == loc.neighbor_seq(),
                buffer@.contains_key(key),
                forall|k: u128| before.contains_key(k) ==> #[trigger] buffer@.contains_key(k),
                forall|j: int| 0 <= j < i ==> buffer@.contains_key(#[trigger] key_of(neighbors@[j])),
                forall|k: u128| #[trigger]
                    buffer@.contains_key(k) ==> before.contains_key(k) || k == key
                        || loc.neighbor_seq().contains(loc_of(k)),
                forall|k: u128| #[trigger]
                    buffer@.contains_key(k) ==> buffer@[k] == if k == key {
                        cell_type
                    } else if before.contains_key(k) {
                        before[k]
                    } else {
                        CellType::Dead
                    },
            decreases 8 - i,
        {
            let neighbor_key = encode(&neighbors[i]);
            proof {
                lemma_loc_of_key(neighbors@[i as int]);
                loc.lemma_neighbor_seq_distinct();
                lemma_key_injective(neighbors@[i as int], *loc);
            }
            buffer.entry(neighbor_key).or_insert(CellType::Dead);
            i += 1;
        }
    }
    proof {
        let after = grid_of(buffer@);
        let expected = written(grid_of(before), *loc, cell_type);
        assert forall|k: Loc| after.contains_key(k) == expected.contains_key(k) by {
            lemma_loc_of_key(k);
            lemma_key_injective(k, *loc);
            loc.lemma_neighbor_seq_adjacent(k);
            if cell_type.alive() && loc.adjacent(k) {
                let j = choose|j: int|
                    0 <= j < loc.neighbor_seq().len() && loc.neighbor_seq()[j] == k;
                assert(buffer@.contains_key(key_of(loc.neighbor_seq()[j])));
            }
        }
        assert forall|k: Loc| after.contains_key(k) implies after[k] == expected[k] by {
            lemma_key_injective(k, *loc);
        }
        assert(after =~= expected);
    }
}

/// Reads a buffer at a position; `Dead` where it has no entry.
fn read_cell(buffer: &HashMap<u128, CellType>, loc: &Loc) -> (cell: CellType)
    ensures
        cell == cell_at(grid_of(buffer@), *loc),
{
    let key = encode(loc);
    match buffer.get(&key) {
        Some(cell) => *cell,
        None => CellType::Dead,
    }
}

/// Adds a position and its eight neighbours to a set of candidates.
fn add_with_neighbors(candidates: &mut HashSet<u128>, loc: &Loc)
    ensures
        forall|k: Loc|
            final(candidates)@.contains(#[trigger] key_of(k)) == (old(candidates)@.contains(
                key_of(k),
            ) || k == *loc || loc.adjacent(k)),
{
    let ghost before = candidates@;
    let key = encode(loc);
    candidates.insert(key);
    let neighbors = loc.neighbors();
    let mut i: usize = 0;
    while i < 8
        invariant
            i <= 8,
            neighbors@ == loc.neighbor_seq(),
            candidates@.contains(key_of(*loc)),
            forall|k: u128| before.contains(k) ==> #[trigger] candidates@.contains(k),
            forall|j: int| 0 <= j < i ==> candidates@.contains(#[trigger] key_of(neighbors@[j])),
            forall|k: u128| #[trigger]
                candidates@.contains(k) ==> before.contains(k) || k == key_of(*loc)
                    || loc.neighbor_seq().contains(loc_of(k)),
        decreases 8 - i,
    {
        let neighbor_key = encode(&neighbors[i]);
        proof {
            lemma_loc_of_key(neighbors@[i as int]);
        }
        candidates.insert(neighbor_key);
        i += 1;
    }
    proof {
        assert forall|k: Loc|
            candidates@.contains(#[trigger] key_of(k)) == (before.contains(key_of(k)) || k == *loc
                || loc.adjacent(k)) by {
            lemma_loc_of_key(k);
            lemma_key_injective(k, *loc);
            loc.lemma_neighbor_seq_adjacent(k);
            if loc.adjacent(k) {
                let j = choose|j: int|
                    0 <= j < loc.neighbor_seq().len() && loc.neighbor_seq()[j] == k;
                assert(candidates@.contains(key_of(neighbors@[j])));
            }
        }
    }
}

/// Collects the positions that can change in a generation: every live cell
/// of the buffer and the eight positions around it.
fn candidates_of(buffer: &HashMap<u128, CellType>) -> (candidates: HashSet<u128>)
    ensures
        forall|loc: Loc|
            candidates@.contains(#[trigger] key_of(loc)) == near_life(grid_of(buffer@), loc),
{
    let ghost grid = grid_of(buffer@);
    let mut candidates: HashSet<u128> = HashSet::new();
    for entry in it: buffer.iter()
        invariant
            grid == grid_of(buffer@),
            it.seq() == spec_hash_map_iter(buffer).remaining(),
            forall|loc: Loc| candidates@.contains(#[trigger] key_of(loc)) ==> near_life(grid, loc),
            forall|j: int|
                0 <= j < it.index() && (*(#[trigger] it.seq()[j]).1).alive()
                    ==> candidates@.contains(*it.seq()[j].0),
            forall|j: int, loc: Loc|
                0 <= j < it.index() && (*it.seq()[j].1).alive() && #[trigger] loc_of(
                    *it.seq()[j].0,
                ).adjacent(loc) ==> candidates@.contains(key_of(loc)),
    {
        let loc = decode(*entry.0);
        proof {
            lemma_key_of_loc(*entry.0);
            assert(buffer@.contains_key(*entry.0) && buffer@[*entry.0] == *entry.1);
            assert(cell_at(grid, loc) == *entry.1);
        }
        if entry.1.is_alive() {
            let ghost before = candidates@;
            add_with_neighbors(&mut candidates, &loc);
            proof {
                assert forall|k: u128| before.contains(k) implies candidates@.contains(k) by {
                    lemma_key_of_loc(k);
                }
                assert(candidates@.contains(key_of(loc)));
                assert forall|k: Loc| candidates@.contains(#[trigger] key_of(k)) implies near_life(
                    grid,
                    k,
                ) by {
                    if !before.contains(key_of(k)) && k != loc {
                        loc.lemma_adjacent_symmetric(k);
                        assert(k.adjacent(loc));
                    }
                }
            }
        }
    }
    proof {
        let seq = spec_hash_map_iter(buffer).remaining();
        assert forall|loc: Loc| near_life(grid, loc) implies candidates@.contains(
            #[trigger] key_of(loc),
        ) by {
            let source = if cell_at(grid, loc).alive() {
                loc
            } else {
                choose|n: Loc| #[trigger] loc.adjacent(n) && cell_at(grid, n).alive()
            };
            let k = key_of(source);
            lemma_loc_of_key(source);
            loc.lemma_adjacent_symmetric(source);
            assert(buffer@.contains_key(k));
            assert(seq.contains((&k, &buffer@[k])));
            let j = choose|j: int| 0 <= j < seq.len() && seq[j] == (&k, &buffer@[k]);
            assert(*seq[j].0 == k && (*seq[j].1).alive());
            if source != loc {
                assert(loc_of(*seq[j].0).adjacent(loc));
            } else {
                assert(candidates@.contains(*seq[j].0));
            }
        }
    }
    candidates
}

/// Counts the red and the blue cells around a position.
fn count_around(buffer: &HashMap<u128, CellType>, loc: &Loc) -> (counts: (u8, u8))
    ensures
        counts.0 == red_around(grid_of(buffer@), *loc),
        counts.1 == blue_around(grid_of(buffer@), *loc),
{
    let ghost grid = grid_of(buffer@);
    let neighbors = loc.neighbors();
    let mut red_neighbors: u8 = 0;
    let mut blue_neighbors: u8 = 0;
    let mut i: usize = 0;
    while i < 8
        invariant
            i <= 8,
            grid == grid_of(buffer@),
            neighbors@ == loc.neighbor_seq(),
            red_neighbors == count_of(grid, neighbors@.take(i as int), CellType::Red),
            blue_neighbors == count_of(grid, neighbors@.take(i as int), CellType::Blue),
        decreases 8 - i,
    {
        proof {
            let longer = neighbors@.take(i + 1);
            assert(longer.drop_last() =~= neighbors@.take(i as int));
            assert(longer.last() == neighbors@[i as int]);
            lemma_count_bounds(grid, neighbors@.take(i as int));
        }
        match read_cell(buffer, &neighbors[i]) {
            CellType::Red => red_neighbors += 1,
            CellType::Blue => blue_neighbors += 1,
            CellType::Dead => {},
        }
        i += 1;
    }
    proof {
        assert(neighbors@.take(8) =~= neighbors@);
    }
    (red_neighbors, blue_neighbors)
}

/// Whether a list of states has an entry for a position.
spec fn listed(states: Seq<(Loc, CellType)>, loc: Loc) -> bool {
    exists|e: int| 0 <= e < states.len() && (#[trigger] states[e]).0 == loc
}

/// Works out the next state of each candidate, and lists those that are
/// alive before or after: the others stay dead and need no entry.
fn next_states_of(buffer: &HashMap<u128, CellType>, candidates: &HashSet<u128>) -> (states: Vec<
    (Loc, CellType),
>)
    ensures
        forall|e: int|
            0 <= e < states@.len() ==> touched(grid_of(buffer@), (#[trigger] states@[e]).0)
                && states@[e].1 == next_state(grid_of(buffer@), states@[e].0),
        forall|loc: Loc|
            candidates@.contains(#[trigger] key_of(loc)) && touched(grid_of(buffer@), loc)
                ==> listed(states@, loc),
{
    let ghost grid = grid_of(buffer@);
    let mut next_states: Vec<(Loc, CellType)> = Vec::new();
    for key in it: candidates.iter()
        invariant
            grid == grid_of(buffer@),
            it.seq() == spec_hash_keys_iter(candidates).remaining(),
            forall|e: int|
                0 <= e < next_states@.len() ==> touched(grid, (#[trigger] next_states@[e]).0)
                    && next_states@[e].1 == next_state(grid, next_states@[e].0),
            forall|j: int|
                0 <= j < it.index() && touched(grid, loc_of(*#[trigger] it.seq()[j])) ==> listed(
                    next_states@,
                    loc_of(*it.seq()[j]),
                ),
    {
        let loc = decode(*key);
        let current_type = read_cell(buffer, &loc);
        let current_alive = current_type.is_alive();
        let (red_neighbors, blue_neighbors) = count_around(buffer, &loc);
        let next_type = next_cell(current_type, red_neighbors, blue_neighbors);
        let ghost before = next_states@;
        if next_type.is_alive() || current_alive {
            next_states.push((loc, next_type));
            proof {
                assert(next_states@[before.len() as int].0 == loc);
                assert forall|l: Loc| listed(before, l) implies listed(next_states@, l) by {
                    let e = choose|e: int| 0 <= e < before.len() && (#[trigger] before[e]).0 == l;
                    assert(next_states@[e].0 == l);
                }
            }
        }
    }
    proof {
        let seq = spec_hash_keys_iter(candidates).remaining();
        assert forall|loc: Loc|
            candidates@.contains(#[trigger] key_of(loc)) && touched(grid, loc) implies listed(
            next_states@,
            loc,
        ) by {
            let k = key_of(loc);
            lemma_loc_of_key(loc);
            assert(seq.unref().to_set().contains(k));
            assert(seq.unref().contains(k));
            let j = choose|j: int| 0 <= j < seq.unref().len() && seq.unref()[j] == k;
            assert(*seq[j] == k);
        }
    }
    next_states
}

impl World {
    /// The grid that reads see. A position without an entry is dead.
    pub closed spec fn current_map(&self) -> Map<Loc, CellType> {
        if self.using_buffer_1 {
            grid_of(self.buffer_1@)
        } else {
            grid_of(self.buffer_2@)
        }
    }

    /// The grid that is being built for the next generation.
    pub closed spec fn next_map(&self) -> Map<Loc, CellType> {
        if self.using_buffer_1 {
            grid_of(self.buffer_2@)
        } else {
            grid_of(self.buffer_1@)
        }
    }

    /// Whether, in both buffers, every live cell has an entry for each of
    /// its eight neighbours. A new world is well formed, and every
    /// operation keeps a world so.
    pub open spec fn well_formed(&self) -> bool {
        materialized(self.current_map()) && materialized(self.next_map())
    }

    /// An empty world: both buffers hold nothing, so every cell is dead.
    pub fn new() -> (world: World)
        ensures
            world.current_map() == Map::<Loc, CellType>::empty(),
            world.next_map() == Map::<Loc, CellType>::empty(),
            world.well_formed(),
    {
        proof {
            lemma_grid_of_empty();
            lemma_empty_is_dead(Loc { row: 0, col: 0 });
        }
        Self { buffer_1: HashMap::new(), buffer_2: HashMap::new(), using_buffer_1: true }
    }

    fn active_buffer(&self) -> (buffer: &HashMap<u128, CellType>)
        ensures
            grid_of(buffer@) == self.current_map(),
    {
        if self.using_buffer_1 {
            &self.buffer_1
        } else {
            &self.buffer_2
        }
    }

    fn current_buffer_mut(&mut self) -> (buffer: &mut HashMap<u128, CellType>)
        ensures
            grid_of(buffer@) == old(self).current_map(),
            final(self).current_map() == grid_of(final(buffer)@),
            final(self).next_map() == old(self).next_map(),
    {
        if self.using_buffer_1 {
            &mut self.buffer_1
        } else {
            &mut self.buffer_2
        }
    }

    fn next_buffer(&mut self) -> (buffer: &mut HashMap<u128, CellType>)
        ensures
            grid_of(buffer@) == old(self).next_map(),
            final(self).next_map() == grid_of(final(buffer)@),
            final(self).current_map() == old(self).current_map(),
    {
        if self.using_buffer_1 {
            &mut self.buffer_2
        } else {
            &mut self.buffer_1
        }
    }

    /// The entries of the current buffer, each position once, in no
    /// particular order.
    pub fn current_buffer(&self) -> (cells: Vec<(Loc, CellType)>)
        ensures
            cells@.no_duplicates(),
            cells@.to_set() == self.current_map().kv_pairs(),
    {
        let buffer = self.active_buffer();
        let ghost grid = grid_of(buffer@);
        let mut cells: Vec<(Loc, CellType)> = Vec::new();
        for entry in it: buffer.iter()
            invariant
                grid == grid_of(buffer@),
                it.seq() == spec_hash_map_iter(buffer).remaining(),
                it.seq().no_duplicates(),
                cells@.len() == it.index(),
                forall|j: int|
                    0 <= j < it.index() ==> #[trigger] cells@[j] == (
                        loc_of(*it.seq()[j].0),
                        *it.seq()[j].1,
                    ),
        {
            cells.push((decode(*entry.0), *entry.1));
        }
        proof {
            let seq = spec_hash_map_iter(buffer).remaining();
            assert forall|i: int, j: int| 0 <= i < j < cells@.len() implies cells@[i]
                != cells@[j] by {
                lemma_key_of_loc(*seq[i].0);
                lemma_key_of_loc(*seq[j].0);
                assert(seq[i] != seq[j]);
            }
            assert forall|pair: (Loc, CellType)| cells@.to_set().contains(pair)
                == grid.kv_pairs().contains(pair) by {
                if cells@.contains(pair) {
                    let j = choose|j: int| 0 <= j < cells@.len() && cells@[j] == pair;
                    lemma_key_of_loc(*seq[j].0);
                    assert(buffer@.contains_key(*seq[j].0));
                }
                if grid.kv_pairs().contains(pair) {
                    let k = key_of(pair.0);
                    lemma_loc_of_key(pair.0);
                    assert(seq.contains((&k, &buffer@[k])));
                    let j = choose|j: int| 0 <= j < seq.len() && seq[j] == (&k, &buffer@[k]);
                    assert(cells@[j] == pair);
                }
            }
            assert(cells@.to_set() =~= grid.kv_pairs());
        }
        cells
    }

    /// The state of the cell at `loc` in the current buffer; `Dead` where
    /// the buffer has no entry.
    pub fn get(&self, loc: &Loc) -> (cell: CellType)
        ensures
            cell == cell_at(self.current_map(), *loc),
    {
        read_cell(self.active_buffer(), loc)
    }

    /// Writes a cell of the generation under construction. The current
    /// buffer is left alone.
    pub fn set(&mut self, loc: &Loc, cell_type: CellType)
        ensures
            final(self).next_map() == written(old(self).next_map(), *loc, cell_type),
            final(self).current_map() == old(self).current_map(),
            cell_type.alive() ==> forall|k: Loc| #[trigger]
                loc.adjacent(k) ==> final(self).next_map().contains_key(k),
            old(self).well_formed() ==> final(self).well_formed(),
    {
        proof {
            if self.well_formed() {
                lemma_written_materialized(self.next_map(), *loc, cell_type);
            }
        }
        let next_buffer = self.next_buffer();
        write_cell(next_buffer, loc, cell_type);
    }

    /// Writes a cell of the current buffer, so that the change is seen at
    /// once. The buffer under construction is left alone.
    pub fn set_cell_now(&mut self, loc: &Loc, cell_type: CellType)
        ensures
            final(self).current_map() == written(old(self).current_map(), *loc, cell_type),
            final(self).next_map() == old(self).next_map(),
            cell_type.alive() ==> forall|k: Loc| #[trigger]
                loc.adjacent(k) ==> final(self).current_map().contains_key(k),
            old(self).well_formed() ==> final(self).well_formed(),
    {
        proof {
            if self.well_formed() {
                lemma_written_materialized(self.current_map(), *loc, cell_type);
            }
        }
        let current_buffer = self.current_buffer_mut();
        write_cell(current_buffer, loc, cell_type);
    }

    /// Makes the cell at `loc` a red one in the current buffer.
    pub fn set_alive_now(&mut self, loc: &Loc)
        ensures
            final(self).current_map() == written(old(self).current_map(), *loc, CellType::Red),
            final(self).next_map() == old(self).next_map(),
            forall|k: Loc| #[trigger] loc.adjacent(k) ==> final(self).current_map().contains_key(k),
            old(self).well_formed() ==> final(self).well_formed(),
    {
        self.set_cell_now(loc, CellType::Red);
    }

    /// Promotes the buffer under construction to current, and empties the
    /// other one for the generation after it.
    pub fn swap_buffers_and_clear(&mut self)
        ensures
            final(self).current_map() == old(self).next_map(),
            final(self).next_map() == Map::<Loc, CellType>::empty(),
            old(self).well_formed() ==> final(self).well_formed(),
    {
        self.using_buffer_1 = !self.using_buffer_1;
        self.next_buffer().clear();
        proof {
            lemma_grid_of_empty();
            lemma_empty_is_dead(Loc { row: 0, col: 0 });
        }
    }

    /// Advances the world by one generation. Every cell's next state is
    /// worked out from the current buffer alone; the states are then written
    /// into the other buffer, which becomes the current one.
    pub fn step(&mut self)
        ensures
            final(self).current_map() == stepped(old(self).current_map(), old(self).next_map()),
            final(self).next_map() == Map::<Loc, CellType>::empty(),
            old(self).well_formed() ==> final(self).well_formed(),
    {
        let ghost current = self.current_map();
        let ghost staged = self.next_map();
        proof {
            lemma_empty_is_dead(Loc { row: 0, col: 0 });
            if self.well_formed() {
                lemma_stepped_materialized(current, staged);
            }
        }
        let current_buffer = self.active_buffer();
        let candidates = candidates_of(current_buffer);
        let next_states = next_states_of(current_buffer, &candidates);
        proof {
            assert forall|loc: Loc| touched(current, loc) implies listed(next_states@, loc) by {
                lemma_touched_near_life(current, loc);
            }
        }

        let mut i: usize = 0;
        while i < next_states.len()
            invariant
                i <= next_states@.len(),
                self.current_map() == current,
                forall|e: int|
                    0 <= e < next_states@.len() ==> touched(current, (#[trigger] next_states@[e]).0)
                        && next_states@[e].1 == next_state(current, next_states@[e].0),
                forall|loc: Loc|
                    staged.contains_key(loc) ==> #[trigger] self.next_map().contains_key(loc),
                forall|e: int|
                    0 <= e < i ==> self.next_map().contains_key((#[trigger] next_states@[e]).0)
                        && self.next_map()[next_states@[e].0] == next_states@[e].1,
                forall|e: int, loc: Loc|
                    0 <= e < i && next_states@[e].1.alive() && #[trigger] next_states@[e].0.adjacent(
                        loc,
                    ) ==> self.next_map().contains_key(loc),
                forall|loc: Loc| #[trigger]
                    self.next_map().contains_key(loc) ==> staged.contains_key(loc) || touched(
                        current,
                        loc,
                    ) || beside_next_life(current, loc),
                forall|loc: Loc| #[trigger]
                    self.next_map().contains_key(loc) && !touched(current, loc)
                        ==> self.next_map()[loc] == cell_at(staged, loc),
            decreases next_states@.len() - i,
        {
            let loc = next_states[i].0;
            let next_type = next_states[i].1;
            let ghost before = self.next_map();
            self.set(&loc, next_type);
            proof {
                assert forall|k: Loc| #[trigger] self.next_map().contains_key(k) implies (
                staged.contains_key(k) || touched(current, k) || beside_next_life(current, k)) by {
                    if !before.contains_key(k) && k != loc {
                        loc.lemma_adjacent_symmetric(k);
                        assert(k.adjacent(loc) && next_state(current, loc).alive());
                    }
                }
            }
            i += 1;
        }

        self.swap_buffers_and_clear();
        proof {
            let expected = stepped(current, staged);
            let after = self.current_map();
            assert forall|loc: Loc| expected.contains_key(loc) implies after.contains_key(loc) by {
                if staged.contains_key(loc) {
                } else if touched(current, loc) {
                    let e = choose|e: int|
                        0 <= e < next_states@.len() && (#[trigger] next_states@[e]).0 == loc;
                    assert(after.contains_key(next_states@[e].0));
                } else {
                    let n = choose|n: Loc| #[trigger]
                        loc.adjacent(n) && next_state(current, n).alive();
                    assert(touched(current, n));
                    let e = choose|e: int|
                        0 <= e < next_states@.len() && (#[trigger] next_states@[e]).0 == n;
                    loc.lemma_adjacent_symmetric(n);
                    assert(next_states@[e].0.adjacent(loc));
                }
            }
            assert forall|loc: Loc| after.contains_key(loc) implies after[loc] == expected[loc] by {
                if touched(current, loc) {
                    let e = choose|e: int|
                        0 <= e < next_states@.len() && (#[trigger] next_states@[e]).0 == loc;
                    assert(after[next_states@[e].0] == next_states@[e].1);
                }
            }
            assert(after =~= expected);
        }
    }
}

} // verus!
