//! Grid coordinates and their eight neighbours.

use vstd::prelude::*;

verus! {

/// The coordinate after `x`, going round from `i64::MAX` to `i64::MIN`.
pub open spec fn succ(x: i64) -> i64 {
    if x == i64::MAX {
        i64::MIN
    } else {
        (x + 1) as i64
    }
}

/// The coordinate before `x`, going round from `i64::MIN` to `i64::MAX`.
pub open spec fn pred(x: i64) -> i64 {
    if x == i64::MIN {
        i64::MAX
    } else {
        (x - 1) as i64
    }
}

/// A position on the grid.
#[derive(PartialEq, Eq, Structural, Hash, Clone, Copy, Debug)]
pub struct Loc {
    pub row: i64,
    pub col: i64,
}

impl Loc {
    /// The eight positions around `self`, in the order in which
    /// [`Loc::neighbors`] lists them.
    pub open spec fn neighbor_seq(self) -> Seq<Loc> {
        seq![
            Loc { row: succ(self.row), col: succ(self.col) },
            Loc { row: succ(self.row), col: pred(self.col) },
            Loc { row: pred(self.row), col: succ(self.col) },
            Loc { row: pred(self.row), col: pred(self.col) },
            Loc { row: succ(self.row), col: self.col },
            Loc { row: self.row, col: succ(self.col) },
            Loc { row: pred(self.row), col: self.col },
            Loc { row: self.row, col: pred(self.col) },
        ]
    }

    /// Whether `other` is one of the eight positions around `self`.
    pub open spec fn adjacent(self, other: Loc) -> bool {
        &&& other != self
        &&& (other.row == self.row || other.row == succ(self.row) || other.row == pred(self.row))
        &&& (other.col == self.col || other.col == succ(self.col) || other.col == pred(self.col))
    }

    pub fn new(row: i64, col: i64) -> (r: Self)
        ensures
            r == (Loc { row, col }),
    {
        Self { row, col }
    }

    /// The eight neighbours of this position.
    pub fn neighbors(&self) -> (r: [Loc; 8])
        ensures
            r@ == self.neighbor_seq(),
    {
        let up: i64 = self.row.wrapping_add(1);
        let down: i64 = self.row.wrapping_sub(1);
        let right: i64 = self.col.wrapping_add(1);
        let left: i64 = self.col.wrapping_sub(1);
        let r = [
            Loc::new(up, right),
            Loc::new(up, left),
            Loc::new(down, right),
            Loc::new(down, left),
            Loc::new(up, self.col),
            Loc::new(self.row, right),
            Loc::new(down, self.col),
            Loc::new(self.row, left),
        ];
        assert(r@ =~= self.neighbor_seq());
        r
    }

    /// The neighbour list holds exactly the adjacent positions.
    pub proof fn lemma_neighbor_seq_adjacent(self, other: Loc)
        ensures
            self.neighbor_seq().len() == 8,
            self.neighbor_seq().contains(other) == self.adjacent(other),
    {
        let s = self.neighbor_seq();
        if self.adjacent(other) {
            assert(s[0] == other || s[1] == other || s[2] == other || s[3] == other
                || s[4] == other || s[5] == other || s[6] == other || s[7] == other);
        }
    }

    /// No position occurs twice among the eight neighbours, and none of
    /// them is the position itself.
    pub proof fn lemma_neighbor_seq_distinct(self)
        ensures
            self.neighbor_seq().no_duplicates(),
            !self.neighbor_seq().contains(self),
    {
    }

    /// Being a neighbour is mutual.
    pub proof fn lemma_adjacent_symmetric(self, other: Loc)
        ensures
            self.adjacent(other) == other.adjacent(self),
    {
    }
}

} // verus!
