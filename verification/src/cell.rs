//! The state of one cell, and how two states merge.

use vstd::prelude::*;

verus! {

/// What a single cell of the grid holds.
#[derive(PartialEq, Eq, Structural, Hash, Clone, Copy, Debug)]
pub enum CellType {
    Dead,
    Red,
    Blue,
}

impl CellType {
    /// A cell is alive when it carries a colour.
    pub open spec fn alive(self) -> bool {
        self != CellType::Dead
    }

    /// The merge of two states: `Dead` gives way to the other state, and
    /// `Red` wins over `Blue`.
    pub open spec fn combined(a: CellType, b: CellType) -> CellType {
        if a == CellType::Dead {
            b
        } else if b == CellType::Dead {
            a
        } else if a == CellType::Red || b == CellType::Red {
            CellType::Red
        } else {
            CellType::Blue
        }
    }

    /// Returns true if the cell is alive (red or blue).
    pub fn is_alive(&self) -> (r: bool)
        ensures
            r == self.alive(),
    {
        match self {
            CellType::Dead => false,
            _ => true,
        }
    }

    /// Merges two cell states; red dominates blue, and a dead cell yields
    /// to whatever it is merged with.
    pub fn combine(a: CellType, b: CellType) -> (r: CellType)
        ensures
            r == Self::combined(a, b),
    {
        match (a, b) {
            (CellType::Dead, other) => other,
            (other, CellType::Dead) => other,
            (CellType::Red, _) => CellType::Red,
            (_, CellType::Red) => CellType::Red,
            (CellType::Blue, CellType::Blue) => CellType::Blue,
        }
    }

    /// Merging does not depend on the order of its operands.
    pub proof fn lemma_combined_commutative(a: CellType, b: CellType)
        ensures
            Self::combined(a, b) == Self::combined(b, a),
    {
    }

    /// Merging three states gives the same result however they are grouped.
    pub proof fn lemma_combined_associative(a: CellType, b: CellType, c: CellType)
        ensures
            Self::combined(Self::combined(a, b), c) == Self::combined(a, Self::combined(b, c)),
    {
    }

    /// `Dead` is the neutral element of merging, on either side.
    pub proof fn lemma_combined_dead_neutral(a: CellType)
        ensures
            Self::combined(CellType::Dead, a) == a,
            Self::combined(a, CellType::Dead) == a,
    {
    }

    /// The merge is alive exactly when one of its operands is, and it is red
    /// exactly when one of its operands is red.
    pub proof fn lemma_combined_alive(a: CellType, b: CellType)
        ensures
            Self::combined(a, b).alive() == (a.alive() || b.alive()),
            (Self::combined(a, b) == CellType::Red) == (a == CellType::Red || b == CellType::Red),
    {
    }
}

} // verus!
