//! Packing a grid position into one integer, so that positions can key the
//! hash maps of the standard library.

use vstd::prelude::*;
use crate::loc::Loc;

verus! {

/// Half of the span of an `i64`: adding it moves a coordinate into `0..SPAN`.
pub const OFFSET: i128 = 0x8000_0000_0000_0000;

/// The number of values of an `i64`.
pub const SPAN: u128 = 0x1_0000_0000_0000_0000;

/// The key of a position: its row and column, each moved into `0..SPAN`,
/// as the high and low halves of one number.
pub open spec fn key_of(loc: Loc) -> u128 {
    ((loc.row + OFFSET) * SPAN + (loc.col + OFFSET)) as u128
}

/// The position that a key stands for.
pub open spec fn loc_of(key: u128) -> Loc {
    Loc { row: (key / SPAN - OFFSET) as i64, col: (key % SPAN - OFFSET) as i64 }
}

/// A position is found again from its key.
pub proof fn lemma_loc_of_key(loc: Loc)
    ensures
        loc_of(key_of(loc)) == loc,
{
}

/// Every key is the key of the position that it stands for.
pub proof fn lemma_key_of_loc(key: u128)
    ensures
        key_of(loc_of(key)) == key,
{
}

/// Different positions have different keys.
pub proof fn lemma_key_injective(a: Loc, b: Loc)
    ensures
        (key_of(a) == key_of(b)) == (a == b),
{
    lemma_loc_of_key(a);
    lemma_loc_of_key(b);
}

/// Computes the key of a position.
pub fn encode(loc: &Loc) -> (key: u128)
    ensures
        key == key_of(*loc),
{
    let high: u128 = (loc.row as i128 + OFFSET) as u128;
    let low: u128 = (loc.col as i128 + OFFSET) as u128;
    high * SPAN + low
}

/// Computes the position that a key stands for.
pub fn decode(key: u128) -> (loc: Loc)
    ensures
        loc == loc_of(key),
{
    let high: u128 = key / SPAN;
    let low: u128 = key % SPAN;
    Loc { row: (high as i128 - OFFSET) as i64, col: (low as i128 - OFFSET) as i64 }
}

} // verus!
