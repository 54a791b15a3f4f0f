//! The record of a run: the board size and the solutions kept for it.

use vstd::prelude::*;

verus! {

/// What a run has gathered for one board size.
pub struct Queens {
    pub size: u8,
    pub unique_solutions: Vec<u8>,
    pub solutions: Vec<u8>,
}

impl Queens {
    /// The record of a run that has found nothing yet.
    pub fn default(size: u8) -> (record: Queens)
        ensures
            record.size == size,
            record.unique_solutions@ == Seq::<u8>::empty(),
            record.solutions@ == Seq::<u8>::empty(),
    {
        Queens { size, unique_solutions: Vec::new(), solutions: Vec::new() }
    }
}

/// The record that a run for the given size starts from.
pub fn calc_queens(num: u8) -> (record: Queens)
    ensures
        record.size == num,
        record.unique_solutions@ == Seq::<u8>::empty(),
        record.solutions@ == Seq::<u8>::empty(),
{
    Queens::default(num)
}

} // verus!
