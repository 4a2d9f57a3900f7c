//! Evaluation games for networks.
use vstd::prelude::*;

verus! {

/// The XOR game: a network is scored on how well its output matches XOR of two inputs.
pub struct GameXOR;

impl GameXOR {
    pub fn new() -> (r: Self)
        ensures
            r == GameXOR,
    {
        Self {}
    }
}

} // verus!
