//! The XOR scenario, parameterised over the network type it builds from each genome.
use core::marker::PhantomData;
use vstd::prelude::*;

verus! {

/// Scenario that evaluates a genome on randomly sampled XOR pairs. Parameterised over the
/// network type so it can be reused across different network architectures.
pub struct XorScenario<NN>(pub PhantomData<NN>);

impl<NN> Default for XorScenario<NN> {
    fn default() -> (r: Self)
        ensures
            r == XorScenario::<NN>(PhantomData),
    {
        Self(PhantomData)
    }
}

/// The number of sensory and action nodes of a genome that plays the XOR scenario.
pub fn xor_io() -> (r: (usize, usize))
    ensures
        r == (2usize, 1usize),
{
    (2, 1)
}

} // verus!
