//! The integer rules of evolution: when a specie that stopped improving is cut back.
use vstd::prelude::*;

verus! {

/// Generations without improvement after which a specie is cut back to its two fittest.
pub const NO_IMPROVEMENT_TRUNCATE: usize = 10;

/// Whether a specie whose best fitness was last reached in generation `gen_achieved` is cut
/// back in generation `gen_idx`: it has gone `NO_IMPROVEMENT_TRUNCATE` generations without
/// improving and has more than two members.
pub fn should_truncate(gen_achieved: usize, gen_idx: usize, members: usize) -> (r: bool)
    requires
        gen_achieved + NO_IMPROVEMENT_TRUNCATE <= usize::MAX,
    ensures
        r == (gen_achieved + NO_IMPROVEMENT_TRUNCATE <= gen_idx && members > 2),
{
    gen_achieved + NO_IMPROVEMENT_TRUNCATE <= gen_idx && members > 2
}

} // verus!
