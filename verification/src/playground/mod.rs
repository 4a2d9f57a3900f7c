//! Example scenarios for evaluating neuroevolution genomes.
pub mod xor;
