/// Make the algorithm interleave a shared-structure-detecting "slow" phase with a basic "fast"
/// phase.
pub mod interleave;
