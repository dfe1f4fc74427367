/// An alternative, earlier, variation of the algorithm, with its own node trait and its own
/// record of equivalence classes.
pub mod basic;
/// What the results of the earlier variation mean.
pub mod results;
