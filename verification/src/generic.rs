/// The central parts of the algorithm.
pub mod equiv;
/// Equivalence classes of the nodes already seen, which make cyclic and degenerate graphs safe.
pub mod equiv_classes;
/// The primary variation of the algorithm, like that of the paper: a limited precheck, then the
/// interleave.
pub mod precheck_interleave;
/// What the results of every variation of the algorithm mean.
pub mod results;
/// What the results of the variations that record equivalence classes mean.
pub mod cycle_results;
/// What the results of the variations mean when they compare to order graphs.
pub mod order_results;
/// How the traversal with a stack follows the traversal on the call-stack.
pub mod stack_results;
