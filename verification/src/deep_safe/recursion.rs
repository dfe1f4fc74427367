/// Use a double-ended queue for the recursion continuations, instead of the call-stack.
pub mod queue;
