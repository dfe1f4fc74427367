/// Use a vector for the recursion stack, instead of the call-stack.
pub mod vecstack;
