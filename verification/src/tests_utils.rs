/// Node types whose shapes are useful for exercising the algorithm.
pub mod node_types;
/// Makers of chains of pairs, in various shapes.
pub mod shapes;
/// Sizes of the shapes, which may be chosen by the environment.
pub mod sizes;
