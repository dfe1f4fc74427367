/// A node type of owned trees of boxed pairs, for the alternative node trait.
pub mod boxed;
/// A node type whose edges are indexed by a small enumeration.
pub mod diff_index;
/// A node type that generates its edges lazily and uses little memory itself.
pub mod lazy;
/// A node type whose comparison orders the data.
pub mod ordered;
/// A node type of data of several types behind one reference type.
pub mod dyn_pair;
/// A node type of shared immutable pairs.
pub mod rc_pair;
/// The node types of the usage without the standard library.
pub mod unit;
/// A node type that generates very many edges but uses little memory itself.
pub mod wide;
