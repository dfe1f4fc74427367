use vstd::hash_map::HashMapWithView;
use vstd::prelude::*;

use crate::generic::equiv_classes::Table as TableTrait;

verus! {

/// Amount of elements (i.e. branch nodes) that a table can grow to contain initially before
/// reallocating.
pub const INITIAL_CAPACITY: usize = 4096;

/// Eases using the standard hash map as an [`equiv_classes::Table`](TableTrait).
pub struct Table(HashMapWithView<u64, usize>);

impl TableTrait for Table {
    closed spec fn spec_map(&self) -> Map<u64, usize> {
        self.0@
    }

    /// Create a new instance with capacity [`INITIAL_CAPACITY`].
    fn new() -> (r: Self) {
        broadcast use vstd::std_specs::hash::axiom_u64_obeys_hash_table_key_model;

        Table(HashMapWithView::with_capacity(INITIAL_CAPACITY))
    }

    fn get(&self, k: &u64) -> (r: Option<usize>) {
        match self.0.get(k) {
            Some(v) => Some(*v),
            None => None,
        }
    }

    fn insert(&mut self, k: u64, v: usize) {
        self.0.insert(k, v);
    }
}

} // verus!
