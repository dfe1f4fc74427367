use vstd::prelude::*;

use crate::{Node, Order};

verus! {

/// A node without edges, all of whose values are identical.
#[derive(Copy, Clone)]
pub struct My;

impl Node for My {
    type Cmp = bool;

    open spec fn spec_id(&self) -> u64 {
        0
    }

    open spec fn spec_amount_edges(&self) -> usize {
        0
    }

    open spec fn spec_edge(&self, index: usize) -> Self {
        My
    }

    open spec fn spec_equiv_modulo_edges(&self, other: &Self) -> bool {
        true
    }

    /// Equal amounts of edges (none) and equal values: descend nothing.
    open spec fn spec_equiv_modulo_descendents_then_amount_edges(&self, other: &Self) -> Result<
        usize,
        bool,
    > {
        Ok(0)
    }

    fn id(&self) -> (r: u64) {
        0
    }

    fn amount_edges(&self) -> (r: usize) {
        0
    }

    fn get_edge(&self, index: &usize) -> (r: Self) {
        My
    }

    fn equiv_modulo_edges(&self, other: &Self) -> (r: bool) {
        true
    }

    fn equiv_modulo_descendents_then_amount_edges(&self, other: &Self) -> (r: Result<usize, bool>) {
        Ok(0)
    }
}

/// The three-way comparison of two `i32` values.
pub open spec fn spec_order_i32(x: i32, y: i32) -> Order {
    if x < y {
        Order::Less
    } else if x == y {
        Order::Equal
    } else {
        Order::Greater
    }
}

/// A node without edges that holds a number, which is also its identity, and which compares in
/// the order of the numbers.
#[derive(Copy, Clone)]
pub struct It(pub i32);

impl Node for It {
    type Cmp = Order;

    open spec fn spec_id(&self) -> u64 {
        self.0 as u64
    }

    open spec fn spec_amount_edges(&self) -> usize {
        0
    }

    open spec fn spec_edge(&self, index: usize) -> Self {
        It(0)
    }

    open spec fn spec_equiv_modulo_edges(&self, other: &Self) -> Order {
        spec_order_i32(self.0, other.0)
    }

    /// Equal amounts of edges (none): descend nothing when the numbers are equal, else their
    /// order.
    open spec fn spec_equiv_modulo_descendents_then_amount_edges(&self, other: &Self) -> Result<
        usize,
        Order,
    > {
        if self.0 == other.0 {
            Ok(0)
        } else {
            Err(spec_order_i32(self.0, other.0))
        }
    }

    fn id(&self) -> (r: u64) {
        self.0 as u64
    }

    fn amount_edges(&self) -> (r: usize) {
        0
    }

    fn get_edge(&self, index: &usize) -> (r: Self) {
        It(0)
    }

    fn equiv_modulo_edges(&self, other: &Self) -> (r: Order) {
        if self.0 < other.0 {
            Order::Less
        } else if self.0 == other.0 {
            Order::Equal
        } else {
            Order::Greater
        }
    }

    fn equiv_modulo_descendents_then_amount_edges(&self, other: &Self) -> (r: Result<usize, Order>) {
        let c = self.equiv_modulo_edges(other);
        if c == Order::Equal {
            Ok(0)
        } else {
            Err(c)
        }
    }
}

} // verus!
