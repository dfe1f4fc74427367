//! Generic equivalence predicate that can handle cyclic, very-deep, very-large, and degenerate
//! graphs.  Extends the algorithm of the paper "Efficient Nondestructive Equality Checking for
//! Trees and Graphs" with support for recursion without the call-stack and with multi-way
//! comparison that can give an ordering to graphs.
//!
//! Every variation of the algorithm is stated against a mathematical model of the nodes (the
//! `spec_*` functions of [`Node`]) and of the modes that control it (their views).
use vstd::prelude::*;

/// An alternative, earlier, variation of the algorithm.
pub mod alt;
/// Items that are not safe for cyclic, degenerate, nor very-deep graphs.
pub mod basic;
/// Items that are safe for cyclic and degenerate graphs, but not, by themselves, for very-deep
/// graphs.
pub mod cycle_safe;
/// Items that are safe for very-deep graphs, but not, by themselves, for cyclic nor degenerate
/// graphs.
pub mod deep_safe;
/// Items that require choosing specific instantiations, which allows customizability beyond the
/// premade functions of the other modules.
pub mod generic;
/// Items that were anticipated to become available from the language.
pub mod like_anticipated;
/// Items that resemble unstable features of the standard library.
pub mod like_unstable;
/// Items that are safe for cyclic, degenerate, and very-deep graphs.
pub mod robust;
/// Miscellaneous utilities.
pub mod utils;
/// Things useful to tests and benchmarks: node types and shapes of graphs.
pub mod tests_utils;
/// Items that are safe for very-wide graphs, but not for cyclic graphs.
pub mod wide_safe;

verus! {

/// A three-way comparison outcome, with the same variants as the standard library's ordering
/// type (see [`Order::from_std`] and [`Order::to_std`]).
#[derive(PartialEq, Eq, Structural, Clone, Copy, Debug)]
pub enum Order {
    /// The left side is smaller.
    Less,
    /// Both sides are equivalent.
    Equal,
    /// The left side is greater.
    Greater,
}

/// The three-way comparison of two mathematical integers.
pub open spec fn spec_order_of(x: usize, y: usize) -> Order {
    if x < y {
        Order::Less
    } else if x == y {
        Order::Equal
    } else {
        Order::Greater
    }
}

/// Three-way comparison of two `usize` values.
pub fn order_of(x: usize, y: usize) -> (r: Order)
    ensures
        r == spec_order_of(x, y),
        (r == Order::Less) <==> x < y,
        (r == Order::Equal) <==> x == y,
        (r == Order::Greater) <==> x > y,
{
    if x < y {
        Order::Less
    } else if x == y {
        Order::Equal
    } else {
        Order::Greater
    }
}

impl Order {
    /// Convert from the standard library's ordering type.
    pub fn from_std(o: core::cmp::Ordering) -> (r: Order)
        ensures
            (o == core::cmp::Ordering::Less) <==> (r == Order::Less),
            (o == core::cmp::Ordering::Equal) <==> (r == Order::Equal),
            (o == core::cmp::Ordering::Greater) <==> (r == Order::Greater),
    {
        match o {
            core::cmp::Ordering::Less => Order::Less,
            core::cmp::Ordering::Equal => Order::Equal,
            core::cmp::Ordering::Greater => Order::Greater,
        }
    }

    /// Convert to the standard library's ordering type.
    pub fn to_std(self) -> (r: core::cmp::Ordering)
        ensures
            (r == core::cmp::Ordering::Less) <==> (self == Order::Less),
            (r == core::cmp::Ordering::Equal) <==> (self == Order::Equal),
            (r == core::cmp::Ordering::Greater) <==> (self == Order::Greater),
    {
        match self {
            Order::Less => core::cmp::Ordering::Less,
            Order::Equal => core::cmp::Ordering::Equal,
            Order::Greater => core::cmp::Ordering::Greater,
        }
    }
}

/// Represents comparison of nodes.
///
/// Node types may have richer multi-way comparison than boolean equivalence.
pub trait Cmp: Sized {
    /// Whether the value represents equivalence.
    spec fn spec_is_equiv(&self) -> bool;

    /// The value that represents equivalence.
    spec fn spec_new_equiv() -> Self;

    /// The value that most-accurately represents the given order.
    spec fn spec_from_ord(ord: Order) -> Self;

    /// Create a new value that represents equivalence is true.
    fn new_equiv() -> (r: Self)
        ensures
            r == Self::spec_new_equiv(),
    ;

    /// Return `true` if the value represents equivalence, `false` if not.
    fn is_equiv(&self) -> (r: bool)
        ensures
            r == self.spec_is_equiv(),
    ;

    /// Create a new value that most-accurately represents the given order.
    fn from_ord(ord: Order) -> (r: Self)
        ensures
            r == Self::spec_from_ord(ord),
    ;

    /// The value for equivalence represents equivalence, and an order represents equivalence
    /// exactly when it is [`Order::Equal`].
    proof fn lemma_laws()
        ensures
            Self::spec_new_equiv().spec_is_equiv(),
            forall|o: Order| #[trigger] Self::spec_from_ord(o).spec_is_equiv() <==> o == Order::Equal,
    ;
}

impl Cmp for bool {
    open spec fn spec_is_equiv(&self) -> bool {
        *self
    }

    open spec fn spec_new_equiv() -> Self {
        true
    }

    open spec fn spec_from_ord(ord: Order) -> Self {
        ord == Order::Equal
    }

    fn new_equiv() -> (r: Self) {
        true
    }

    fn is_equiv(&self) -> (r: bool) {
        *self
    }

    fn from_ord(ord: Order) -> (r: Self) {
        ord == Order::Equal
    }

    proof fn lemma_laws() {
    }
}

impl Cmp for Order {
    open spec fn spec_is_equiv(&self) -> bool {
        *self == Order::Equal
    }

    open spec fn spec_new_equiv() -> Self {
        Order::Equal
    }

    open spec fn spec_from_ord(ord: Order) -> Self {
        ord
    }

    fn new_equiv() -> (r: Self) {
        Order::Equal
    }

    fn is_equiv(&self) -> (r: bool) {
        *self == Order::Equal
    }

    fn from_ord(ord: Order) -> (r: Self) {
        ord
    }

    proof fn lemma_laws() {
    }
}

/// What the algorithm requires from a type, to be applied to it.
///
/// The `Self` type is passed by owned value.  It is possible, and sometimes recommended, to
/// implement this trait on reference types.
///
/// The `spec_*` functions are the mathematical model of a node that the contracts of the
/// algorithm speak of: its identity, its amount of edges, its descendents by index, and the
/// comparison of its own directly-contained values.
pub trait Node: Sized {
    /// Result of comparing nodes.  The result of the algorithm is that of the first node
    /// traversed that compares as inequivalent, or it is the value that represents equivalence.
    type Cmp: Cmp;

    /// The identity of the node.  Nodes with the same identity are considered the same
    /// identical node and so are immediately considered equivalent.
    spec fn spec_id(&self) -> u64;

    /// How many edges the node has.
    spec fn spec_amount_edges(&self) -> usize;

    /// The descendent at the given index.
    spec fn spec_edge(&self, index: usize) -> Self;

    /// Comparison of the nodes' own directly-contained values, ignoring their edges.
    spec fn spec_equiv_modulo_edges(&self, other: &Self) -> Self::Cmp;

    /// Comparison of the nodes ignoring their descendents: either the amount of edges that the
    /// algorithm should descend, or the inequivalence result.
    spec fn spec_equiv_modulo_descendents_then_amount_edges(&self, other: &Self) -> Result<
        usize,
        Self::Cmp,
    >;

    /// Get the identity of the `self` node.
    fn id(&self) -> (r: u64)
        ensures
            r == self.spec_id(),
    ;

    /// Determines how many edges the `self` node has that the algorithm will descend into and
    /// check.
    fn amount_edges(&self) -> (r: usize)
        ensures
            r == self.spec_amount_edges(),
    ;

    /// Get descendent node by index.  The index must be within the range
    /// `0 .. self.amount_edges()`.
    fn get_edge(&self, index: &usize) -> (r: Self)
        requires
            *index < self.spec_amount_edges(),
        ensures
            r == self.spec_edge(*index),
    ;

    /// Check if the nodes are equivalent in their own directly-contained semantically-significant
    /// values ignoring their edges and ignoring their descendent nodes.
    fn equiv_modulo_edges(&self, other: &Self) -> (r: Self::Cmp)
        ensures
            r == self.spec_equiv_modulo_edges(other),
    ;

    /// Check if the nodes are equivalent in their own directly-contained values ignoring their
    /// descendent nodes, and check if their amounts of edges are similar enough that their
    /// descendents will need to be checked.  If both conditions are true, return the amount of
    /// edges that the algorithm should descend, else return the inequivalence result.
    ///
    /// An `Ok(amount)` must be at most the amounts of edges of both nodes, and an `Err(cmp)`
    /// must represent inequivalence.  [`default_equiv_modulo_descendents_then_amount_edges`] is
    /// the usual implementation.
    fn equiv_modulo_descendents_then_amount_edges(&self, other: &Self) -> (r: Result<
        usize,
        Self::Cmp,
    >)
        ensures
            r == self.spec_equiv_modulo_descendents_then_amount_edges(other),
            r matches Ok(k) ==> k <= self.spec_amount_edges() && k <= other.spec_amount_edges(),
            r matches Err(c) ==> !c.spec_is_equiv(),
    ;
}

/// The usual comparison of nodes ignoring their descendents: first compare their amounts of
/// edges and then their own values, and descend all the edges when both are equivalent.
pub open spec fn spec_default_equiv_modulo_descendents_then_amount_edges<N: Node>(
    a: &N,
    b: &N,
) -> Result<usize, N::Cmp> {
    let az = a.spec_amount_edges();
    let bz = b.spec_amount_edges();
    let cmp_amount_edges = N::Cmp::spec_from_ord(spec_order_of(az, bz));
    if cmp_amount_edges.spec_is_equiv() {
        let cmp_modulo_edges = a.spec_equiv_modulo_edges(b);
        if cmp_modulo_edges.spec_is_equiv() {
            Ok(az)
        } else {
            Err(cmp_modulo_edges)
        }
    } else {
        Err(cmp_amount_edges)
    }
}

/// The usual implementation of [`Node::equiv_modulo_descendents_then_amount_edges`]: checks
/// that the amounts of edges are the same and then that the nodes' own values are equivalent,
/// in that order, and, when both are, returns the amount of edges.
pub fn default_equiv_modulo_descendents_then_amount_edges<N: Node>(a: &N, b: &N) -> (r: Result<
    usize,
    N::Cmp,
>)
    ensures
        r == spec_default_equiv_modulo_descendents_then_amount_edges(a, b),
        r matches Ok(k) ==> k == a.spec_amount_edges() && k == b.spec_amount_edges(),
        r matches Err(c) ==> !c.spec_is_equiv(),
{
    proof {
        N::Cmp::lemma_laws();
    }
    let az = a.amount_edges();
    let bz = b.amount_edges();
    let cmp_amount_edges = N::Cmp::from_ord(order_of(az, bz));
    if cmp_amount_edges.is_equiv() {
        let cmp_modulo_edges = a.equiv_modulo_edges(b);
        if cmp_modulo_edges.is_equiv() {
            Ok(az)
        } else {
            Err(cmp_modulo_edges)
        }
    } else {
        Err(cmp_amount_edges)
    }
}

/// The three-way comparison of two amounts: `Less` exactly when the first is smaller, `Equal`
/// exactly when they are the same, and `Greater` exactly when the first is larger.
pub proof fn lemma_order_of(x: usize, y: usize)
    ensures
        (spec_order_of(x, y) == Order::Less) <==> x < y,
        (spec_order_of(x, y) == Order::Equal) <==> x == y,
        (spec_order_of(x, y) == Order::Greater) <==> x > y,
{
}

/// With [`Order`] as the comparison type, the comparison result of an order is that order
/// itself.
pub proof fn lemma_order_from_ord_is_identity(o: Order)
    ensures
        <Order as Cmp>::spec_from_ord(o) == o,
{
}

/// With [`Order`] results, the usual comparison ignoring descendents orders the node with fewer
/// edges first; with as many edges, it gives the order of the nodes' own values when those
/// differ, and else descends all the edges.
pub proof fn lemma_default_orders_by_amount<N: Node<Cmp = Order>>(a: &N, b: &N)
    ensures
        a.spec_amount_edges() < b.spec_amount_edges()
            ==> spec_default_equiv_modulo_descendents_then_amount_edges(a, b) == Err::<
            usize,
            Order,
        >(Order::Less),
        a.spec_amount_edges() > b.spec_amount_edges()
            ==> spec_default_equiv_modulo_descendents_then_amount_edges(a, b) == Err::<
            usize,
            Order,
        >(Order::Greater),
        a.spec_amount_edges() == b.spec_amount_edges()
            ==> spec_default_equiv_modulo_descendents_then_amount_edges(a, b) == if a.spec_equiv_modulo_edges(b)
            == Order::Equal {
            Ok::<usize, Order>(a.spec_amount_edges())
        } else {
            Err::<usize, Order>(a.spec_equiv_modulo_edges(b))
        },
{
}

/// With `bool` results, the usual comparison ignoring descendents descends all the edges
/// exactly when the nodes have as many edges and equivalent own values, and else gives
/// inequivalence.
pub proof fn lemma_default_bool<N: Node<Cmp = bool>>(a: &N, b: &N)
    ensures
        spec_default_equiv_modulo_descendents_then_amount_edges(a, b) == if a.spec_amount_edges()
            == b.spec_amount_edges() && a.spec_equiv_modulo_edges(b) {
            Ok::<usize, bool>(a.spec_amount_edges())
        } else {
            Err::<usize, bool>(false)
        },
{
}

} // verus!
