use vstd::prelude::*;

use crate::{Node, Order};

verus! {

/// The kinds of data, which are ordered by their directly-contained values and then by their
/// descendents.
pub enum Kind {
    /// The least kind.
    A,
    /// The next kind.
    B,
    /// A kind that holds a character, by which its data are ordered.
    C(char),
    /// A kind of up to two edges, in two slots, ordered by which slots are filled.
    D(Option<Box<Datum>>, Option<Box<Datum>>),
    /// A kind of any amount of edges.  Its data compare equal to those of kind `D`, but for
    /// their edges.
    E(Vec<Datum>),
}

/// A datum of a tree whose identities are given by its maker.
pub struct Datum {
    /// The identity, which no other datum has.
    pub id: u64,
    /// The kind, with its values and edges.
    pub kind: Kind,
}

/// The category of a kind: `A`, `B`, and `C` each their own, `D` and `E` together.
pub open spec fn category(k: &Kind) -> nat {
    match k {
        Kind::A => 0,
        Kind::B => 1,
        Kind::C(_) => 2,
        Kind::D(_, _) => 3,
        Kind::E(_) => 3,
    }
}

/// The three-way comparison of two natural numbers.
pub open spec fn order_nat(x: nat, y: nat) -> Order {
    if x < y {
        Order::Less
    } else if x == y {
        Order::Equal
    } else {
        Order::Greater
    }
}

/// A filled slot is greater than an empty one.
pub open spec fn filled(s: &Option<Box<Datum>>) -> nat {
    if s is Some {
        1
    } else {
        0
    }
}

/// The comparison of the directly-contained values of two data, ignoring their edges.
pub open spec fn spec_order_kinds(x: &Kind, y: &Kind) -> Order {
    if category(x) != category(y) {
        order_nat(category(x), category(y))
    } else {
        match (x, y) {
            (Kind::C(c1), Kind::C(c2)) => order_nat(*c1 as nat, *c2 as nat),
            (Kind::D(l1, r1), Kind::D(l2, r2)) => if filled(l1) != filled(l2) {
                order_nat(filled(l1), filled(l2))
            } else {
                order_nat(filled(r1), filled(r2))
            },
            _ => Order::Equal,
        }
    }
}

/// The amount of edges of a datum.
pub open spec fn spec_ordered_amount(d: &Datum) -> usize {
    match &d.kind {
        Kind::D(l, r) => (filled(l) + filled(r)) as usize,
        Kind::E(v) => v.len(),
        _ => 0,
    }
}

/// The edge of a datum at the index: the filled slots in order, or the elements.
pub open spec fn spec_ordered_edge(d: &Datum, idx: usize) -> &Datum {
    match &d.kind {
        Kind::D(Some(l), Some(r)) => if idx == 0 {
            &**l
        } else {
            &**r
        },
        Kind::D(Some(l), None) => &**l,
        Kind::D(None, Some(r)) => &**r,
        Kind::E(v) => if idx < v.len() {
            &v[idx as int]
        } else {
            d
        },
        _ => d,
    }
}

/// The three-way comparison of two numbers.
fn order_u32(x: u32, y: u32) -> (r: Order)
    ensures
        r == order_nat(x as nat, y as nat),
{
    if x < y {
        Order::Less
    } else if x == y {
        Order::Equal
    } else {
        Order::Greater
    }
}

impl Kind {
    /// The category of the kind.
    pub fn category(&self) -> (r: u32)
        ensures
            r == category(self),
    {
        match self {
            Kind::A => 0,
            Kind::B => 1,
            Kind::C(_) => 2,
            Kind::D(_, _) => 3,
            Kind::E(_) => 3,
        }
    }
}

/// Whether the slot is filled, as a number.
fn filled_u32(s: &Option<Box<Datum>>) -> (r: u32)
    ensures
        r == filled(s),
{
    match s {
        Some(_) => 1,
        None => 0,
    }
}

/// Compare the directly-contained values of two kinds, ignoring their edges.
pub fn order_kinds(x: &Kind, y: &Kind) -> (r: Order)
    ensures
        r == spec_order_kinds(x, y),
{
    let (cx, cy) = (x.category(), y.category());
    if cx != cy {
        return order_u32(cx, cy);
    }
    match (x, y) {
        (Kind::C(c1), Kind::C(c2)) => order_u32(*c1 as u32, *c2 as u32),
        (Kind::D(l1, r1), Kind::D(l2, r2)) => {
            let (f1, f2) = (filled_u32(l1), filled_u32(l2));
            if f1 != f2 {
                order_u32(f1, f2)
            } else {
                order_u32(filled_u32(r1), filled_u32(r2))
            }
        },
        _ => Order::Equal,
    }
}

impl<'a> Node for &'a Datum {
    type Cmp = Order;

    open spec fn spec_id(&self) -> u64 {
        self.id
    }

    open spec fn spec_amount_edges(&self) -> usize {
        spec_ordered_amount(*self)
    }

    open spec fn spec_edge(&self, index: usize) -> Self {
        spec_ordered_edge(*self, index)
    }

    open spec fn spec_equiv_modulo_edges(&self, other: &Self) -> Order {
        spec_order_kinds(&self.kind, &other.kind)
    }

    /// The amounts of edges are compared first, then the directly-contained values.
    open spec fn spec_equiv_modulo_descendents_then_amount_edges(&self, other: &Self) -> Result<
        usize,
        Order,
    > {
        let (az, bz) = (spec_ordered_amount(*self), spec_ordered_amount(*other));
        if az != bz {
            Err(order_nat(az as nat, bz as nat))
        } else if spec_order_kinds(&self.kind, &other.kind) != Order::Equal {
            Err(spec_order_kinds(&self.kind, &other.kind))
        } else {
            Ok(az)
        }
    }

    fn id(&self) -> (r: u64) {
        self.id
    }

    fn amount_edges(&self) -> (r: usize) {
        match &self.kind {
            Kind::D(l, r) => (filled_u32(l) + filled_u32(r)) as usize,
            Kind::E(v) => v.len(),
            _ => 0,
        }
    }

    fn get_edge(&self, index: &usize) -> (r: Self) {
        match &self.kind {
            Kind::D(Some(l), Some(r)) => if *index == 0 {
                &**l
            } else {
                &**r
            },
            Kind::D(Some(l), None) => &**l,
            Kind::D(None, Some(r)) => &**r,
            Kind::E(v) => &v[*index],
            _ => *self,
        }
    }

    fn equiv_modulo_edges(&self, other: &Self) -> (r: Order) {
        order_kinds(&self.kind, &other.kind)
    }

    fn equiv_modulo_descendents_then_amount_edges(&self, other: &Self) -> (r: Result<usize, Order>) {
        let (az, bz) = (self.amount_edges(), other.amount_edges());
        if az != bz {
            Err(if az < bz {
                Order::Less
            } else {
                Order::Greater
            })
        } else {
            let c = order_kinds(&self.kind, &other.kind);
            if c != Order::Equal {
                Err(c)
            } else {
                Ok(az)
            }
        }
    }
}

} // verus!
