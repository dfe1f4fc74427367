use vstd::prelude::*;

use crate::alt::basic::Node as AltNode;
use crate::Node;

verus! {

/// An owned tree of boxed pairs, whose identities are given by its maker.
pub struct Datum {
    /// The identity, which no other datum has.
    pub id: u64,
    /// The two edges of a pair, or none for a leaf.
    pub pair: Option<(Box<Datum>, Box<Datum>)>,
}

impl Datum {
    /// A leaf with the given identity.
    pub fn leaf(id: u64) -> (r: Datum)
        ensures
            r.id == id,
            r.pair is None,
    {
        Datum { id, pair: None }
    }

    /// A pair of `a` and `b`, with the given identity.
    pub fn pair(id: u64, a: Datum, b: Datum) -> (r: Datum)
        ensures
            r.id == id,
            r.pair == Some((Box::new(a), Box::new(b))),
    {
        Datum { id, pair: Some((Box::new(a), Box::new(b))) }
    }
}

/// The amount of edges: two for a pair, none for a leaf.
pub open spec fn spec_boxed_amount(d: &Datum) -> usize {
    match d.pair {
        Some(_) => 2,
        None => 0,
    }
}

impl Datum {
    /// The amount of edges: two for a pair, none for a leaf.
    pub fn amount(&self) -> (r: usize)
        ensures
            r == spec_boxed_amount(self),
    {
        match &self.pair {
            Some(_) => 2,
            None => 0,
        }
    }
}

/// The edge of a pair at the index: the left for 0, else the right.
pub open spec fn spec_boxed_edge(d: &Datum, idx: usize) -> &Datum {
    match &d.pair {
        Some((a, b)) => if idx == 0 {
            &**a
        } else {
            &**b
        },
        None => d,
    }
}

impl<'a> AltNode for &'a Datum {
    open spec fn spec_id(&self) -> u64 {
        self.id
    }

    open spec fn spec_amount_edges(&self) -> usize {
        spec_boxed_amount(*self)
    }

    open spec fn spec_edge(&self, idx: usize) -> Self {
        spec_boxed_edge(*self, idx)
    }

    open spec fn spec_equiv_modulo_edges(&self, other: &Self) -> bool {
        true
    }

    open spec fn spec_equiv_modulo_descendents_then_amount_edges(&self, other: &Self) -> Option<
        usize,
    > {
        if spec_boxed_amount(*self) == spec_boxed_amount(*other) {
            Some(spec_boxed_amount(*self))
        } else {
            None
        }
    }

    fn id(&self) -> (r: u64) {
        self.id
    }

    fn amount_edges(&self) -> (r: usize) {
        self.amount()
    }

    fn get_edge(&self, idx: &usize) -> (r: Self) {
        match &self.pair {
            Some((a, b)) => if *idx == 0 {
                &**a
            } else {
                &**b
            },
            None => *self,
        }
    }

    fn equiv_modulo_edges(&self, other: &Self) -> (r: bool) {
        true
    }

    fn equiv_modulo_descendents_then_amount_edges(&self, other: &Self) -> (r: Option<usize>) {
        let az = self.amount();
        if az == other.amount() {
            Some(az)
        } else {
            None
        }
    }
}

impl<'a> Node for &'a Datum {
    type Cmp = bool;

    open spec fn spec_id(&self) -> u64 {
        self.id
    }

    open spec fn spec_amount_edges(&self) -> usize {
        spec_boxed_amount(*self)
    }

    open spec fn spec_edge(&self, idx: usize) -> Self {
        spec_boxed_edge(*self, idx)
    }

    open spec fn spec_equiv_modulo_edges(&self, other: &Self) -> bool {
        true
    }

    open spec fn spec_equiv_modulo_descendents_then_amount_edges(&self, other: &Self) -> Result<
        usize,
        bool,
    > {
        if spec_boxed_amount(*self) == spec_boxed_amount(*other) {
            Ok(spec_boxed_amount(*self))
        } else {
            Err(false)
        }
    }

    fn id(&self) -> (r: u64) {
        self.id
    }

    fn amount_edges(&self) -> (r: usize) {
        self.amount()
    }

    fn get_edge(&self, idx: &usize) -> (r: Self) {
        match &self.pair {
            Some((a, b)) => if *idx == 0 {
                &**a
            } else {
                &**b
            },
            None => *self,
        }
    }

    fn equiv_modulo_edges(&self, other: &Self) -> (r: bool) {
        true
    }

    fn equiv_modulo_descendents_then_amount_edges(&self, other: &Self) -> (r: Result<usize, bool>) {
        let az = self.amount();
        if az == other.amount() {
            Ok(az)
        } else {
            Err(false)
        }
    }
}

} // verus!
