use std::rc::Rc;
use vstd::prelude::*;

use crate::Node;

verus! {

/// A datum that is empty or has two edges.
pub enum Datum1 {
    /// No edges.
    Empty,
    /// Two edges.
    Double(DatumRef, DatumRef),
}

/// A datum that holds a value of type `T`, or has two or four edges.
pub enum Datum2<T> {
    /// A value, and no edges.
    Value(T),
    /// Two edges.
    Two(DatumRef, DatumRef),
    /// Four edges.
    Four(DatumRef, DatumRef, DatumRef, DatumRef),
}

/// A datum of any of the types that a [`DatumRef`] can refer to.
pub enum AnyDatum {
    /// A [`Datum1`].
    Datum1(Datum1),
    /// A [`Datum2`] of `i32` values.
    Datum2Int32(Datum2<i32>),
    /// A [`Datum2`] of `char` values.
    Datum2Char(Datum2<char>),
}

/// A shared reference to a datum of any of the types, with an identity given by its allocator.
#[derive(Clone)]
pub struct DatumRef {
    /// The identity, which no other datum has.
    pub id: u64,
    /// The datum referred to.
    pub datum: Rc<AnyDatum>,
}

/// The datum that a [`DatumRef`] refers to, as a reference to its own type.
pub enum DowncastDatum<'l> {
    /// A [`Datum1`].
    Datum1(&'l Datum1),
    /// A [`Datum2`] of `i32` values.
    Datum2Int32(&'l Datum2<i32>),
    /// A [`Datum2`] of `char` values.
    Datum2Char(&'l Datum2<char>),
}

/// The edges of a datum, in order.
pub open spec fn spec_dyn_edges(d: &AnyDatum) -> Seq<DatumRef> {
    match d {
        AnyDatum::Datum1(Datum1::Double(a, b)) => seq![*a, *b],
        AnyDatum::Datum2Int32(Datum2::Two(a, b)) => seq![*a, *b],
        AnyDatum::Datum2Int32(Datum2::Four(a, b, c, e)) => seq![*a, *b, *c, *e],
        AnyDatum::Datum2Char(Datum2::Two(a, b)) => seq![*a, *b],
        AnyDatum::Datum2Char(Datum2::Four(a, b, c, e)) => seq![*a, *b, *c, *e],
        _ => Seq::empty(),
    }
}

/// Whether the data are of the same type.
pub open spec fn same_type(x: &AnyDatum, y: &AnyDatum) -> bool {
    match (x, y) {
        (AnyDatum::Datum1(_), AnyDatum::Datum1(_)) => true,
        (AnyDatum::Datum2Int32(_), AnyDatum::Datum2Int32(_)) => true,
        (AnyDatum::Datum2Char(_), AnyDatum::Datum2Char(_)) => true,
        _ => false,
    }
}

/// Whether two data are equal as values, recursively, regardless of identity.
pub open spec fn spec_dyn_eq(x: DatumRef, y: DatumRef) -> bool
    decreases x,
{
    match (&*x.datum, &*y.datum) {
        (AnyDatum::Datum1(d1a), AnyDatum::Datum1(d1b)) => match (d1a, d1b) {
            (Datum1::Empty, Datum1::Empty) => true,
            (Datum1::Double(aa, ab), Datum1::Double(ba, bb)) => spec_dyn_eq(*aa, *ba)
                && spec_dyn_eq(*ab, *bb),
            _ => false,
        },
        (AnyDatum::Datum2Int32(d2a), AnyDatum::Datum2Int32(d2b)) => match (d2a, d2b) {
            (Datum2::Value(a), Datum2::Value(b)) => a == b,
            (Datum2::Two(aa, ab), Datum2::Two(ba, bb)) => spec_dyn_eq(*aa, *ba) && spec_dyn_eq(
                *ab,
                *bb,
            ),
            (Datum2::Four(aa, ab, ac, ad), Datum2::Four(ba, bb, bc, bd)) => spec_dyn_eq(*aa, *ba)
                && spec_dyn_eq(*ab, *bb) && spec_dyn_eq(*ac, *bc) && spec_dyn_eq(*ad, *bd),
            _ => false,
        },
        (AnyDatum::Datum2Char(d2a), AnyDatum::Datum2Char(d2b)) => match (d2a, d2b) {
            (Datum2::Value(a), Datum2::Value(b)) => a == b,
            (Datum2::Two(aa, ab), Datum2::Two(ba, bb)) => spec_dyn_eq(*aa, *ba) && spec_dyn_eq(
                *ab,
                *bb,
            ),
            (Datum2::Four(aa, ab, ac, ad), Datum2::Four(ba, bb, bc, bd)) => spec_dyn_eq(*aa, *ba)
                && spec_dyn_eq(*ab, *bb) && spec_dyn_eq(*ac, *bc) && spec_dyn_eq(*ad, *bd),
            _ => false,
        },
        _ => false,
    }
}

impl DatumRef {
    /// Another reference to the same datum.
    pub fn copy(&self) -> (r: DatumRef)
        ensures
            r == *self,
    {
        DatumRef { id: self.id, datum: Rc::clone(&self.datum) }
    }

    /// The datum referred to, as a reference to its own type.
    pub fn downcast(&self) -> (r: DowncastDatum<'_>)
        ensures
            match (r, &*self.datum) {
                (DowncastDatum::Datum1(d), AnyDatum::Datum1(e)) => *d == e,
                (DowncastDatum::Datum2Int32(d), AnyDatum::Datum2Int32(e)) => *d == e,
                (DowncastDatum::Datum2Char(d), AnyDatum::Datum2Char(e)) => *d == e,
                _ => false,
            },
    {
        match &*self.datum {
            AnyDatum::Datum1(d) => DowncastDatum::Datum1(d),
            AnyDatum::Datum2Int32(d) => DowncastDatum::Datum2Int32(d),
            AnyDatum::Datum2Char(d) => DowncastDatum::Datum2Char(d),
        }
    }

    /// Compare as values, recursively, regardless of identity.  This is intentionally naive: it
    /// does not know shared structure, and so is slow on degenerate shapes.
    pub fn naive_eq(&self, other: &Self) -> (r: bool)
        ensures
            r == spec_dyn_eq(*self, *other),
        decreases *self,
    {
        match (self.downcast(), other.downcast()) {
            (DowncastDatum::Datum1(d1a), DowncastDatum::Datum1(d1b)) => match (d1a, d1b) {
                (Datum1::Empty, Datum1::Empty) => true,
                (Datum1::Double(aa, ab), Datum1::Double(ba, bb)) => aa.naive_eq(ba) && ab.naive_eq(
                    bb,
                ),
                _ => false,
            },
            (DowncastDatum::Datum2Int32(d2a), DowncastDatum::Datum2Int32(d2b)) => match (d2a, d2b) {
                (Datum2::Value(a), Datum2::Value(b)) => *a == *b,
                (Datum2::Two(aa, ab), Datum2::Two(ba, bb)) => aa.naive_eq(ba) && ab.naive_eq(bb),
                (Datum2::Four(aa, ab, ac, ad), Datum2::Four(ba, bb, bc, bd)) => aa.naive_eq(ba)
                    && ab.naive_eq(bb) && ac.naive_eq(bc) && ad.naive_eq(bd),
                _ => false,
            },
            (DowncastDatum::Datum2Char(d2a), DowncastDatum::Datum2Char(d2b)) => match (d2a, d2b) {
                (Datum2::Value(a), Datum2::Value(b)) => *a == *b,
                (Datum2::Two(aa, ab), Datum2::Two(ba, bb)) => aa.naive_eq(ba) && ab.naive_eq(bb),
                (Datum2::Four(aa, ab, ac, ad), Datum2::Four(ba, bb, bc, bd)) => aa.naive_eq(ba)
                    && ab.naive_eq(bb) && ac.naive_eq(bc) && ad.naive_eq(bd),
                _ => false,
            },
            _ => false,
        }
    }
}

/// The identity of the datum that is allocated as number `count` of the region.
pub open spec fn spec_dyn_id(region: u32, count: u32) -> u64 {
    (region as u64 * 0x1_0000_0000 + count as u64) as u64
}

/// Allocates data of the three types in turn, with identities that are distinct within the
/// region and, for distinct regions, across them.
pub struct DatumAllocator {
    /// The identity of the region.
    pub region: u32,
    /// How many data were allocated.
    pub counter: u32,
}

impl DatumAllocator {
    /// An allocator for the given region, which has allocated nothing.
    pub fn new(region: u32) -> (r: Self)
        ensures
            r.region == region,
            r.counter == 0,
    {
        DatumAllocator { region, counter: 0 }
    }

    /// Count the allocation, and give its identity.
    fn next_id(&mut self) -> (r: u64)
        requires
            old(self).counter < u32::MAX,
        ensures
            final(self).region == old(self).region,
            final(self).counter == old(self).counter + 1,
            r == spec_dyn_id(old(self).region, final(self).counter),
    {
        self.counter = self.counter + 1;
        (self.region as u64) * 0x1_0000_0000 + (self.counter as u64)
    }

    /// A new datum without edges: by turns, an empty [`Datum1`], a [`Datum2`] of the value 42,
    /// and a [`Datum2`] of the value `'λ'`.
    pub fn leaf(&mut self) -> (r: DatumRef)
        requires
            old(self).counter < u32::MAX,
        ensures
            final(self).region == old(self).region,
            final(self).counter == old(self).counter + 1,
            r.id == spec_dyn_id(old(self).region, final(self).counter),
            *r.datum == match final(self).counter % 3 {
                0 => AnyDatum::Datum1(Datum1::Empty),
                1 => AnyDatum::Datum2Int32(Datum2::Value(42i32)),
                _ => AnyDatum::Datum2Char(Datum2::Value('λ')),
            },
    {
        let id = self.next_id();
        let datum = match self.counter % 3 {
            0 => AnyDatum::Datum1(Datum1::Empty),
            1 => AnyDatum::Datum2Int32(Datum2::Value(42i32)),
            _ => AnyDatum::Datum2Char(Datum2::Value('λ')),
        };
        DatumRef { id, datum: Rc::new(datum) }
    }

    /// A new datum with the edges `a` and `b`: by turns, a [`Datum1`], a [`Datum2`] of `i32`
    /// values, and a [`Datum2`] of `char` values.
    pub fn pair(&mut self, a: DatumRef, b: DatumRef) -> (r: DatumRef)
        requires
            old(self).counter < u32::MAX,
        ensures
            final(self).region == old(self).region,
            final(self).counter == old(self).counter + 1,
            r.id == spec_dyn_id(old(self).region, final(self).counter),
            *r.datum == match final(self).counter % 3 {
                0 => AnyDatum::Datum1(Datum1::Double(a, b)),
                1 => AnyDatum::Datum2Int32(Datum2::Two(a, b)),
                _ => AnyDatum::Datum2Char(Datum2::Two(a, b)),
            },
    {
        let id = self.next_id();
        let datum = match self.counter % 3 {
            0 => AnyDatum::Datum1(Datum1::Double(a, b)),
            1 => AnyDatum::Datum2Int32(Datum2::Two(a, b)),
            _ => AnyDatum::Datum2Char(Datum2::Two(a, b)),
        };
        DatumRef { id, datum: Rc::new(datum) }
    }
}

impl Node for DatumRef {
    type Cmp = bool;

    open spec fn spec_id(&self) -> u64 {
        self.id
    }

    open spec fn spec_amount_edges(&self) -> usize {
        spec_dyn_edges(&*self.datum).len() as usize
    }

    open spec fn spec_edge(&self, index: usize) -> Self {
        if index < spec_dyn_edges(&*self.datum).len() {
            spec_dyn_edges(&*self.datum)[index as int]
        } else {
            *self
        }
    }

    /// Only the types of the data matter, not their values.
    open spec fn spec_equiv_modulo_edges(&self, other: &Self) -> bool {
        same_type(&*self.datum, &*other.datum)
    }

    open spec fn spec_equiv_modulo_descendents_then_amount_edges(&self, other: &Self) -> Result<
        usize,
        bool,
    > {
        if spec_dyn_edges(&*self.datum).len() == spec_dyn_edges(&*other.datum).len() && same_type(
            &*self.datum,
            &*other.datum,
        ) {
            Ok(spec_dyn_edges(&*self.datum).len() as usize)
        } else {
            Err(false)
        }
    }

    fn id(&self) -> (r: u64) {
        self.id
    }

    fn amount_edges(&self) -> (r: usize) {
        match self.downcast() {
            DowncastDatum::Datum1(d) => match d {
                Datum1::Empty => 0,
                Datum1::Double(_, _) => 2,
            },
            DowncastDatum::Datum2Int32(d) => match d {
                Datum2::Value(_) => 0,
                Datum2::Two(_, _) => 2,
                Datum2::Four(_, _, _, _) => 4,
            },
            DowncastDatum::Datum2Char(d) => match d {
                Datum2::Value(_) => 0,
                Datum2::Two(_, _) => 2,
                Datum2::Four(_, _, _, _) => 4,
            },
        }
    }

    fn get_edge(&self, index: &usize) -> (r: Self) {
        let i = *index;
        match self.downcast() {
            DowncastDatum::Datum1(d) => match d {
                Datum1::Double(a, b) => if i == 0 {
                    a.copy()
                } else {
                    b.copy()
                },
                Datum1::Empty => self.copy(),
            },
            DowncastDatum::Datum2Int32(d) => match d {
                Datum2::Two(a, b) => if i == 0 {
                    a.copy()
                } else {
                    b.copy()
                },
                Datum2::Four(a, b, c, e) => if i == 0 {
                    a.copy()
                } else if i == 1 {
                    b.copy()
                } else if i == 2 {
                    c.copy()
                } else {
                    e.copy()
                },
                Datum2::Value(_) => self.copy(),
            },
            DowncastDatum::Datum2Char(d) => match d {
                Datum2::Two(a, b) => if i == 0 {
                    a.copy()
                } else {
                    b.copy()
                },
                Datum2::Four(a, b, c, e) => if i == 0 {
                    a.copy()
                } else if i == 1 {
                    b.copy()
                } else if i == 2 {
                    c.copy()
                } else {
                    e.copy()
                },
                Datum2::Value(_) => self.copy(),
            },
        }
    }

    fn equiv_modulo_edges(&self, other: &Self) -> (r: bool) {
        match (self.downcast(), other.downcast()) {
            (DowncastDatum::Datum1(_), DowncastDatum::Datum1(_)) => true,
            (DowncastDatum::Datum2Int32(_), DowncastDatum::Datum2Int32(_)) => true,
            (DowncastDatum::Datum2Char(_), DowncastDatum::Datum2Char(_)) => true,
            _ => false,
        }
    }

    fn equiv_modulo_descendents_then_amount_edges(&self, other: &Self) -> (r: Result<usize, bool>) {
        let az = self.amount_edges();
        if az == other.amount_edges() && self.equiv_modulo_edges(other) {
            Ok(az)
        } else {
            Err(false)
        }
    }
}

} // verus!
