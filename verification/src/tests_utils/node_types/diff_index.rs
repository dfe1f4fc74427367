use vstd::prelude::*;

use crate::Node;

verus! {

/// An index type that is not a number: eight named positions, in order.
#[derive(Copy, Clone, PartialEq, Eq, Structural, Debug, Hash)]
pub enum Index {
    /// Position 0.
    Zero,
    /// Position 1.
    One,
    /// Position 2.
    Two,
    /// Position 3.
    Three,
    /// Position 4.
    Four,
    /// Position 5.
    Five,
    /// Position 6.
    Six,
    /// Position 7.
    Seven,
}

/// The position of an index.
pub open spec fn spec_position(i: Index) -> nat {
    match i {
        Index::Zero => 0,
        Index::One => 1,
        Index::Two => 2,
        Index::Three => 3,
        Index::Four => 4,
        Index::Five => 5,
        Index::Six => 6,
        Index::Seven => 7,
    }
}

impl Index {
    /// The greatest index.
    pub fn max() -> (r: Index)
        ensures
            spec_position(r) == 7,
    {
        Index::Seven
    }

    /// The least index.
    pub fn min() -> (r: Index)
        ensures
            spec_position(r) == 0,
    {
        Index::Zero
    }

    /// The position of the index, as a number.
    pub fn position(&self) -> (r: usize)
        ensures
            r == spec_position(*self),
    {
        match self {
            Index::Zero => 0,
            Index::One => 1,
            Index::Two => 2,
            Index::Three => 3,
            Index::Four => 4,
            Index::Five => 5,
            Index::Six => 6,
            Index::Seven => 7,
        }
    }

    /// The next index, or `None` after the greatest.
    pub fn increment(&self) -> (r: Option<Self>)
        ensures
            r == index_at(spec_position(*self) + 1int),
            spec_position(*self) < 7 ==> (r matches Some(n) && spec_position(n) == spec_position(
                *self,
            ) + 1),
            spec_position(*self) == 7 ==> r is None,
    {
        match self {
            Index::Zero => Some(Index::One),
            Index::One => Some(Index::Two),
            Index::Two => Some(Index::Three),
            Index::Three => Some(Index::Four),
            Index::Four => Some(Index::Five),
            Index::Five => Some(Index::Six),
            Index::Six => Some(Index::Seven),
            Index::Seven => None,
        }
    }

    /// The previous index, or `None` before the least.
    pub fn decrement(&self) -> (r: Option<Self>)
        ensures
            r == index_at(spec_position(*self) - 1),
            spec_position(*self) > 0 ==> (r matches Some(n) && spec_position(n) + 1
                == spec_position(*self)),
            spec_position(*self) == 0 ==> r is None,
    {
        match self {
            Index::Zero => None,
            Index::One => Some(Index::Zero),
            Index::Two => Some(Index::One),
            Index::Three => Some(Index::Two),
            Index::Four => Some(Index::Three),
            Index::Five => Some(Index::Four),
            Index::Six => Some(Index::Five),
            Index::Seven => Some(Index::Six),
        }
    }
}

/// Indices are determined by their positions.
pub proof fn lemma_position_injective(i: Index, j: Index)
    ensures
        spec_position(i) == spec_position(j) ==> i == j,
{
}

/// The index at the position, if there is one.
pub open spec fn index_at(p: int) -> Option<Index> {
    if p == 0 {
        Some(Index::Zero)
    } else if p == 1 {
        Some(Index::One)
    } else if p == 2 {
        Some(Index::Two)
    } else if p == 3 {
        Some(Index::Three)
    } else if p == 4 {
        Some(Index::Four)
    } else if p == 5 {
        Some(Index::Five)
    } else if p == 6 {
        Some(Index::Six)
    } else if p == 7 {
        Some(Index::Seven)
    } else {
        None
    }
}

/// [`Index::increment`] and [`Index::decrement`] undo each other.
pub proof fn lemma_increment_decrement(i: Index)
    ensures
        index_at(spec_position(i) + 1int) matches Some(n) ==> index_at(spec_position(n) - 1) == Some(
            i,
        ),
        index_at(spec_position(i) - 1) matches Some(n) ==> index_at(spec_position(n) + 1int) == Some(
            i,
        ),
{
}

/// The contents of a datum: a leaf, or a pair of two data of the same region, by their indices.
#[derive(Copy, Clone, PartialEq, Eq, Structural, Debug)]
pub enum Inner {
    /// No edges.
    Leaf,
    /// Two edges.
    Pair(Index, Index),
}

/// A region of at most eight data, whose edges stay within it.
pub struct Region {
    /// The identity of the region, which no other region has.
    pub id: u32,
    /// The contents of the data, by the positions of their indices.
    pub cells: Vec<Inner>,
}

/// The contents of the datum at the index, or a leaf where the region has no such datum.
pub open spec fn spec_cell(region: &Region, index: Index) -> Inner {
    if spec_position(index) < region.cells@.len() {
        region.cells@[spec_position(index) as int]
    } else {
        Inner::Leaf
    }
}

/// Every pair of the region refers only to data allocated before it, so that the region has no
/// cycles.
pub open spec fn region_acyclic(region: &Region) -> bool {
    forall|p: int|
        0 <= p < region.cells@.len() ==> match #[trigger] region.cells@[p] {
            Inner::Pair(a, b) => spec_position(a) < p && spec_position(b) < p,
            Inner::Leaf => true,
        }
}

impl Region {
    /// The contents of the datum at the index, or a leaf where the region has no such datum.
    pub fn cell(&self, index: Index) -> (r: Inner)
        ensures
            r == spec_cell(self, index),
    {
        let p = index.position();
        if p < self.cells.len() {
            self.cells[p]
        } else {
            Inner::Leaf
        }
    }
}

/// A datum: a position in a region.
#[derive(Copy, Clone)]
pub struct Datum<'a> {
    /// The position of the datum.
    pub index: Index,
    /// The region that holds the datum.
    pub region: &'a Region,
}

/// Whether two data have the same shapes, recursively, regardless of identity.
pub open spec fn spec_naive_eq(a: Datum, b: Datum) -> bool
    decreases spec_position(a.index),
{
    match (spec_cell(a.region, a.index), spec_cell(b.region, b.index)) {
        (Inner::Leaf, Inner::Leaf) => true,
        (Inner::Pair(a1, a2), Inner::Pair(b1, b2)) => if spec_position(a1) < spec_position(a.index)
            && spec_position(a2) < spec_position(a.index) {
            spec_naive_eq(Datum { index: a1, region: a.region }, Datum { index: b1, region: b.region })
                && spec_naive_eq(
                Datum { index: a2, region: a.region },
                Datum { index: b2, region: b.region },
            )
        } else {
            false
        },
        _ => false,
    }
}

impl<'a> Datum<'a> {
    /// The datum at the index of the region.
    pub fn new(index: Index, region: &'a Region) -> (r: Self)
        ensures
            r.index == index,
            r.region == region,
    {
        Datum { index, region }
    }

    /// The contents of the datum.
    pub fn deref(&self) -> (r: Inner)
        ensures
            r == spec_cell(self.region, self.index),
    {
        self.region.cell(self.index)
    }

    /// Compare the shapes, recursively, regardless of identity.  This is intentionally naive
    /// and cannot handle cyclic regions.
    pub fn naive_eq(&self, other: &Self) -> (r: bool)
        requires
            region_acyclic(self.region),
        ensures
            r == spec_naive_eq(*self, *other),
        decreases spec_position(self.index),
    {
        match (self.deref(), other.deref()) {
            (Inner::Leaf, Inner::Leaf) => true,
            (Inner::Pair(a1, a2), Inner::Pair(b1, b2)) => {
                proof {
                    let p = spec_position(self.index) as int;
                    assert(region_acyclic(self.region));
                    if p < self.region.cells@.len() {
                        assert(match self.region.cells@[p] {
                            Inner::Pair(a, b) => spec_position(a) < p && spec_position(b) < p,
                            Inner::Leaf => true,
                        });
                    }
                }
                let x1 = Datum { index: a1, region: self.region };
                let y1 = Datum { index: b1, region: other.region };
                let x2 = Datum { index: a2, region: self.region };
                let y2 = Datum { index: b2, region: other.region };
                x1.naive_eq(&y1) && x2.naive_eq(&y2)
            },
            _ => false,
        }
    }
}

/// The identity of a datum: its region and its position, which no other datum has.
pub open spec fn spec_datum_id(d: Datum) -> u64 {
    ((d.region.id as u64) * 8 + spec_position(d.index)) as u64
}

impl<'a> Node for Datum<'a> {
    type Cmp = bool;

    open spec fn spec_id(&self) -> u64 {
        spec_datum_id(*self)
    }

    open spec fn spec_amount_edges(&self) -> usize {
        match spec_cell(self.region, self.index) {
            Inner::Leaf => 0,
            Inner::Pair(_, _) => 2,
        }
    }

    open spec fn spec_edge(&self, index: usize) -> Self {
        match spec_cell(self.region, self.index) {
            Inner::Pair(a, b) => Datum { index: if index == 0 { a } else { b }, region: self.region },
            Inner::Leaf => *self,
        }
    }

    open spec fn spec_equiv_modulo_edges(&self, other: &Self) -> bool {
        true
    }

    open spec fn spec_equiv_modulo_descendents_then_amount_edges(&self, other: &Self) -> Result<
        usize,
        bool,
    > {
        if self.spec_amount_edges() == other.spec_amount_edges() {
            Ok(self.spec_amount_edges())
        } else {
            Err(false)
        }
    }

    fn id(&self) -> (r: u64) {
        (self.region.id as u64) * 8 + (self.index.position() as u64)
    }

    fn amount_edges(&self) -> (r: usize) {
        match self.deref() {
            Inner::Leaf => 0,
            Inner::Pair(_, _) => 2,
        }
    }

    fn get_edge(&self, index: &usize) -> (r: Self) {
        match self.deref() {
            Inner::Pair(a, b) => Datum {
                index: if *index == 0 {
                    a
                } else {
                    b
                },
                region: self.region,
            },
            Inner::Leaf => *self,
        }
    }

    fn equiv_modulo_edges(&self, other: &Self) -> (r: bool) {
        true
    }

    fn equiv_modulo_descendents_then_amount_edges(&self, other: &Self) -> (r: Result<usize, bool>) {
        let az = self.amount_edges();
        if az == other.amount_edges() {
            Ok(az)
        } else {
            Err(false)
        }
    }
}

/// Allocates the data of a region, in the order of their indices, and makes pairs of them.
pub struct DatumAllocator {
    /// The identity of the region.
    pub id: u32,
    /// The contents of the data.
    pub cells: Vec<Inner>,
    /// The index of the next allocation, if any is left.
    pub next: Option<Index>,
}

impl DatumAllocator {
    /// An allocator of a region of `size` leaves, with the given identity.
    pub fn new(size: u32, id: u32) -> (r: Self)
        requires
            size <= 8,
        ensures
            r.id == id,
            r.cells@ == Seq::new(size as nat, |_i: int| Inner::Leaf),
            r.next == Some(Index::Zero),
    {
        let mut cells: Vec<Inner> = Vec::new();
        let mut i: u32 = 0;
        while i < size
            invariant
                i <= size,
                cells@ == Seq::new(i as nat, |_i: int| Inner::Leaf),
            decreases size - i,
        {
            cells.push(Inner::Leaf);
            i = i + 1;
        }
        DatumAllocator { id, cells, next: Some(Index::Zero) }
    }

    /// Allocate the datum at the next index.
    pub fn allocate(&mut self) -> (r: Index)
        requires
            old(self).next is Some,
        ensures
            r == old(self).next->0,
            spec_position(r) < 7 ==> (final(self).next matches Some(n) && spec_position(n)
                == spec_position(r) + 1),
            spec_position(r) == 7 ==> final(self).next is None,
            final(self).id == old(self).id,
            final(self).cells == old(self).cells,
    {
        let index = self.next.unwrap();
        self.next = index.increment();
        index
    }

    /// Make the datum at `x` the pair of `a` and `b`.
    pub fn set(&mut self, x: Index, a: Index, b: Index)
        requires
            spec_position(x) < old(self).cells@.len(),
        ensures
            final(self).cells@ == old(self).cells@.update(spec_position(x) as int, Inner::Pair(a, b)),
            final(self).id == old(self).id,
            final(self).next == old(self).next,
    {
        self.cells.set(x.position(), Inner::Pair(a, b));
    }

    /// Make the datum at `x` a leaf, and return its edges if it was a pair.
    pub fn take(&mut self, x: Index) -> (r: Option<(Index, Index)>)
        requires
            spec_position(x) < old(self).cells@.len(),
        ensures
            final(self).cells@ == old(self).cells@.update(spec_position(x) as int, Inner::Leaf),
            final(self).id == old(self).id,
            final(self).next == old(self).next,
            r == match old(self).cells@[spec_position(x) as int] {
                Inner::Pair(a, b) => Some((a, b)),
                Inner::Leaf => None::<(Index, Index)>,
            },
    {
        let p = x.position();
        let r = match self.cells[p] {
            Inner::Pair(a, b) => Some((a, b)),
            Inner::Leaf => None,
        };
        self.cells.set(p, Inner::Leaf);
        r
    }

    /// The region of the allocated data.
    pub fn into_region(self) -> (r: Region)
        ensures
            r.id == self.id,
            r.cells == self.cells,
    {
        Region { id: self.id, cells: self.cells }
    }
}

} // verus!
