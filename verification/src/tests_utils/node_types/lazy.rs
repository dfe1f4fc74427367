use vstd::prelude::*;

verus! {

/// The shape that a lazily-generated datum is part of.
#[derive(PartialEq, Eq, Structural, Copy, Clone, Debug)]
pub enum Shape {
    /// No edges.
    Leaf,
    /// A pair of a leaf and the rest of the list.
    List,
    /// A pair of the rest of the list and a leaf.
    InvertedList,
    /// A pair whose two edges are the same next pair, down to a leaf.
    DegenerateDAG,
    /// A pair whose two edges are the same next pair, around a cycle.
    DegenerateCyclic,
}

/// The identity of a lazily-generated datum: its allocator, the generation of the allocation
/// that its shape started from, and its number within the shape.
#[derive(PartialEq, Eq, Structural, Copy, Clone, Debug, Hash)]
pub struct Id {
    /// The identity of the allocator.
    pub allocator: u64,
    /// The generation of the allocation that the shape started from.
    pub gen: usize,
    /// The number of the datum within its shape.
    pub num: usize,
}

impl Id {
    /// The identity with a number that is `rhs` less.
    pub fn sub(&self, rhs: usize) -> (r: Id)
        requires
            self.num >= rhs,
        ensures
            r == (Id { num: (self.num - rhs) as usize, ..*self }),
    {
        Id { allocator: self.allocator, gen: self.gen, num: self.num - rhs }
    }
}

/// The state of a lazily-generated datum: its identity, the shape it is part of, and its depth
/// within the shape.
#[derive(PartialEq, Eq, Structural, Copy, Clone, Debug)]
pub struct Inner {
    /// The identity.
    pub id: Id,
    /// The shape it is part of.
    pub shape: Shape,
    /// The depth within the shape, or the length of the cycle for a cyclic shape.
    pub depth: usize,
}

/// The identity with a number that is one less.
pub open spec fn id_pred(id: Id) -> Id {
    Id { num: (id.num - 1) as usize, ..id }
}

/// A well-formed state: the numbers of the data that its edges generate stay in range.
pub open spec fn inner_wf(i: Inner) -> bool {
    match i.shape {
        Shape::Leaf => i.depth == 0,
        Shape::List => i.depth >= 1 && i.id.num >= 2 * i.depth,
        Shape::InvertedList => i.depth >= 1 && i.id.num >= 2 * i.depth,
        Shape::DegenerateDAG => i.depth >= 1 && i.id.num >= i.depth,
        Shape::DegenerateCyclic => i.depth >= 1 && i.id.num < i.depth,
    }
}

/// The edges that a state generates, if it is a pair.
pub open spec fn spec_get_edges(i: Inner) -> Option<(Inner, Inner)> {
    if i.depth >= 1 {
        let depth = (i.depth - 1) as usize;
        match i.shape {
            Shape::List => {
                let left = Inner { id: id_pred(i.id), shape: Shape::Leaf, depth: 0 };
                let right = Inner {
                    id: id_pred(left.id),
                    shape: if depth >= 1 {
                        Shape::List
                    } else {
                        Shape::Leaf
                    },
                    depth,
                };
                Some((left, right))
            },
            Shape::InvertedList => {
                let right = Inner { id: id_pred(i.id), shape: Shape::Leaf, depth: 0 };
                let left = Inner {
                    id: id_pred(right.id),
                    shape: if depth >= 1 {
                        Shape::InvertedList
                    } else {
                        Shape::Leaf
                    },
                    depth,
                };
                Some((left, right))
            },
            Shape::DegenerateDAG => {
                let left = Inner {
                    id: id_pred(i.id),
                    shape: if depth >= 1 {
                        Shape::DegenerateDAG
                    } else {
                        Shape::Leaf
                    },
                    depth,
                };
                Some((left, left))
            },
            Shape::DegenerateCyclic => {
                let id = if i.id.num == 0 {
                    Id { num: depth, ..i.id }
                } else {
                    id_pred(i.id)
                };
                let left = Inner { id, shape: Shape::DegenerateCyclic, depth: i.depth };
                Some((left, left))
            },
            Shape::Leaf => None,
        }
    } else {
        None
    }
}

impl Inner {
    /// The edges that this state generates, if it is a pair.  The edges are well-formed too.
    pub fn get_edges(&self) -> (r: Option<(Self, Self)>)
        requires
            inner_wf(*self),
        ensures
            r == spec_get_edges(*self),
            r matches Some((a, b)) ==> inner_wf(a) && inner_wf(b),
    {
        if self.depth >= 1 {
            let depth = self.depth - 1;
            match self.shape {
                Shape::List => {
                    let left = Inner { id: self.id.sub(1), shape: Shape::Leaf, depth: 0 };
                    let right = Inner {
                        id: left.id.sub(1),
                        shape: if depth >= 1 {
                            Shape::List
                        } else {
                            Shape::Leaf
                        },
                        depth,
                    };
                    Some((left, right))
                },
                Shape::InvertedList => {
                    let right = Inner { id: self.id.sub(1), shape: Shape::Leaf, depth: 0 };
                    let left = Inner {
                        id: right.id.sub(1),
                        shape: if depth >= 1 {
                            Shape::InvertedList
                        } else {
                            Shape::Leaf
                        },
                        depth,
                    };
                    Some((left, right))
                },
                Shape::DegenerateDAG => {
                    let left = Inner {
                        id: self.id.sub(1),
                        shape: if depth >= 1 {
                            Shape::DegenerateDAG
                        } else {
                            Shape::Leaf
                        },
                        depth,
                    };
                    Some((left, left))
                },
                Shape::DegenerateCyclic => {
                    let id = if self.id.num == 0 {
                        Id { allocator: self.id.allocator, gen: self.id.gen, num: depth }
                    } else {
                        self.id.sub(1)
                    };
                    let left = Inner { id, shape: Shape::DegenerateCyclic, depth: self.depth };
                    Some((left, left))
                },
                Shape::Leaf => None,
            }
        } else {
            None
        }
    }
}

/// Whether [`Datum::set`] may combine the states: the allocation protocol of the shape makers
/// is followed, and the numbers stay in range.
pub open spec fn set_ok(inner: Inner, a: Inner, b: Inner) -> bool {
    &&& inner.id.num == 0
    &&& inner.shape == Shape::Leaf
    &&& inner.depth == 0
    &&& inner.id.allocator == a.id.allocator
    &&& a.id.allocator == b.id.allocator
    &&& inner_wf(a)
    &&& inner_wf(b)
    &&& match (a.shape, b.shape) {
        (Shape::Leaf, Shape::Leaf) => a.id.num == 0 && a.depth == 0 && b.id.num == 0 && b.depth
            == 0 && (a.id == b.id || a.id.gen != b.id.gen),
        (Shape::Leaf, Shape::List) => a.id.num == 0 && a.depth == 0 && a.id.gen > b.id.gen
            && b.id.num + 2 <= usize::MAX && b.depth + 1 <= usize::MAX,
        (Shape::InvertedList, Shape::Leaf) => b.id.num == 0 && b.depth == 0 && a.id.gen < b.id.gen
            && a.id.num + 2 <= usize::MAX && a.depth + 1 <= usize::MAX,
        (Shape::DegenerateDAG, Shape::DegenerateDAG) => a == b && a.id.num + 1 <= usize::MAX
            && a.depth + 1 <= usize::MAX,
        (Shape::DegenerateCyclic, Shape::DegenerateCyclic) => a == b,
        _ => false,
    }
}

/// The state that [`Datum::set`] gives a leaf when it is made the pair of `a` and `b`.
pub open spec fn spec_set(inner: Inner, a: Inner, b: Inner) -> Inner {
    let owner = inner.id.allocator;
    match (a.shape, b.shape) {
        (Shape::Leaf, Shape::Leaf) => if a.id == b.id {
            if inner.id == a.id {
                Inner { id: inner.id, shape: Shape::DegenerateCyclic, depth: 1 }
            } else {
                Inner { id: Id { allocator: owner, gen: a.id.gen, num: 1 }, shape: Shape::DegenerateDAG, depth: 1 }
            }
        } else if a.id.gen > b.id.gen {
            Inner { id: Id { allocator: owner, gen: b.id.gen, num: 2 }, shape: Shape::List, depth: 1 }
        } else {
            Inner { id: Id { allocator: owner, gen: a.id.gen, num: 2 }, shape: Shape::InvertedList, depth: 1 }
        },
        (Shape::Leaf, Shape::List) => Inner {
            id: Id { allocator: owner, gen: b.id.gen, num: (b.id.num + 2) as usize },
            shape: Shape::List,
            depth: (b.depth + 1) as usize,
        },
        (Shape::InvertedList, Shape::Leaf) => Inner {
            id: Id { allocator: owner, gen: a.id.gen, num: (a.id.num + 2) as usize },
            shape: Shape::InvertedList,
            depth: (a.depth + 1) as usize,
        },
        (Shape::DegenerateDAG, Shape::DegenerateDAG) => if inner.id.gen == a.id.gen {
            Inner {
                id: Id { allocator: owner, gen: inner.id.gen, num: 0 },
                shape: Shape::DegenerateCyclic,
                depth: (a.depth + 1) as usize,
            }
        } else {
            Inner {
                id: Id { allocator: owner, gen: a.id.gen, num: (a.id.num + 1) as usize },
                shape: Shape::DegenerateDAG,
                depth: (a.depth + 1) as usize,
            }
        },
        _ => Inner { id: Id { allocator: a.id.allocator, gen: a.id.gen, num: 0 }, shape: Shape::DegenerateCyclic, depth: a.depth },
    }
}

/// Generates edges lazily and uses little memory itself.
#[derive(Copy, Clone, Debug)]
pub struct Datum(pub Inner);

/// Whether two well-formed acyclic data generate the same shapes, recursively, as if the
/// shapes existed.
pub open spec fn spec_naive_eq(a: Inner, b: Inner) -> bool
    decreases a.depth,
{
    a.shape == b.shape && match (spec_get_edges(a), spec_get_edges(b)) {
        (Some((a1, a2)), Some((b1, b2))) => if a.shape != Shape::DegenerateCyclic && a1.depth
            < a.depth && a2.depth < a.depth {
            spec_naive_eq(a1, b1) && spec_naive_eq(a2, b2)
        } else {
            false
        },
        (None, None) => true,
        _ => false,
    }
}

impl Datum {
    /// The state of the datum.
    pub fn inner(&self) -> (r: Inner)
        ensures
            r == self.0,
    {
        self.0
    }

    /// The edges that this datum generates, if it is a pair.
    pub fn get_edges(&self) -> (r: Option<(Self, Self)>)
        requires
            inner_wf(self.0),
        ensures
            match spec_get_edges(self.0) {
                Some((a, b)) => r matches Some((x, y)) && x.0 == a && y.0 == b,
                None => r is None,
            },
            r matches Some((x, y)) ==> inner_wf(x.0) && inner_wf(y.0),
    {
        match self.0.get_edges() {
            Some((left, right)) => Some((Datum(left), Datum(right))),
            None => None,
        }
    }

    /// Make this leaf be the pair of `a` and `b`, in the lazy representation.  Must only be used
    /// by the shape makers, which follow the allocation protocol.
    pub fn set(&mut self, a: Self, b: Self)
        requires
            set_ok(old(self).0, a.0, b.0),
        ensures
            final(self).0 == spec_set(old(self).0, a.0, b.0),
            inner_wf(final(self).0),
    {
        let inner = self.0;
        let owner = inner.id.allocator;
        let (a, b) = (a.0, b.0);
        let new = match (a.shape, b.shape) {
            (Shape::Leaf, Shape::Leaf) => {
                if a.id == b.id {
                    if inner.id == a.id {
                        Inner { id: inner.id, shape: Shape::DegenerateCyclic, depth: 1 }
                    } else {
                        Inner {
                            id: Id { allocator: owner, gen: a.id.gen, num: 1 },
                            shape: Shape::DegenerateDAG,
                            depth: 1,
                        }
                    }
                } else if a.id.gen > b.id.gen {
                    Inner { id: Id { allocator: owner, gen: b.id.gen, num: 2 }, shape: Shape::List, depth: 1 }
                } else {
                    Inner {
                        id: Id { allocator: owner, gen: a.id.gen, num: 2 },
                        shape: Shape::InvertedList,
                        depth: 1,
                    }
                }
            },
            (Shape::Leaf, Shape::List) => Inner {
                id: Id { allocator: owner, gen: b.id.gen, num: b.id.num + 2 },
                shape: Shape::List,
                depth: b.depth + 1,
            },
            (Shape::InvertedList, Shape::Leaf) => Inner {
                id: Id { allocator: owner, gen: a.id.gen, num: a.id.num + 2 },
                shape: Shape::InvertedList,
                depth: a.depth + 1,
            },
            (Shape::DegenerateDAG, Shape::DegenerateDAG) => {
                if inner.id.gen == a.id.gen {
                    Inner {
                        id: Id { allocator: owner, gen: inner.id.gen, num: 0 },
                        shape: Shape::DegenerateCyclic,
                        depth: a.depth + 1,
                    }
                } else {
                    Inner {
                        id: Id { allocator: owner, gen: a.id.gen, num: a.id.num + 1 },
                        shape: Shape::DegenerateDAG,
                        depth: a.depth + 1,
                    }
                }
            },
            _ => Inner {
                id: Id { allocator: a.id.allocator, gen: a.id.gen, num: 0 },
                shape: Shape::DegenerateCyclic,
                depth: a.depth,
            },
        };
        self.0 = new;
    }

    /// Take the edges out of this datum, which becomes a leaf with the same identity.
    pub fn take(&mut self) -> (r: Option<(Self, Self)>)
        requires
            inner_wf(old(self).0),
        ensures
            final(self).0 == (Inner { shape: Shape::Leaf, depth: 0, ..old(self).0 }),
            match spec_get_edges(old(self).0) {
                Some((a, b)) => r matches Some((x, y)) && x.0 == a && y.0 == b,
                None => r is None,
            },
            r matches Some((x, y)) ==> inner_wf(x.0) && inner_wf(y.0),
    {
        let result = self.get_edges();
        self.0 = Inner { id: self.0.id, shape: Shape::Leaf, depth: 0 };
        result
    }

    /// Compare as if the shapes existed: the same shapes, recursively.  This is intentionally
    /// naive and cannot handle cyclic shapes.
    pub fn naive_eq(&self, other: &Self) -> (r: bool)
        requires
            inner_wf(self.0),
            inner_wf(other.0),
            self.0.shape != Shape::DegenerateCyclic,
        ensures
            r == spec_naive_eq(self.0, other.0),
        decreases self.0.depth,
    {
        if self.0.shape != other.0.shape {
            return false;
        }
        match (self.get_edges(), other.get_edges()) {
            (Some((a1, a2)), Some((b1, b2))) => {
                a1.naive_eq(&b1) && a2.naive_eq(&b2)
            },
            (None, None) => true,
            _ => false,
        }
    }
}

/// The allocator of lazily-generated data: it numbers the generations of its allocations.
pub struct DatumAllocator {
    /// The identity of the allocator.
    pub id: u64,
    /// The generation of the next allocation.
    pub next_gen: usize,
}

impl DatumAllocator {
    /// A new allocator, with the given identity.
    pub fn new(id: u64) -> (r: Self)
        ensures
            r.id == id,
            r.next_gen == 0,
    {
        DatumAllocator { id, next_gen: 0 }
    }

    /// Allocate a leaf of the next generation.
    pub fn allocate(&mut self) -> (r: Datum)
        requires
            old(self).next_gen < usize::MAX,
        ensures
            final(self).id == old(self).id,
            final(self).next_gen == old(self).next_gen + 1,
            r.0 == (Inner {
                id: Id { allocator: old(self).id, gen: old(self).next_gen, num: 0 },
                shape: Shape::Leaf,
                depth: 0,
            }),
    {
        let gen = self.next_gen;
        self.next_gen = self.next_gen + 1;
        Datum(Inner { id: Id { allocator: self.id, gen, num: 0 }, shape: Shape::Leaf, depth: 0 })
    }
}

} // verus!
