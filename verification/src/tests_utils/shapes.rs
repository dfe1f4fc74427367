use crate::tests_utils::node_types::lazy::{
    inner_wf, set_ok, spec_get_edges, spec_set, Datum, DatumAllocator, Id, Inner, Shape,
};
use vstd::prelude::*;

verus! {

/// The state of a leaf allocated by the allocator `owner` as generation `gen`.
pub open spec fn spec_leaf(owner: u64, gen: usize) -> Inner {
    Inner { id: Id { allocator: owner, gen, num: 0 }, shape: Shape::Leaf, depth: 0 }
}

/// The head of a chain of `k` pairs of the given shape, which started from the leaf of
/// generation `gen`.  `shape` is one of the list shapes or the degenerate-DAG shape.
pub open spec fn spec_chain_head(owner: u64, gen: usize, shape: Shape, k: nat) -> Inner {
    if k == 0 {
        spec_leaf(owner, gen)
    } else {
        Inner {
            id: Id {
                allocator: owner,
                gen,
                num: (if shape == Shape::DegenerateDAG {
                    k
                } else {
                    2 * k
                }) as usize,
            },
            shape,
            depth: k as usize,
        }
    }
}

/// How many allocations one link of a chain of the given shape takes: a list link allocates a
/// leaf and a pair, a degenerate link only a pair.
pub open spec fn allocs_per_link(shape: Shape) -> nat {
    if shape == Shape::DegenerateDAG {
        1
    } else {
        2
    }
}

/// The head and the tail of a degenerate cycle of `depth` pairs, which started from the leaf of
/// generation `gen`.
pub open spec fn spec_cyclic_ends(owner: u64, gen: usize, depth: nat) -> (Inner, Inner) {
    if depth == 0 {
        (spec_leaf(owner, gen), spec_leaf(owner, gen))
    } else {
        (
            Inner {
                id: Id { allocator: owner, gen, num: (depth - 1) as usize },
                shape: Shape::DegenerateCyclic,
                depth: depth as usize,
            },
            Inner {
                id: Id { allocator: owner, gen, num: 0 },
                shape: Shape::DegenerateCyclic,
                depth: depth as usize,
            },
        )
    }
}

/// Makes chains of pairs of lazily-generated data, in various shapes, of a given depth.
pub struct PairChainMaker {
    depth: u32,
    allocator: DatumAllocator,
    head: Datum,
    tail: Datum,
}

impl PairChainMaker {
    /// The depth of the chain to make.
    pub closed spec fn spec_depth(&self) -> nat {
        self.depth as nat
    }

    /// The identity of the allocator.
    pub closed spec fn spec_owner(&self) -> u64 {
        self.allocator.id
    }

    /// The generation of the leaf that the chain starts from.
    pub closed spec fn spec_start(&self) -> usize {
        self.tail.0.id.gen
    }

    /// The generation of the next allocation.
    pub closed spec fn spec_next_gen(&self) -> nat {
        self.allocator.next_gen as nat
    }

    /// A maker that has not made a chain yet: its head and its tail are the same leaf, the last
    /// that its allocator allocated.
    pub closed spec fn wf(&self) -> bool {
        &&& self.tail.0 == spec_leaf(self.allocator.id, self.tail.0.id.gen)
        &&& self.head.0 == self.tail.0
        &&& self.allocator.next_gen == self.tail.0.id.gen + 1
    }

    /// Whether the allocations of a chain of the given shape stay in range.
    pub open spec fn fits(&self, shape: Shape) -> bool {
        self.spec_next_gen() + allocs_per_link(shape) * self.spec_depth() <= usize::MAX
    }

    /// A maker of chains of the given depth, whose tail is a new leaf of the allocator.
    pub fn new_with(depth: u32, allocator: DatumAllocator) -> (r: Self)
        requires
            allocator.next_gen < usize::MAX,
        ensures
            r.wf(),
            r.spec_depth() == depth,
            r.spec_owner() == allocator.id,
            r.spec_start() == allocator.next_gen,
            r.spec_next_gen() == allocator.next_gen + 1,
    {
        let mut allocator = allocator;
        let tail = allocator.allocate();
        let head = tail;
        PairChainMaker { depth, allocator, head, tail }
    }

    /// A maker of chains of the given depth, with a new allocator.
    pub fn new(depth: u32) -> (r: Self)
        ensures
            r.wf(),
            r.spec_depth() == depth,
            r.spec_owner() == 0,
            r.spec_start() == 0,
            r.spec_next_gen() == 1,
    {
        Self::new_with(depth, DatumAllocator::new(0))
    }

    /// The allocator, with the allocations that the chains took.
    pub fn into_allocator(self) -> (r: DatumAllocator)
        ensures
            r.id == self.spec_owner(),
            r.next_gen == self.spec_next_gen(),
    {
        self.allocator
    }

    /// A list: each pair has a new leaf on the left and the rest of the list on the right.
    /// Returns the head and the tail.
    pub fn list(&mut self) -> (r: (Datum, Datum))
        requires
            old(self).wf(),
            old(self).fits(Shape::List),
        ensures
            r.0.0 == spec_chain_head(
                old(self).spec_owner(),
                old(self).spec_start(),
                Shape::List,
                old(self).spec_depth(),
            ),
            r.1.0 == spec_leaf(old(self).spec_owner(), old(self).spec_start()),
            final(self).spec_owner() == old(self).spec_owner(),
            final(self).spec_next_gen() == old(self).spec_next_gen() + 2 * old(self).spec_depth(),
    {
        self.chain(true, false)
    }

    /// An inverted list: each pair has the rest of the list on the left and a new leaf on the
    /// right.  Returns the head and the tail.
    pub fn inverted_list(&mut self) -> (r: (Datum, Datum))
        requires
            old(self).wf(),
            old(self).fits(Shape::InvertedList),
        ensures
            r.0.0 == spec_chain_head(
                old(self).spec_owner(),
                old(self).spec_start(),
                Shape::InvertedList,
                old(self).spec_depth(),
            ),
            r.1.0 == spec_leaf(old(self).spec_owner(), old(self).spec_start()),
            final(self).spec_owner() == old(self).spec_owner(),
            final(self).spec_next_gen() == old(self).spec_next_gen() + 2 * old(self).spec_depth(),
    {
        self.chain(false, true)
    }

    /// A degenerate DAG: both edges of each pair are the rest of the chain.  Returns the head and
    /// the tail.
    pub fn degenerate_dag(&mut self) -> (r: (Datum, Datum))
        requires
            old(self).wf(),
            old(self).fits(Shape::DegenerateDAG),
        ensures
            r.0.0 == spec_chain_head(
                old(self).spec_owner(),
                old(self).spec_start(),
                Shape::DegenerateDAG,
                old(self).spec_depth(),
            ),
            r.1.0 == spec_leaf(old(self).spec_owner(), old(self).spec_start()),
            final(self).spec_owner() == old(self).spec_owner(),
            final(self).spec_next_gen() == old(self).spec_next_gen() + old(self).spec_depth(),
    {
        self.chain(false, false)
    }

    /// A degenerate cycle: a degenerate DAG one pair shorter whose tail is made the pair of its
    /// head, so that the chain has `depth` pairs around the cycle.  Returns the head and the tail.
    pub fn degenerate_cyclic(&mut self) -> (r: (Datum, Datum))
        requires
            old(self).wf(),
            old(self).fits(Shape::DegenerateDAG),
        ensures
            r == (
                Datum(
                    spec_cyclic_ends(
                        old(self).spec_owner(),
                        old(self).spec_start(),
                        old(self).spec_depth(),
                    ).0,
                ),
                Datum(
                    spec_cyclic_ends(
                        old(self).spec_owner(),
                        old(self).spec_start(),
                        old(self).spec_depth(),
                    ).1,
                ),
            ),
            final(self).spec_owner() == old(self).spec_owner(),
            old(self).spec_depth() >= 1 ==> final(self).spec_next_gen() == old(self).spec_next_gen()
                + old(self).spec_depth() - 1,
            old(self).spec_depth() == 0 ==> final(self).spec_next_gen() == old(self).spec_next_gen(),
    {
        let depth = self.depth;
        self.depth = depth.saturating_sub(1);
        let (mut head, mut tail) = self.degenerate_dag();
        if depth >= 1 {
            assert(set_ok(tail.0, head.0, head.0));
            tail.set(head, head);
            assert(spec_get_edges(tail.0) is Some);
            let (left, _right) = tail.take().unwrap();
            head = left;
            assert(set_ok(tail.0, head.0, head.0));
            tail.set(head, head);
        }
        (head, tail)
    }

    /// Make the chain: each link is a new pair whose left edge is a new leaf when `left_leaf`
    /// (else the chain so far) and likewise on the right.
    fn chain(&mut self, left_leaf: bool, right_leaf: bool) -> (r: (Datum, Datum))
        requires
            old(self).wf(),
            !(left_leaf && right_leaf),
            old(self).fits(
                if left_leaf {
                    Shape::List
                } else if right_leaf {
                    Shape::InvertedList
                } else {
                    Shape::DegenerateDAG
                },
            ),
        ensures
            r.0.0 == spec_chain_head(
                old(self).spec_owner(),
                old(self).spec_start(),
                if left_leaf {
                    Shape::List
                } else if right_leaf {
                    Shape::InvertedList
                } else {
                    Shape::DegenerateDAG
                },
                old(self).spec_depth(),
            ),
            r.1.0 == spec_leaf(old(self).spec_owner(), old(self).spec_start()),
            final(self).spec_owner() == old(self).spec_owner(),
            final(self).spec_next_gen() == old(self).spec_next_gen() + allocs_per_link(
                if left_leaf {
                    Shape::List
                } else if right_leaf {
                    Shape::InvertedList
                } else {
                    Shape::DegenerateDAG
                },
            ) * old(self).spec_depth(),
    {
        let ghost shape = if left_leaf {
            Shape::List
        } else if right_leaf {
            Shape::InvertedList
        } else {
            Shape::DegenerateDAG
        };
        let ghost per = allocs_per_link(shape);
        let ghost owner = self.allocator.id;
        let ghost gen = self.tail.0.id.gen;
        let ghost total = self.depth as nat;
        while self.depth >= 1
            invariant
                self.allocator.id == owner,
                self.tail.0 == spec_leaf(owner, gen),
                self.depth <= total,
                self.head.0 == spec_chain_head(owner, gen, shape, (total - self.depth) as nat),
                self.allocator.next_gen == gen + 1 + per * (total - self.depth),
                gen + 1 + per * total <= usize::MAX,
                per == allocs_per_link(shape),
                shape == (if left_leaf {
                    Shape::List
                } else if right_leaf {
                    Shape::InvertedList
                } else {
                    Shape::DegenerateDAG
                }),
                !(left_leaf && right_leaf),
            decreases self.depth,
        {
            let ghost k: nat = (total - self.depth) as nat;
            self.depth = self.depth - 1;
            assert(per * k + per <= per * total) by (nonlinear_arith)
                requires
                    k + 1 <= total,
                    per >= 1,
            ;
            let a = if left_leaf {
                self.allocator.allocate()
            } else {
                self.head
            };
            let b = if right_leaf {
                self.allocator.allocate()
            } else {
                self.head
            };
            let mut x = self.allocator.allocate();
            assert(set_ok(x.0, a.0, b.0));
            x.set(a, b);
            assert(per * (k + 1) == per * k + per) by (nonlinear_arith);
            self.head = x;
        }
        (self.head, self.tail)
    }
}

} // verus!
