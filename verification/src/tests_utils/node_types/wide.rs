use std::rc::Rc;
use vstd::prelude::*;

verus! {

/// Generates very many edges but uses little memory itself: all the edges of a branch are the
/// same shared descendent.
pub enum Datum {
    /// No edges.
    Leaf,
    /// `width` edges, all of them `proto_edge`.
    Branch {
        /// The amount of edges.
        width: usize,
        /// The descendent that every edge is.
        proto_edge: Rc<Datum>,
    },
}

/// A chain of `depth` branches, each of `width` edges to the next, ending in a leaf.
pub open spec fn spec_degenerate_chain(width: usize, depth: nat) -> Datum
    decreases depth,
{
    if depth == 0 {
        Datum::Leaf
    } else {
        Datum::Branch { width, proto_edge: Rc::new(spec_degenerate_chain(width, (depth - 1) as nat)) }
    }
}

/// The amount of edges of a datum.
pub open spec fn spec_width(d: Datum) -> usize {
    match d {
        Datum::Leaf => 0,
        Datum::Branch { width, .. } => width,
    }
}

impl Datum {
    /// A chain of `depth` branches, each of `width` edges to the next, ending in a leaf.
    pub fn degenerate_chain(width: usize, depth: u32) -> (r: Self)
        ensures
            r == spec_degenerate_chain(width, depth as nat),
    {
        let mut head = Datum::Leaf;
        let mut i: u32 = 0;
        while i < depth
            invariant
                i <= depth,
                head == spec_degenerate_chain(width, i as nat),
            decreases depth - i,
        {
            head = Datum::Branch { width, proto_edge: Rc::new(head) };
            i = i + 1;
        }
        head
    }

    /// The amount of edges.
    pub fn width(&self) -> (r: usize)
        ensures
            r == spec_width(*self),
    {
        match self {
            Datum::Leaf => 0,
            Datum::Branch { width, .. } => *width,
        }
    }

    /// The edge at the given index, which must be less than the width.
    pub fn index(&self, index: usize) -> (r: &Datum)
        requires
            index < spec_width(*self),
        ensures
            self matches Datum::Branch { proto_edge, .. } && *r == *proto_edge,
    {
        match self {
            Datum::Branch { proto_edge, .. } => &**proto_edge,
            Datum::Leaf => {
                proof {
                    assert(false);
                }
                self
            },
        }
    }
}

} // verus!
