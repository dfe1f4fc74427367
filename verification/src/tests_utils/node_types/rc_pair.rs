use std::rc::Rc;
use vstd::prelude::*;

use crate::Node;

verus! {

/// A datum: a leaf, or a pair of shared data.  Its identity is given by its allocator.
pub struct Datum {
    /// The identity, which no other datum has.
    pub id: u64,
    /// The two edges of a pair, or none for a leaf.
    pub edges: Option<(Rc<Datum>, Rc<Datum>)>,
}

/// The identity of the datum that is allocated as number `count` of the region.
pub open spec fn spec_rc_id(region: u32, count: u32) -> u64 {
    (region as u64 * 0x1_0000_0000 + count as u64) as u64
}

/// Allocates data with identities that are distinct within the region, and, for distinct
/// regions, across them.
pub struct DatumAllocator {
    /// The identity of the region.
    pub region: u32,
    /// How many data were allocated.
    pub count: u32,
}

impl DatumAllocator {
    /// An allocator for the given region, which has allocated nothing.
    pub fn new(region: u32) -> (r: Self)
        ensures
            r.region == region,
            r.count == 0,
    {
        DatumAllocator { region, count: 0 }
    }

    /// The identity for the next allocation.
    fn next_id(&mut self) -> (r: u64)
        requires
            old(self).count < u32::MAX,
        ensures
            r == spec_rc_id(old(self).region, old(self).count),
            final(self).region == old(self).region,
            final(self).count == old(self).count + 1,
    {
        let id = (self.region as u64) * 0x1_0000_0000 + (self.count as u64);
        self.count = self.count + 1;
        id
    }

    /// A new leaf.
    pub fn leaf(&mut self) -> (r: Rc<Datum>)
        requires
            old(self).count < u32::MAX,
        ensures
            r.id == spec_rc_id(old(self).region, old(self).count),
            r.edges is None,
            final(self).region == old(self).region,
            final(self).count == old(self).count + 1,
    {
        let id = self.next_id();
        Rc::new(Datum { id, edges: None })
    }

    /// A new pair of `a` and `b`.
    pub fn pair(&mut self, a: Rc<Datum>, b: Rc<Datum>) -> (r: Rc<Datum>)
        requires
            old(self).count < u32::MAX,
        ensures
            r.id == spec_rc_id(old(self).region, old(self).count),
            r.edges == Some((a, b)),
            final(self).region == old(self).region,
            final(self).count == old(self).count + 1,
    {
        let id = self.next_id();
        Rc::new(Datum { id, edges: Some((a, b)) })
    }
}

/// A list of `depth` pairs, each with a leaf on one side and the rest of the list on the other:
/// the leaf on the left, or, for an inverted list, on the right.
pub open spec fn is_list(d: Datum, depth: nat, inverted: bool) -> bool
    decreases depth,
{
    if depth == 0 {
        d.edges is None
    } else {
        match d.edges {
            Some((l, r)) => if inverted {
                is_list(*l, (depth - 1) as nat, inverted) && r.edges is None
            } else {
                l.edges is None && is_list(*r, (depth - 1) as nat, inverted)
            },
            None => false,
        }
    }
}

/// A vee of depth `depth`: a pair of an inverted list and a list, each one shorter, or a leaf
/// for depth 0.
pub open spec fn is_vee(d: Datum, depth: nat) -> bool {
    if depth == 0 {
        d.edges is None
    } else {
        match d.edges {
            Some((l, r)) => is_list(*l, (depth - 1) as nat, true) && is_list(
                *r,
                (depth - 1) as nat,
                false,
            ),
            None => false,
        }
    }
}

/// How many data a tree has, counting shared data as often as they are reached.
pub open spec fn tree_size(d: Datum) -> nat
    decreases d,
{
    match d.edges {
        Some((l, r)) => 1 + tree_size(*l) + tree_size(*r),
        None => 1,
    }
}

/// The datum at the end of the spine of a list of `depth` pairs: the innermost datum, reached by
/// following the side that holds the rest of the list.
pub open spec fn spine_end(d: Datum, depth: nat, inverted: bool) -> Datum
    decreases depth,
{
    if depth == 0 {
        d
    } else {
        match d.edges {
            Some((l, r)) => if inverted {
                spine_end(*l, (depth - 1) as nat, inverted)
            } else {
                spine_end(*r, (depth - 1) as nat, inverted)
            },
            None => d,
        }
    }
}

impl DatumAllocator {
    /// A list of `depth` pairs, each with a new leaf on the left, or, for an inverted list, on
    /// the right, built on a first leaf, which is the tail.  Gives the head and the tail.
    pub fn list(&mut self, depth: u32, inverted: bool) -> (r: (Rc<Datum>, Rc<Datum>))
        requires
            old(self).count + 2 * depth < u32::MAX,
        ensures
            is_list(*r.0, depth as nat, inverted),
            *r.1 == spine_end(*r.0, depth as nat, inverted),
            r.1.edges is None,
            r.1.id == spec_rc_id(old(self).region, old(self).count),
            depth == 0 ==> r.0 == r.1,
            final(self).region == old(self).region,
            final(self).count == old(self).count + 2 * depth + 1,
    {
        let tail = self.leaf();
        let mut head = tail.clone();
        let mut i: u32 = 0;
        while i < depth
            invariant
                i <= depth,
                is_list(*head, i as nat, inverted),
                *tail == spine_end(*head, i as nat, inverted),
                tail.edges is None,
                tail.id == spec_rc_id(old(self).region, old(self).count),
                i == 0 ==> head == tail,
                self.region == old(self).region,
                self.count == old(self).count + 2 * i + 1,
                old(self).count + 2 * depth < u32::MAX,
            decreases depth - i,
        {
            let leaf = self.leaf();
            head = if inverted {
                self.pair(head, leaf)
            } else {
                self.pair(leaf, head)
            };
            i = i + 1;
        }
        (head, tail)
    }

    /// A vee of depth `depth`: a pair of an inverted list and a list, each one shorter, or a
    /// leaf for depth 0.  Gives the head and the two tails: the tails of the two lists, which
    /// are distinct leaves, or, for depth 0, the one leaf three times.
    pub fn vee(&mut self, depth: u32) -> (r: (Rc<Datum>, (Rc<Datum>, Rc<Datum>)))
        requires
            old(self).count + 4 * depth < u32::MAX,
        ensures
            is_vee(*r.0, depth as nat),
            r.1.0.edges is None,
            r.1.1.edges is None,
            depth == 0 ==> r.0 == r.1.0 && r.0 == r.1.1,
            depth > 0 ==> (r.0.edges matches Some((lh, rh)) && *r.1.0 == spine_end(
                *lh,
                (depth - 1) as nat,
                true,
            ) && *r.1.1 == spine_end(*rh, (depth - 1) as nat, false)),
            depth > 0 ==> r.1.0.id != r.1.1.id,
            final(self).region == old(self).region,
            final(self).count == old(self).count + (if depth == 0 {
                1
            } else {
                4 * depth - 1
            }),
    {
        if depth == 0 {
            let leaf = self.leaf();
            (leaf.clone(), (leaf.clone(), leaf))
        } else {
            let side = depth - 1;
            let (left, left_tail) = self.list(side, true);
            let (right, right_tail) = self.list(side, false);
            let head = self.pair(left, right);
            (head, (left_tail, right_tail))
        }
    }
}

/// Take the data of the trees apart one by one, with no recursion, so that dropping very-deep
/// trees does not overflow the call-stack.  Data that are still shared elsewhere are left to
/// their other owners.
pub fn cycle_deep_safe_drop(graphs: Vec<Rc<Datum>>) {
    let mut pending = graphs;
    while pending.len() > 0
        invariant
            true,
        decreases trees_size(pending@),
    {
        let ghost before = pending@;
        let d = pending.pop().unwrap();
        let ghost rest = pending@;
        proof {
            assert(before.drop_last() =~= rest);
            assert(trees_size(before) == trees_size(rest) + tree_size(*d));
            assert(tree_size(*d) >= 1);
        }
        match Rc::try_unwrap(d) {
            Ok(datum) => {
                if let Some((a, b)) = datum.edges {
                    assert(tree_size(*d) == 1 + tree_size(*a) + tree_size(*b));
                    pending.push(a);
                    pending.push(b);
                    proof {
                        assert(pending@.drop_last() =~= rest.push(a));
                        assert(rest.push(a).drop_last() =~= rest);
                        assert(trees_size(rest.push(a)) == trees_size(rest) + tree_size(*a));
                        assert(trees_size(pending@) == trees_size(rest.push(a)) + tree_size(*b));
                    }
                }
            },
            Err(_shared) => {},
        }
    }
}

/// The total size of the trees.
pub open spec fn trees_size(s: Seq<Rc<Datum>>) -> nat
    decreases s.len(),
{
    if s.len() == 0 {
        0
    } else {
        trees_size(s.drop_last()) + tree_size(*s.last())
    }
}

impl Node for Rc<Datum> {
    type Cmp = bool;

    open spec fn spec_id(&self) -> u64 {
        self.id
    }

    open spec fn spec_amount_edges(&self) -> usize {
        match self.edges {
            Some(_) => 2,
            None => 0,
        }
    }

    open spec fn spec_edge(&self, index: usize) -> Self {
        match self.edges {
            Some((a, b)) => if index == 0 {
                a
            } else {
                b
            },
            None => *self,
        }
    }

    open spec fn spec_equiv_modulo_edges(&self, other: &Self) -> bool {
        true
    }

    open spec fn spec_equiv_modulo_descendents_then_amount_edges(&self, other: &Self) -> Result<
        usize,
        bool,
    > {
        if self.spec_amount_edges() == other.spec_amount_edges() {
            Ok(self.spec_amount_edges())
        } else {
            Err(false)
        }
    }

    fn id(&self) -> (r: u64) {
        self.id
    }

    fn amount_edges(&self) -> (r: usize) {
        match &self.edges {
            Some(_) => 2,
            None => 0,
        }
    }

    fn get_edge(&self, index: &usize) -> (r: Self) {
        match &self.edges {
            Some((a, b)) => if *index == 0 {
                Rc::clone(a)
            } else {
                Rc::clone(b)
            },
            None => Rc::clone(self),
        }
    }

    fn equiv_modulo_edges(&self, other: &Self) -> (r: bool) {
        true
    }

    fn equiv_modulo_descendents_then_amount_edges(&self, other: &Self) -> (r: Result<usize, bool>) {
        let az = self.amount_edges();
        if az == other.amount_edges() {
            Ok(az)
        } else {
            Err(false)
        }
    }
}

} // verus!
