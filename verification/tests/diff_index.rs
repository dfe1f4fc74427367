use graph_safe_compare::cycle_safe::CycleArgs;
use graph_safe_compare::generic::precheck_interleave;
use graph_safe_compare::robust;
use graph_safe_compare::tests_utils::node_types::diff_index::{
    Datum, DatumAllocator, Index, Inner, Region,
};

/// Must not cause the amount allocated to exceed the greatest `Index`.
const DEPTH: u32 = 7;

/// Compare with the precheck-then-interleave on the call-stack and with the robust variation,
/// which must agree.
fn equal(a: Datum<'_>, b: Datum<'_>) -> bool {
    let callstack = precheck_interleave::equiv::<_, CycleArgs<Datum<'_>>>(a, b);
    let robust = robust::precheck_equiv(a, b);
    assert_eq!(callstack, robust);
    callstack
}

/// A chain of `depth` pairs, each of whose edges are both the rest of the chain.  Returns the
/// head and the tail.
fn degenerate(alloc: &mut DatumAllocator, depth: u32) -> (Index, Index) {
    let tail = alloc.allocate();
    let mut head = tail;
    for _ in 0..depth {
        let x = alloc.allocate();
        alloc.set(x, head, head);
        head = x;
    }
    (head, tail)
}

fn degenerate_dag(id: u32) -> (Region, Index) {
    let mut alloc = DatumAllocator::new(DEPTH + 1, id);
    let (head, _tail) = degenerate(&mut alloc, DEPTH);
    (alloc.into_region(), head)
}

/// A degenerate chain one shorter whose tail is made the pair of its head.
fn degenerate_cyclic(id: u32) -> (Region, Index) {
    let mut alloc = DatumAllocator::new(DEPTH + 1, id);
    let (head, tail) = degenerate(&mut alloc, DEPTH - 1);
    alloc.set(tail, head, head);
    let head = alloc.take(tail).expect("a pair").0;
    alloc.set(tail, head, head);
    (alloc.into_region(), head)
}

#[test]
fn rudimentary() {
    let mut alloc1 = DatumAllocator::new(1, 1);
    let mut alloc2 = DatumAllocator::new(1, 2);
    let (leaf1, leaf2) = (alloc1.allocate(), alloc2.allocate());
    let (region1, region2) = (alloc1.into_region(), alloc2.into_region());
    assert!(equal(Datum::new(leaf1, &region1), Datum::new(leaf2, &region2)));
}

#[test]
fn diff_index_dag() {
    let (region1, head1) = degenerate_dag(1);
    let (region2, head2) = degenerate_dag(2);
    let (a, b) = (Datum::new(head1, &region1), Datum::new(head2, &region2));
    assert_eq!(head1, Index::Seven);
    assert!(equal(a, b));
    // The naive comparison, which does not know identities, agrees on this acyclic shape.
    assert!(a.naive_eq(&b));
}

#[test]
fn cyclic_works() {
    let (region1, head1) = degenerate_cyclic(1);
    let (region2, head2) = degenerate_cyclic(2);
    assert_eq!(region1.cells[0], Inner::Pair(Index::Six, Index::Six));
    assert!(equal(Datum::new(head1, &region1), Datum::new(head2, &region2)));
}

#[test]
fn diff_index_unequal_shapes() {
    let (region1, head1) = degenerate_dag(1);
    let mut alloc = DatumAllocator::new(DEPTH + 1, 2);
    let (head2, _tail) = degenerate(&mut alloc, DEPTH - 1);
    let region2 = alloc.into_region();
    let (a, b) = (Datum::new(head1, &region1), Datum::new(head2, &region2));
    assert!(!equal(a, b));
    assert!(!a.naive_eq(&b));
}

#[test]
fn dag_against_cycle() {
    let (region1, head1) = degenerate_dag(1);
    let (region2, head2) = degenerate_cyclic(2);
    assert!(!equal(Datum::new(head1, &region1), Datum::new(head2, &region2)));
}

#[test]
fn index_steps() {
    assert_eq!(Index::Zero.increment(), Some(Index::One));
    assert_eq!(Index::Seven.increment(), None);
    assert_eq!(Index::Zero.decrement(), None);
    assert_eq!(Index::Seven.decrement(), Some(Index::Six));
    assert_eq!(Index::max().position(), 7);
    assert_eq!(Index::min().position(), 0);
}
