use graph_safe_compare::tests_utils::node_types::lazy::{Datum, DatumAllocator, Id, Inner, Shape};
use Shape::{DegenerateCyclic, DegenerateDAG, InvertedList, Leaf, List};
use graph_safe_compare::tests_utils::shapes::PairChainMaker;
use graph_safe_compare::tests_utils::sizes;

type MakeFn = fn(&mut PairChainMaker) -> (Datum, Datum);

fn id(gen: usize, num: usize) -> Id {
    Id { allocator: 0, gen, num }
}

fn inner(gen: usize, num: usize, shape: Shape, depth: usize) -> Inner {
    Inner { id: id(gen, num), shape, depth }
}

/// Make the shape with the shared allocator, check the head and the tail, and give the
/// allocator back for the next case.
fn case_with(
    alloc: DatumAllocator,
    depth: u32,
    make: MakeFn,
    same_at_depth: u32,
    expect_head: Inner,
    expect_tail: Inner,
) -> DatumAllocator {
    let mut maker = PairChainMaker::new_with(depth, alloc);
    let (head, tail) = make(&mut maker);
    let (head, tail) = (head.inner(), tail.inner());
    if depth > same_at_depth {
        assert_ne!(head, tail);
        assert_ne!(head.id, tail.id);
    } else {
        assert_eq!(head, tail);
        assert_eq!(head.id, tail.id);
    }
    assert_eq!(head, expect_head);
    assert_eq!(tail, expect_tail);
    maker.into_allocator()
}

fn four_cases(depth: u32, expected: [(Inner, Inner); 4]) {
    let alloc = DatumAllocator::new(0);
    let [list, inverted_list, degenerate_dag, degenerate_cyclic] = expected;
    let alloc = case_with(alloc, depth, PairChainMaker::list, 0, list.0, list.1);
    let alloc =
        case_with(alloc, depth, PairChainMaker::inverted_list, 0, inverted_list.0, inverted_list.1);
    let alloc = case_with(
        alloc,
        depth,
        PairChainMaker::degenerate_dag,
        0,
        degenerate_dag.0,
        degenerate_dag.1,
    );
    case_with(
        alloc,
        depth,
        PairChainMaker::degenerate_cyclic,
        1,
        degenerate_cyclic.0,
        degenerate_cyclic.1,
    );
}

#[test]
fn depth0() {
    four_cases(0, [
        (inner(0, 0, Leaf, 0), inner(0, 0, Leaf, 0)),
        (inner(1, 0, Leaf, 0), inner(1, 0, Leaf, 0)),
        (inner(2, 0, Leaf, 0), inner(2, 0, Leaf, 0)),
        (inner(3, 0, Leaf, 0), inner(3, 0, Leaf, 0)),
    ]);
}

#[test]
fn depth1() {
    four_cases(1, [
        (inner(0, 2, List, 1), inner(0, 0, Leaf, 0)),
        (inner(3, 2, InvertedList, 1), inner(3, 0, Leaf, 0)),
        (inner(6, 1, DegenerateDAG, 1), inner(6, 0, Leaf, 0)),
        (inner(8, 0, DegenerateCyclic, 1), inner(8, 0, DegenerateCyclic, 1)),
    ]);
}

#[test]
fn depth2() {
    four_cases(2, [
        (inner(0, 4, List, 2), inner(0, 0, Leaf, 0)),
        (inner(5, 4, InvertedList, 2), inner(5, 0, Leaf, 0)),
        (inner(10, 2, DegenerateDAG, 2), inner(10, 0, Leaf, 0)),
        (inner(13, 1, DegenerateCyclic, 2), inner(13, 0, DegenerateCyclic, 2)),
    ]);
}

#[test]
fn depth3() {
    four_cases(3, [
        (inner(0, 6, List, 3), inner(0, 0, Leaf, 0)),
        (inner(7, 6, InvertedList, 3), inner(7, 0, Leaf, 0)),
        (inner(14, 3, DegenerateDAG, 3), inner(14, 0, Leaf, 0)),
        (inner(18, 2, DegenerateCyclic, 3), inner(18, 0, DegenerateCyclic, 3)),
    ]);
}

/// Make the head of a shape with a new allocator.
fn make(shape: MakeFn, depth: u32) -> Datum {
    let mut maker = PairChainMaker::new(depth);
    shape(&mut maker).0
}

/// Make the head of a shape with the shared allocator.
fn make_with(alloc: DatumAllocator, shape: MakeFn, depth: u32) -> (Datum, DatumAllocator) {
    let mut maker = PairChainMaker::new_with(depth, alloc);
    let head = shape(&mut maker).0;
    (head, maker.into_allocator())
}

/// Every pair of two shapes from new allocators and two from the shared allocator compare as
/// equal, in both directions.
fn derived_eq_case(shape: MakeFn, depth: u32, alloc: DatumAllocator) -> DatumAllocator {
    let (a, b) = (make(shape, depth), make(shape, depth));
    let (c, alloc) = make_with(alloc, shape, depth);
    let (d, alloc) = make_with(alloc, shape, depth);
    let all = [a, b, c, d];
    for x in &all {
        for y in &all {
            assert!(x.naive_eq(y));
        }
    }
    alloc
}

fn len() -> u32 {
    std::cmp::max(100, sizes::long_list_length(None, true) / 1000)
}

#[test]
fn lazy_list() {
    let mut alloc = DatumAllocator::new(0);
    for depth in [0, 1, 2, 3, len()] {
        alloc = derived_eq_case(PairChainMaker::list, depth, alloc);
    }
}

#[test]
fn lazy_inverted_list() {
    let mut alloc = DatumAllocator::new(0);
    for depth in [0, 1, 2, 3, len()] {
        alloc = derived_eq_case(PairChainMaker::inverted_list, depth, alloc);
    }
}

#[test]
fn lazy_degenerate_dag() {
    let mut alloc = DatumAllocator::new(0);
    for depth in [0, 1, 2, 3, 15] {
        alloc = derived_eq_case(PairChainMaker::degenerate_dag, depth, alloc);
    }
}

#[test]
fn lazy_degenerate_cyclic() {
    let alloc = DatumAllocator::new(0);
    derived_eq_case(PairChainMaker::degenerate_cyclic, 0, alloc);
}

#[test]
fn naive_eq_tells_shapes_apart() {
    let list = make(PairChainMaker::list, 3);
    let inverted = make(PairChainMaker::inverted_list, 3);
    let shorter = make(PairChainMaker::list, 2);
    assert!(!list.naive_eq(&inverted));
    assert!(!list.naive_eq(&shorter));
    assert!(list.naive_eq(&list));
}

#[test]
fn take_keeps_the_identity() {
    let mut maker = PairChainMaker::new(2);
    let (mut head, _tail) = maker.list();
    let before = head.inner();
    let edges = head.take().expect("a pair");
    assert_eq!(edges.0.inner(), inner(0, 3, Shape::Leaf, 0));
    assert_eq!(edges.1.inner(), inner(0, 2, Shape::List, 1));
    assert_eq!(head.inner(), Inner { shape: Shape::Leaf, depth: 0, ..before });
    assert!(head.take().is_none());
}

#[test]
fn cyclic_edges_wrap_around() {
    let mut maker = PairChainMaker::new(3);
    let (_head, tail) = maker.degenerate_cyclic();
    let (left, right) = tail.get_edges().expect("a pair");
    assert_eq!(left.inner(), inner(0, 2, Shape::DegenerateCyclic, 3));
    assert_eq!(right.inner(), left.inner());
}

#[test]
fn sizes_default_by_build() {
    assert_eq!(sizes::long_list_length(None, true), 1_000_000);
    assert_eq!(sizes::long_list_length(None, false), 2_000_000);
    assert_eq!(sizes::degenerate_depth(None, true), 28);
    assert_eq!(sizes::degenerate_depth(None, false), 33);
    assert_eq!(sizes::long_list_length(Some(7), false), 7);
    assert_eq!(sizes::degenerate_depth(Some(5), true), 5);
}
