use graph_safe_compare::tests_utils::node_types::dyn_pair::{
    AnyDatum, Datum1, Datum2, DatumAllocator, DatumRef, DowncastDatum,
};
use graph_safe_compare::{basic, deep_safe, robust};

/// A chain of `depth` pairs, both of whose edges are the rest of the chain.
fn degenerate(alloc: &mut DatumAllocator, depth: u32) -> DatumRef {
    let mut head = alloc.leaf();
    for _ in 0..depth {
        head = alloc.pair(head.copy(), head.copy());
    }
    head
}

#[test]
fn leaves_take_turns() {
    let mut alloc = DatumAllocator::new(1);
    let (a, b, c) = (alloc.leaf(), alloc.leaf(), alloc.leaf());
    assert!(matches!(b.downcast(), DowncastDatum::Datum2Char(Datum2::Value('λ'))));
    assert!(matches!(a.downcast(), DowncastDatum::Datum2Int32(Datum2::Value(42))));
    assert!(matches!(c.downcast(), DowncastDatum::Datum1(Datum1::Empty)));
    assert_eq!((a.id, b.id, c.id), (0x1_0000_0001, 0x1_0000_0002, 0x1_0000_0003));
}

#[test]
fn dyn_degenerate_dags_are_equal() {
    let mut alloc1 = DatumAllocator::new(1);
    let mut alloc2 = DatumAllocator::new(2);
    let (x, y) = (degenerate(&mut alloc1, 12), degenerate(&mut alloc2, 12));
    assert!(robust::equiv(x.copy(), y.copy()));
    assert!(robust::precheck_equiv(x.copy(), y.copy()));
    assert!(deep_safe::equiv(x.copy(), y.copy()));
    assert!(basic::equiv(x.copy(), y.copy()));
    assert!(x.naive_eq(&y));
}

#[test]
fn dyn_types_must_match() {
    let mut alloc1 = DatumAllocator::new(1);
    let mut alloc2 = DatumAllocator::new(2);
    // Offsetting the turns gives data of other types at the same places.
    let _ = alloc2.leaf();
    let (x, y) = (degenerate(&mut alloc1, 3), degenerate(&mut alloc2, 3));
    assert!(!robust::equiv(x.copy(), y.copy()));
    assert!(!x.naive_eq(&y));
}

#[test]
fn naive_eq_compares_values() {
    let a = DatumRef { id: 1, datum: std::rc::Rc::new(AnyDatum::Datum2Int32(Datum2::Value(1))) };
    let b = DatumRef { id: 2, datum: std::rc::Rc::new(AnyDatum::Datum2Int32(Datum2::Value(2))) };
    assert!(!a.naive_eq(&b));
    // The algorithm compares only the types of the values.
    assert!(robust::equiv(a.copy(), b.copy()));
    assert!(a.naive_eq(&a.copy()));
}
