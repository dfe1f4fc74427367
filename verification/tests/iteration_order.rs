use graph_safe_compare::deep_safe::recursion::queue::RecurQueue;
use graph_safe_compare::generic::equiv::{EdgesIter, RecurMode};
use graph_safe_compare::tests_utils::node_types::boxed::Datum;
use graph_safe_compare::wide_safe::recursion::vecstack::VecStack;
use graph_safe_compare::Node;

fn ids(p: Option<(&Datum, &Datum)>) -> Option<(u64, u64)> {
    p.map(|(a, b)| (a.id(), b.id()))
}

fn four() -> (Datum, Datum, Datum, Datum) {
    (
        Datum::pair(1, Datum::leaf(2), Datum::leaf(3)),
        Datum::pair(4, Datum::leaf(5), Datum::leaf(6)),
        Datum::pair(7, Datum::leaf(8), Datum::leaf(9)),
        Datum::pair(10, Datum::leaf(11), Datum::leaf(12)),
    )
}

#[test]
fn edges_iter_yields_in_increasing_order() {
    let (x, y, _, _) = four();
    let mut it = EdgesIter::new(2, (&x, &y));
    assert!(!it.is_empty());
    assert_eq!(ids(it.next()), Some((2, 5)));
    assert!(!it.is_empty());
    assert_eq!(ids(it.next()), Some((3, 6)));
    assert!(it.is_empty());
    assert_eq!(ids(it.next()), None);
    assert_eq!(ids(it.next()), None);
    assert!(it.is_empty());
    let it0 = EdgesIter::new(0, (&x, &y));
    assert!(it0.is_empty());
}

#[test]
fn vecstack_yields_the_latest_saved_first() {
    let (x, y, z, w) = four();
    let mut s = VecStack::new();
    s.save(EdgesIter::new(2, (&x, &y)));
    s.save(EdgesIter::new(2, (&z, &w)));
    let got: Vec<_> = (0..6).map(|_| ids(s.next())).collect();
    assert_eq!(
        got,
        vec![Some((8, 11)), Some((9, 12)), Some((2, 5)), Some((3, 6)), None, None]
    );
    assert!(s.0.is_empty());
}

#[test]
fn recur_queue_yields_the_earliest_saved_first() {
    let (x, y, z, w) = four();
    let mut q = RecurQueue::new();
    q.save(EdgesIter::new(2, (&x, &y)));
    q.save(EdgesIter::new(2, (&z, &w)));
    let got: Vec<_> = (0..6).map(|_| ids(q.next())).collect();
    assert_eq!(
        got,
        vec![Some((2, 5)), Some((3, 6)), Some((8, 11)), Some((9, 12)), None, None]
    );
    assert!(q.0.is_empty());
}

#[test]
fn reset_recursion_modes_yield_nothing() {
    let (x, y, _, _) = four();
    let mut s = VecStack::new();
    s.save(EdgesIter::new(2, (&x, &y)));
    let mut s = s.reset();
    assert_eq!(ids(s.next()), None);
    let mut q = RecurQueue::new();
    q.save(EdgesIter::new(2, (&x, &y)));
    let mut q = q.reset();
    assert_eq!(ids(q.next()), None);
}
