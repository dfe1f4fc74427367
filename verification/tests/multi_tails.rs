use graph_safe_compare::tests_utils::node_types::rc_pair::{
    cycle_deep_safe_drop, Datum, DatumAllocator,
};
use graph_safe_compare::tests_utils::sizes;
use graph_safe_compare::{deep_safe, wide_safe};
use std::rc::Rc;

fn list_node_count(len: u32) -> u32 {
    2 * len + 1
}

/// A vee made with a new allocator of the given region, and how many data it has.
fn make_vee(region: u32, total_depth: u32) -> (Rc<Datum>, u32) {
    let mut alloc = DatumAllocator::new(region);
    let (head, _tails) = alloc.vee(total_depth);
    (head, alloc.count)
}

#[test]
fn vee() {
    let total_depth = sizes::long_list_length(None, true) / 2;
    let side_depth = total_depth.checked_sub(1);
    let side_node_count = side_depth.map(list_node_count);
    let total_node_count = 1 + 2 * side_node_count.unwrap_or(0);

    let (head1, count1) = make_vee(1, total_depth);
    let (head2, count2) = make_vee(2, total_depth);
    assert_eq!(count1, total_node_count);
    assert_eq!(count2, total_node_count);
    assert!(wide_safe::equiv(Rc::clone(&head1), Rc::clone(&head2)));
    cycle_deep_safe_drop(vec![head1, head2]);
}

#[test]
fn vee_sides_differ() {
    let mut alloc = DatumAllocator::new(1);
    let (left, _) = alloc.list(3, true);
    let (right, _) = alloc.list(3, false);
    assert!(!deep_safe::equiv(Rc::clone(&left), Rc::clone(&right)));
    assert!(!wide_safe::equiv(Rc::clone(&left), Rc::clone(&right)));
    assert!(deep_safe::equiv(Rc::clone(&left), Rc::clone(&left)));
    assert_eq!(alloc.count, 14);
}

#[test]
fn vee_of_depth_zero_is_a_leaf() {
    let (head, count) = make_vee(1, 0);
    assert!(head.edges.is_none());
    assert_eq!(count, 1);
}

#[test]
fn limited_vee_aborts() {
    let (head1, _) = make_vee(1, 50);
    let (head2, _) = make_vee(2, 50);
    assert!(wide_safe::limited_equiv(10u32, Rc::clone(&head1), Rc::clone(&head2)).is_err());
    assert_eq!(wide_safe::limited_equiv(1000u32, head1, head2), Ok(true));
}

#[test]
fn dropping_shared_data_leaves_them_to_their_owners() {
    let mut alloc = DatumAllocator::new(1);
    let (shared, _) = alloc.list(3, false);
    let top = alloc.pair(Rc::clone(&shared), Rc::clone(&shared));
    cycle_deep_safe_drop(vec![top]);
    assert!(shared.edges.is_some());
    assert_eq!(Rc::strong_count(&shared), 1);
}

#[test]
fn vee_gives_its_tails() {
    let mut alloc = DatumAllocator::new(1);
    let (head, (left_tail, right_tail)) = alloc.vee(3);
    assert!(left_tail.edges.is_none());
    assert!(right_tail.edges.is_none());
    assert_ne!(left_tail.id, right_tail.id);
    let (lh, rh) = head.edges.clone().unwrap();
    // The inverted list on the left continues on the left; the list on the right, on the right.
    let (l1, _) = lh.edges.clone().unwrap();
    let (l2, _) = l1.edges.clone().unwrap();
    assert_eq!(l2.id, left_tail.id);
    let (_, r1) = rh.edges.clone().unwrap();
    let (_, r2) = r1.edges.clone().unwrap();
    assert_eq!(r2.id, right_tail.id);

    let mut alloc = DatumAllocator::new(2);
    let (head, (left_tail, right_tail)) = alloc.vee(0);
    assert!(head.edges.is_none());
    assert_eq!(head.id, left_tail.id);
    assert_eq!(head.id, right_tail.id);
}
