use graph_safe_compare::basic::equiv;
use graph_safe_compare::tests_utils::node_types::unit::{It, My};
use graph_safe_compare::Order;

#[test]
fn it_works() {
    let (a, b) = (My, My);
    assert!(equiv(a, b));
}

#[test]
fn it_orders_numbers() {
    assert_eq!(equiv(It(42), It(42)), Order::Equal);
    assert_eq!(equiv(It(1), It(2)), Order::Less);
    assert_eq!(equiv(It(3), It(-2)), Order::Greater);
    assert_eq!(equiv(It(42), It(42)).to_std(), std::cmp::Ordering::Equal);
}
