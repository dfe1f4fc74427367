use vstd::prelude::*;

use crate::basic::modes::Unlimited;
use crate::basic::recursion::CallStack;
use crate::generic::cycle_results::{lemma_reachable_edge, lemma_reachable_roots, local, reaches};
use crate::generic::equiv::{
    children_spec, continues, lemma_never_errs_outcome, main_spec, run_outcome, run_spec,
    terminates,
};
use crate::generic::results::{lemma_run_fuel, lemma_run_outcome_any_fuel};
use crate::{Node, Order};

verus! {

/// The order with the sides swapped.
pub open spec fn reversed(o: Order) -> Order {
    match o {
        Order::Less => Order::Greater,
        Order::Equal => Order::Equal,
        Order::Greater => Order::Less,
    }
}

/// A comparison ignoring descendents with the sides swapped: the same amount of edges, or the
/// reversed order.
pub open spec fn reversed_local(r: Result<usize, Order>) -> Result<usize, Order> {
    match r {
        Ok(k) => Ok(k),
        Err(o) => Err(reversed(o)),
    }
}

/// Swapping two nodes swaps their comparison ignoring descendents.
pub open spec fn local_antisymmetric<N: Node<Cmp = Order>>() -> bool {
    forall|x: N, y: N| #[trigger] local(y, x) == reversed_local(local(x, y))
}

/// With the call-stack and no limit, swapping the counterparts swaps the result of the main
/// logic.
pub proof fn lemma_main_reversed<N: Node<Cmp = Order>>(x: N, y: N, fuel: nat)
    requires
        local_antisymmetric::<N>(),
    ensures
        main_spec::<N, Unlimited, CallStack>((), (), x, y, fuel) matches Some((_, _, Ok(c)))
            ==> main_spec::<N, Unlimited, CallStack>((), (), y, x, fuel) == Some(
            ((), (), Ok::<Order, core::convert::Infallible>(reversed(c))),
        ),
    decreases fuel, 0nat,
{
    if x.spec_id() != y.spec_id() {
        assert(local(y, x) == reversed_local(local(x, y)));
        if let Ok(k) = local(x, y) {
            if k != 0 && fuel > 0 {
                lemma_children_reversed::<N>(x, y, 0, k, (fuel - 1) as nat);
            }
        }
    }
}

/// With the call-stack and no limit, swapping the counterparts swaps the result of the
/// recursion on the edges `i .. k`.
pub proof fn lemma_children_reversed<N: Node<Cmp = Order>>(
    x: N,
    y: N,
    i: usize,
    k: usize,
    fuel: nat,
)
    requires
        local_antisymmetric::<N>(),
    ensures
        children_spec::<N, Unlimited, CallStack>((), (), x, y, i, k, fuel) matches Some(
            (_, _, Ok(c)),
        ) ==> children_spec::<N, Unlimited, CallStack>((), (), y, x, i, k, fuel) == Some(
            ((), (), Ok::<Order, core::convert::Infallible>(reversed(c))),
        ),
    decreases fuel, k - i,
{
    if i < k {
        lemma_main_reversed::<N>(x.spec_edge(i), y.spec_edge(i), fuel);
        if let Some((_, _, r)) = main_spec::<N, Unlimited, CallStack>(
            (),
            (),
            x.spec_edge(i),
            y.spec_edge(i),
            fuel,
        ) {
            if continues::<N, core::convert::Infallible>(r) {
                lemma_children_reversed::<N>(x, y, (i + 1) as usize, k, fuel);
            }
        }
    }
}

/// The ordering that [`crate::basic::equiv`] gives to graphs is antisymmetric: when swapping
/// two nodes swaps their comparison ignoring descendents, swapping the graphs swaps the
/// ordering, and the swapped comparison completes too.
pub proof fn lemma_basic_antisymmetric<N: Node<Cmp = Order>>(a: N, b: N)
    requires
        local_antisymmetric::<N>(),
        terminates::<N, Unlimited, CallStack>((), (), a, b),
    ensures
        terminates::<N, Unlimited, CallStack>((), (), b, a),
        run_outcome::<N, Unlimited, CallStack>((), (), b, a).2 == Ok::<
            Order,
            core::convert::Infallible,
        >(reversed(run_outcome::<N, Unlimited, CallStack>((), (), a, b).2->Ok_0)),
{
    lemma_never_errs_outcome::<N, Unlimited, CallStack>((), (), a, b);
    let f = choose|f: nat| (#[trigger] run_spec::<N, Unlimited, CallStack>((), (), a, b, f)) is Some;
    lemma_main_reversed::<N>(a, b, f);
    assert(run_spec::<N, Unlimited, CallStack>((), (), b, a, f) is Some);
    lemma_run_outcome_any_fuel::<N, Unlimited, CallStack>((), (), b, a, f);
}

/// Whether `x` is reached from `a`, `b` or `c` by following edges.
pub open spec fn within<N: Node>(a: N, b: N, c: N, x: N) -> bool {
    reaches(a, x) || reaches(b, x) || reaches(c, x)
}

/// The edges of a node reached from `a`, `b` or `c` are reached from them too.
pub proof fn lemma_within_edge<N: Node>(a: N, b: N, c: N, x: N, i: usize)
    requires
        within(a, b, c, x),
        i < x.spec_amount_edges(),
    ensures
        within(a, b, c, x.spec_edge(i)),
{
    let n = if reaches(a, x) {
        a
    } else if reaches(b, x) {
        b
    } else {
        c
    };
    lemma_reachable_edge(n, n, x, i);
}

/// Nodes reached from `a`, `b` or `c` with the same identity are the same node.
pub open spec fn ids_identify3<N: Node>(a: N, b: N, c: N) -> bool {
    forall|x: N, y: N|
        within(a, b, c, x) && within(a, b, c, y) && #[trigger] x.spec_id() == #[trigger] y.spec_id()
            ==> x == y
}

/// The comparison ignoring descendents orders the nodes: it never gives an equal order without
/// letting them be descended, the amount of edges it lets be descended is at most those of
/// both, and it is transitive: two results that are not greater combine into the result for
/// the outer two nodes, which lets them be descended, with the same amount, exactly when both
/// do.
pub open spec fn local_is_order<N: Node<Cmp = Order>>() -> bool {
    &&& forall|x: N, y: N| #[trigger] local(x, y) != Err::<usize, Order>(Order::Equal)
    &&& forall|x: N, y: N| #[trigger]
        local(x, y) matches Ok(k) ==> k <= x.spec_amount_edges() && k <= y.spec_amount_edges()
    &&& forall|x: N, y: N, z: N|
        #[trigger] local(x, y) != Err::<usize, Order>(Order::Greater) && #[trigger] local(y, z)
            != Err::<usize, Order>(Order::Greater) ==> local(x, z) == combined_local(
            local(x, y),
            local(y, z),
        ) && (local(x, y) is Ok && local(y, z) is Ok ==> local(y, z) == local(x, y))
}

/// Two comparisons ignoring descendents that are not greater, combined: the first when both let
/// the nodes be descended, else less.
pub open spec fn combined_local(r1: Result<usize, Order>, r2: Result<usize, Order>) -> Result<
    usize,
    Order,
> {
    if r1 is Ok && r2 is Ok {
        r1
    } else {
        Err(Order::Less)
    }
}

/// Two orders that are not greater, combined: equal when both are, else less.
pub open spec fn combined(o1: Order, o2: Order) -> Order {
    if o1 == Order::Equal && o2 == Order::Equal {
        Order::Equal
    } else {
        Order::Less
    }
}

/// With the call-stack and no limit, results of the main logic that are not greater for `x`
/// and `y` and for `y` and `z` combine into the result for `x` and `z`.
pub proof fn lemma_main_transitive<N: Node<Cmp = Order>>(
    a: N,
    b: N,
    c: N,
    x: N,
    y: N,
    z: N,
    fuel: nat,
)
    requires
        local_antisymmetric::<N>(),
        local_is_order::<N>(),
        ids_identify3(a, b, c),
        within(a, b, c, x),
        within(a, b, c, y),
        within(a, b, c, z),
    ensures
        main_spec::<N, Unlimited, CallStack>((), (), x, y, fuel) matches Some((_, _, Ok(c1)))
            ==> (main_spec::<N, Unlimited, CallStack>((), (), y, z, fuel) matches Some(
            (_, _, Ok(c2)),
        ) ==> (c1 != Order::Greater && c2 != Order::Greater ==> main_spec::<
            N,
            Unlimited,
            CallStack,
        >((), (), x, z, fuel) == Some(
            ((), (), Ok::<Order, core::convert::Infallible>(combined(c1, c2))),
        ))),
    decreases fuel, 0nat,
{
    if x.spec_id() == y.spec_id() {
        assert(x == y);
    } else if y.spec_id() == z.spec_id() {
        assert(y == z);
    } else if x.spec_id() == z.spec_id() {
        assert(x == z);
        lemma_main_reversed::<N>(x, y, fuel);
    } else {
        assert(local(x, y) != Err::<usize, Order>(Order::Equal));
        assert(local(y, z) != Err::<usize, Order>(Order::Equal));
        if local(x, y) != Err::<usize, Order>(Order::Greater) && local(y, z) != Err::<
            usize,
            Order,
        >(Order::Greater) {
            assert(local(x, z) == combined_local(local(x, y), local(y, z)));
            if let Ok(k) = local(x, y) {
                if let Ok(k2) = local(y, z) {
                    assert(k2 == k);
                    if k != 0 && fuel > 0 {
                        lemma_children_transitive::<N>(a, b, c, x, y, z, 0, k, (fuel - 1) as nat);
                    }
                }
            }
        }
    }
}

/// [`lemma_main_transitive`] for the recursion on the edges `i .. k`.
pub proof fn lemma_children_transitive<N: Node<Cmp = Order>>(
    a: N,
    b: N,
    c: N,
    x: N,
    y: N,
    z: N,
    i: usize,
    k: usize,
    fuel: nat,
)
    requires
        local_antisymmetric::<N>(),
        local_is_order::<N>(),
        ids_identify3(a, b, c),
        within(a, b, c, x),
        within(a, b, c, y),
        within(a, b, c, z),
        k <= x.spec_amount_edges(),
        k <= y.spec_amount_edges(),
        k <= z.spec_amount_edges(),
    ensures
        children_spec::<N, Unlimited, CallStack>((), (), x, y, i, k, fuel) matches Some(
            (_, _, Ok(c1)),
        ) ==> (children_spec::<N, Unlimited, CallStack>((), (), y, z, i, k, fuel) matches Some(
            (_, _, Ok(c2)),
        ) ==> (c1 != Order::Greater && c2 != Order::Greater ==> children_spec::<
            N,
            Unlimited,
            CallStack,
        >((), (), x, z, i, k, fuel) == Some(
            ((), (), Ok::<Order, core::convert::Infallible>(combined(c1, c2))),
        ))),
    decreases fuel, k - i,
{
    if i < k {
        lemma_within_edge(a, b, c, x, i);
        lemma_within_edge(a, b, c, y, i);
        lemma_within_edge(a, b, c, z, i);
        lemma_main_transitive::<N>(
            a,
            b,
            c,
            x.spec_edge(i),
            y.spec_edge(i),
            z.spec_edge(i),
            fuel,
        );
        lemma_children_transitive::<N>(a, b, c, x, y, z, (i + 1) as usize, k, fuel);
    }
}

/// The ordering that [`crate::basic::equiv`] gives to graphs is transitive: when the comparison
/// ignoring descendents orders the nodes, swapping two nodes swaps their comparison, and nodes
/// reached from the three roots with the same identity are the same node, results that are not
/// greater for `a` and `b` and for `b` and `c` combine into the result for `a` and `c`, and that
/// comparison completes too.
pub proof fn lemma_basic_transitive<N: Node<Cmp = Order>>(a: N, b: N, c: N)
    requires
        local_antisymmetric::<N>(),
        local_is_order::<N>(),
        ids_identify3(a, b, c),
        terminates::<N, Unlimited, CallStack>((), (), a, b),
        terminates::<N, Unlimited, CallStack>((), (), b, c),
        run_outcome::<N, Unlimited, CallStack>((), (), a, b).2 != Ok::<
            Order,
            core::convert::Infallible,
        >(Order::Greater),
        run_outcome::<N, Unlimited, CallStack>((), (), b, c).2 != Ok::<
            Order,
            core::convert::Infallible,
        >(Order::Greater),
    ensures
        terminates::<N, Unlimited, CallStack>((), (), a, c),
        run_outcome::<N, Unlimited, CallStack>((), (), a, c).2 == Ok::<
            Order,
            core::convert::Infallible,
        >(
            combined(
                run_outcome::<N, Unlimited, CallStack>((), (), a, b).2->Ok_0,
                run_outcome::<N, Unlimited, CallStack>((), (), b, c).2->Ok_0,
            ),
        ),
{
    lemma_never_errs_outcome::<N, Unlimited, CallStack>((), (), a, b);
    lemma_never_errs_outcome::<N, Unlimited, CallStack>((), (), b, c);
    lemma_reachable_roots(a, b);
    lemma_reachable_roots(c, c);
    let f1 = choose|f: nat| (#[trigger] run_spec::<N, Unlimited, CallStack>((), (), a, b, f)) is Some;
    let f2 = choose|f: nat| (#[trigger] run_spec::<N, Unlimited, CallStack>((), (), b, c, f)) is Some;
    let f = if f1 <= f2 {
        f2
    } else {
        f1
    };
    lemma_run_fuel::<N, Unlimited, CallStack>((), (), a, b, f1, f);
    lemma_run_fuel::<N, Unlimited, CallStack>((), (), b, c, f2, f);
    lemma_main_transitive::<N>(a, b, c, a, b, c, f);
    assert(run_spec::<N, Unlimited, CallStack>((), (), a, c, f) is Some);
    lemma_run_outcome_any_fuel::<N, Unlimited, CallStack>((), (), a, c, f);
}

} // verus!
