use vstd::prelude::*;

use crate::basic::modes::Unlimited;
use crate::basic::recursion::CallStack;
use crate::generic::equiv::{
    children_spec, continues, main_spec, run_outcome, run_spec, terminates, EdgesView,
};
use crate::generic::results::lemma_run_outcome_any_fuel;
use crate::wide_safe::recursion::vecstack::{spec_stack_next, VecStack};
use crate::{Cmp, Node};

verus! {

/// The result of the unlimited algorithm with a stack, from the stack `s` and the counterparts
/// `x` and `y`.
pub open spec fn stack_run<N: Node>(s: Seq<EdgesView<N>>, x: N, y: N) -> Result<
    N::Cmp,
    core::convert::Infallible,
> {
    run_outcome::<N, Unlimited, VecStack<N>>((), s, x, y).2
}

/// Whether the unlimited algorithm with a stack completes from the stack `s` and the
/// counterparts `x` and `y`.
pub open spec fn stack_completes<N: Node>(s: Seq<EdgesView<N>>, x: N, y: N) -> bool {
    terminates::<N, Unlimited, VecStack<N>>((), s, x, y)
}

/// The unlimited algorithm with a stack, from the stack `s` and the counterparts `x` and `y`,
/// goes through what `x` and `y` lead to with the result `r`, and then, where `r` continues,
/// goes on with the stack `rest` as it would from there: with the next pair that `rest` yields,
/// or ending if it yields none.
pub open spec fn stack_follows<N: Node>(
    s: Seq<EdgesView<N>>,
    x: N,
    y: N,
    rest: Seq<EdgesView<N>>,
    r: Result<N::Cmp, core::convert::Infallible>,
) -> bool {
    if !continues::<N, core::convert::Infallible>(r) {
        stack_completes(s, x, y) && stack_run(s, x, y) == r
    } else {
        match spec_stack_next(rest).1 {
            None => stack_completes(s, x, y) && continues::<N, core::convert::Infallible>(
                stack_run(s, x, y),
            ),
            Some((x2, y2)) => {
                &&& stack_completes(s, x, y) <==> stack_completes(spec_stack_next(rest).0, x2, y2)
                &&& stack_completes(s, x, y) ==> stack_run(s, x, y) == stack_run(
                    spec_stack_next(rest).0,
                    x2,
                    y2,
                )
            },
        }
    }
}

/// One step of the algorithm with a stack: the main logic, which does not depend on the fuel,
/// and then either the end or the next pair.
proof fn lemma_stack_step<N: Node>(s: Seq<EdgesView<N>>, x: N, y: N)
    ensures
        main_spec::<N, Unlimited, VecStack<N>>((), s, x, y, 0) is Some,
        ({
            let (_, s1, r) = main_spec::<N, Unlimited, VecStack<N>>((), s, x, y, 0)->Some_0;
            stack_follows(s, x, y, s1, r)
        }),
{
    let m = main_spec::<N, Unlimited, VecStack<N>>((), s, x, y, 0);
    assert forall|f: nat| #[trigger] main_spec::<N, Unlimited, VecStack<N>>((), s, x, y, f) == m by {
    }
    let (_, s1, r) = m->Some_0;
    let (s2, nx) = spec_stack_next(s1);
    if !continues::<N, core::convert::Infallible>(r) || nx is None {
        assert(run_spec::<N, Unlimited, VecStack<N>>((), s, x, y, 0) is Some);
        lemma_run_outcome_any_fuel::<N, Unlimited, VecStack<N>>((), s, x, y, 0);
    } else {
        let (x2, y2) = nx->Some_0;
        assert forall|f: nat| #[trigger] run_spec::<N, Unlimited, VecStack<N>>(
            (),
            s,
            x,
            y,
            f + 1,
        ) == run_spec::<N, Unlimited, VecStack<N>>((), s2, x2, y2, f) by {}
        if stack_completes(s, x, y) {
            let f = choose|f: nat|
                (#[trigger] run_spec::<N, Unlimited, VecStack<N>>((), s, x, y, f)) is Some;
            assert(f > 0);
            let g = (f - 1) as nat;
            assert(run_spec::<N, Unlimited, VecStack<N>>((), s, x, y, g + 1) is Some);
            lemma_run_outcome_any_fuel::<N, Unlimited, VecStack<N>>((), s, x, y, g + 1);
            lemma_run_outcome_any_fuel::<N, Unlimited, VecStack<N>>((), s2, x2, y2, g);
        }
        if stack_completes(s2, x2, y2) {
            let g = choose|g: nat|
                (#[trigger] run_spec::<N, Unlimited, VecStack<N>>((), s2, x2, y2, g)) is Some;
            assert(run_spec::<N, Unlimited, VecStack<N>>((), s, x, y, g + 1) is Some);
        }
    }
}

/// The stack below the pair of counterpart edges `i` of `x` and `y`, while they are traversed
/// with a stack that was `s` before `x` and `y`.
pub open spec fn stack_below<N: Node>(
    s: Seq<EdgesView<N>>,
    x: N,
    y: N,
    i: usize,
    k: usize,
) -> Seq<EdgesView<N>> {
    if i + 1 < k {
        s.push((x, y, (i + 1) as usize, k))
    } else {
        s
    }
}

/// The algorithm with a stack follows the main logic on the call-stack.
proof fn lemma_follows_main<N: Node>(s: Seq<EdgesView<N>>, x: N, y: N, g: nat)
    requires
        main_spec::<N, Unlimited, CallStack>((), (), x, y, g) is Some,
    ensures
        stack_follows(s, x, y, s, main_spec::<N, Unlimited, CallStack>((), (), x, y, g)->Some_0.2),
    decreases g, 0nat,
{
    lemma_stack_step(s, x, y);
    if x.spec_id() != y.spec_id() {
        if let Ok(k) = x.spec_equiv_modulo_descendents_then_amount_edges(&y) {
            if k != 0 {
                N::Cmp::lemma_laws();
                let s1 = s.push((x, y, 0usize, k));
                assert(s1.drop_last() =~= s);
                lemma_follows_children(s, x, y, 0, k, (g - 1) as nat);
            }
        }
    }
}

/// The algorithm with a stack follows the immediate recursion on the counterpart edges from
/// index `i` on the call-stack.
proof fn lemma_follows_children<N: Node>(
    s: Seq<EdgesView<N>>,
    x: N,
    y: N,
    i: usize,
    k: usize,
    g: nat,
)
    requires
        i < k,
        children_spec::<N, Unlimited, CallStack>((), (), x, y, i, k, g) is Some,
    ensures
        stack_follows(
            stack_below(s, x, y, i, k),
            x.spec_edge(i),
            y.spec_edge(i),
            s,
            children_spec::<N, Unlimited, CallStack>((), (), x, y, i, k, g)->Some_0.2,
        ),
    decreases g, k - i,
{
    let t = stack_below(s, x, y, i, k);
    lemma_follows_main(t, x.spec_edge(i), y.spec_edge(i), g);
    let r1 = main_spec::<N, Unlimited, CallStack>(
        (),
        (),
        x.spec_edge(i),
        y.spec_edge(i),
        g,
    )->Some_0.2;
    if continues::<N, core::convert::Infallible>(r1) {
        N::Cmp::lemma_laws();
        if i + 1 < k {
            assert(t.drop_last() =~= s);
            let t2 = stack_below(s, x, y, (i + 1) as usize, k);
            assert(spec_stack_next(t).0 =~= t2);
            assert(spec_stack_next(t).1 == Some((x.spec_edge((i + 1) as usize), y.spec_edge(
                (i + 1) as usize,
            ))));
            lemma_follows_children(s, x, y, (i + 1) as usize, k, g);
        } else {
            let eq = Ok::<N::Cmp, core::convert::Infallible>(N::Cmp::spec_new_equiv());
            assert(children_spec::<N, Unlimited, CallStack>((), (), x, y, (i + 1) as usize, k, g)
                == Some(((), (), eq)));
        }
    }
}

/// The traversal with a stack follows the traversal on the call-stack: where the one on the
/// call-stack completes, so does the one with a stack, and both give the same comparison value,
/// but for a result of equivalence, which both give then.  With a comparison type that has one
/// value of equivalence, such as `bool` and the orderings, they give the same value.
pub proof fn lemma_stack_agrees_with_call_stack<N: Node>(a: N, b: N)
    requires
        terminates::<N, Unlimited, CallStack>((), (), a, b),
    ensures
        terminates::<N, Unlimited, VecStack<N>>((), Seq::empty(), a, b),
        run_outcome::<N, Unlimited, VecStack<N>>((), Seq::empty(), a, b).2 == run_outcome::<
            N,
            Unlimited,
            CallStack,
        >((), (), a, b).2 || (continues::<N, core::convert::Infallible>(
            run_outcome::<N, Unlimited, VecStack<N>>((), Seq::empty(), a, b).2,
        ) && continues::<N, core::convert::Infallible>(
            run_outcome::<N, Unlimited, CallStack>((), (), a, b).2,
        )),
        (forall|c: N::Cmp| #[trigger] c.spec_is_equiv() ==> c == N::Cmp::spec_new_equiv())
            ==> run_outcome::<N, Unlimited, VecStack<N>>((), Seq::empty(), a, b).2
            == run_outcome::<N, Unlimited, CallStack>((), (), a, b).2,
{
    let f = choose|f: nat|
        (#[trigger] run_spec::<N, Unlimited, CallStack>((), (), a, b, f)) is Some;
    lemma_run_outcome_any_fuel::<N, Unlimited, CallStack>((), (), a, b, f);
    lemma_follows_main(Seq::<EdgesView<N>>::empty(), a, b, f);
}

} // verus!
