/// Extend the algorithm to be able to traverse very-wide graphs.
pub mod recursion;

use vstd::prelude::*;

use crate::basic::modes::{lemma_limited_terminates, LimitReached, Limited, Ticker, Unlimited};
use crate::wide_safe::recursion::vecstack::VecStack;
use crate::generic::equiv::{
    lemma_never_errs_outcome, run_outcome, terminates, EdgesView, Equiv, Params,
};
use crate::generic::results::{all_equivalent, lemma_complete_equivalence, lemma_limited_agrees};
use crate::utils::into_ok;
use crate::{Cmp, Node};

verus! {

/// The parameters of [`equiv`].
pub struct Args<N> {
    _node: core::marker::PhantomData<N>,
}

impl<N: Node> Params for Args<N> {
    type Node = N;
    type DescendMode = Unlimited;
    type RecurMode = VecStack<N>;
}

/// The parameters of [`limited_equiv`].
pub struct LimitedArgs<N, L> {
    _params: core::marker::PhantomData<(N, L)>,
}

impl<N: Node, L: Ticker> Params for LimitedArgs<N, L> {
    type Node = N;
    type DescendMode = Limited<L>;
    type RecurMode = VecStack<N>;
}

/// Equivalence predicate that can handle very-wide graphs but not cyclic graphs.
pub fn equiv<N: Node>(a: N, b: N) -> (r: N::Cmp)
    requires
        terminates::<N, Unlimited, VecStack<N>>((), Seq::<EdgesView<N>>::empty(), a, b),
    ensures
        run_outcome::<N, Unlimited, VecStack<N>>((), Seq::<EdgesView<N>>::empty(), a, b).2 == Ok::<
            N::Cmp,
            core::convert::Infallible,
        >(r),
        r.spec_is_equiv() <==> all_equivalent(a, b),
{
    let mut e = Equiv::<Args<N>>::default();
    let r = e.equiv(a, b);
    proof {
        lemma_never_errs_outcome::<N, Unlimited, VecStack<N>>((), Seq::<EdgesView<N>>::empty(), a, b);
        lemma_complete_equivalence::<N, VecStack<N>>(a, b);
    }
    into_ok(r)
}

/// Equivalence predicate that limits how many nodes are traversed, and that aborts early if the
/// limit is reached.  Like [`equiv`], this can handle very-wide graphs but not cyclic graphs.
pub fn limited_equiv<N: Node, L: Ticker>(limit: L, a: N, b: N) -> (r: Result<N::Cmp, LimitReached>)
    ensures
        r == run_outcome::<N, Limited<L>, VecStack<N>>(
            limit.spec_value(),
            Seq::<EdgesView<N>>::empty(),
            a,
            b,
        ).2,
        r matches Ok(c) ==> (c.spec_is_equiv() <==> all_equivalent(a, b)),
{
    proof {
        lemma_limited_terminates::<N, L, VecStack<N>>(
            limit.spec_value(),
            Seq::<EdgesView<N>>::empty(),
            a,
            b,
        );
        if run_outcome::<N, Limited<L>, VecStack<N>>(
            limit.spec_value(),
            Seq::<EdgesView<N>>::empty(),
            a,
            b,
        ).2 is Ok {
            lemma_limited_agrees::<N, L, VecStack<N>>(limit.spec_value(), a, b);
            lemma_complete_equivalence::<N, VecStack<N>>(a, b);
        }
    }
    let mut e = Equiv::<LimitedArgs<N, L>>::new(Limited(limit));
    e.equiv(a, b)
}

} // verus!
