/// Modes of the algorithm that are useful in basic ways.
pub mod modes;
/// Basic support, that cannot handle very-deep graphs, for recursion of the algorithm.
pub mod recursion;

use vstd::prelude::*;

use crate::basic::modes::{LimitReached, Limited, Ticker, Unlimited};
use crate::basic::recursion::CallStack;
use crate::generic::equiv::{lemma_never_errs_outcome, run_outcome, terminates, Equiv, Params};
use crate::generic::results::{all_equivalent, lemma_complete_equivalence, lemma_limited_agrees};
use crate::utils::into_ok;
use crate::{Cmp, Node};

verus! {

/// The parameters of [`equiv`].
pub struct BasicArgs<N> {
    _node: core::marker::PhantomData<N>,
}

impl<N: Node> Params for BasicArgs<N> {
    type Node = N;
    type DescendMode = Unlimited;
    type RecurMode = CallStack;
}

/// The parameters of [`limited_equiv`].
pub struct LimitedArgs<N, L> {
    _node: core::marker::PhantomData<(N, L)>,
}

impl<N: Node, L: Ticker> Params for LimitedArgs<N, L> {
    type Node = N;
    type DescendMode = Limited<L>;
    type RecurMode = CallStack;
}

/// Equivalence predicate that cannot handle cyclic nor very-deep graphs, and that has the least
/// overhead.  Compares in depth-first preorder and gives the result of the first inequivalent
/// counterparts.
pub fn equiv<N: Node>(a: N, b: N) -> (r: N::Cmp)
    requires
        terminates::<N, Unlimited, CallStack>((), (), a, b),
    ensures
        run_outcome::<N, Unlimited, CallStack>((), (), a, b).2 == Ok::<
            N::Cmp,
            core::convert::Infallible,
        >(r),
        r.spec_is_equiv() <==> all_equivalent(a, b),
{
    let mut e = Equiv::<BasicArgs<N>>::default();
    let r = e.equiv(a, b);
    proof {
        lemma_never_errs_outcome::<N, Unlimited, CallStack>((), (), a, b);
        lemma_complete_equivalence::<N, CallStack>(a, b);
    }
    into_ok(r)
}

/// Equivalence predicate that limits how many nodes are traversed, and that aborts early if the
/// limit is reached.  Like [`equiv`], this cannot handle cyclic nor very-deep graphs.
pub fn limited_equiv<N: Node, L: Ticker>(limit: L, a: N, b: N) -> (r: Result<N::Cmp, LimitReached>)
    ensures
        r == run_outcome::<N, Limited<L>, CallStack>(limit.spec_value(), (), a, b).2,
        r matches Ok(c) ==> (c.spec_is_equiv() <==> all_equivalent(a, b)),
{
    proof {
        crate::basic::modes::lemma_limited_terminates::<N, L, CallStack>(
            limit.spec_value(),
            (),
            a,
            b,
        );
        if run_outcome::<N, Limited<L>, CallStack>(limit.spec_value(), (), a, b).2 is Ok {
            lemma_limited_agrees::<N, L, CallStack>(limit.spec_value(), a, b);
            lemma_complete_equivalence::<N, CallStack>(a, b);
        }
    }
    let mut e = Equiv::<LimitedArgs<N, L>>::new(Limited(limit));
    e.equiv(a, b)
}

} // verus!
