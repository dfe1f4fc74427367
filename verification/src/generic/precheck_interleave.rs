use vstd::prelude::*;

use crate::basic::modes::{lemma_limited_terminates, LimitReached, Limited};
use crate::cycle_safe::modes::interleave::{self, lemma_interleave_never_errs, Interleave};
use crate::generic::equiv::{
    lemma_never_errs_outcome, run_outcome, terminates, DefaultMode, Equiv, RecurMode,
};
use crate::generic::cycle_results::{
    ids_identify, lemma_precheck_interleave_equivalence, local_is_equivalence,
};
use crate::generic::results::all_equivalent;
use crate::utils::into_ok;
use crate::{Cmp, Node};

verus! {

/// Generic parameters of [`equiv`].
pub trait Params<N: Node> {
    /// Type of recursion mode, for the precheck and then for the interleave.
    type RecurMode: RecurMode<N>;
    /// Type that provides the arguments for the generic parameters of the interleave.
    type InterleaveParams: interleave::Params;
}

/// The parameters of the precheck.
pub struct PrecheckArgs<N, P> {
    _params: core::marker::PhantomData<(N, P)>,
}

impl<N: Node, P: Params<N>> crate::generic::equiv::Params for PrecheckArgs<N, P> {
    type Node = N;
    type DescendMode = Limited<u16>;
    type RecurMode = P::RecurMode;
}

/// The parameters of the interleave.
pub struct InterleaveArgs<N, P> {
    _params: core::marker::PhantomData<(N, P)>,
}

impl<N: Node, P: Params<N>> crate::generic::equiv::Params for InterleaveArgs<N, P> {
    type Node = N;
    type DescendMode = Interleave<P::InterleaveParams>;
    type RecurMode = P::RecurMode;
}

/// The outcome of the precheck: the algorithm limited to the precheck limit of the interleave's
/// parameters, in traversals.
pub open spec fn precheck_outcome<N: Node, P: Params<N>>(a: N, b: N) -> (
    nat,
    <P::RecurMode as View>::V,
    Result<N::Cmp, LimitReached>,
) {
    run_outcome::<N, Limited<u16>, P::RecurMode>(
        <P::InterleaveParams as interleave::Params>::spec_limits().precheck as nat,
        P::RecurMode::spec_new(),
        a,
        b,
    )
}

/// Whether the interleave completes on the counterparts, from its starting state.
pub open spec fn interleave_terminates<N: Node, P: Params<N>>(a: N, b: N) -> bool {
    terminates::<N, Interleave<P::InterleaveParams>, P::RecurMode>(
        Interleave::<P::InterleaveParams>::spec_default(),
        P::RecurMode::spec_new(),
        a,
        b,
    )
}

/// The result of the interleave on the counterparts, from its starting state.
pub open spec fn interleave_result<N: Node, P: Params<N>>(a: N, b: N) -> Result<
    N::Cmp,
    core::convert::Infallible,
> {
    run_outcome::<N, Interleave<P::InterleaveParams>, P::RecurMode>(
        Interleave::<P::InterleaveParams>::spec_default(),
        P::RecurMode::spec_new(),
        a,
        b,
    ).2
}

/// The result of [`equiv`]: that of the precheck when it completes within its limit, else that
/// of the interleave.
pub open spec fn precheck_interleave_result<N: Node, P: Params<N>>(a: N, b: N) -> N::Cmp {
    match precheck_outcome::<N, P>(a, b).2 {
        Ok(c) => c,
        Err(_) => interleave_result::<N, P>(a, b)->Ok_0,
    }
}

/// Equivalence predicate that can handle cyclic graphs, but first tries the precheck that is
/// faster for small acyclic graphs.  Safe for very-deep graphs only when the recursion mode is.
///
/// The nodes are cloned for the precheck, and cloning must give the same node.
pub fn equiv<N: Node + Clone, P: Params<N>>(a: N, b: N) -> (r: N::Cmp)
    requires
        forall|x: N, y: N| #[trigger] vstd::pervasive::strictly_cloned(x, y) ==> x == y,
        precheck_outcome::<N, P>(a, b).2 is Err ==> interleave_terminates::<N, P>(a, b),
    ensures
        r == precheck_interleave_result::<N, P>(a, b),
        precheck_outcome::<N, P>(a, b).2 is Err ==> interleave_result::<N, P>(a, b) == Ok::<
            N::Cmp,
            core::convert::Infallible,
        >(r),
        ids_identify(a, b) && local_is_equivalence(a, b) ==> (r.spec_is_equiv()
            <==> all_equivalent(a, b)),
{
    proof {
        if ids_identify(a, b) && local_is_equivalence(a, b) {
            lemma_precheck_interleave_equivalence::<N, P>(a, b);
        }
        lemma_limited_terminates::<N, u16, P::RecurMode>(
            <P::InterleaveParams as interleave::Params>::spec_limits().precheck as nat,
            P::RecurMode::spec_new(),
            a,
            b,
        );
    }
    let limits = <P::InterleaveParams as interleave::Params>::limits();
    let mut e = Equiv::<PrecheckArgs<N, P>>::new(Limited(limits.precheck));
    let a2 = a.clone();
    let b2 = b.clone();
    proof {
        assert(vstd::pervasive::strictly_cloned(a, a2));
        assert(vstd::pervasive::strictly_cloned(b, b2));
    }
    match e.equiv(a2, b2) {
        Ok(c) => c,
        Err(_) => {
            let mut e2: Equiv<InterleaveArgs<N, P>> = e.into();
            let r = e2.equiv(a, b);
            proof {
                lemma_interleave_never_errs::<N, P::InterleaveParams>();
                lemma_never_errs_outcome::<N, Interleave<P::InterleaveParams>, P::RecurMode>(
                    Interleave::<P::InterleaveParams>::spec_default(),
                    P::RecurMode::spec_new(),
                    a,
                    b,
                );
            }
            into_ok(r)
        },
    }
}

} // verus!
