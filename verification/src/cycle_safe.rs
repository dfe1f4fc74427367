/// Modes of the algorithm that enable handling cyclic and degenerate graphs.
pub mod modes;

use vstd::prelude::*;

use crate::basic::recursion::CallStack;
use crate::cycle_safe::modes::interleave::random::wyrng::RandomNumberGenerator;
use crate::cycle_safe::modes::interleave::{
    self, default_limits, lemma_interleave_never_errs, paper_limits, Interleave, Limits,
};
use crate::generic::equiv::{
    lemma_never_errs_outcome, run_outcome, terminates, DefaultMode, Equiv, Params,
};
use crate::generic::equiv_classes::premade::hash_map;
use crate::generic::precheck_interleave::{self, precheck_interleave_result};
use crate::generic::cycle_results::{
    ids_identify, lemma_interleave_equivalence, lemma_precheck_interleave_equivalence,
    local_is_equivalence,
};
use crate::generic::results::all_equivalent;
use crate::utils::into_ok;
use crate::{Cmp, Node};

verus! {

/// The premade parameters of this module: the hash-map table, the `wyrng` generator, and the
/// call-stack.
pub struct CycleArgs<N> {
    _node: core::marker::PhantomData<N>,
}

impl<N: Node> interleave::Params for CycleArgs<N> {
    type Table = hash_map::Table;
    type RNG = RandomNumberGenerator;

    open spec fn spec_limits() -> Limits {
        paper_limits()
    }

    fn limits() -> (r: Limits) {
        default_limits()
    }
}

impl<N: Node> Params for CycleArgs<N> {
    type Node = N;
    type DescendMode = Interleave<Self>;
    type RecurMode = CallStack;
}

impl<N: Node> precheck_interleave::Params<N> for CycleArgs<N> {
    type RecurMode = CallStack;
    type InterleaveParams = Self;
}

/// The result of [`equiv`] on the counterparts, when it completes.
pub open spec fn cycle_safe_result<N: Node>(a: N, b: N) -> Result<
    N::Cmp,
    core::convert::Infallible,
> {
    run_outcome::<N, Interleave<CycleArgs<N>>, CallStack>(
        Interleave::<CycleArgs<N>>::spec_default(),
        (),
        a,
        b,
    ).2
}

/// Equivalence predicate that can handle cyclic graphs but not very-deep graphs.
///
/// It completes on graphs whose descended paths are bounded, as in finite acyclic graphs (see
/// [`crate::generic::results::lemma_bounded_depth_terminates`]).  On cyclic graphs, whether it
/// completes depends on the random numbers that its "fast" phase draws (a generator that keeps
/// drawing 0 makes it recurse forever on some cyclic graphs, see
/// [`crate::generic::cycle_results::lemma_interleave_may_not_terminate`]), and so completion is
/// required; where it completes, its result is stated exactly.
pub fn equiv<N: Node>(a: N, b: N) -> (r: N::Cmp)
    requires
        terminates::<N, Interleave<CycleArgs<N>>, CallStack>(
            Interleave::<CycleArgs<N>>::spec_default(),
            (),
            a,
            b,
        ),
    ensures
        cycle_safe_result(a, b) == Ok::<N::Cmp, core::convert::Infallible>(r),
        ids_identify(a, b) && local_is_equivalence(a, b) ==> (r.spec_is_equiv()
            <==> all_equivalent(a, b)),
{
    let mut e = Equiv::<CycleArgs<N>>::default();
    let r = e.equiv(a, b);
    proof {
        lemma_interleave_never_errs::<N, CycleArgs<N>>();
        lemma_never_errs_outcome::<N, Interleave<CycleArgs<N>>, CallStack>(
            Interleave::<CycleArgs<N>>::spec_default(),
            (),
            a,
            b,
        );
        if ids_identify(a, b) && local_is_equivalence(a, b) {
            lemma_interleave_equivalence::<N, CycleArgs<N>, CallStack>(a, b);
        }
    }
    into_ok(r)
}

/// Like [`equiv`] but first tries the precheck that is faster for small acyclic graphs.
pub fn precheck_equiv<N: Node + Clone>(a: N, b: N) -> (r: N::Cmp)
    requires
        forall|x: N, y: N| #[trigger] vstd::pervasive::strictly_cloned(x, y) ==> x == y,
        precheck_interleave::precheck_outcome::<N, CycleArgs<N>>(a, b).2 is Err
            ==> precheck_interleave::interleave_terminates::<N, CycleArgs<N>>(a, b),
    ensures
        r == precheck_interleave_result::<N, CycleArgs<N>>(a, b),
        ids_identify(a, b) && local_is_equivalence(a, b) ==> (r.spec_is_equiv()
            <==> all_equivalent(a, b)),
{
    proof {
        if ids_identify(a, b) && local_is_equivalence(a, b) {
            lemma_precheck_interleave_equivalence::<N, CycleArgs<N>>(a, b);
        }
    }
    precheck_interleave::equiv::<N, CycleArgs<N>>(a, b)
}

} // verus!
