/// The "interleave" mode requires (pseudo)random numbers, to randomly vary the limit of the
/// "fast" phase.
pub mod random;

use vstd::prelude::*;

use crate::cycle_safe::modes::interleave::random::NumberGenerator;
use crate::generic::equiv::{never_errs, DefaultMode, DescendMode};
use crate::generic::equiv_classes::{spec_same_class, EquivClasses, Table, UfView};
use crate::Node;

verus! {

/// The paper's value of how many edges are descended by a separate precheck before it aborts.
/// The paper's other limits are derived from it.
pub const PRECHECK_LIMIT: u16 = 400;

/// The paper's value of the maximum of the randomized limiting of how many nodes are traversed
/// by the "fast" phase before switching to the "slow" phase: twice [`PRECHECK_LIMIT`].
pub const FAST_LIMIT_MAX: u16 = 800;

/// The paper's value of how many nodes, consecutively, that are not already known to be
/// equivalent, are traversed by the "slow" phase before switching to the "fast" phase: a tenth
/// of [`PRECHECK_LIMIT`].
pub const SLOW_LIMIT: u16 = 40;

/// The limits of the phases of the interleave, and of the precheck that may come before it.
pub struct Limits {
    /// How many edges are descended by a separate precheck before it aborts.  Only used by a
    /// separate precheck when [`Interleave`] is used after that (as by
    /// [`crate::generic::precheck_interleave::equiv`]).
    pub precheck: u16,
    /// Maximum of the randomized limiting of how many nodes are traversed by the "fast" phase
    /// before switching to the "slow" phase.
    pub fast_max: u16,
    /// How many nodes, consecutively, that are not already known to be equivalent, are
    /// traversed by the "slow" phase before switching to the "fast" phase.
    pub slow: u16,
}

impl Limits {
    /// One past the maximum of the "fast" phase's limit is a `u16`.
    pub open spec fn fits(self) -> bool {
        self.fast_max < u16::MAX
    }
}

/// The limits of the paper.
pub open spec fn paper_limits() -> Limits {
    Limits { precheck: PRECHECK_LIMIT, fast_max: FAST_LIMIT_MAX, slow: SLOW_LIMIT }
}

/// The limits of the paper, which are the defaults.
pub fn default_limits() -> (r: Limits)
    ensures
        r == paper_limits(),
{
    Limits { precheck: PRECHECK_LIMIT, fast_max: FAST_LIMIT_MAX, slow: SLOW_LIMIT }
}

/// The limits derived from a chosen precheck limit as the paper derives its own: the maximum
/// of the "fast" phase is twice it and the "slow" limit a tenth of it.
pub fn limits_from_precheck(precheck: u16) -> (r: Limits)
    requires
        precheck <= 32767,
    ensures
        r == (Limits { precheck, fast_max: (2 * precheck) as u16, slow: precheck / 10 }),
        r.fits(),
{
    Limits { precheck, fast_max: 2 * precheck, slow: precheck / 10 }
}

/// The negated "slow" limit, that the ticker is compared with.
pub open spec fn slow_limit_neg(l: Limits) -> int {
    -(l.slow as int)
}

/// One past the maximum of the "fast" phase's limit: the exclusive end of its random limits.
pub open spec fn fast_limit_range_end(l: Limits) -> u16 {
    (l.fast_max + 1) as u16
}

/// Generic parameters of [`Interleave`] and its operations.
///
/// The paper's limits, which are for Scheme, are [`default_limits`].  Other values may suit a
/// particular application: implement [`Params`] for a type of your own, and use it with the
/// [`generic`](crate::generic) API.
pub trait Params {
    /// Type that records nodes as equivalent.
    type Table: Table;
    /// Type that provides a sequence of (pseudo)random numbers, used to vary the limit of the
    /// "fast" phase.
    type RNG: NumberGenerator;

    /// The limits of the phases that [`Self::limits`] gives.
    spec fn spec_limits() -> Limits;

    /// The limits of the phases.  The paper's are [`default_limits`], and
    /// [`limits_from_precheck`] derives others as the paper does.
    fn limits() -> (r: Limits)
        ensures
            r == Self::spec_limits(),
            r.fits(),
    ;
}

/// Specifies use of the "interleave" mode.
pub struct Interleave<P: Params> {
    /// Decremented for every node traversed, and reset when the phase is changed.
    ticker: i32,
    /// Table of nodes that have already been seen and recorded as equivalent, for use by the
    /// "slow" phase.
    equiv_classes: EquivClasses<P::Table>,
    /// State of the (P)RNG that is used to vary the limit of the "fast" phase.
    rng: P::RNG,
}

/// The view of an [`Interleave`]: the ticker, the equivalence classes, and the state of the
/// generator.
pub type InterleaveView<G> = (i32, UfView, G);

impl<P: Params> View for Interleave<P> {
    type V = InterleaveView<<P::RNG as View>::V>;

    closed spec fn view(&self) -> Self::V {
        (self.ticker, self.equiv_classes@, self.rng@)
    }
}

/// The ticker after a traversal: one less, saturating at the minimum.
pub open spec fn ticker_after_traverse(t: i32) -> i32 {
    if t > i32::MIN {
        (t - 1) as i32
    } else {
        t
    }
}

/// The decision of the "interleave" mode on whether to descend the edges of `a` and `b`, with
/// its new state.
pub open spec fn spec_interleave_do_edges<G, R: NumberGenerator<V = G>>(
    v: InterleaveView<G>,
    a_id: u64,
    b_id: u64,
    l: Limits,
) -> (InterleaveView<G>, bool) {
    let (ticker, uf, rng) = v;
    if ticker >= 0 {
        // "fast" phase
        (v, true)
    } else if ticker < slow_limit_neg(l) {
        // "slow" limit reached, change to "fast" phase, with a random limit
        let (rng2, n) = R::spec_rand_upto(rng, fast_limit_range_end(l));
        ((n as i32, uf, rng2), true)
    } else {
        // "slow" phase
        let (uf2, same) = spec_same_class(uf, a_id, b_id);
        if same {
            ((-1i32, uf2, rng), false)
        } else {
            ((ticker, uf2, rng), true)
        }
    }
}

/// The decision on descending keeps the ticker, resets it to -1, or, after the random draw that
/// starts a "fast" phase, sets it between 0 and the maximum of the "fast" phase's limit.
pub proof fn lemma_do_edges_ticker<G, R: NumberGenerator<V = G>>(
    v: InterleaveView<G>,
    a_id: u64,
    b_id: u64,
    l: Limits,
)
    requires
        l.fits(),
    ensures
        ({
            let t = spec_interleave_do_edges::<G, R>(v, a_id, b_id, l).0.0;
            t == v.0 || t == -1 || (v.0 < slow_limit_neg(l) && 0 <= t <= l.fast_max)
        }),
{
    if v.0 < slow_limit_neg(l) {
        R::lemma_rand_upto_range(v.2, fast_limit_range_end(l));
    }
}

impl<P: Params> Interleave<P> {
    /// The equivalence classes are well-formed.
    pub closed spec fn wf(&self) -> bool {
        self.equiv_classes.wf()
    }
}

impl<P: Params> DefaultMode for Interleave<P> {
    open spec fn default_inv(&self) -> bool {
        self.wf()
    }

    open spec fn spec_default() -> Self::V {
        (-1i32, UfView { keys: Map::empty(), weights: Map::empty(), fresh: 0 }, P::RNG::spec_default())
    }

    /// Start in the "slow" phase, with no classes.
    fn default_mode() -> (r: Self) {
        Interleave {
            ticker: -1,
            equiv_classes: EquivClasses::new(),
            rng: P::RNG::default_state(),
        }
    }
}

impl<P: Params, N: Node> DescendMode<N> for Interleave<P> {
    type Error = core::convert::Infallible;

    open spec fn inv(&self) -> bool {
        self.wf()
    }

    open spec fn spec_do_edges(v: Self::V, a: N, b: N) -> (Self::V, Result<
        bool,
        core::convert::Infallible,
    >) {
        let (v2, descend) = spec_interleave_do_edges::<<P::RNG as View>::V, P::RNG>(
            v,
            a.spec_id(),
            b.spec_id(),
            P::spec_limits(),
        );
        (v2, Ok(descend))
    }

    open spec fn spec_do_traverse(v: Self::V) -> (Self::V, Result<bool, core::convert::Infallible>) {
        ((ticker_after_traverse(v.0), v.1, v.2), Ok(true))
    }

    /// Determine whether to use "slow" or "fast" phase, based on the limits.  When "slow"
    /// phase, if the nodes are already known to be equivalent then do not check their
    /// descendents.
    fn do_edges(&mut self, a: &N, b: &N) -> (r: Result<bool, core::convert::Infallible>) {
        let limits = P::limits();
        let slow_limit_neg: i32 = -(limits.slow as i32);
        if self.ticker >= 0 {
            Ok(true)
        } else if self.ticker < slow_limit_neg {
            let n = self.rng.rand_upto(limits.fast_max + 1);
            self.ticker = n as i32;
            Ok(true)
        } else {
            let a_id = a.id();
            let b_id = b.id();
            if self.equiv_classes.same_class(&a_id, &b_id) {
                // This is what prevents traversing descendents that have already been
                // checked, which prevents infinite loops on cycles and is more efficient on
                // shared structure.  Reset the ticker so that "slow" is used for longer.
                self.ticker = -1;
                Ok(false)
            } else {
                Ok(true)
            }
        }
    }

    /// Descend into edges without limit, counting down the ticker.
    fn do_traverse(&mut self) -> (r: Result<bool, core::convert::Infallible>) {
        self.ticker = if self.ticker > i32::MIN {
            self.ticker - 1
        } else {
            self.ticker
        };
        Ok(true)
    }
}

/// The "interleave" mode never gives an error.
pub proof fn lemma_interleave_never_errs<N: Node, P: Params>()
    ensures
        never_errs::<N, Interleave<P>>(),
{
}

} // verus!
