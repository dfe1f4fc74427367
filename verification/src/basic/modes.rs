use vstd::prelude::*;

use crate::generic::equiv::{
    children_spec, continues, main_spec, run_spec, terminates, DefaultMode, DescendMode,
    RecurMode,
};
use crate::Node;

verus! {

/// Specifies not limiting the amount of nodes traversed.
pub struct Unlimited;

impl View for Unlimited {
    type V = ();

    open spec fn view(&self) -> () {
        ()
    }
}

impl DefaultMode for Unlimited {
    open spec fn default_inv(&self) -> bool {
        true
    }

    open spec fn spec_default() -> () {
        ()
    }

    fn default_mode() -> (r: Self) {
        Unlimited
    }
}

impl<N: Node> DescendMode<N> for Unlimited {
    type Error = core::convert::Infallible;

    open spec fn inv(&self) -> bool {
        true
    }

    open spec fn spec_do_edges(v: (), a: N, b: N) -> ((), Result<bool, core::convert::Infallible>) {
        ((), Ok(true))
    }

    open spec fn spec_do_traverse(v: ()) -> ((), Result<bool, core::convert::Infallible>) {
        ((), Ok(true))
    }

    /// Always start handling node edges.
    fn do_edges(&mut self, a: &N, b: &N) -> (r: Result<bool, core::convert::Infallible>) {
        Ok(true)
    }

    /// Always traverse nodes, without limit.
    fn do_traverse(&mut self) -> (r: Result<bool, core::convert::Infallible>) {
        Ok(true)
    }
}

/// Any type of unsigned integer may be used with [`Limited`].
pub trait Ticker: Sized {
    /// The mathematical value.
    spec fn spec_value(&self) -> nat;

    /// Whether the value is greater than zero.
    fn is_positive(&self) -> (r: bool)
        ensures
            r == (self.spec_value() > 0),
    ;

    /// Decrease the value by one.
    fn decrement(&mut self)
        requires
            old(self).spec_value() > 0,
        ensures
            final(self).spec_value() == old(self).spec_value() - 1,
    ;
}

impl Ticker for u8 {
    open spec fn spec_value(&self) -> nat {
        *self as nat
    }

    fn is_positive(&self) -> (r: bool) {
        *self > 0
    }

    fn decrement(&mut self) {
        *self = *self - 1;
    }
}

impl Ticker for u16 {
    open spec fn spec_value(&self) -> nat {
        *self as nat
    }

    fn is_positive(&self) -> (r: bool) {
        *self > 0
    }

    fn decrement(&mut self) {
        *self = *self - 1;
    }
}

impl Ticker for u32 {
    open spec fn spec_value(&self) -> nat {
        *self as nat
    }

    fn is_positive(&self) -> (r: bool) {
        *self > 0
    }

    fn decrement(&mut self) {
        *self = *self - 1;
    }
}

impl Ticker for u64 {
    open spec fn spec_value(&self) -> nat {
        *self as nat
    }

    fn is_positive(&self) -> (r: bool) {
        *self > 0
    }

    fn decrement(&mut self) {
        *self = *self - 1;
    }
}

impl Ticker for u128 {
    open spec fn spec_value(&self) -> nat {
        *self as nat
    }

    fn is_positive(&self) -> (r: bool) {
        *self > 0
    }

    fn decrement(&mut self) {
        *self = *self - 1;
    }
}

impl Ticker for usize {
    open spec fn spec_value(&self) -> nat {
        *self as nat
    }

    fn is_positive(&self) -> (r: bool) {
        *self > 0
    }

    fn decrement(&mut self) {
        *self = *self - 1;
    }
}

/// Specifies limiting the amount of nodes traversed.  The inner value is the limit.
pub struct Limited<T>(pub T);

/// Error when aborting early because a limit was reached.
#[derive(Debug, PartialEq, Eq, Structural, Clone, Copy)]
pub struct LimitReached;

impl<T: Ticker> View for Limited<T> {
    type V = nat;

    open spec fn view(&self) -> nat {
        self.0.spec_value()
    }
}

impl<T: Ticker, N: Node> DescendMode<N> for Limited<T> {
    type Error = LimitReached;

    open spec fn inv(&self) -> bool {
        true
    }

    open spec fn spec_do_edges(v: nat, a: N, b: N) -> (nat, Result<bool, LimitReached>) {
        (v, Ok(true))
    }

    open spec fn spec_do_traverse(v: nat) -> (nat, Result<bool, LimitReached>) {
        if v > 0 {
            ((v - 1) as nat, Ok(true))
        } else {
            (v, Err(LimitReached))
        }
    }

    /// Always start handling node edges.
    fn do_edges(&mut self, a: &N, b: &N) -> (r: Result<bool, LimitReached>) {
        Ok(true)
    }

    /// Enforce the limit on the amount of nodes traversed.
    fn do_traverse(&mut self) -> (r: Result<bool, LimitReached>) {
        if self.0.is_positive() {
            self.0.decrement();
            Ok(true)
        } else {
            Err(LimitReached)
        }
    }
}


/// With [`Limited`] from limit `v`, the main logic completes with enough fuel, without raising
/// the limit, and lowering it when it continues.
pub proof fn lemma_limited_main<N: Node, T: Ticker, R: RecurMode<N>>(
    v: nat,
    rv: R::V,
    a: N,
    b: N,
    fuel: nat,
)
    requires
        fuel > v,
    ensures
        main_spec::<N, Limited<T>, R>(v, rv, a, b, fuel) is Some,
        main_spec::<N, Limited<T>, R>(v, rv, a, b, fuel)->Some_0.0 <= v,
        main_spec::<N, Limited<T>, R>(v, rv, a, b, fuel)->Some_0.2 is Ok ==> main_spec::<
            N,
            Limited<T>,
            R,
        >(v, rv, a, b, fuel)->Some_0.0 < v,
    decreases fuel, 0nat,
{
    if v > 0 {
        let k = a.spec_equiv_modulo_descendents_then_amount_edges(&b);
        if k is Ok {
            lemma_limited_children::<N, T, R>(
                (v - 1) as nat,
                rv,
                a,
                b,
                0,
                k->Ok_0,
                (fuel - 1) as nat,
            );
        }
    }
}

/// With [`Limited`] from limit `v`, the immediate recursion on edges completes with enough
/// fuel, without raising the limit.
pub proof fn lemma_limited_children<N: Node, T: Ticker, R: RecurMode<N>>(
    v: nat,
    rv: R::V,
    a: N,
    b: N,
    i: usize,
    k: usize,
    fuel: nat,
)
    requires
        fuel > v,
    ensures
        children_spec::<N, Limited<T>, R>(v, rv, a, b, i, k, fuel) is Some,
        children_spec::<N, Limited<T>, R>(v, rv, a, b, i, k, fuel)->Some_0.0 <= v,
    decreases fuel, k - i,
{
    if i < k {
        lemma_limited_main::<N, T, R>(v, rv, a.spec_edge(i), b.spec_edge(i), fuel);
        let (dv1, rv1, r) = main_spec::<N, Limited<T>, R>(
            v,
            rv,
            a.spec_edge(i),
            b.spec_edge(i),
            fuel,
        )->Some_0;
        if continues::<N, LimitReached>(r) {
            lemma_limited_children::<N, T, R>(dv1, rv1, a, b, (i + 1) as usize, k, fuel);
        }
    }
}

/// With [`Limited`] from limit `v`, the algorithm completes with more fuel than the limit.
pub proof fn lemma_limited_run<N: Node, T: Ticker, R: RecurMode<N>>(
    v: nat,
    rv: R::V,
    a: N,
    b: N,
    fuel: nat,
)
    requires
        fuel > v,
    ensures
        run_spec::<N, Limited<T>, R>(v, rv, a, b, fuel) is Some,
    decreases fuel,
{
    lemma_limited_main::<N, T, R>(v, rv, a, b, fuel);
    let (dv1, rv1, r) = main_spec::<N, Limited<T>, R>(v, rv, a, b, fuel)->Some_0;
    if continues::<N, LimitReached>(r) {
        let (rv2, nx) = R::spec_next(rv1);
        if nx is Some {
            lemma_limited_run::<N, T, R>(dv1, rv2, nx->Some_0.0, nx->Some_0.1, (fuel - 1) as nat);
        }
    }
}

/// With [`Limited`], the algorithm always completes.
pub proof fn lemma_limited_terminates<N: Node, T: Ticker, R: RecurMode<N>>(
    v: nat,
    rv: R::V,
    a: N,
    b: N,
)
    ensures
        terminates::<N, Limited<T>, R>(v, rv, a, b),
{
    lemma_limited_run::<N, T, R>(v, rv, a, b, v + 1);
}
} // verus!
