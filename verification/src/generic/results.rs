use vstd::prelude::*;

use crate::generic::equiv::{
    advance_keeps, children_spec, continues, edges_all, from_saved, has_edges,
    lemma_never_errs_outcome, lemma_never_errs_run, main_spec, never_errs, run_outcome, run_spec,
    terminates, view_weight, DescendMode, EdgesView, Outcome, RecurMode,
};
use crate::basic::modes::{lemma_limited_terminates, LimitReached, Limited, Ticker, Unlimited};
use crate::generic::cycle_results::lemma_main_keeps;
use crate::{Cmp, Node};

verus! {

/// The descendent reached from `n` by following the edges at the indices of the path, in order.
pub open spec fn at_path<N: Node>(n: N, path: Seq<usize>) -> N
    decreases path.len(),
{
    if path.len() == 0 {
        n
    } else {
        at_path(n, path.drop_last()).spec_edge(path.last())
    }
}

/// Following one more edge from the end of a path.
pub proof fn lemma_at_path_push<N: Node>(n: N, path: Seq<usize>, i: usize)
    ensures
        at_path(n, path.push(i)) == at_path(n, path).spec_edge(i),
{
    assert(path.push(i).drop_last() =~= path);
}

/// Whether `x` and `y` are the counterparts reached by the path from `a` and `b`, and the path
/// is descended by a complete traversal.
pub open spec fn counterparts_at<N: Node>(a: N, b: N, x: N, y: N, path: Seq<usize>) -> bool {
    x == at_path(a, path) && y == at_path(b, path) && descended(a, b, path)
}

/// Whether `x` and `y` are counterparts reached by the same descended path from `a` and `b`.
pub open spec fn common_path<N: Node>(a: N, b: N, x: N, y: N) -> bool {
    exists|path: Seq<usize>| #[trigger] counterparts_at(a, b, x, y, path)
}

/// The edges views whose counterparts are reached by the same descended path from `a` and
/// `b`, and whose edges still to give are descended from there.
pub open spec fn at_common_path<N: Node>(a: N, b: N) -> spec_fn(EdgesView<N>) -> bool {
    |e: EdgesView<N>|
        common_path(a, b, e.0, e.1) && e.0.spec_id() != e.1.spec_id() && (
        e.0.spec_equiv_modulo_descendents_then_amount_edges(&e.1) matches Ok(k) && e.3 <= k)
}

/// The comparison, ignoring their descendents, of the counterparts reached by the path.
pub open spec fn compares_at<N: Node>(a: N, b: N, path: Seq<usize>) -> Result<usize, N::Cmp> {
    at_path(a, path).spec_equiv_modulo_descendents_then_amount_edges(&at_path(b, path))
}

/// Whether `c` is the inequivalence given by the comparison, ignoring descendents, of some
/// distinct counterparts reached by the same descended path from `a` and `b`.
pub open spec fn differs_at_some_path<N: Node>(a: N, b: N, c: N::Cmp) -> bool {
    exists|path: Seq<usize>|
        #[trigger] compares_at(a, b, path) == Err::<usize, N::Cmp>(c) && descended(a, b, path)
            && at_path(a, path).spec_id() != at_path(b, path).spec_id()
}

/// A result is the value that represents equivalence or the inequivalence of counterparts at
/// some path.
pub open spec fn result_witnessed<N: Node, E>(a: N, b: N, r: Result<N::Cmp, E>) -> bool {
    r matches Ok(c) ==> c == N::Cmp::spec_new_equiv() || differs_at_some_path(a, b, c)
}

/// The main logic on counterparts at a common path keeps the saved views at common paths and
/// gives a witnessed result.
pub proof fn lemma_main_witnessed<N: Node, D: DescendMode<N>, R: RecurMode<N>>(
    dv: <D as View>::V,
    rv: <R as View>::V,
    a: N,
    b: N,
    x: N,
    y: N,
    path: Seq<usize>,
    fuel: nat,
)
    requires
        counterparts_at(a, b, x, y, path),
        R::spec_all_saved(rv, at_common_path(a, b)),
    ensures
        main_spec::<N, D, R>(dv, rv, x, y, fuel) matches Some((dv1, rv1, r)) ==> R::spec_all_saved(
            rv1,
            at_common_path(a, b),
        ) && result_witnessed::<N, D::Error>(a, b, r),
    decreases fuel, 0nat,
{
    let (dv1, t) = D::spec_do_traverse(dv);
    if let Ok(traverse) = t {
        if traverse && x.spec_id() != y.spec_id() {
            match x.spec_equiv_modulo_descendents_then_amount_edges(&y) {
                Err(c) => {
                    assert(compares_at(a, b, path) == Err::<usize, N::Cmp>(c));
                },
                Ok(k) => {
                    if k != 0 {
                        let (dv2, e) = D::spec_do_edges(dv1, x, y);
                        if let Ok(descend) = e {
                            if descend {
                                if R::spec_immediate() {
                                    if fuel > 0 {
                                        lemma_children_witnessed::<N, D, R>(
                                            dv2,
                                            rv,
                                            a,
                                            b,
                                            x,
                                            y,
                                            path,
                                            0,
                                            k,
                                            (fuel - 1) as nat,
                                        );
                                    }
                                } else {
                                    let ev: EdgesView<N> = (x, y, 0usize, k);
                                    assert(counterparts_at(a, b, ev.0, ev.1, path));
                                    assert(at_common_path(a, b)(ev));
                                    R::lemma_saved(rv, ev, at_common_path(a, b));
                                }
                            }
                        }
                    }
                },
            }
        }
    }
}

/// The immediate recursion on the edges of counterparts at a common path keeps the saved views
/// at common paths and gives a witnessed result.
pub proof fn lemma_children_witnessed<N: Node, D: DescendMode<N>, R: RecurMode<N>>(
    dv: <D as View>::V,
    rv: <R as View>::V,
    a: N,
    b: N,
    x: N,
    y: N,
    path: Seq<usize>,
    i: usize,
    k: usize,
    fuel: nat,
)
    requires
        counterparts_at(a, b, x, y, path),
        R::spec_all_saved(rv, at_common_path(a, b)),
        x.spec_id() != y.spec_id(),
        x.spec_equiv_modulo_descendents_then_amount_edges(&y) matches Ok(kk) && k <= kk,
    ensures
        children_spec::<N, D, R>(dv, rv, x, y, i, k, fuel) matches Some((dv1, rv1, r))
            ==> R::spec_all_saved(rv1, at_common_path(a, b)) && result_witnessed::<N, D::Error>(
            a,
            b,
            r,
        ),
    decreases fuel, k - i,
{
    if i < k {
        lemma_at_path_push(a, path, i);
        lemma_at_path_push(b, path, i);
        let (xi, yi) = (x.spec_edge(i), y.spec_edge(i));
        assert(path.push(i).drop_last() =~= path);
        assert(descended(a, b, path.push(i)));
        assert(counterparts_at(a, b, xi, yi, path.push(i)));
        lemma_main_witnessed::<N, D, R>(dv, rv, a, b, xi, yi, path.push(i), fuel);
        match main_spec::<N, D, R>(dv, rv, xi, yi, fuel) {
            Some((dv1, rv1, r)) => {
                if continues::<N, D::Error>(r) {
                    lemma_children_witnessed::<N, D, R>(
                        dv1,
                        rv1,
                        a,
                        b,
                        x,
                        y,
                        path,
                        (i + 1) as usize,
                        k,
                        fuel,
                    );
                }
            },
            None => {},
        }
    }
}

/// Advancing keeps views at common paths.
pub proof fn lemma_common_path_advance<N: Node>(a: N, b: N)
    ensures
        advance_keeps(at_common_path(a, b)),
{
}

/// The next counterparts that a recursion state gives back, when it holds only views at common
/// paths, are at a common path, and so are the views that it still holds.
pub proof fn lemma_next_at_common_path<N: Node, R: RecurMode<N>>(rv: <R as View>::V, a: N, b: N)
    requires
        R::spec_all_saved(rv, at_common_path(a, b)),
    ensures
        R::spec_all_saved(R::spec_next(rv).0, at_common_path(a, b)),
        R::spec_next(rv).1 matches Some((x, y)) ==> common_path(a, b, x, y),
{
    let p = at_common_path(a, b);
    lemma_common_path_advance(a, b);
    R::lemma_saved(rv, (a, b, 0usize, 0usize), p);
    if let Some((x2, y2)) = R::spec_next(rv).1 {
        assert(from_saved(p, x2, y2));
        let e = choose|e: EdgesView<N>|
            #[trigger] p(e) && e.2 < e.3 && x2 == e.0.spec_edge(e.2) && y2 == e.1.spec_edge(e.2);
        let q = choose|q: Seq<usize>| #[trigger] counterparts_at(a, b, e.0, e.1, q);
        lemma_at_path_push(a, q, e.2);
        lemma_at_path_push(b, q, e.2);
        assert(q.push(e.2).drop_last() =~= q);
        assert(descended(a, b, q.push(e.2)));
        assert(counterparts_at(a, b, x2, y2, q.push(e.2)));
    }
}

/// The whole algorithm, from counterparts at a common path and saved views at common paths,
/// gives a witnessed result.
pub proof fn lemma_run_witnessed<N: Node, D: DescendMode<N>, R: RecurMode<N>>(
    dv: <D as View>::V,
    rv: <R as View>::V,
    a: N,
    b: N,
    x: N,
    y: N,
    fuel: nat,
)
    requires
        common_path(a, b, x, y),
        R::spec_all_saved(rv, at_common_path(a, b)),
    ensures
        run_spec::<N, D, R>(dv, rv, x, y, fuel) matches Some((_, _, r)) ==> result_witnessed::<
            N,
            D::Error,
        >(a, b, r),
    decreases fuel,
{
    let path = choose|path: Seq<usize>| #[trigger] counterparts_at(a, b, x, y, path);
    lemma_main_witnessed::<N, D, R>(dv, rv, a, b, x, y, path, fuel);
    if let Some((dv1, rv1, r)) = main_spec::<N, D, R>(dv, rv, x, y, fuel) {
        if continues::<N, D::Error>(r) {
            lemma_next_at_common_path::<N, R>(rv1, a, b);
            let (rv2, nx) = R::spec_next(rv1);
            if let Some((x2, y2)) = nx {
                if fuel > 0 {
                    lemma_run_witnessed::<N, D, R>(dv1, rv2, a, b, x2, y2, (fuel - 1) as nat);
                }
            }
        }
    }
}

/// Every variation of the algorithm reports an inequivalence only where it found one: an
/// inequivalent result is the comparison, ignoring descendents, of some distinct counterparts
/// reached by the same descended path of edge indices from both roots, and so the graphs are
/// not equivalent.
pub proof fn lemma_inequivalence_is_witnessed<N: Node, D: DescendMode<N>, R: RecurMode<N>>(
    dv: <D as View>::V,
    a: N,
    b: N,
)
    requires
        terminates::<N, D, R>(dv, R::spec_new(), a, b),
    ensures
        run_outcome::<N, D, R>(dv, R::spec_new(), a, b).2 matches Ok(c) ==> (!c.spec_is_equiv()
            ==> differs_at_some_path(a, b, c) && !all_equivalent(a, b)),
{
    let f = choose|f: nat| (#[trigger] run_spec::<N, D, R>(dv, R::spec_new(), a, b, f)) is Some;
    R::lemma_saved(R::spec_new(), (a, b, 0usize, 0usize), at_common_path(a, b));
    assert(counterparts_at(a, b, a, b, Seq::empty()));
    lemma_run_witnessed::<N, D, R>(dv, R::spec_new(), a, b, a, b, f);
    N::Cmp::lemma_laws();
    if let Ok(c) = run_outcome::<N, D, R>(dv, R::spec_new(), a, b).2 {
        if !c.spec_is_equiv() {
            let path = choose|path: Seq<usize>|
                #[trigger] compares_at(a, b, path) == Err::<usize, N::Cmp>(c) && descended(
                    a,
                    b,
                    path,
                ) && at_path(a, path).spec_id() != at_path(b, path).spec_id();
            assert(!equivalent_at(a, b, path));
        }
    }
}

/// Nothing is saved in a new recursion state, and so it gives nothing back.
pub proof fn lemma_new_gives_nothing<N: Node, R: RecurMode<N>>()
    ensures
        R::spec_next(R::spec_new()).1 is None,
{
    let never = |e: EdgesView<N>| false;
    let some: N = arbitrary();
    R::lemma_saved(R::spec_new(), (some, some, 0usize, 0usize), never);
}

/// Counterparts with the same identity are immediately equivalent, whatever the recursion mode,
/// when the descend mode lets the traversal start.
pub proof fn lemma_same_identity_is_equivalent<N: Node, D: DescendMode<N>, R: RecurMode<N>>(
    dv: <D as View>::V,
    a: N,
    b: N,
)
    requires
        a.spec_id() == b.spec_id(),
        D::spec_do_traverse(dv).1 is Ok,
    ensures
        terminates::<N, D, R>(dv, R::spec_new(), a, b),
        run_outcome::<N, D, R>(dv, R::spec_new(), a, b).2 == Ok::<N::Cmp, D::Error>(
            N::Cmp::spec_new_equiv(),
        ),
{
    N::Cmp::lemma_laws();
    lemma_new_gives_nothing::<N, R>();
    assert(run_spec::<N, D, R>(dv, R::spec_new(), a, b, 0) is Some);
    assert forall|f: nat| #[trigger] run_spec::<N, D, R>(dv, R::spec_new(), a, b, f) is Some
        implies run_spec::<N, D, R>(dv, R::spec_new(), a, b, f)->Some_0.2 == Ok::<
        N::Cmp,
        D::Error,
    >(N::Cmp::spec_new_equiv()) by {
    }
}

/// More fuel does not change a completed main logic.
pub proof fn lemma_main_fuel<N: Node, D: DescendMode<N>, R: RecurMode<N>>(
    dv: <D as View>::V,
    rv: <R as View>::V,
    a: N,
    b: N,
    f1: nat,
    f2: nat,
)
    requires
        f1 <= f2,
        main_spec::<N, D, R>(dv, rv, a, b, f1) is Some,
    ensures
        main_spec::<N, D, R>(dv, rv, a, b, f2) == main_spec::<N, D, R>(dv, rv, a, b, f1),
    decreases f1, 0nat,
{
    let (dv1, t) = D::spec_do_traverse(dv);
    if let Ok(traverse) = t {
        if traverse && a.spec_id() != b.spec_id() {
            if let Ok(k) = a.spec_equiv_modulo_descendents_then_amount_edges(&b) {
                if k != 0 {
                    let (dv2, e) = D::spec_do_edges(dv1, a, b);
                    if e matches Ok(true) && R::spec_immediate() {
                        lemma_children_fuel::<N, D, R>(
                            dv2,
                            rv,
                            a,
                            b,
                            0,
                            k,
                            (f1 - 1) as nat,
                            (f2 - 1) as nat,
                        );
                    }
                }
            }
        }
    }
}

/// More fuel does not change a completed immediate recursion on edges.
pub proof fn lemma_children_fuel<N: Node, D: DescendMode<N>, R: RecurMode<N>>(
    dv: <D as View>::V,
    rv: <R as View>::V,
    a: N,
    b: N,
    i: usize,
    k: usize,
    f1: nat,
    f2: nat,
)
    requires
        f1 <= f2,
        children_spec::<N, D, R>(dv, rv, a, b, i, k, f1) is Some,
    ensures
        children_spec::<N, D, R>(dv, rv, a, b, i, k, f2) == children_spec::<N, D, R>(
            dv,
            rv,
            a,
            b,
            i,
            k,
            f1,
        ),
    decreases f1, k - i,
{
    if i < k {
        lemma_main_fuel::<N, D, R>(dv, rv, a.spec_edge(i), b.spec_edge(i), f1, f2);
        if let Some((dv1, rv1, r)) = main_spec::<N, D, R>(dv, rv, a.spec_edge(i), b.spec_edge(i), f1) {
            if continues::<N, D::Error>(r) {
                lemma_children_fuel::<N, D, R>(dv1, rv1, a, b, (i + 1) as usize, k, f1, f2);
            }
        }
    }
}

/// More fuel does not change a completed algorithm.
pub proof fn lemma_run_fuel<N: Node, D: DescendMode<N>, R: RecurMode<N>>(
    dv: <D as View>::V,
    rv: <R as View>::V,
    a: N,
    b: N,
    f1: nat,
    f2: nat,
)
    requires
        f1 <= f2,
        run_spec::<N, D, R>(dv, rv, a, b, f1) is Some,
    ensures
        run_spec::<N, D, R>(dv, rv, a, b, f2) == run_spec::<N, D, R>(dv, rv, a, b, f1),
    decreases f1,
{
    lemma_main_fuel::<N, D, R>(dv, rv, a, b, f1, f2);
    if let Some((dv1, rv1, r)) = main_spec::<N, D, R>(dv, rv, a, b, f1) {
        if continues::<N, D::Error>(r) {
            let (rv2, nx) = R::spec_next(rv1);
            if let Some((x, y)) = nx {
                lemma_run_fuel::<N, D, R>(dv1, rv2, x, y, (f1 - 1) as nat, (f2 - 1) as nat);
            }
        }
    }
}

/// Two completions of the algorithm, with any fuel, give the same outcome.
pub proof fn lemma_run_outcome_any_fuel<N: Node, D: DescendMode<N>, R: RecurMode<N>>(
    dv: <D as View>::V,
    rv: <R as View>::V,
    a: N,
    b: N,
    f: nat,
)
    requires
        run_spec::<N, D, R>(dv, rv, a, b, f) is Some,
    ensures
        terminates::<N, D, R>(dv, rv, a, b),
        run_outcome::<N, D, R>(dv, rv, a, b) == run_spec::<N, D, R>(dv, rv, a, b, f)->Some_0,
{
    let g = choose|g: nat| (#[trigger] run_spec::<N, D, R>(dv, rv, a, b, g)) is Some;
    if f <= g {
        lemma_run_fuel::<N, D, R>(dv, rv, a, b, f, g);
    } else {
        lemma_run_fuel::<N, D, R>(dv, rv, a, b, g, f);
    }
}

/// Where the limited main logic gives a result, the unlimited main logic gives the same result,
/// with the same recursion state.
pub proof fn lemma_main_limited<N: Node, T: Ticker, R: RecurMode<N>>(
    lv: nat,
    rv: <R as View>::V,
    a: N,
    b: N,
    f: nat,
)
    ensures
        main_spec::<N, Limited<T>, R>(lv, rv, a, b, f) matches Some((_, rv1, Ok(c)))
            ==> main_spec::<N, Unlimited, R>((), rv, a, b, f) == Some(
            ((), rv1, Ok::<N::Cmp, core::convert::Infallible>(c)),
        ),
    decreases f, 0nat,
{
    if lv > 0 && a.spec_id() != b.spec_id() {
        if let Ok(k) = a.spec_equiv_modulo_descendents_then_amount_edges(&b) {
            if k != 0 && R::spec_immediate() && f > 0 {
                lemma_children_limited::<N, T, R>((lv - 1) as nat, rv, a, b, 0, k, (f - 1) as nat);
            }
        }
    }
}

/// Where the limited immediate recursion on edges gives a result, the unlimited one gives the
/// same result, with the same recursion state.
pub proof fn lemma_children_limited<N: Node, T: Ticker, R: RecurMode<N>>(
    lv: nat,
    rv: <R as View>::V,
    a: N,
    b: N,
    i: usize,
    k: usize,
    f: nat,
)
    ensures
        children_spec::<N, Limited<T>, R>(lv, rv, a, b, i, k, f) matches Some((_, rv1, Ok(c)))
            ==> children_spec::<N, Unlimited, R>((), rv, a, b, i, k, f) == Some(
            ((), rv1, Ok::<N::Cmp, core::convert::Infallible>(c)),
        ),
    decreases f, k - i,
{
    if i < k {
        lemma_main_limited::<N, T, R>(lv, rv, a.spec_edge(i), b.spec_edge(i), f);
        if let Some((lv1, rv1, r)) = main_spec::<N, Limited<T>, R>(
            lv,
            rv,
            a.spec_edge(i),
            b.spec_edge(i),
            f,
        ) {
            if continues::<N, crate::basic::modes::LimitReached>(r) {
                lemma_children_limited::<N, T, R>(lv1, rv1, a, b, (i + 1) as usize, k, f);
            }
        }
    }
}

/// Where the limited algorithm gives a result, the unlimited algorithm gives the same result.
pub proof fn lemma_run_limited<N: Node, T: Ticker, R: RecurMode<N>>(
    lv: nat,
    rv: <R as View>::V,
    a: N,
    b: N,
    f: nat,
)
    ensures
        run_spec::<N, Limited<T>, R>(lv, rv, a, b, f) matches Some((_, _, Ok(c)))
            ==> run_spec::<N, Unlimited, R>((), rv, a, b, f) matches Some((_, _, r)) && r == Ok::<
            N::Cmp,
            core::convert::Infallible,
        >(c),
    decreases f,
{
    lemma_main_limited::<N, T, R>(lv, rv, a, b, f);
    if let Some((lv1, rv1, r)) = main_spec::<N, Limited<T>, R>(lv, rv, a, b, f) {
        if continues::<N, crate::basic::modes::LimitReached>(r) {
            let (rv2, nx) = R::spec_next(rv1);
            if let Some((x, y)) = nx {
                if f > 0 {
                    lemma_run_limited::<N, T, R>(lv1, rv2, x, y, (f - 1) as nat);
                }
            }
        }
    }
}

/// Limiting the traversal only aborts it: whenever the limited variation gives a result, the
/// unlimited variation, with the same recursion mode, completes and gives the same result.
pub proof fn lemma_limited_agrees<N: Node, T: Ticker, R: RecurMode<N>>(limit: nat, a: N, b: N)
    requires
        run_outcome::<N, Limited<T>, R>(limit, R::spec_new(), a, b).2 is Ok,
    ensures
        terminates::<N, Unlimited, R>((), R::spec_new(), a, b),
        run_outcome::<N, Unlimited, R>((), R::spec_new(), a, b).2 == Ok::<
            N::Cmp,
            core::convert::Infallible,
        >(run_outcome::<N, Limited<T>, R>(limit, R::spec_new(), a, b).2->Ok_0),
{
    lemma_limited_terminates::<N, T, R>(limit, R::spec_new(), a, b);
    let f = choose|f: nat|
        (#[trigger] run_spec::<N, Limited<T>, R>(limit, R::spec_new(), a, b, f)) is Some;
    lemma_run_limited::<N, T, R>(limit, R::spec_new(), a, b, f);
    lemma_run_outcome_any_fuel::<N, Unlimited, R>((), R::spec_new(), a, b, f);
}

/// The number of pairs of counterparts that the unlimited main logic traverses for `a` and `b`
/// (itself included), with the recursion state `rv` and `fuel` levels of recursion.
pub open spec fn main_visits<N: Node, R: RecurMode<N>>(
    rv: <R as View>::V,
    a: N,
    b: N,
    fuel: nat,
) -> nat
    decreases fuel, 0nat,
{
    if a.spec_id() != b.spec_id() && R::spec_immediate() && fuel > 0 {
        match a.spec_equiv_modulo_descendents_then_amount_edges(&b) {
            Ok(k) => if k != 0 {
                1 + children_visits::<N, R>(rv, a, b, 0, k, (fuel - 1) as nat)
            } else {
                1
            },
            Err(_) => 1,
        }
    } else {
        1
    }
}

/// The number of pairs of counterparts that the unlimited immediate recursion on the edges
/// `i .. k` of `a` and `b` traverses, up to the first result that does not continue.
pub open spec fn children_visits<N: Node, R: RecurMode<N>>(
    rv: <R as View>::V,
    a: N,
    b: N,
    i: usize,
    k: usize,
    fuel: nat,
) -> nat
    decreases fuel, k - i,
{
    if i >= k {
        0
    } else {
        let m = main_visits::<N, R>(rv, a.spec_edge(i), b.spec_edge(i), fuel);
        match main_spec::<N, Unlimited, R>((), rv, a.spec_edge(i), b.spec_edge(i), fuel) {
            Some((_, rv1, r)) => if continues::<N, core::convert::Infallible>(r) {
                m + children_visits::<N, R>(rv1, a, b, (i + 1) as usize, k, fuel)
            } else {
                m
            },
            None => m,
        }
    }
}

/// The number of pairs of counterparts that the whole unlimited algorithm traverses.
pub open spec fn run_visits<N: Node, R: RecurMode<N>>(
    rv: <R as View>::V,
    a: N,
    b: N,
    fuel: nat,
) -> nat
    decreases fuel,
{
    let m = main_visits::<N, R>(rv, a, b, fuel);
    match main_spec::<N, Unlimited, R>((), rv, a, b, fuel) {
        Some((_, rv1, r)) => if continues::<N, core::convert::Infallible>(r) {
            match R::spec_next(rv1).1 {
                Some((x, y)) => if fuel > 0 {
                    m + run_visits::<N, R>(R::spec_next(rv1).0, x, y, (fuel - 1) as nat)
                } else {
                    m
                },
                None => m,
            }
        } else {
            m
        },
        None => m,
    }
}

/// The number of pairs of counterparts that the unlimited algorithm traverses from the start,
/// when it completes.
pub open spec fn pairs_visited<N: Node, R: RecurMode<N>>(a: N, b: N) -> nat {
    run_visits::<N, R>(
        R::spec_new(),
        a,
        b,
        choose|f: nat| (#[trigger] run_spec::<N, Unlimited, R>((), R::spec_new(), a, b, f)) is Some,
    )
}

/// The limited main logic follows the unlimited one, using up one of the limit per pair
/// traversed, and aborts exactly when the limit is less than the pairs to traverse.
proof fn lemma_main_visits<N: Node, T: Ticker, R: RecurMode<N>>(
    lv: nat,
    rv: <R as View>::V,
    a: N,
    b: N,
    f: nat,
)
    ensures
        main_spec::<N, Unlimited, R>((), rv, a, b, f) matches Some((_, rv1, Ok(c))) ==> {
            let m = main_spec::<N, Limited<T>, R>(lv, rv, a, b, f);
            let n = main_visits::<N, R>(rv, a, b, f);
            &&& m is Some
            &&& n <= lv ==> m == Some(((lv - n) as nat, rv1, Ok::<N::Cmp, LimitReached>(c)))
            &&& lv < n ==> m->Some_0.2 == Err::<N::Cmp, LimitReached>(LimitReached)
        },
    decreases f, 0nat,
{
    if lv > 0 && a.spec_id() != b.spec_id() {
        if let Ok(k) = a.spec_equiv_modulo_descendents_then_amount_edges(&b) {
            if k != 0 && R::spec_immediate() && f > 0 {
                lemma_children_visits::<N, T, R>((lv - 1) as nat, rv, a, b, 0, k, (f - 1) as nat);
            }
        }
    }
}

/// The limited immediate recursion on edges follows the unlimited one, using up one of the
/// limit per pair traversed, and aborts exactly when the limit is less than the pairs to
/// traverse.
proof fn lemma_children_visits<N: Node, T: Ticker, R: RecurMode<N>>(
    lv: nat,
    rv: <R as View>::V,
    a: N,
    b: N,
    i: usize,
    k: usize,
    f: nat,
)
    ensures
        children_spec::<N, Unlimited, R>((), rv, a, b, i, k, f) matches Some((_, rv1, Ok(c)))
            ==> {
            let m = children_spec::<N, Limited<T>, R>(lv, rv, a, b, i, k, f);
            let n = children_visits::<N, R>(rv, a, b, i, k, f);
            &&& m is Some
            &&& n <= lv ==> m == Some(((lv - n) as nat, rv1, Ok::<N::Cmp, LimitReached>(c)))
            &&& lv < n ==> m->Some_0.2 == Err::<N::Cmp, LimitReached>(LimitReached)
        },
    decreases f, k - i,
{
    if i < k {
        lemma_main_visits::<N, T, R>(lv, rv, a.spec_edge(i), b.spec_edge(i), f);
        if let Some((_, rv1, Ok(c))) = main_spec::<N, Unlimited, R>(
            (),
            rv,
            a.spec_edge(i),
            b.spec_edge(i),
            f,
        ) {
            let n = main_visits::<N, R>(rv, a.spec_edge(i), b.spec_edge(i), f);
            if n <= lv && c.spec_is_equiv() {
                lemma_children_visits::<N, T, R>(
                    (lv - n) as nat,
                    rv1,
                    a,
                    b,
                    (i + 1) as usize,
                    k,
                    f,
                );
            }
        }
    }
}

/// The limited algorithm follows the unlimited one, and aborts exactly when the limit is less
/// than the pairs to traverse.
proof fn lemma_run_visits<N: Node, T: Ticker, R: RecurMode<N>>(
    lv: nat,
    rv: <R as View>::V,
    a: N,
    b: N,
    f: nat,
)
    ensures
        run_spec::<N, Unlimited, R>((), rv, a, b, f) matches Some((_, _, Ok(c))) ==> {
            let m = run_spec::<N, Limited<T>, R>(lv, rv, a, b, f);
            &&& m is Some
            &&& m->Some_0.2 == if lv < run_visits::<N, R>(rv, a, b, f) {
                Err::<N::Cmp, LimitReached>(LimitReached)
            } else {
                Ok::<N::Cmp, LimitReached>(c)
            }
        },
    decreases f,
{
    lemma_main_visits::<N, T, R>(lv, rv, a, b, f);
    if let Some((_, rv1, Ok(c1))) = main_spec::<N, Unlimited, R>((), rv, a, b, f) {
        let n = main_visits::<N, R>(rv, a, b, f);
        if n <= lv && c1.spec_is_equiv() {
            let (rv2, nx) = R::spec_next(rv1);
            if let Some((x, y)) = nx {
                if f > 0 {
                    lemma_run_visits::<N, T, R>((lv - n) as nat, rv2, x, y, (f - 1) as nat);
                }
            }
        }
    }
}

/// The limit law of the limited variations: where the unlimited variation completes, the
/// limited one with the same recursion mode aborts exactly when its limit is less than the
/// number of pairs of counterparts that the unlimited one traverses, and otherwise gives the
/// same result; where the unlimited one does not complete, the limited one always aborts.
pub proof fn lemma_limit_law<N: Node, T: Ticker, R: RecurMode<N>>(limit: nat, a: N, b: N)
    ensures
        terminates::<N, Unlimited, R>((), R::spec_new(), a, b) ==> run_outcome::<
            N,
            Limited<T>,
            R,
        >(limit, R::spec_new(), a, b).2 == if limit < pairs_visited::<N, R>(a, b) {
            Err::<N::Cmp, LimitReached>(LimitReached)
        } else {
            Ok::<N::Cmp, LimitReached>(
                run_outcome::<N, Unlimited, R>((), R::spec_new(), a, b).2->Ok_0,
            )
        },
        !terminates::<N, Unlimited, R>((), R::spec_new(), a, b) ==> run_outcome::<
            N,
            Limited<T>,
            R,
        >(limit, R::spec_new(), a, b).2 == Err::<N::Cmp, LimitReached>(LimitReached),
{
    lemma_limited_terminates::<N, T, R>(limit, R::spec_new(), a, b);
    if terminates::<N, Unlimited, R>((), R::spec_new(), a, b) {
        let f = choose|f: nat|
            (#[trigger] run_spec::<N, Unlimited, R>((), R::spec_new(), a, b, f)) is Some;
        assert(never_errs::<N, Unlimited>());
        lemma_never_errs_run::<N, Unlimited, R>((), R::spec_new(), a, b, f);
        lemma_run_visits::<N, T, R>(limit, R::spec_new(), a, b, f);
        lemma_run_outcome_any_fuel::<N, Limited<T>, R>(limit, R::spec_new(), a, b, f);
        lemma_run_outcome_any_fuel::<N, Unlimited, R>((), R::spec_new(), a, b, f);
    } else {
        let r = run_outcome::<N, Limited<T>, R>(limit, R::spec_new(), a, b).2;
        if r is Ok {
            lemma_limited_agrees::<N, T, R>(limit, a, b);
        }
        // `LimitReached` has only one value.
        let LimitReached = r->Err_0;
    }
}

/// Whether the path is descended by a complete traversal: at every node before its end, the
/// counterparts have distinct identities, compare equivalent ignoring their descendents, and
/// have the next index among the edges to descend.
pub open spec fn descended<N: Node>(a: N, b: N, path: Seq<usize>) -> bool
    decreases path.len(),
{
    path.len() == 0 || {
        let q = path.drop_last();
        &&& descended(a, b, q)
        &&& at_path(a, q).spec_id() != at_path(b, q).spec_id()
        &&& compares_at(a, b, q) matches Ok(k) && path.last() < k
    }
}

/// The counterparts reached by the path are the same node, or compare equivalent ignoring their
/// descendents.
pub open spec fn equivalent_at<N: Node>(a: N, b: N, path: Seq<usize>) -> bool {
    at_path(a, path).spec_id() == at_path(b, path).spec_id() || match compares_at(a, b, path) {
        Ok(_) => true,
        Err(c) => c.spec_is_equiv(),
    }
}

/// Following a first edge, then the rest of a path.
pub proof fn lemma_at_path_prepend<N: Node>(n: N, i: usize, path: Seq<usize>)
    ensures
        at_path(n, seq![i] + path) == at_path(n.spec_edge(i), path),
    decreases path.len(),
{
    let whole = seq![i] + path;
    if path.len() == 0 {
        assert(whole.drop_last() =~= Seq::<usize>::empty());
        assert(whole.last() == i);
        assert(at_path(n, whole.drop_last()) == n);
    } else {
        assert(whole.drop_last() =~= seq![i] + path.drop_last());
        assert(whole.last() == path.last());
        lemma_at_path_prepend(n, i, path.drop_last());
    }
}

/// A path that starts with a descended edge is descended exactly when its rest is descended from
/// the counterpart edges.
pub proof fn lemma_descended_prepend<N: Node>(a: N, b: N, i: usize, path: Seq<usize>)
    requires
        a.spec_id() != b.spec_id(),
        compares_at(a, b, Seq::empty()) matches Ok(k) && i < k,
    ensures
        descended(a, b, seq![i] + path) == descended(a.spec_edge(i), b.spec_edge(i), path),
        equivalent_at(a, b, seq![i] + path) == equivalent_at(
            a.spec_edge(i),
            b.spec_edge(i),
            path,
        ),
    decreases path.len(),
{
    lemma_at_path_prepend(a, i, path);
    lemma_at_path_prepend(b, i, path);
    if path.len() == 0 {
        assert((seq![i] + path).drop_last() =~= Seq::<usize>::empty());
        assert(descended(a, b, Seq::<usize>::empty()));
    } else {
        let q = path.drop_last();
        assert((seq![i] + path).drop_last() =~= seq![i] + q);
        lemma_descended_prepend(a, b, i, q);
        lemma_at_path_prepend(a, i, q);
        lemma_at_path_prepend(b, i, q);
    }
}

/// With immediate recursion and no limit, an equivalent result of the main logic means that
/// every descended path reaches counterparts that are equivalent.
pub proof fn lemma_main_complete<N: Node, R: RecurMode<N>>(rv: <R as View>::V, x: N, y: N, fuel: nat)
    requires
        R::spec_immediate(),
    ensures
        main_spec::<N, Unlimited, R>((), rv, x, y, fuel) matches Some((_, rv1, r)) ==> rv1 == rv && (
        r matches Ok(c) ==> (c.spec_is_equiv() ==> forall|p: Seq<usize>| #[trigger]
            descended(x, y, p) ==> equivalent_at(x, y, p))),
    decreases fuel, 0nat,
{
    if let Some((_, rv1, r)) = main_spec::<N, Unlimited, R>((), rv, x, y, fuel) {
        if let Ok(c) = r {
            if c.spec_is_equiv() {
                assert forall|p: Seq<usize>| #[trigger] descended(x, y, p) implies equivalent_at(
                    x,
                    y,
                    p,
                ) by {
                    if p.len() == 0 {
                        assert(at_path(x, p) == x);
                        assert(at_path(y, p) == y);
                    } else {
                        lemma_descended_first::<N>(x, y, p);
                        let i = p[0];
                        let rest = p.subrange(1, p.len() as int);
                        assert(p =~= seq![i] + rest);
                        if let Ok(k) = x.spec_equiv_modulo_descendents_then_amount_edges(&y) {
                            lemma_children_complete::<N, R>(rv, x, y, 0, k, (fuel - 1) as nat);
                            lemma_descended_prepend(x, y, i, rest);
                        }
                    }
                }
            }
        }
        if x.spec_id() != y.spec_id() {
            if let Ok(k) = x.spec_equiv_modulo_descendents_then_amount_edges(&y) {
                if k != 0 {
                    lemma_children_complete::<N, R>(rv, x, y, 0, k, (fuel - 1) as nat);
                }
            }
        }
    }
}

/// The first step of a descended path is a descended edge.
pub proof fn lemma_descended_first<N: Node>(a: N, b: N, path: Seq<usize>)
    requires
        descended(a, b, path),
        path.len() > 0,
    ensures
        a.spec_id() != b.spec_id(),
        compares_at(a, b, Seq::empty()) matches Ok(k) && path[0] < k,
    decreases path.len(),
{
    if path.len() > 1 {
        lemma_descended_first(a, b, path.drop_last());
    } else {
        assert(path.drop_last() =~= Seq::<usize>::empty());
    }
}

/// With immediate recursion and no limit, an equivalent result of the recursion on the edges
/// `i .. k` means that each of those edges gave an equivalent result of the main logic.
pub proof fn lemma_children_complete<N: Node, R: RecurMode<N>>(
    rv: <R as View>::V,
    x: N,
    y: N,
    i: usize,
    k: usize,
    fuel: nat,
)
    requires
        R::spec_immediate(),
    ensures
        children_spec::<N, Unlimited, R>((), rv, x, y, i, k, fuel) matches Some((_, rv1, r)) ==> rv1
            == rv && (r matches Ok(c) ==> (c.spec_is_equiv() ==> forall|j: usize, p: Seq<usize>|
            i <= j < k && #[trigger] descended(x.spec_edge(j), y.spec_edge(j), p) ==> equivalent_at(
                x.spec_edge(j),
                y.spec_edge(j),
                p,
            ))),
    decreases fuel, k - i,
{
    if i < k {
        lemma_main_complete::<N, R>(rv, x.spec_edge(i), y.spec_edge(i), fuel);
        if let Some((_, rv1, r)) = main_spec::<N, Unlimited, R>(
            (),
            rv,
            x.spec_edge(i),
            y.spec_edge(i),
            fuel,
        ) {
            if continues::<N, core::convert::Infallible>(r) {
                lemma_children_complete::<N, R>(rv1, x, y, (i + 1) as usize, k, fuel);
            }
        }
    }
}

/// [`lemma_complete_equivalence`] with immediate recursion.
proof fn lemma_complete_equivalence_immediate<N: Node, R: RecurMode<N>>(a: N, b: N)
    requires
        R::spec_immediate(),
        terminates::<N, Unlimited, R>((), R::spec_new(), a, b),
    ensures
        run_outcome::<N, Unlimited, R>((), R::spec_new(), a, b).2 matches Ok(c) ==> (
        c.spec_is_equiv() ==> forall|p: Seq<usize>| #[trigger]
            descended(a, b, p) ==> equivalent_at(a, b, p)),
{
    let f = choose|f: nat| (#[trigger] run_spec::<N, Unlimited, R>((), R::spec_new(), a, b, f)) is Some;
    lemma_main_complete::<N, R>(R::spec_new(), a, b, f);
    lemma_new_gives_nothing::<N, R>();
}

/// Every descended path from the counterparts reaches counterparts that are the same node or
/// compare equivalent, ignoring their descendents.
pub open spec fn all_equivalent<N: Node>(x: N, y: N) -> bool {
    forall|p: Seq<usize>| #[trigger] descended(x, y, p) ==> equivalent_at(x, y, p)
}

/// [`all_equivalent`], as a property of pairs of counterparts.
pub open spec fn all_equivalent_fn<N: Node>() -> spec_fn(N, N) -> bool {
    |x: N, y: N| all_equivalent(x, y)
}

/// Counterparts that are the same node, or that compare inequivalent (ignoring descendents) or
/// have no edges to descend, have only the empty path descended.
pub proof fn lemma_no_descent<N: Node>(x: N, y: N)
    requires
        x.spec_id() == y.spec_id() || x.spec_equiv_modulo_descendents_then_amount_edges(&y) is Err
            || x.spec_equiv_modulo_descendents_then_amount_edges(&y) == Ok::<usize, N::Cmp>(0),
    ensures
        forall|p: Seq<usize>| #[trigger] descended(x, y, p) ==> p.len() == 0,
{
    assert forall|p: Seq<usize>| #[trigger] descended(x, y, p) implies p.len() == 0 by {
        if p.len() > 0 {
            lemma_descended_first(x, y, p);
        }
    }
}

/// Counterparts that compare equivalent, ignoring descendents, and all of whose descended edges
/// have [`all_equivalent`], have it too.
pub proof fn lemma_all_equivalent_from_edges<N: Node>(x: N, y: N, k: usize)
    requires
        x.spec_id() != y.spec_id(),
        x.spec_equiv_modulo_descendents_then_amount_edges(&y) == Ok::<usize, N::Cmp>(k),
        forall|j: usize| j < k ==> #[trigger] all_equivalent(x.spec_edge(j), y.spec_edge(j)),
    ensures
        all_equivalent(x, y),
{
    assert forall|p: Seq<usize>| #[trigger] descended(x, y, p) implies equivalent_at(x, y, p) by {
        if p.len() == 0 {
            assert(at_path(x, p) == x);
            assert(at_path(y, p) == y);
        } else {
            lemma_descended_first(x, y, p);
            let i = p[0];
            let rest = p.subrange(1, p.len() as int);
            assert(p =~= seq![i] + rest);
            lemma_descended_prepend(x, y, i, rest);
            assert(all_equivalent(x.spec_edge(i), y.spec_edge(i)));
            assert(descended(x.spec_edge(i), y.spec_edge(i), rest));
        }
    }
}

/// With recursion that saves edges and no limit, where an equivalent result of the main logic
/// leaves only [`all_equivalent`] counterparts pending, the counterparts have it too, and so
/// has everything that was pending before.
pub proof fn lemma_main_complete_saved<N: Node, R: RecurMode<N>>(
    rv: <R as View>::V,
    x: N,
    y: N,
    fuel: nat,
)
    requires
        !R::spec_immediate(),
    ensures
        main_spec::<N, Unlimited, R>((), rv, x, y, fuel) matches Some((_, rv1, r)) ==> (
        (R::spec_all_saved(rv, has_edges()) ==> R::spec_all_saved(rv1, has_edges())) && (
        r matches Ok(c) ==> (c.spec_is_equiv() && R::spec_all_pending(rv1, all_equivalent_fn())
            ==> all_equivalent(x, y) && R::spec_all_pending(rv, all_equivalent_fn())))),
{
    let g = all_equivalent_fn::<N>();
    match x.spec_equiv_modulo_descendents_then_amount_edges(&y) {
        Ok(k) => {
            if x.spec_id() != y.spec_id() && k != 0 {
                let e: EdgesView<N> = (x, y, 0usize, k);
                R::lemma_saved(rv, e, has_edges());
                R::lemma_pending(rv, e, g);
                if R::spec_all_pending(R::spec_save(rv, e), g) {
                    assert forall|j: usize| j < k implies #[trigger] all_equivalent(
                        x.spec_edge(j),
                        y.spec_edge(j),
                    ) by {
                        assert(edges_all(e, g));
                        assert(e.2 <= j < e.3);
                        assert(g(e.0.spec_edge(j), e.1.spec_edge(j)));
                        assert(e.0 == x && e.1 == y);
                    }
                    lemma_all_equivalent_from_edges(x, y, k);
                }
            } else {
                lemma_no_descent(x, y);
                assert(at_path(x, Seq::<usize>::empty()) == x);
                assert(at_path(y, Seq::<usize>::empty()) == y);
            }
        },
        Err(c) => {
            lemma_no_descent(x, y);
            assert(at_path(x, Seq::<usize>::empty()) == x);
            assert(at_path(y, Seq::<usize>::empty()) == y);
        },
    }
}

/// With recursion that saves edges and no limit, an equivalent result of the whole algorithm
/// means that the counterparts, and everything that was pending, have [`all_equivalent`].
pub proof fn lemma_run_complete_saved<N: Node, R: RecurMode<N>>(
    rv: <R as View>::V,
    x: N,
    y: N,
    fuel: nat,
)
    requires
        !R::spec_immediate(),
        R::spec_all_saved(rv, has_edges()),
    ensures
        run_spec::<N, Unlimited, R>((), rv, x, y, fuel) matches Some((_, _, r)) ==> (r matches Ok(
            c,
        ) ==> (c.spec_is_equiv() ==> all_equivalent(x, y) && R::spec_all_pending(
            rv,
            all_equivalent_fn(),
        ))),
    decreases fuel,
{
    let g = all_equivalent_fn::<N>();
    lemma_main_complete_saved::<N, R>(rv, x, y, fuel);
    if let Some((_, rv1, r)) = main_spec::<N, Unlimited, R>((), rv, x, y, fuel) {
        if continues::<N, core::convert::Infallible>(r) {
            let (rv2, nx) = R::spec_next(rv1);
            R::lemma_pending(rv1, (x, y, 0usize, 0usize), g);
            if let Some((x2, y2)) = nx {
                if fuel > 0 {
                    lemma_run_complete_saved::<N, R>(rv2, x2, y2, (fuel - 1) as nat);
                }
            }
        }
    }
}

/// A complete traversal decides equivalence: with no limit and either recursion mode
/// (immediate, or saving edges for later), the result is equivalent exactly when every
/// descended path reaches counterparts that are the same node or compare equivalent, ignoring
/// their descendents.
pub proof fn lemma_complete_equivalence<N: Node, R: RecurMode<N>>(a: N, b: N)
    requires
        terminates::<N, Unlimited, R>((), R::spec_new(), a, b),
    ensures
        run_outcome::<N, Unlimited, R>((), R::spec_new(), a, b).2 matches Ok(c) ==> (
        c.spec_is_equiv() <==> all_equivalent(a, b)),
{
    lemma_inequivalence_is_witnessed::<N, Unlimited, R>((), a, b);
    if R::spec_immediate() {
        lemma_complete_equivalence_immediate::<N, R>(a, b);
    } else {
        let f = choose|f: nat|
            (#[trigger] run_spec::<N, Unlimited, R>((), R::spec_new(), a, b, f)) is Some;
        R::lemma_saved(R::spec_new(), (a, b, 0usize, 0usize), has_edges());
        lemma_run_complete_saved::<N, R>(R::spec_new(), a, b, f);
    }
}

/// Every descended path from the counterparts is shorter than `depth`.
pub open spec fn depth_bounded<N: Node>(a: N, b: N, depth: nat) -> bool {
    forall|p: Seq<usize>| #[trigger] descended(a, b, p) ==> p.len() < depth
}

/// With immediate recursion, whatever the descend mode, the main logic completes on
/// counterparts whose descended paths are shorter than one more than the fuel.
pub proof fn lemma_main_bounded<N: Node, D: DescendMode<N>, R: RecurMode<N>>(
    dv: <D as View>::V,
    rv: <R as View>::V,
    x: N,
    y: N,
    fuel: nat,
)
    requires
        R::spec_immediate(),
        depth_bounded(x, y, fuel + 1),
    ensures
        main_spec::<N, D, R>(dv, rv, x, y, fuel) is Some,
    decreases fuel, 0nat,
{
    let (dv1, t) = D::spec_do_traverse(dv);
    if x.spec_id() != y.spec_id() {
        if let Ok(k) = x.spec_equiv_modulo_descendents_then_amount_edges(&y) {
            if k != 0 {
                if fuel == 0 {
                    let p = seq![0usize];
                    assert(p.drop_last() =~= Seq::<usize>::empty());
                    assert(at_path(x, Seq::<usize>::empty()) == x);
                    assert(at_path(y, Seq::<usize>::empty()) == y);
                    assert(descended(x, y, Seq::<usize>::empty()));
                    assert(descended(x, y, p));
                } else {
                    let (dv2, e) = D::spec_do_edges(dv1, x, y);
                    lemma_children_bounded::<N, D, R>(dv2, rv, x, y, 0, k, (fuel - 1) as nat);
                }
            }
        }
    }
}

/// With immediate recursion, whatever the descend mode, the recursion on the edges `i .. k`
/// completes when the descended paths from the counterparts are shorter than two more than the
/// fuel.
pub proof fn lemma_children_bounded<N: Node, D: DescendMode<N>, R: RecurMode<N>>(
    dv: <D as View>::V,
    rv: <R as View>::V,
    x: N,
    y: N,
    i: usize,
    k: usize,
    fuel: nat,
)
    requires
        R::spec_immediate(),
        x.spec_id() != y.spec_id(),
        x.spec_equiv_modulo_descendents_then_amount_edges(&y) == Ok::<usize, N::Cmp>(k),
        depth_bounded(x, y, fuel + 2),
    ensures
        children_spec::<N, D, R>(dv, rv, x, y, i, k, fuel) is Some,
    decreases fuel, k - i,
{
    if i < k {
        assert(at_path(x, Seq::<usize>::empty()) == x);
        assert(at_path(y, Seq::<usize>::empty()) == y);
        assert forall|p: Seq<usize>| #[trigger] descended(x.spec_edge(i), y.spec_edge(i), p) implies p.len()
            < fuel + 1 by {
            lemma_descended_prepend(x, y, i, p);
            assert(descended(x, y, seq![i] + p));
        }
        lemma_main_bounded::<N, D, R>(dv, rv, x.spec_edge(i), y.spec_edge(i), fuel);
        if let Some((dv1, rv1, r)) = main_spec::<N, D, R>(
            dv,
            rv,
            x.spec_edge(i),
            y.spec_edge(i),
            fuel,
        ) {
            if continues::<N, D::Error>(r) {
                lemma_children_bounded::<N, D, R>(dv1, rv1, x, y, (i + 1) as usize, k, fuel);
            }
        }
    }
}

/// Every variation, whatever its descend mode, the state it starts from, and its recursion
/// mode (immediate, such as [`crate::basic::equiv`] and [`crate::cycle_safe::equiv`], or saving
/// edges in a stack or a queue, such as [`crate::wide_safe::equiv`], [`crate::deep_safe::equiv`]
/// and [`crate::robust::equiv`]), completes on counterparts whose descended paths are all
/// shorter than some bound, as they are in finite acyclic graphs.
pub proof fn lemma_bounded_depth_terminates<N: Node, D: DescendMode<N>, R: RecurMode<N>>(
    dv: <D as View>::V,
    a: N,
    b: N,
    depth: nat,
)
    requires
        depth_bounded(a, b, depth),
    ensures
        terminates::<N, D, R>(dv, R::spec_new(), a, b),
{
    assert(at_path(a, Seq::<usize>::empty()) == a);
    assert(descended(a, b, Seq::<usize>::empty()));
    if R::spec_immediate() {
        lemma_main_bounded::<N, D, R>(dv, R::spec_new(), a, b, (depth - 1) as nat);
        lemma_main_keeps::<N, D, R>(dv, R::spec_new(), a, b, (depth - 1) as nat);
        lemma_new_gives_nothing::<N, R>();
        assert(run_spec::<N, D, R>(dv, R::spec_new(), a, b, (depth - 1) as nat) is Some);
    } else {
        let e0: EdgesView<N> = (a, b, 0usize, 0usize);
        let w = |x: N, y: N| tree_weight(x, y, depth);
        R::lemma_weight(R::spec_new(), e0, w);
        R::lemma_saved(R::spec_new(), e0, has_edges());
        R::lemma_saved(R::spec_new(), e0, bounded_view(depth));
        let f = tree_weight(a, b, depth);
        lemma_run_weight::<N, D, R>(dv, R::spec_new(), a, b, depth, f);
        assert(run_spec::<N, D, R>(dv, R::spec_new(), a, b, f) is Some);
    }
}

/// Errors abort: where the descend mode gives an error on traversing the counterparts, or on
/// deciding to descend the edges of distinct counterparts that compare equivalent ignoring
/// their descendents with some edges, the main logic gives that error, with the recursion
/// state unchanged, and so does the whole algorithm, which completes with it.
pub proof fn lemma_errors_abort<N: Node, D: DescendMode<N>, R: RecurMode<N>>(
    dv: <D as View>::V,
    rv: <R as View>::V,
    a: N,
    b: N,
    fuel: nat,
)
    ensures
        D::spec_do_traverse(dv).1 matches Err(e) ==> main_spec::<N, D, R>(dv, rv, a, b, fuel)
            == Some::<Outcome<N, D, R>>((D::spec_do_traverse(dv).0, rv, Err(e))),
        ({
            let (dv1, t) = D::spec_do_traverse(dv);
            let (dv2, d) = D::spec_do_edges(dv1, a, b);
            &&& t == Ok::<bool, D::Error>(true)
            &&& a.spec_id() != b.spec_id()
            &&& a.spec_equiv_modulo_descendents_then_amount_edges(&b) matches Ok(k)
            &&& k > 0
            &&& d matches Err(e)
        }) ==> ({
            let (dv1, t) = D::spec_do_traverse(dv);
            let (dv2, d) = D::spec_do_edges(dv1, a, b);
            main_spec::<N, D, R>(dv, rv, a, b, fuel) == Some::<Outcome<N, D, R>>(
                (dv2, rv, Err(d->Err_0)),
            )
        }),
        main_spec::<N, D, R>(dv, rv, a, b, fuel) matches Some((dv3, rv3, Err(e))) ==> run_spec::<
            N,
            D,
            R,
        >(dv, rv, a, b, fuel) == Some::<Outcome<N, D, R>>((dv3, rv3, Err(e))) && terminates::<
            N,
            D,
            R,
        >(dv, rv, a, b) && run_outcome::<N, D, R>(dv, rv, a, b).2 == Err::<N::Cmp, D::Error>(e),
{
    if main_spec::<N, D, R>(dv, rv, a, b, fuel) matches Some((_, _, Err(_))) {
        lemma_run_outcome_any_fuel::<N, D, R>(dv, rv, a, b, fuel);
    }
}

/// On graphs whose descended paths are bounded, as finite acyclic graphs, the complete
/// traversals with any two recursion modes (on the call-stack, with a stack, or with a queue)
/// both complete, both give a result, and agree on whether the graphs are equivalent.
pub proof fn lemma_complete_traversals_agree<N: Node, R1: RecurMode<N>, R2: RecurMode<N>>(
    a: N,
    b: N,
    depth: nat,
)
    requires
        depth_bounded(a, b, depth),
    ensures
        terminates::<N, Unlimited, R1>((), R1::spec_new(), a, b),
        terminates::<N, Unlimited, R2>((), R2::spec_new(), a, b),
        run_outcome::<N, Unlimited, R1>((), R1::spec_new(), a, b).2 is Ok,
        run_outcome::<N, Unlimited, R2>((), R2::spec_new(), a, b).2 is Ok,
        run_outcome::<N, Unlimited, R1>((), R1::spec_new(), a, b).2->Ok_0.spec_is_equiv()
            <==> run_outcome::<N, Unlimited, R2>((), R2::spec_new(), a, b).2->Ok_0.spec_is_equiv(),
{
    assert(never_errs::<N, Unlimited>());
    lemma_bounded_depth_terminates::<N, Unlimited, R1>((), a, b, depth);
    lemma_bounded_depth_terminates::<N, Unlimited, R2>((), a, b, depth);
    lemma_never_errs_outcome::<N, Unlimited, R1>((), R1::spec_new(), a, b);
    lemma_never_errs_outcome::<N, Unlimited, R2>((), R2::spec_new(), a, b);
    lemma_complete_equivalence::<N, R1>(a, b);
    lemma_complete_equivalence::<N, R2>(a, b);
}

/// How many pairs of counterparts a complete traversal compares from `x` and `y`, when their
/// descended paths are shorter than `d`: one, and those of the descended edges.
pub open spec fn tree_weight<N: Node>(x: N, y: N, d: nat) -> nat
    decreases d, 0nat, 0nat,
{
    if d == 0 || x.spec_id() == y.spec_id() {
        1
    } else {
        match x.spec_equiv_modulo_descendents_then_amount_edges(&y) {
            Ok(k) => 1 + edges_tree_weight(x, y, 0, k, (d - 1) as nat),
            Err(_) => 1,
        }
    }
}

/// [`tree_weight`] of the counterpart edges `i .. k`, summed.
pub open spec fn edges_tree_weight<N: Node>(x: N, y: N, i: usize, k: usize, d: nat) -> nat
    decreases d, 1nat, k - i,
{
    if i < k {
        tree_weight(x.spec_edge(i), y.spec_edge(i), d) + edges_tree_weight(
            x,
            y,
            (i + 1) as usize,
            k,
            d,
        )
    } else {
        0
    }
}

/// The counterpart edge of counterparts whose descended paths are shorter than `d` has
/// descended paths shorter than one less.
pub proof fn lemma_depth_bounded_edge<N: Node>(x: N, y: N, i: usize, d: nat)
    requires
        depth_bounded(x, y, d),
        x.spec_id() != y.spec_id(),
        x.spec_equiv_modulo_descendents_then_amount_edges(&y) matches Ok(k) && i < k,
    ensures
        d >= 2,
        depth_bounded(x.spec_edge(i), y.spec_edge(i), (d - 1) as nat),
{
    assert(at_path(x, Seq::<usize>::empty()) == x);
    assert(at_path(y, Seq::<usize>::empty()) == y);
    lemma_descended_prepend(x, y, i, Seq::<usize>::empty());
    assert(seq![i] =~= seq![i] + Seq::<usize>::empty());
    assert(descended(x, y, seq![i]));
    assert forall|p: Seq<usize>| #[trigger] descended(x.spec_edge(i), y.spec_edge(i), p) implies p.len()
        < d - 1 by {
        lemma_descended_prepend(x, y, i, p);
        assert(descended(x, y, seq![i] + p));
    }
}

/// A bound on the descended paths also holds when it is raised.
pub proof fn lemma_depth_bounded_more<N: Node>(x: N, y: N, d: nat, d2: nat)
    requires
        depth_bounded(x, y, d),
        d <= d2,
    ensures
        depth_bounded(x, y, d2),
{
}

/// The weight does not change when the bound is raised above the lengths of the descended
/// paths.
pub proof fn lemma_tree_weight_stable<N: Node>(x: N, y: N, d: nat, d2: nat)
    requires
        depth_bounded(x, y, d),
        d <= d2,
    ensures
        tree_weight(x, y, d) == tree_weight(x, y, d2),
    decreases d, 1nat, 0nat,
{
    assert(descended(x, y, Seq::<usize>::empty()));
    if x.spec_id() != y.spec_id() {
        if let Ok(k) = x.spec_equiv_modulo_descendents_then_amount_edges(&y) {
            lemma_edges_tree_weight_stable(x, y, 0, k, d, d2);
        }
    }
}

/// [`lemma_tree_weight_stable`] for the edges `i .. k`, with the bounds one less.
pub proof fn lemma_edges_tree_weight_stable<N: Node>(
    x: N,
    y: N,
    i: usize,
    k: usize,
    d: nat,
    d2: nat,
)
    requires
        depth_bounded(x, y, d),
        d <= d2,
        d >= 1,
        x.spec_id() != y.spec_id(),
        x.spec_equiv_modulo_descendents_then_amount_edges(&y) == Ok::<usize, N::Cmp>(k),
    ensures
        edges_tree_weight(x, y, i, k, (d - 1) as nat) == edges_tree_weight(
            x,
            y,
            i,
            k,
            (d2 - 1) as nat,
        ),
    decreases d, 0nat, k - i,
{
    if i < k {
        lemma_depth_bounded_edge(x, y, i, d);
        lemma_tree_weight_stable(x.spec_edge(i), y.spec_edge(i), (d - 1) as nat, (d2 - 1) as nat);
        lemma_edges_tree_weight_stable(x, y, (i + 1) as usize, k, d, d2);
    }
}

/// Every pair of counterpart edges of the edges view below its end has descended paths shorter
/// than `d`.
pub open spec fn bounded_view<N: Node>(d: nat) -> spec_fn(EdgesView<N>) -> bool {
    |e: EdgesView<N>|
        forall|j: usize| j < e.3 ==> #[trigger] depth_bounded(e.0.spec_edge(j), e.1.spec_edge(j), d)
}

/// The weight of the edges `i .. k` of bounded counterparts, each weighed with the same bound,
/// is their [`edges_tree_weight`].
pub proof fn lemma_view_tree_weight<N: Node>(x: N, y: N, i: usize, k: usize, d: nat)
    requires
        depth_bounded(x, y, d),
        x.spec_id() != y.spec_id(),
        x.spec_equiv_modulo_descendents_then_amount_edges(&y) == Ok::<usize, N::Cmp>(k),
    ensures
        view_weight((x, y, i, k), |a: N, b: N| tree_weight(a, b, d)) == edges_tree_weight(
            x,
            y,
            i,
            k,
            (d - 1) as nat,
        ),
    decreases k - i,
{
    if i < k {
        lemma_depth_bounded_edge(x, y, i, d);
        lemma_tree_weight_stable(x.spec_edge(i), y.spec_edge(i), (d - 1) as nat, d);
        lemma_view_tree_weight(x, y, (i + 1) as usize, k, d);
    }
}

/// With recursion that saves edges, whatever the descend mode, the main logic on counterparts
/// whose descended paths are shorter than `d` completes, saves only views that have edges left
/// and whose pairs are bounded the same, and adds less weight than the counterparts have.
pub proof fn lemma_main_weight<N: Node, D: DescendMode<N>, R: RecurMode<N>>(
    dv: <D as View>::V,
    rv: <R as View>::V,
    x: N,
    y: N,
    d: nat,
    fuel: nat,
)
    requires
        !R::spec_immediate(),
        R::spec_all_saved(rv, has_edges()),
        R::spec_all_saved(rv, bounded_view(d)),
        depth_bounded(x, y, d),
    ensures
        main_spec::<N, D, R>(dv, rv, x, y, fuel) matches Some((_, rv1, _)) && R::spec_all_saved(
            rv1,
            has_edges(),
        ) && R::spec_all_saved(rv1, bounded_view(d)) && R::spec_weight(
            rv1,
            |a: N, b: N| tree_weight(a, b, d),
        ) + 1 <= R::spec_weight(rv, |a: N, b: N| tree_weight(a, b, d)) + tree_weight(x, y, d),
{
    let w = |a: N, b: N| tree_weight(a, b, d);
    let bv = bounded_view::<N>(d);
    let (dv1, t) = D::spec_do_traverse(dv);
    assert(descended(x, y, Seq::<usize>::empty()));
    assert(at_path(x, Seq::<usize>::empty()) == x);
    assert(at_path(y, Seq::<usize>::empty()) == y);
    if let Ok(true) = t {
        if x.spec_id() != y.spec_id() {
            if let Ok(k) = x.spec_equiv_modulo_descendents_then_amount_edges(&y) {
                if k != 0 {
                    let (dv2, e) = D::spec_do_edges(dv1, x, y);
                    if let Ok(true) = e {
                        let ev: EdgesView<N> = (x, y, 0usize, k);
                        R::lemma_saved(rv, ev, has_edges());
                        assert forall|j: usize| j < ev.3 implies #[trigger] depth_bounded(
                            ev.0.spec_edge(j),
                            ev.1.spec_edge(j),
                            d,
                        ) by {
                            lemma_depth_bounded_edge(x, y, j, d);
                            lemma_depth_bounded_more(x.spec_edge(j), y.spec_edge(j), (d - 1) as nat, d);
                        }
                        assert(bv(ev));
                        R::lemma_saved(rv, ev, bv);
                        R::lemma_weight(rv, ev, w);
                        lemma_view_tree_weight(x, y, 0, k, d);
                    }
                }
            }
        }
    }
}

/// With recursion that saves edges, whatever the descend mode, the whole algorithm completes
/// with fuel at least the weight of what is pending and of the counterparts, when all of them
/// have descended paths shorter than `d`.
pub proof fn lemma_run_weight<N: Node, D: DescendMode<N>, R: RecurMode<N>>(
    dv: <D as View>::V,
    rv: <R as View>::V,
    x: N,
    y: N,
    d: nat,
    fuel: nat,
)
    requires
        !R::spec_immediate(),
        R::spec_all_saved(rv, has_edges()),
        R::spec_all_saved(rv, bounded_view(d)),
        depth_bounded(x, y, d),
        fuel >= R::spec_weight(rv, |a: N, b: N| tree_weight(a, b, d)) + tree_weight(x, y, d),
    ensures
        run_spec::<N, D, R>(dv, rv, x, y, fuel) is Some,
    decreases fuel,
{
    let w = |a: N, b: N| tree_weight(a, b, d);
    lemma_main_weight::<N, D, R>(dv, rv, x, y, d, fuel);
    let (dv3, rv1, r) = main_spec::<N, D, R>(dv, rv, x, y, fuel)->Some_0;
    if continues::<N, D::Error>(r) {
        let (rv2, nx) = R::spec_next(rv1);
        if let Some((x2, y2)) = nx {
            lemma_next_weight::<N, R>(rv1, d);
            lemma_run_weight::<N, D, R>(dv3, rv2, x2, y2, d, (fuel - 1) as nat);
        }
    }
}

/// With recursion that saves edges, where every view held has edges left and pairs with
/// descended paths shorter than `d`, the next pair given back is such a pair, the views still
/// held are such views, and the weight goes down by that of the pair.
pub proof fn lemma_next_weight<N: Node, R: RecurMode<N>>(rv: <R as View>::V, d: nat)
    requires
        R::spec_all_saved(rv, has_edges()),
        R::spec_all_saved(rv, bounded_view(d)),
    ensures
        R::spec_next(rv).1 matches Some((x2, y2)) ==> depth_bounded(x2, y2, d) && R::spec_all_saved(
            R::spec_next(rv).0,
            has_edges(),
        ) && R::spec_all_saved(R::spec_next(rv).0, bounded_view(d)) && R::spec_weight(
            R::spec_next(rv).0,
            |a: N, b: N| tree_weight(a, b, d),
        ) + tree_weight(x2, y2, d) == R::spec_weight(rv, |a: N, b: N| tree_weight(a, b, d)),
{
    let w = |a: N, b: N| tree_weight(a, b, d);
    let bv = bounded_view::<N>(d);
    let some: N = arbitrary();
    let e0: EdgesView<N> = (some, some, 0usize, 0usize);
    if let Some((x2, y2)) = R::spec_next(rv).1 {
        R::lemma_weight(rv, e0, w);
        R::lemma_pending(rv, e0, |a: N, b: N| true);
        assert(advance_keeps(bv)) by {
            assert forall|e: EdgesView<N>| #[trigger] bv(e) implies bv(
                (e.0, e.1, (e.2 + 1) as usize, e.3),
            ) by {
            }
        }
        R::lemma_saved(rv, e0, bv);
        assert(from_saved(bv, x2, y2));
        let ee = choose|ee: EdgesView<N>|
            #[trigger] bv(ee) && ee.2 < ee.3 && x2 == ee.0.spec_edge(ee.2) && y2
                == ee.1.spec_edge(ee.2);
        assert(depth_bounded(ee.0.spec_edge(ee.2), ee.1.spec_edge(ee.2), d));
    }
}

} // verus!
