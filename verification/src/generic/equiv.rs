use vstd::prelude::*;

use crate::like_unstable::RangeIter;
use crate::{Cmp, Node};

verus! {

/// The view of an [`EdgesIter`]: the counterpart nodes, the next index, and the end index.
pub type EdgesView<N> = (N, N, usize, usize);

/// Get edges lazily, in increasing-index order.
pub struct EdgesIter<N: Node> {
    /// The pair of nodes whose edges are yielded.
    pub counterparts: (N, N),
    /// The indices still to yield.
    pub index_iter: RangeIter,
}

impl<N: Node> View for EdgesIter<N> {
    type V = EdgesView<N>;

    open spec fn view(&self) -> EdgesView<N> {
        (self.counterparts.0, self.counterparts.1, self.index_iter.start, self.index_iter.end)
    }
}

/// Every index still to yield is valid for both counterparts.
pub open spec fn edges_view_inv<N: Node>(e: EdgesView<N>) -> bool {
    e.3 <= e.0.spec_amount_edges() && e.3 <= e.1.spec_amount_edges()
}

/// What an [`EdgesIter`] yields next, and how it advances.
pub open spec fn spec_edges_next<N: Node>(e: EdgesView<N>) -> (EdgesView<N>, Option<(N, N)>) {
    if e.2 < e.3 {
        ((e.0, e.1, (e.2 + 1) as usize, e.3), Some((e.0.spec_edge(e.2), e.1.spec_edge(e.2))))
    } else {
        (e, None)
    }
}

impl<N: Node> EdgesIter<N> {
    /// Every index still to yield is valid for both counterparts.
    pub open spec fn inv(&self) -> bool {
        edges_view_inv(self@)
    }

    /// Prepare to get `amount` edges from `counterparts`.  It is valid, so that `next` can be
    /// called, exactly when `amount` is at most the amount of edges of each counterpart.
    pub fn new(amount: usize, counterparts: (N, N)) -> (r: Self)
        ensures
            r@ == (counterparts.0, counterparts.1, 0usize, amount),
            r.inv() <==> (amount <= counterparts.0.spec_amount_edges() && amount
                <= counterparts.1.spec_amount_edges()),
    {
        EdgesIter { counterparts, index_iter: RangeIter::from(0, amount) }
    }

    /// Returns `true` if the iterator is empty.
    pub fn is_empty(&self) -> (r: bool)
        ensures
            r == (self@.2 >= self@.3),
    {
        self.index_iter.is_empty()
    }

    /// Get the next pair of counterpart edges, if any remain.
    pub fn next(&mut self) -> (r: Option<(N, N)>)
        requires
            old(self).inv(),
        ensures
            final(self).inv(),
            (final(self)@, r) == spec_edges_next(old(self)@),
    {
        match self.index_iter.next() {
            Some(i) => {
                let a = self.counterparts.0.get_edge(&i);
                let b = self.counterparts.1.get_edge(&i);
                Some((a, b))
            },
            None => None,
        }
    }
}

/// The pairs of counterpart edges that an [`EdgesIter`] with the view `e` has still to yield,
/// in increasing index order.
pub open spec fn remaining_edges<N: Node>(e: EdgesView<N>) -> Seq<(N, N)> {
    Seq::new(
        (if e.2 < e.3 {
            e.3 - e.2
        } else {
            0
        }) as nat,
        |j: int| (e.0.spec_edge((e.2 + j) as usize), e.1.spec_edge((e.2 + j) as usize)),
    )
}

/// The view of an [`EdgesIter`] with the view `e` after `k` calls of `next`.
pub open spec fn edges_after<N: Node>(e: EdgesView<N>, k: nat) -> EdgesView<N>
    decreases k,
{
    if k == 0 {
        e
    } else {
        edges_after(spec_edges_next(e).0, (k - 1) as nat)
    }
}

/// What `k` calls of `next` on an [`EdgesIter`] with the view `e` return, in order.
pub open spec fn edges_yields<N: Node>(e: EdgesView<N>, k: nat) -> Seq<Option<(N, N)>>
    decreases k,
{
    if k == 0 {
        Seq::empty()
    } else {
        seq![spec_edges_next(e).1] + edges_yields(spec_edges_next(e).0, (k - 1) as nat)
    }
}

/// The iteration order of [`EdgesIter`]: `k` calls of `next` return the pairs of counterpart
/// edges at increasing indices from the next index, then `None` once they are all yielded,
/// and the iterator is empty exactly from then on.
pub proof fn lemma_edges_iter_order<N: Node>(e: EdgesView<N>, k: nat)
    ensures
        edges_yields(e, k).len() == k,
        forall|j: int|
            0 <= j < k ==> #[trigger] edges_yields(e, k)[j] == if e.2 + j < e.3 {
                Some((e.0.spec_edge((e.2 + j) as usize), e.1.spec_edge((e.2 + j) as usize)))
            } else {
                None
            },
        (edges_after(e, k).2 >= edges_after(e, k).3) <==> e.2 + k >= e.3,
    decreases k,
{
    if k > 0 {
        let e1 = spec_edges_next(e).0;
        lemma_edges_iter_order(e1, (k - 1) as nat);
        assert forall|j: int| 0 < j < k implies #[trigger] edges_yields(e, k)[j] == edges_yields(
            e1,
            (k - 1) as nat,
        )[j - 1] by {}
    }
}

/// The yielded pairs are those that remain, in order, and none remain once the iterator is
/// empty.
pub proof fn lemma_remaining_edges_next<N: Node>(e: EdgesView<N>)
    ensures
        ({
            let (e2, item) = spec_edges_next(e);
            &&& e.2 < e.3 ==> item == Some(remaining_edges(e)[0]) && remaining_edges(e2)
                =~= remaining_edges(e).drop_first()
            &&& e.2 >= e.3 ==> item is None && e2 == e
            &&& remaining_edges(e).len() == 0 <==> e.2 >= e.3
        }),
{
}

/// What `k` calls of `next` on a recursion mode in the state `v` return, in order, with nothing
/// saved in between.
pub open spec fn recur_yields<N: Node, R: RecurMode<N>>(v: <R as View>::V, k: nat) -> Seq<
    Option<(N, N)>,
>
    decreases k,
{
    if k == 0 {
        Seq::empty()
    } else {
        seq![R::spec_next(v).1] + recur_yields::<N, R>(R::spec_next(v).0, (k - 1) as nat)
    }
}

/// The state of a recursion mode in the state `v` after `k` calls of `next`, with nothing saved
/// in between.
pub open spec fn recur_after<N: Node, R: RecurMode<N>>(v: <R as View>::V, k: nat) -> <R as View>::V
    decreases k,
{
    if k == 0 {
        v
    } else {
        recur_after::<N, R>(R::spec_next(v).0, (k - 1) as nat)
    }
}

/// Controls if node edges are descended into.
pub trait DescendMode<N: Node>: View + Sized {
    /// Type of error that can occur.
    type Error;

    /// The well-formedness of the mode's state.
    spec fn inv(&self) -> bool;

    /// The new state and the result of [`Self::do_edges`].
    spec fn spec_do_edges(v: Self::V, a: N, b: N) -> (Self::V, Result<bool, Self::Error>);

    /// The new state and the result of [`Self::do_traverse`].
    spec fn spec_do_traverse(v: Self::V) -> (Self::V, Result<bool, Self::Error>);

    /// Controls if all the descendents of a pair of nodes being compared should be
    /// immediately skipped.  Called before getting any edges.  Returning `false` assumes they
    /// are already known to satisfy equivalence.
    fn do_edges(&mut self, a: &N, b: &N) -> (r: Result<bool, Self::Error>)
        requires
            old(self).inv(),
        ensures
            final(self).inv(),
            (final(self)@, r) == Self::spec_do_edges(old(self)@, *a, *b),
    ;

    /// Controls if each node-counterparts will be traversed.  Returning `false` causes them to
    /// be skipped, and assumes they are already known to satisfy equivalence.
    fn do_traverse(&mut self) -> (r: Result<bool, Self::Error>)
        requires
            old(self).inv(),
        ensures
            final(self).inv(),
            (final(self)@, r) == Self::spec_do_traverse(old(self)@),
    ;
}

/// A mode that has a state to start from.
pub trait DefaultMode: View + Sized {
    /// The well-formedness of the mode's state.
    spec fn default_inv(&self) -> bool;

    /// The view of the state to start from.
    spec fn spec_default() -> Self::V;

    /// Create the state to start from.
    fn default_mode() -> (r: Self)
        ensures
            r@ == Self::spec_default(),
            r.default_inv(),
    ;
}

/// Advancing an edges view keeps the property `p`.
pub open spec fn advance_keeps<N: Node>(p: spec_fn(EdgesView<N>) -> bool) -> bool {
    forall|e: EdgesView<N>| #[trigger] p(e) ==> p((e.0, e.1, (e.2 + 1) as usize, e.3))
}

/// The counterparts `x` and `y` are the next edges of an edges view that has the property `p`.
pub open spec fn from_saved<N: Node>(p: spec_fn(EdgesView<N>) -> bool, x: N, y: N) -> bool {
    exists|e: EdgesView<N>|
        #[trigger] p(e) && e.2 < e.3 && x == e.0.spec_edge(e.2) && y == e.1.spec_edge(e.2)
}

/// Every pair of counterpart edges that the edges view still has to give has the property `p`.
pub open spec fn edges_all<N: Node>(e: EdgesView<N>, p: spec_fn(N, N) -> bool) -> bool {
    forall|j: usize| e.2 <= j < e.3 ==> #[trigger] p(e.0.spec_edge(j), e.1.spec_edge(j))
}

/// The edges view still has edges to give.
pub open spec fn has_edges<N: Node>() -> spec_fn(EdgesView<N>) -> bool {
    |e: EdgesView<N>| e.2 < e.3
}

/// The total weight of the pairs of counterpart edges that the edges view still has to give.
pub open spec fn view_weight<N: Node>(e: EdgesView<N>, w: spec_fn(N, N) -> nat) -> nat
    decreases e.3 - e.2,
{
    if e.2 < e.3 {
        w(e.0.spec_edge(e.2), e.1.spec_edge(e.2)) + view_weight(
            (e.0, e.1, (e.2 + 1) as usize, e.3),
            w,
        )
    } else {
        0
    }
}

/// The total weight of the pairs that the edges views still have to give.
pub open spec fn views_weight<N: Node>(s: Seq<EdgesView<N>>, w: spec_fn(N, N) -> nat) -> nat
    decreases s.len(),
{
    if s.len() == 0 {
        0
    } else {
        views_weight(s.drop_last(), w) + view_weight(s.last(), w)
    }
}

/// The weight of the views is that of the first one and that of the rest.
pub proof fn lemma_views_weight_front<N: Node>(s: Seq<EdgesView<N>>, w: spec_fn(N, N) -> nat)
    requires
        s.len() > 0,
    ensures
        views_weight(s, w) == view_weight(s[0], w) + views_weight(s.drop_first(), w),
    decreases s.len(),
{
    if s.len() > 1 {
        lemma_views_weight_front(s.drop_last(), w);
        assert(s.drop_last().drop_first() =~= s.drop_first().drop_last());
        assert(s.drop_first().last() == s.last());
    } else {
        assert(s.drop_last() =~= Seq::<EdgesView<N>>::empty());
        assert(s.drop_first() =~= Seq::<EdgesView<N>>::empty());
    }
}

/// The weight of a view put in front of other views.
pub proof fn lemma_views_weight_prepend<N: Node>(
    e: EdgesView<N>,
    s: Seq<EdgesView<N>>,
    w: spec_fn(N, N) -> nat,
)
    ensures
        views_weight(seq![e] + s, w) == view_weight(e, w) + views_weight(s, w),
{
    let t = seq![e] + s;
    lemma_views_weight_front(t, w);
    assert(t.drop_first() =~= s);
}

/// Abstraction of recursion continuations.
pub trait RecurMode<N: Node>: View + Sized {
    /// The well-formedness of the mode's state.
    spec fn inv(&self) -> bool;

    /// Whether descendents are recurred on immediately, on the call-stack, instead of being
    /// saved for later.
    spec fn spec_immediate() -> bool;

    /// The view of an empty state.
    spec fn spec_new() -> Self::V;

    /// The state after saving edges for later.
    spec fn spec_save(v: Self::V, e: EdgesView<N>) -> Self::V;

    /// The new state and the next counterparts to compare, if any were saved for later.
    spec fn spec_next(v: Self::V) -> (Self::V, Option<(N, N)>);

    /// Whether every edges view that the state holds has the property `p`.
    spec fn spec_all_saved(v: Self::V, p: spec_fn(EdgesView<N>) -> bool) -> bool;

    /// What is given back is what was saved: an empty state holds nothing, saving a view that
    /// has a property keeps that all views have it, and the next counterparts are the next
    /// edges of a held view, after which the views held still have any property that advancing
    /// keeps.
    proof fn lemma_saved(v: Self::V, e: EdgesView<N>, p: spec_fn(EdgesView<N>) -> bool)
        ensures
            Self::spec_all_saved(Self::spec_new(), p),
            Self::spec_all_saved(v, p) && p(e) ==> Self::spec_all_saved(Self::spec_save(v, e), p),
            Self::spec_all_saved(v, p) && advance_keeps(p) ==> Self::spec_all_saved(
                Self::spec_next(v).0,
                p,
            ),
            Self::spec_all_saved(v, p) ==> (Self::spec_next(v).1 matches Some((x, y))
                ==> from_saved(p, x, y)),
    ;

    /// Whether every pair of counterparts that the state still has to give back has the
    /// property `p`.
    spec fn spec_all_pending(v: Self::V, p: spec_fn(N, N) -> bool) -> bool;

    /// Nothing is lost: what is pending after saving a view is what was pending and the edges
    /// of the view; what was pending is what is given back and what remains pending; and, when
    /// every view held has edges left, which giving back keeps, nothing is given back only when
    /// nothing is pending.
    proof fn lemma_pending(v: Self::V, e: EdgesView<N>, p: spec_fn(N, N) -> bool)
        ensures
            !Self::spec_immediate() ==> (Self::spec_all_pending(Self::spec_save(v, e), p)
                ==> Self::spec_all_pending(v, p) && edges_all(e, p)),
            Self::spec_next(v).1 matches Some((x, y)) ==> (p(x, y) && Self::spec_all_pending(
                Self::spec_next(v).0,
                p,
            ) ==> Self::spec_all_pending(v, p)),
            Self::spec_all_saved(v, has_edges()) ==> Self::spec_all_saved(
                Self::spec_next(v).0,
                has_edges(),
            ),
            Self::spec_all_saved(v, has_edges()) && Self::spec_next(v).1 is None
                ==> Self::spec_all_pending(v, p),
    ;

    /// The total weight of the pairs of counterparts that the state still has to give back,
    /// for a weight of each pair.
    spec fn spec_weight(v: Self::V, w: spec_fn(N, N) -> nat) -> nat;

    /// An empty state has no weight; saving a view, for recursion that saves, adds its weight;
    /// and, when every view held has edges left, giving back a pair takes away its weight.
    proof fn lemma_weight(v: Self::V, e: EdgesView<N>, w: spec_fn(N, N) -> nat)
        ensures
            Self::spec_weight(Self::spec_new(), w) == 0,
            !Self::spec_immediate() ==> Self::spec_weight(Self::spec_save(v, e), w)
                == Self::spec_weight(v, w) + view_weight(e, w),
            Self::spec_all_saved(v, has_edges()) ==> (Self::spec_next(v).1 matches Some((x, y))
                ==> Self::spec_weight(Self::spec_next(v).0, w) + w(x, y) == Self::spec_weight(
                v,
                w,
            )),
    ;

    /// Create an empty state.
    fn new() -> (r: Self)
        ensures
            r@ == Self::spec_new(),
            r.inv(),
    ;

    /// Whether descendents are recurred on immediately.
    fn immediate() -> (r: bool)
        ensures
            r == Self::spec_immediate(),
    ;

    /// Arrange for the given edges to be recurred on later.
    fn save(&mut self, edges_iter: EdgesIter<N>)
        requires
            old(self).inv(),
            edges_iter.inv(),
            edges_iter@.2 < edges_iter@.3,
        ensures
            final(self).inv(),
            final(self)@ == Self::spec_save(old(self)@, edges_iter@),
    ;

    /// Supply the next counterpart nodes for the algorithm to compare, if any were saved for
    /// later by [`Self::save`].
    fn next(&mut self) -> (r: Option<(N, N)>)
        requires
            old(self).inv(),
        ensures
            final(self).inv(),
            (final(self)@, r) == Self::spec_next(old(self)@),
    ;

    /// Reset to be empty while preserving capacity, if relevant.
    fn reset(self) -> (r: Self)
        requires
            self.inv(),
        ensures
            r.inv(),
            r@ == Self::spec_new(),
    ;
}

/// Generic parameters of [`Equiv`] and its operations.
pub trait Params {
    /// Type of node to handle.
    type Node: Node;
    /// Type that controls descending node edges.
    type DescendMode: DescendMode<Self::Node>;
    /// Type that provides recursion continuations.
    type RecurMode: RecurMode<Self::Node>;
}

/// The result of the algorithm for a choice of modes.
pub type EquivResult<N, D> = Result<<N as Node>::Cmp, <D as DescendMode<N>>::Error>;

/// The outcome of a step of the algorithm: the states of the modes and the result.
pub type Outcome<N, D, R> = (<D as View>::V, <R as View>::V, EquivResult<N, D>);

/// Whether a result lets the traversal continue.
pub open spec fn continues<N: Node, E>(r: Result<N::Cmp, E>) -> bool {
    r matches Ok(c) && c.spec_is_equiv()
}

/// The main logic of the algorithm, for one pair of counterparts: traverse them, compare them
/// ignoring their descendents, and decide whether and how to descend.  `None` when the
/// recursion needs more than `fuel` levels.
pub open spec fn main_spec<N: Node, D: DescendMode<N>, R: RecurMode<N>>(
    dv: <D as View>::V,
    rv: <R as View>::V,
    a: N,
    b: N,
    fuel: nat,
) -> Option<Outcome<N, D, R>>
    decreases fuel, 0nat,
{
    let eq = N::Cmp::spec_new_equiv();
    let (dv1, t) = D::spec_do_traverse(dv);
    match t {
        Err(e) => Some((dv1, rv, Err(e))),
        Ok(traverse) => if !traverse || a.spec_id() == b.spec_id() {
            Some((dv1, rv, Ok(eq)))
        } else {
            match a.spec_equiv_modulo_descendents_then_amount_edges(&b) {
                Err(c) => Some((dv1, rv, Ok(c))),
                Ok(k) => if k == 0 {
                    Some((dv1, rv, Ok(eq)))
                } else {
                    let (dv2, e) = D::spec_do_edges(dv1, a, b);
                    match e {
                        Err(err) => Some((dv2, rv, Err(err))),
                        Ok(descend) => if !descend {
                            Some((dv2, rv, Ok(eq)))
                        } else if R::spec_immediate() {
                            if fuel == 0 {
                                None
                            } else {
                                children_spec::<N, D, R>(dv2, rv, a, b, 0, k, (fuel - 1) as nat)
                            }
                        } else {
                            Some((dv2, R::spec_save(rv, (a, b, 0usize, k)), Ok(eq)))
                        },
                    }
                },
            }
        },
    }
}

/// Immediate recursion on the counterpart edges `i .. k` of `a` and `b`, in order, stopping at
/// the first result that does not continue.
pub open spec fn children_spec<N: Node, D: DescendMode<N>, R: RecurMode<N>>(
    dv: <D as View>::V,
    rv: <R as View>::V,
    a: N,
    b: N,
    i: usize,
    k: usize,
    fuel: nat,
) -> Option<Outcome<N, D, R>>
    decreases fuel, k - i,
{
    if i >= k {
        Some((dv, rv, Ok(N::Cmp::spec_new_equiv())))
    } else {
        match main_spec::<N, D, R>(dv, rv, a.spec_edge(i), b.spec_edge(i), fuel) {
            None => None,
            Some((dv1, rv1, r)) => if continues::<N, D::Error>(r) {
                children_spec::<N, D, R>(dv1, rv1, a, b, (i + 1) as usize, k, fuel)
            } else {
                Some((dv1, rv1, r))
            },
        }
    }
}

/// The whole algorithm: the main logic on the given counterparts, then on each pair of
/// counterparts that the recursion mode saved for later, until one does not continue or none
/// remain.  `None` when it needs more than `fuel` steps.
pub open spec fn run_spec<N: Node, D: DescendMode<N>, R: RecurMode<N>>(
    dv: <D as View>::V,
    rv: <R as View>::V,
    a: N,
    b: N,
    fuel: nat,
) -> Option<Outcome<N, D, R>>
    decreases fuel,
{
    match main_spec::<N, D, R>(dv, rv, a, b, fuel) {
        None => None,
        Some((dv1, rv1, r)) => if continues::<N, D::Error>(r) {
            let (rv2, nx) = R::spec_next(rv1);
            match nx {
                None => Some((dv1, rv2, r)),
                Some((x, y)) => if fuel == 0 {
                    None
                } else {
                    run_spec::<N, D, R>(dv1, rv2, x, y, (fuel - 1) as nat)
                },
            }
        } else {
            Some((dv1, rv1, r))
        },
    }
}

/// Whether the algorithm completes from the given state.
pub open spec fn terminates<N: Node, D: DescendMode<N>, R: RecurMode<N>>(
    dv: <D as View>::V,
    rv: <R as View>::V,
    a: N,
    b: N,
) -> bool {
    exists|f: nat| (#[trigger] run_spec::<N, D, R>(dv, rv, a, b, f)) is Some
}

/// The outcome of the algorithm from the given state, when it completes.
pub open spec fn run_outcome<N: Node, D: DescendMode<N>, R: RecurMode<N>>(
    dv: <D as View>::V,
    rv: <R as View>::V,
    a: N,
    b: N,
) -> Outcome<N, D, R> {
    run_spec::<N, D, R>(
        dv,
        rv,
        a,
        b,
        choose|f: nat| (#[trigger] run_spec::<N, D, R>(dv, rv, a, b, f)) is Some,
    )->Some_0
}

/// Whether a descend mode never gives an error.
pub open spec fn never_errs<N: Node, D: DescendMode<N>>() -> bool {
    &&& forall|v: <D as View>::V| (#[trigger] D::spec_do_traverse(v)).1 is Ok
    &&& forall|v: <D as View>::V, a: N, b: N| (#[trigger] D::spec_do_edges(v, a, b)).1 is Ok
}

/// With a descend mode that never errors, the main logic never errors.
pub proof fn lemma_never_errs_main<N: Node, D: DescendMode<N>, R: RecurMode<N>>(
    dv: <D as View>::V,
    rv: <R as View>::V,
    a: N,
    b: N,
    fuel: nat,
)
    requires
        never_errs::<N, D>(),
    ensures
        main_spec::<N, D, R>(dv, rv, a, b, fuel) matches Some(o) ==> o.2 is Ok,
    decreases fuel, 0nat,
{
    let (dv1, t) = D::spec_do_traverse(dv);
    assert(t is Ok);
    if fuel > 0 {
        let k = a.spec_equiv_modulo_descendents_then_amount_edges(&b);
        if k is Ok {
            let (dv2, e) = D::spec_do_edges(dv1, a, b);
            assert(e is Ok);
            lemma_never_errs_children::<N, D, R>(dv2, rv, a, b, 0, k->Ok_0, (fuel - 1) as nat);
        }
    } else {
        let (dv2, e) = D::spec_do_edges(dv1, a, b);
        assert(e is Ok);
    }
}

/// With a descend mode that never errors, the immediate recursion on edges never errors.
pub proof fn lemma_never_errs_children<N: Node, D: DescendMode<N>, R: RecurMode<N>>(
    dv: <D as View>::V,
    rv: <R as View>::V,
    a: N,
    b: N,
    i: usize,
    k: usize,
    fuel: nat,
)
    requires
        never_errs::<N, D>(),
    ensures
        children_spec::<N, D, R>(dv, rv, a, b, i, k, fuel) matches Some(o) ==> o.2 is Ok,
    decreases fuel, k - i,
{
    if i < k {
        lemma_never_errs_main::<N, D, R>(dv, rv, a.spec_edge(i), b.spec_edge(i), fuel);
        match main_spec::<N, D, R>(dv, rv, a.spec_edge(i), b.spec_edge(i), fuel) {
            Some((dv1, rv1, r)) => {
                if continues::<N, D::Error>(r) {
                    lemma_never_errs_children::<N, D, R>(dv1, rv1, a, b, (i + 1) as usize, k, fuel);
                }
            },
            None => {},
        }
    }
}

/// With a descend mode that never errors, the algorithm never errors.
pub proof fn lemma_never_errs_run<N: Node, D: DescendMode<N>, R: RecurMode<N>>(
    dv: <D as View>::V,
    rv: <R as View>::V,
    a: N,
    b: N,
    fuel: nat,
)
    requires
        never_errs::<N, D>(),
    ensures
        run_spec::<N, D, R>(dv, rv, a, b, fuel) matches Some(o) ==> o.2 is Ok,
    decreases fuel,
{
    lemma_never_errs_main::<N, D, R>(dv, rv, a, b, fuel);
    match main_spec::<N, D, R>(dv, rv, a, b, fuel) {
        Some((dv1, rv1, r)) => {
            if continues::<N, D::Error>(r) {
                let (rv2, nx) = R::spec_next(rv1);
                match nx {
                    Some((x, y)) => {
                        if fuel > 0 {
                            lemma_never_errs_run::<N, D, R>(dv1, rv2, x, y, (fuel - 1) as nat);
                        }
                    },
                    None => {},
                }
            }
        },
        None => {},
    }
}

/// With a descend mode that never errors, the outcome of a completing algorithm is not an
/// error.
pub proof fn lemma_never_errs_outcome<N: Node, D: DescendMode<N>, R: RecurMode<N>>(
    dv: <D as View>::V,
    rv: <R as View>::V,
    a: N,
    b: N,
)
    requires
        never_errs::<N, D>(),
        terminates::<N, D, R>(dv, rv, a, b),
    ensures
        run_outcome::<N, D, R>(dv, rv, a, b).2 is Ok,
{
    let f = choose|f: nat| (#[trigger] run_spec::<N, D, R>(dv, rv, a, b, f)) is Some;
    lemma_never_errs_run::<N, D, R>(dv, rv, a, b, f);
}

/// The state for an invocation of a variation of the algorithm.
pub struct Equiv<P: Params> {
    /// Controls if node edges are descended into.
    pub descend_mode: P::DescendMode,
    /// Representation of recursion continuations.
    pub recur_mode: P::RecurMode,
}

impl<P: Params> View for Equiv<P> {
    type V = (<P::DescendMode as View>::V, <P::RecurMode as View>::V);

    open spec fn view(&self) -> Self::V {
        (self.descend_mode@, self.recur_mode@)
    }
}

impl<P: Params> Equiv<P> {
    /// The well-formedness of the state.
    pub open spec fn inv(&self) -> bool {
        self.descend_mode.inv() && self.recur_mode.inv()
    }

    /// Create a new instance to use once for a single invocation of the algorithm.
    pub fn new(descend_mode: P::DescendMode) -> (r: Self)
        requires
            descend_mode.inv(),
        ensures
            r.inv(),
            r.descend_mode == descend_mode,
            r.recur_mode@ == P::RecurMode::spec_new(),
    {
        Equiv { descend_mode, recur_mode: P::RecurMode::new() }
    }

    /// Create a new instance, with the descend mode's starting state.
    pub fn default() -> (r: Self)
        where P::DescendMode: DefaultMode,
        requires
            forall|d: P::DescendMode| #[trigger] d.default_inv() ==> d.inv(),
        ensures
            r.inv(),
            r.descend_mode@ == <P::DescendMode as DefaultMode>::spec_default(),
            r.recur_mode@ == P::RecurMode::spec_new(),
    {
        Equiv { descend_mode: P::DescendMode::default_mode(), recur_mode: P::RecurMode::new() }
    }

    /// Reuse the recursion-mode value of another instance, reset, with the descend mode's
    /// starting state.
    pub fn from<PF: Params<Node = P::Node, RecurMode = P::RecurMode>>(e: Equiv<PF>) -> (r: Self)
        where P::DescendMode: DefaultMode,
        requires
            e.inv(),
            forall|d: P::DescendMode| #[trigger] d.default_inv() ==> d.inv(),
        ensures
            r.inv(),
            r.descend_mode@ == <P::DescendMode as DefaultMode>::spec_default(),
            r.recur_mode@ == P::RecurMode::spec_new(),
    {
        Equiv { descend_mode: P::DescendMode::default_mode(), recur_mode: e.recur_mode.reset() }
    }

    /// Like [`Self::from`], from `self` to another instance.
    pub fn into<PT: Params<Node = P::Node, RecurMode = P::RecurMode>>(self) -> (r: Equiv<PT>)
        where PT::DescendMode: DefaultMode,
        requires
            self.inv(),
            forall|d: PT::DescendMode| #[trigger] d.default_inv() ==> d.inv(),
        ensures
            r.inv(),
            r.descend_mode@ == <PT::DescendMode as DefaultMode>::spec_default(),
            r.recur_mode@ == PT::RecurMode::spec_new(),
    {
        Equiv::<PT>::from(self)
    }

    /// The entry-point of the algorithm.  Compares the counterparts and, afterwards, each pair
    /// of counterparts saved for later, until an inequivalence is found or none remain.
    pub fn equiv(&mut self, a: P::Node, b: P::Node) -> (r: EquivResult<P::Node, P::DescendMode>)
        requires
            old(self).inv(),
            terminates::<P::Node, P::DescendMode, P::RecurMode>(old(self)@.0, old(self)@.1, a, b),
        ensures
            final(self).inv(),
            (final(self)@.0, final(self)@.1, r) == run_outcome::<
                P::Node,
                P::DescendMode,
                P::RecurMode,
            >(old(self)@.0, old(self)@.1, a, b),
    {
        let ghost f0 = choose|f: nat|
            (#[trigger] run_spec::<P::Node, P::DescendMode, P::RecurMode>(
                self@.0,
                self@.1,
                a,
                b,
                f,
            )) is Some;
        let ghost target = run_spec::<P::Node, P::DescendMode, P::RecurMode>(
            self@.0,
            self@.1,
            a,
            b,
            f0,
        );
        let ghost mut fuel: nat = f0;
        assert(run_outcome::<P::Node, P::DescendMode, P::RecurMode>(self@.0, self@.1, a, b)
            == target->Some_0);
        let mut cur_a = a;
        let mut cur_b = b;
        loop
            invariant
                self.inv(),
                target is Some,
                run_outcome::<P::Node, P::DescendMode, P::RecurMode>(old(self)@.0, old(self)@.1, a, b)
                    == target->Some_0,
                run_spec::<P::Node, P::DescendMode, P::RecurMode>(
                    self@.0,
                    self@.1,
                    cur_a,
                    cur_b,
                    fuel,
                ) == target,
            decreases fuel,
        {
            let r = self.equiv_main(cur_a, cur_b, Ghost(fuel));
            let go_on = match &r {
                Ok(c) => c.is_equiv(),
                Err(_) => false,
            };
            if go_on {
                match self.recur_mode.next() {
                    Some((an, bn)) => {
                        cur_a = an;
                        cur_b = bn;
                        proof {
                            fuel = (fuel - 1) as nat;
                        }
                    },
                    None => {
                        return r;
                    },
                }
            } else {
                return r;
            }
        }
    }

    /// The main logic of the algorithm, for one pair of counterparts.  Must not be used as the
    /// initial entry-point.
    pub fn equiv_main(&mut self, a: P::Node, b: P::Node, Ghost(fuel): Ghost<nat>) -> (r:
        EquivResult<P::Node, P::DescendMode>)
        requires
            old(self).inv(),
            main_spec::<P::Node, P::DescendMode, P::RecurMode>(
                old(self)@.0,
                old(self)@.1,
                a,
                b,
                fuel,
            ) is Some,
        ensures
            final(self).inv(),
            Some((final(self)@.0, final(self)@.1, r)) == main_spec::<
                P::Node,
                P::DescendMode,
                P::RecurMode,
            >(old(self)@.0, old(self)@.1, a, b, fuel),
        decreases fuel,
    {
        proof {
            <P::Node as Node>::Cmp::lemma_laws();
        }
        let ghost dv0 = self@.0;
        let ghost rv0 = self@.1;
        match self.descend_mode.do_traverse() {
            Err(e) => {
                return Err(e);
            },
            Ok(traverse) => {
                if !traverse {
                    return Ok(<P::Node as Node>::Cmp::new_equiv());
                }
            },
        }
        if a.id() == b.id() {
            return Ok(<P::Node as Node>::Cmp::new_equiv());
        }
        let amount_edges = match a.equiv_modulo_descendents_then_amount_edges(&b) {
            Ok(k) => k,
            Err(c) => {
                return Ok(c);
            },
        };
        if amount_edges == 0 {
            return Ok(<P::Node as Node>::Cmp::new_equiv());
        }
        match self.descend_mode.do_edges(&a, &b) {
            Err(e) => {
                return Err(e);
            },
            Ok(descend) => {
                if !descend {
                    return Ok(<P::Node as Node>::Cmp::new_equiv());
                }
            },
        }
        let ghost ga = a;
        let ghost gb = b;
        let ghost dv2 = self@.0;
        let ghost rv2 = self@.1;
        let mut edges_iter = EdgesIter::new(amount_edges, (a, b));
        if P::RecurMode::immediate() {
            let ghost sub: nat = (fuel - 1) as nat;
            assert(main_spec::<P::Node, P::DescendMode, P::RecurMode>(dv0, rv0, ga, gb, fuel)
                == children_spec::<P::Node, P::DescendMode, P::RecurMode>(
                dv2,
                rv2,
                ga,
                gb,
                0,
                amount_edges,
                sub,
            ));
            loop
                invariant
                    self.inv(),
                    edges_iter.inv(),
                    edges_iter@.0 == ga,
                    edges_iter@.1 == gb,
                    edges_iter@.3 == amount_edges,
                    edges_iter@.2 <= amount_edges,
                    fuel > 0,
                    sub == fuel - 1,
                    ga == a,
                    gb == b,
                    main_spec::<P::Node, P::DescendMode, P::RecurMode>(
                        old(self)@.0,
                        old(self)@.1,
                        a,
                        b,
                        fuel,
                    ) == children_spec::<P::Node, P::DescendMode, P::RecurMode>(
                        dv2,
                        rv2,
                        ga,
                        gb,
                        0,
                        amount_edges,
                        sub,
                    ),
                    children_spec::<P::Node, P::DescendMode, P::RecurMode>(
                        self@.0,
                        self@.1,
                        ga,
                        gb,
                        edges_iter@.2,
                        amount_edges,
                        sub,
                    ) == children_spec::<P::Node, P::DescendMode, P::RecurMode>(
                        dv2,
                        rv2,
                        ga,
                        gb,
                        0,
                        amount_edges,
                        sub,
                    ),
                    children_spec::<P::Node, P::DescendMode, P::RecurMode>(
                        dv2,
                        rv2,
                        ga,
                        gb,
                        0,
                        amount_edges,
                        sub,
                    ) is Some,
                decreases amount_edges - edges_iter@.2,
            {
                let ghost i = edges_iter@.2;
                let ghost cdv = self@.0;
                let ghost crv = self@.1;
                match edges_iter.next() {
                    Some((x, y)) => {
                        assert(x == ga.spec_edge(i) && y == gb.spec_edge(i));
                        let r = self.equiv_main(x, y, Ghost(sub));
                        let go_on = match &r {
                            Ok(c) => c.is_equiv(),
                            Err(_) => false,
                        };
                        if !go_on {
                            assert(children_spec::<P::Node, P::DescendMode, P::RecurMode>(
                                cdv,
                                crv,
                                ga,
                                gb,
                                i,
                                amount_edges,
                                sub,
                            ) == Some((self@.0, self@.1, r)));
                            return r;
                        }
                    },
                    None => {
                        assert(children_spec::<P::Node, P::DescendMode, P::RecurMode>(
                            cdv,
                            crv,
                            ga,
                            gb,
                            i,
                            amount_edges,
                            sub,
                        ) == Some((cdv, crv, Ok::<_, <P::DescendMode as DescendMode<P::Node>>::Error>(<P::Node as Node>::Cmp::spec_new_equiv()))));
                        return Ok(<P::Node as Node>::Cmp::new_equiv());
                    },
                }
            }
        } else {
            self.recur_mode.save(edges_iter);
            Ok(<P::Node as Node>::Cmp::new_equiv())
        }
    }
}

} // verus!
