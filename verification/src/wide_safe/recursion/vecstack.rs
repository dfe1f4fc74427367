use vstd::prelude::*;

use crate::generic::equiv::{
    advance_keeps, edges_all, edges_view_inv, has_edges, lemma_remaining_edges_next,
    recur_after, recur_yields, remaining_edges, spec_edges_next, view_weight, views_weight,
    EdgesIter, EdgesView, RecurMode,
};
use crate::Node;

verus! {

/// Amount of elements that a [`VecStack`] can contain initially before reallocating.
pub const INITIAL_CAPACITY: usize = 16;

/// Stack of pairs of nodes that must next be compared pairwise.  The size is limited only by
/// available memory.
///
/// Does depth-first preorder traversals.  Typically used when it is likely that the input graphs
/// will be wider than they are deep.
pub struct VecStack<N: Node>(pub Vec<EdgesIter<N>>);

impl<N: Node> View for VecStack<N> {
    type V = Seq<EdgesView<N>>;

    open spec fn view(&self) -> Seq<EdgesView<N>> {
        self.0@.map_values(|e: EdgesIter<N>| e@)
    }
}

/// Every saved iterator is valid and not empty.
pub open spec fn saved_ok<N: Node>(s: Seq<EdgesView<N>>) -> bool {
    forall|i: int| 0 <= i < s.len() ==> edges_view_inv(#[trigger] s[i]) && s[i].2 < s[i].3
}

/// Take the next pair from the iterator at the top of the stack, and drop the iterator when
/// it is empty.
pub open spec fn spec_stack_next<N: Node>(v: Seq<EdgesView<N>>) -> (Seq<EdgesView<N>>, Option<
    (N, N),
>) {
    if v.len() == 0 {
        (v, None)
    } else {
        let (e2, item) = spec_edges_next(v.last());
        if e2.2 >= e2.3 {
            (v.drop_last(), item)
        } else {
            (v.drop_last().push(e2), item)
        }
    }
}

/// The pairs that a stack in the state `s` has still to yield: those of its top iterator
/// first, then those of the iterators below it, each in increasing index order.
pub open spec fn stack_order<N: Node>(s: Seq<EdgesView<N>>) -> Seq<(N, N)>
    decreases s.len(),
{
    if s.len() == 0 {
        Seq::empty()
    } else {
        remaining_edges(s.last()) + stack_order(s.drop_last())
    }
}

/// One call of `next` yields the first pair of [`stack_order`] and leaves the rest, keeping no
/// empty iterator.
proof fn lemma_stack_next<N: Node>(s: Seq<EdgesView<N>>)
    requires
        saved_ok(s),
    ensures
        ({
            let (s2, nx) = spec_stack_next(s);
            &&& saved_ok(s2)
            &&& s.len() == 0 ==> nx is None && s2 == s && stack_order(s).len() == 0
            &&& s.len() > 0 ==> stack_order(s).len() > 0 && nx == Some(stack_order(s)[0])
                && stack_order(s2) =~= stack_order(s).drop_first()
        }),
{
    if s.len() > 0 {
        let e = s.last();
        lemma_remaining_edges_next(e);
        let (e2, _) = spec_edges_next(e);
        let (s2, _) = spec_stack_next(s);
        if e2.2 < e2.3 {
            assert(s2.drop_last() =~= s.drop_last());
        }
        assert forall|i: int| 0 <= i < s2.len() implies edges_view_inv(#[trigger] s2[i])
            && s2[i].2 < s2[i].3 by {
            if i < s.len() - 1 {
                assert(s2[i] == s[i]);
            }
        }
    }
}

/// The iteration order of [`VecStack`], which makes traversals depth-first preorder: with
/// nothing saved in between, `k` calls of `next` yield the pairs of the most recently saved
/// iterator first, then those of the iterators saved before it, each in increasing index order,
/// then `None`; no empty iterator is kept, and the stack is empty once all are yielded.
pub proof fn lemma_stack_order<N: Node>(s: Seq<EdgesView<N>>, k: nat)
    requires
        saved_ok(s),
    ensures
        recur_yields::<N, VecStack<N>>(s, k).len() == k,
        forall|j: int|
            0 <= j < k ==> #[trigger] recur_yields::<N, VecStack<N>>(s, k)[j] == if j
                < stack_order(s).len() {
                Some(stack_order(s)[j])
            } else {
                None
            },
        saved_ok(recur_after::<N, VecStack<N>>(s, k)),
        k >= stack_order(s).len() ==> recur_after::<N, VecStack<N>>(s, k).len() == 0,
    decreases k,
{
    if k > 0 {
        lemma_stack_next(s);
        let s2 = spec_stack_next(s).0;
        lemma_stack_order(s2, (k - 1) as nat);
        assert forall|j: int| 0 < j < k implies #[trigger] recur_yields::<N, VecStack<N>>(s, k)[j]
            == recur_yields::<N, VecStack<N>>(s2, (k - 1) as nat)[j - 1] by {}
    } else if stack_order(s).len() == 0 {
        lemma_stack_empty(s);
    }
}

/// A stack with nothing still to yield is empty.
proof fn lemma_stack_empty<N: Node>(s: Seq<EdgesView<N>>)
    requires
        saved_ok(s),
        stack_order(s).len() == 0,
    ensures
        s.len() == 0,
{
    if s.len() > 0 {
        lemma_remaining_edges_next(s.last());
    }
}

/// Saving pushes on top: the pairs that a stack has still to yield after saving an iterator
/// are those of the iterator, then those it had.
pub proof fn lemma_stack_save_order<N: Node>(s: Seq<EdgesView<N>>, e: EdgesView<N>)
    ensures
        stack_order(VecStack::<N>::spec_save(s, e)) == remaining_edges(e) + stack_order(s),
{
    assert(VecStack::<N>::spec_save(s, e).drop_last() =~= s);
}

impl<N: Node> RecurMode<N> for VecStack<N> {
    open spec fn inv(&self) -> bool {
        saved_ok(self@)
    }

    open spec fn spec_immediate() -> bool {
        false
    }

    open spec fn spec_new() -> Seq<EdgesView<N>> {
        Seq::empty()
    }

    open spec fn spec_save(v: Seq<EdgesView<N>>, e: EdgesView<N>) -> Seq<EdgesView<N>> {
        v.push(e)
    }

    open spec fn spec_next(v: Seq<EdgesView<N>>) -> (Seq<EdgesView<N>>, Option<(N, N)>) {
        spec_stack_next(v)
    }

    open spec fn spec_all_saved(v: Seq<EdgesView<N>>, p: spec_fn(EdgesView<N>) -> bool) -> bool {
        forall|i: int| 0 <= i < v.len() ==> p(#[trigger] v[i])
    }

    proof fn lemma_saved(v: Seq<EdgesView<N>>, e: EdgesView<N>, p: spec_fn(EdgesView<N>) -> bool) {
        let s2 = v.push(e);
        if Self::spec_all_saved(v, p) && p(e) {
            assert forall|i: int| 0 <= i < s2.len() implies p(#[trigger] s2[i]) by {
                if i < v.len() {
                    assert(s2[i] == v[i]);
                }
            }
        }
        if Self::spec_all_saved(v, p) && v.len() > 0 {
            let (v2, nx) = Self::spec_next(v);
            if advance_keeps(p) {
                assert forall|i: int| 0 <= i < v2.len() implies p(#[trigger] v2[i]) by {
                    let last = v.last();
                    assert(p(v[v.len() - 1]));
                    assert(p((last.0, last.1, (last.2 + 1) as usize, last.3)));
                    if i < v.len() - 1 {
                        assert(v2[i] == v[i]);
                    }
                }
            }
            if nx is Some {
                assert(p(v[v.len() - 1]));
            }
        }
    }

    open spec fn spec_all_pending(v: Seq<EdgesView<N>>, p: spec_fn(N, N) -> bool) -> bool {
        forall|i: int| 0 <= i < v.len() ==> edges_all(#[trigger] v[i], p)
    }

    proof fn lemma_pending(v: Seq<EdgesView<N>>, e: EdgesView<N>, p: spec_fn(N, N) -> bool) {
        let s2 = v.push(e);
        if Self::spec_all_pending(s2, p) {
            assert(s2[v.len() as int] == e);
            assert forall|i: int| 0 <= i < v.len() implies edges_all(#[trigger] v[i], p) by {
                assert(s2[i] == v[i]);
            }
        }
        let ne = has_edges::<N>();
        if v.len() > 0 {
            let top = v[v.len() - 1];
            let (v2, nx) = Self::spec_next(v);
            let (e2, item) = spec_edges_next(top);
            if let Some((x, y)) = nx {
                assert(nx == item);
                assert(top.2 < top.3);
                assert(e2 == (top.0, top.1, (top.2 + 1) as usize, top.3));
                if p(x, y) && Self::spec_all_pending(v2, p) {
                    assert forall|i: int| 0 <= i < v.len() implies edges_all(#[trigger] v[i], p) by {
                        if i == v.len() - 1 {
                            assert forall|j: usize| top.2 <= j < top.3 implies #[trigger] p(
                                top.0.spec_edge(j),
                                top.1.spec_edge(j),
                            ) by {
                                if j == top.2 {
                                    assert(x == top.0.spec_edge(j));
                                    assert(y == top.1.spec_edge(j));
                                    assert(p(x, y));
                                } else {
                                    assert(e2.2 < e2.3);
                                    assert(v2[v2.len() - 1] == e2);
                                    assert(edges_all(v2[v2.len() - 1], p));
                                    assert(e2.2 <= j < e2.3);
                                    assert(p(e2.0.spec_edge(j), e2.1.spec_edge(j)));
                                }
                                assert(p(top.0.spec_edge(j), top.1.spec_edge(j)));
                            }
                        } else {
                            assert(v2[i] == v[i]);
                        }
                    }
                }
            }
            if Self::spec_all_saved(v, ne) {
                assert(ne(v[v.len() - 1]));
                assert forall|i: int| 0 <= i < v2.len() implies ne(#[trigger] v2[i]) by {
                    if i < v.len() - 1 {
                        assert(v2[i] == v[i]);
                    }
                }
            }
        }
    }

    open spec fn spec_weight(v: Seq<EdgesView<N>>, w: spec_fn(N, N) -> nat) -> nat {
        views_weight(v, w)
    }

    proof fn lemma_weight(v: Seq<EdgesView<N>>, e: EdgesView<N>, w: spec_fn(N, N) -> nat) {
        assert(Seq::<EdgesView<N>>::empty().len() == 0);
        assert(v.push(e).drop_last() =~= v);
        if v.len() > 0 && Self::spec_all_saved(v, has_edges()) {
            let top = v.last();
            assert(has_edges::<N>()(v[v.len() - 1]));
            let (e2, item) = spec_edges_next(top);
            assert(view_weight(top, w) == w(top.0.spec_edge(top.2), top.1.spec_edge(top.2))
                + view_weight(e2, w));
            assert(views_weight(v, w) == views_weight(v.drop_last(), w) + view_weight(top, w));
            if e2.2 < e2.3 {
                assert(v.drop_last().push(e2).drop_last() =~= v.drop_last());
            } else {
                assert(view_weight(e2, w) == 0);
            }
        }
    }

    /// Create a new instance with capacity [`INITIAL_CAPACITY`].
    fn new() -> (r: Self) {
        let r = VecStack(Vec::with_capacity(INITIAL_CAPACITY));
        assert(r@ =~= Seq::<EdgesView<N>>::empty());
        r
    }

    fn immediate() -> (r: bool) {
        false
    }

    fn save(&mut self, edges_iter: EdgesIter<N>) {
        let ghost e = edges_iter@;
        self.0.push(edges_iter);
        assert(self@ =~= old(self)@.push(e));
    }

    fn next(&mut self) -> (r: Option<(N, N)>) {
        let ghost v = old(self)@;
        match self.0.pop() {
            None => {
                assert(self@ =~= v);
                None
            },
            Some(mut edges_iter) => {
                assert(self@ =~= v.drop_last());
                assert(edges_iter@ == v.last());
                let next = edges_iter.next();
                if !edges_iter.is_empty() {
                    let ghost e2 = edges_iter@;
                    self.0.push(edges_iter);
                    assert(self@ =~= v.drop_last().push(e2));
                }
                next
            },
        }
    }

    /// An aborted precheck might have left some elements, so reset before reusing.
    fn reset(self) -> (r: Self) {
        let mut s = self;
        s.0.clear();
        assert(s@ =~= Seq::<EdgesView<N>>::empty());
        s
    }
}

} // verus!
