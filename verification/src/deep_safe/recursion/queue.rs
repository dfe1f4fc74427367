use std::collections::VecDeque;
use vstd::prelude::*;

use crate::generic::equiv::{
    advance_keeps, edges_all, edges_view_inv, has_edges, lemma_remaining_edges_next,
    lemma_views_weight_front, lemma_views_weight_prepend, recur_after, recur_yields,
    remaining_edges, spec_edges_next, views_weight, EdgesIter, EdgesView, RecurMode,
};
use crate::wide_safe::recursion::vecstack::saved_ok;
use crate::Node;

verus! {

/// Amount of elements that a [`RecurQueue`] can contain initially before reallocating.
pub const INITIAL_CAPACITY: usize = 16;

/// Queue of pairs of nodes that must next be compared pairwise.  The size is limited only by
/// available memory.
///
/// Does breadth-first traversals.  Typically used when it is likely that the input graphs will
/// be deeper than they are wide.
pub struct RecurQueue<N: Node>(pub VecDeque<EdgesIter<N>>);

impl<N: Node> View for RecurQueue<N> {
    type V = Seq<EdgesView<N>>;

    open spec fn view(&self) -> Seq<EdgesView<N>> {
        self.0@.map_values(|e: EdgesIter<N>| e@)
    }
}

/// Take the next pair from the iterator at the front of the queue, and drop the iterator when
/// it is empty.
pub open spec fn spec_queue_next<N: Node>(v: Seq<EdgesView<N>>) -> (Seq<EdgesView<N>>, Option<
    (N, N),
>) {
    if v.len() == 0 {
        (v, None)
    } else {
        let (e2, item) = spec_edges_next(v[0]);
        if e2.2 >= e2.3 {
            (v.drop_first(), item)
        } else {
            (seq![e2] + v.drop_first(), item)
        }
    }
}

/// The pairs that a queue in the state `s` has still to yield: those of its front iterator
/// first, then those of the iterators saved after it, each in increasing index order.
pub open spec fn queue_order<N: Node>(s: Seq<EdgesView<N>>) -> Seq<(N, N)>
    decreases s.len(),
{
    if s.len() == 0 {
        Seq::empty()
    } else {
        remaining_edges(s[0]) + queue_order(s.drop_first())
    }
}

/// One call of `next` yields the first pair of [`queue_order`] and leaves the rest, keeping no
/// empty iterator.
proof fn lemma_queue_next<N: Node>(s: Seq<EdgesView<N>>)
    requires
        saved_ok(s),
    ensures
        ({
            let (s2, nx) = spec_queue_next(s);
            &&& saved_ok(s2)
            &&& s.len() == 0 ==> nx is None && s2 == s && queue_order(s).len() == 0
            &&& s.len() > 0 ==> queue_order(s).len() > 0 && nx == Some(queue_order(s)[0])
                && queue_order(s2) =~= queue_order(s).drop_first()
        }),
{
    if s.len() > 0 {
        let e = s[0];
        lemma_remaining_edges_next(e);
        let (e2, _) = spec_edges_next(e);
        let (s2, _) = spec_queue_next(s);
        if e2.2 < e2.3 {
            assert(s2.drop_first() =~= s.drop_first());
            assert(s2[0] == e2);
        }
        assert forall|i: int| 0 <= i < s2.len() implies edges_view_inv(#[trigger] s2[i])
            && s2[i].2 < s2[i].3 by {
            if e2.2 < e2.3 {
                if i > 0 {
                    assert(s2[i] == s[i]);
                }
            } else {
                assert(s2[i] == s[i + 1]);
            }
        }
    }
}

/// A queue with nothing still to yield is empty.
proof fn lemma_queue_empty<N: Node>(s: Seq<EdgesView<N>>)
    requires
        saved_ok(s),
        queue_order(s).len() == 0,
    ensures
        s.len() == 0,
{
    if s.len() > 0 {
        lemma_remaining_edges_next(s[0]);
    }
}

/// The iteration order of [`RecurQueue`], which makes traversals breadth-first: with nothing
/// saved in between, `k` calls of `next` yield the pairs of the earliest saved iterator first,
/// then those of the iterators saved after it, each in increasing index order, then `None`; no
/// empty iterator is kept, and the queue is empty once all are yielded.
pub proof fn lemma_queue_order<N: Node>(s: Seq<EdgesView<N>>, k: nat)
    requires
        saved_ok(s),
    ensures
        recur_yields::<N, RecurQueue<N>>(s, k).len() == k,
        forall|j: int|
            0 <= j < k ==> #[trigger] recur_yields::<N, RecurQueue<N>>(s, k)[j] == if j
                < queue_order(s).len() {
                Some(queue_order(s)[j])
            } else {
                None
            },
        saved_ok(recur_after::<N, RecurQueue<N>>(s, k)),
        k >= queue_order(s).len() ==> recur_after::<N, RecurQueue<N>>(s, k).len() == 0,
    decreases k,
{
    if k > 0 {
        lemma_queue_next(s);
        let s2 = spec_queue_next(s).0;
        lemma_queue_order(s2, (k - 1) as nat);
        assert forall|j: int| 0 < j < k implies #[trigger] recur_yields::<N, RecurQueue<N>>(
            s,
            k,
        )[j] == recur_yields::<N, RecurQueue<N>>(s2, (k - 1) as nat)[j - 1] by {}
    } else if queue_order(s).len() == 0 {
        lemma_queue_empty(s);
    }
}

/// Saving appends at the back: the pairs that a queue has still to yield after saving an
/// iterator are those it had, then those of the iterator.
pub proof fn lemma_queue_save_order<N: Node>(s: Seq<EdgesView<N>>, e: EdgesView<N>)
    ensures
        queue_order(RecurQueue::<N>::spec_save(s, e)) == queue_order(s) + remaining_edges(e),
    decreases s.len(),
{
    let s2 = RecurQueue::<N>::spec_save(s, e);
    if s.len() == 0 {
        assert(s2.drop_first() =~= Seq::<EdgesView<N>>::empty());
        assert(queue_order(s2) =~= queue_order(s) + remaining_edges(e));
    } else {
        assert(s2[0] == s[0]);
        assert(s2.drop_first() =~= RecurQueue::<N>::spec_save(s.drop_first(), e));
        lemma_queue_save_order(s.drop_first(), e);
        assert(queue_order(s2) == remaining_edges(s[0]) + queue_order(s2.drop_first()));
        assert(queue_order(s2) =~= queue_order(s) + remaining_edges(e));
    }
}

impl<N: Node> RecurMode<N> for RecurQueue<N> {
    open spec fn inv(&self) -> bool {
        saved_ok(self@)
    }

    open spec fn spec_immediate() -> bool {
        false
    }

    open spec fn spec_new() -> Seq<EdgesView<N>> {
        Seq::empty()
    }

    open spec fn spec_save(v: Seq<EdgesView<N>>, e: EdgesView<N>) -> Seq<EdgesView<N>> {
        v.push(e)
    }

    open spec fn spec_next(v: Seq<EdgesView<N>>) -> (Seq<EdgesView<N>>, Option<(N, N)>) {
        spec_queue_next(v)
    }

    open spec fn spec_all_saved(v: Seq<EdgesView<N>>, p: spec_fn(EdgesView<N>) -> bool) -> bool {
        forall|i: int| 0 <= i < v.len() ==> p(#[trigger] v[i])
    }

    proof fn lemma_saved(v: Seq<EdgesView<N>>, e: EdgesView<N>, p: spec_fn(EdgesView<N>) -> bool) {
        let s2 = v.push(e);
        if Self::spec_all_saved(v, p) && p(e) {
            assert forall|i: int| 0 <= i < s2.len() implies p(#[trigger] s2[i]) by {
                if i < v.len() {
                    assert(s2[i] == v[i]);
                }
            }
        }
        if Self::spec_all_saved(v, p) && v.len() > 0 {
            let (v2, nx) = Self::spec_next(v);
            if advance_keeps(p) {
                assert forall|i: int| 0 <= i < v2.len() implies p(#[trigger] v2[i]) by {
                    let first = v[0];
                    assert(p(v[0]));
                    assert(p((first.0, first.1, (first.2 + 1) as usize, first.3)));
                    let (e2, item) = spec_edges_next(v[0]);
                    if e2.2 >= e2.3 {
                        assert(v2[i] == v[i + 1]);
                    } else if i > 0 {
                        assert(v2[i] == v[i]);
                    }
                }
            }
            if nx is Some {
                assert(p(v[0]));
            }
        }
    }

    open spec fn spec_all_pending(v: Seq<EdgesView<N>>, p: spec_fn(N, N) -> bool) -> bool {
        forall|i: int| 0 <= i < v.len() ==> edges_all(#[trigger] v[i], p)
    }

    proof fn lemma_pending(v: Seq<EdgesView<N>>, e: EdgesView<N>, p: spec_fn(N, N) -> bool) {
        let s2 = v.push(e);
        if Self::spec_all_pending(s2, p) {
            assert(s2[v.len() as int] == e);
            assert forall|i: int| 0 <= i < v.len() implies edges_all(#[trigger] v[i], p) by {
                assert(s2[i] == v[i]);
            }
        }
        let ne = has_edges::<N>();
        if v.len() > 0 {
            let top = v[0];
            let (v2, nx) = Self::spec_next(v);
            let (e2, item) = spec_edges_next(top);
            if let Some((x, y)) = nx {
                assert(nx == item);
                assert(top.2 < top.3);
                assert(e2 == (top.0, top.1, (top.2 + 1) as usize, top.3));
                if p(x, y) && Self::spec_all_pending(v2, p) {
                    assert forall|i: int| 0 <= i < v.len() implies edges_all(#[trigger] v[i], p) by {
                        if i == 0 {
                            assert forall|j: usize| top.2 <= j < top.3 implies #[trigger] p(
                                top.0.spec_edge(j),
                                top.1.spec_edge(j),
                            ) by {
                                if j == top.2 {
                                    assert(x == top.0.spec_edge(j));
                                    assert(y == top.1.spec_edge(j));
                                    assert(p(x, y));
                                } else {
                                    assert(e2.2 < e2.3);
                                    assert(v2[0] == e2);
                                    assert(edges_all(v2[0], p));
                                    assert(e2.2 <= j < e2.3);
                                    assert(p(e2.0.spec_edge(j), e2.1.spec_edge(j)));
                                }
                                assert(p(top.0.spec_edge(j), top.1.spec_edge(j)));
                            }
                        } else if e2.2 >= e2.3 {
                            assert(v2[i - 1] == v[i]);
                        } else {
                            assert(v2[i] == v[i]);
                        }
                    }
                }
            }
            if Self::spec_all_saved(v, ne) {
                assert(ne(v[0]));
                assert forall|i: int| 0 <= i < v2.len() implies ne(#[trigger] v2[i]) by {
                    if e2.2 >= e2.3 {
                        assert(v2[i] == v[i + 1]);
                    } else if i > 0 {
                        assert(v2[i] == v[i]);
                    }
                }
            }
        }
    }

    open spec fn spec_weight(v: Seq<EdgesView<N>>, w: spec_fn(N, N) -> nat) -> nat {
        views_weight(v, w)
    }

    proof fn lemma_weight(v: Seq<EdgesView<N>>, e: EdgesView<N>, w: spec_fn(N, N) -> nat) {
        assert(Seq::<EdgesView<N>>::empty().len() == 0);
        assert(v.push(e).drop_last() =~= v);
        if v.len() > 0 && Self::spec_all_saved(v, has_edges()) {
            let first = v[0];
            assert(has_edges::<N>()(v[0]));
            let (e2, item) = spec_edges_next(first);
            lemma_views_weight_front(v, w);
            if e2.2 < e2.3 {
                lemma_views_weight_prepend(e2, v.drop_first(), w);
            }
        }
    }

    /// Create a new instance with capacity [`INITIAL_CAPACITY`].
    fn new() -> (r: Self) {
        let r = RecurQueue(VecDeque::with_capacity(INITIAL_CAPACITY));
        assert(r@ =~= Seq::<EdgesView<N>>::empty());
        r
    }

    fn immediate() -> (r: bool) {
        false
    }

    fn save(&mut self, edges_iter: EdgesIter<N>) {
        let ghost e = edges_iter@;
        self.0.push_back(edges_iter);
        assert(self@ =~= old(self)@.push(e));
    }

    fn next(&mut self) -> (r: Option<(N, N)>) {
        let ghost v = old(self)@;
        match self.0.pop_front() {
            None => {
                assert(self@ =~= v);
                None
            },
            Some(mut edges_iter) => {
                assert(self@ =~= v.drop_first());
                assert(edges_iter@ == v[0]);
                let next = edges_iter.next();
                if !edges_iter.is_empty() {
                    let ghost e2 = edges_iter@;
                    self.0.push_front(edges_iter);
                    assert(self@ =~= seq![e2] + v.drop_first());
                }
                next
            },
        }
    }

    /// An aborted precheck might have left some elements, so reset before reusing.
    fn reset(self) -> (r: Self) {
        let mut s = self;
        s.0.clear();
        assert(s@ =~= Seq::<EdgesView<N>>::empty());
        s
    }
}

} // verus!
