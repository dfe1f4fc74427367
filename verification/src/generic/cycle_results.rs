use vstd::prelude::*;

use crate::basic::modes::lemma_limited_terminates;
use crate::basic::recursion::CallStack;
use crate::deep_safe::recursion::queue::RecurQueue;
use crate::cycle_safe::modes::interleave::random::NumberGenerator;
use crate::cycle_safe::modes::interleave::{
    self, fast_limit_range_end, lemma_interleave_never_errs, Interleave, InterleaveView, SLOW_LIMIT,
};
use crate::generic::equiv::{
    advance_keeps, children_spec, continues, edges_all, from_saved, has_edges,
    lemma_never_errs_outcome, main_spec, run_outcome, run_spec, terminates, DefaultMode,
    DescendMode, EdgesView, RecurMode,
};
use crate::generic::precheck_interleave::{
    self, interleave_terminates, precheck_interleave_result, precheck_outcome,
};
use crate::generic::equiv_classes::{
    in_class_of, lemma_same_class_merges, same, spec_same_class, uf_view_ok, UfView,
};
use crate::generic::results::{
    all_equivalent, at_path, compares_at, descended, equivalent_at, lemma_at_path_prepend,
    lemma_complete_equivalence, lemma_inequivalence_is_witnessed, lemma_limited_agrees,
    lemma_new_gives_nothing,
};
use crate::{Cmp, Node};

verus! {

/// The comparison of two nodes ignoring their descendents.
pub open spec fn local<N: Node>(x: N, y: N) -> Result<usize, N::Cmp> {
    x.spec_equiv_modulo_descendents_then_amount_edges(&y)
}

/// Whether each index of the path is among the edges of the node that it leaves, from `n`.
pub open spec fn valid_path<N: Node>(n: N, p: Seq<usize>) -> bool
    decreases p.len(),
{
    p.len() == 0 || (valid_path(n, p.drop_last()) && p.last() < at_path(
        n,
        p.drop_last(),
    ).spec_amount_edges())
}

/// Whether `x` is reached from `n` by following edges.
pub open spec fn reaches<N: Node>(n: N, x: N) -> bool {
    exists|p: Seq<usize>| #[trigger] valid_path(n, p) && at_path(n, p) == x
}

/// Whether `x` is reached from `a` or from `b` by following edges.
pub open spec fn reachable<N: Node>(a: N, b: N, x: N) -> bool {
    reaches(a, x) || reaches(b, x)
}

/// The roots are reachable.
pub proof fn lemma_reachable_roots<N: Node>(a: N, b: N)
    ensures
        reachable(a, b, a),
        reachable(a, b, b),
{
    let e = Seq::<usize>::empty();
    assert(valid_path(a, e) && at_path(a, e) == a);
    assert(valid_path(b, e) && at_path(b, e) == b);
}

/// The edges of a reachable node are reachable.
pub proof fn lemma_reachable_edge<N: Node>(a: N, b: N, x: N, i: usize)
    requires
        reachable(a, b, x),
        i < x.spec_amount_edges(),
    ensures
        reachable(a, b, x.spec_edge(i)),
{
    let n = if reaches(a, x) {
        a
    } else {
        b
    };
    let p = choose|p: Seq<usize>| #[trigger] valid_path(n, p) && at_path(n, p) == x;
    assert(p.push(i).drop_last() =~= p);
    assert(valid_path(n, p.push(i)) && at_path(n, p.push(i)) == x.spec_edge(i));
}

/// Nodes reachable from `a` or `b` with the same identity are the same node.
pub open spec fn ids_identify<N: Node>(a: N, b: N) -> bool {
    forall|x: N, y: N|
        reachable(a, b, x) && reachable(a, b, y) && #[trigger] x.spec_id() == #[trigger] y.spec_id()
            ==> x == y
}

/// The comparison ignoring descendents behaves as an equivalence on the nodes reachable from
/// `a` or `b`: where it lets two nodes be descended it does so symmetrically and transitively,
/// with the same amount of edges, which both nodes have, and where it does not, its result
/// represents inequivalence.
pub open spec fn local_is_equivalence<N: Node>(a: N, b: N) -> bool {
    &&& forall|x: N, y: N|
        reachable(a, b, x) && reachable(a, b, y) && #[trigger] local(x, y) is Ok ==> local(y, x)
            == local(x, y) && local(x, y)->Ok_0 <= x.spec_amount_edges() && local(x, y)->Ok_0
            <= y.spec_amount_edges()
    &&& forall|x: N, y: N, z: N|
        reachable(a, b, x) && reachable(a, b, y) && reachable(a, b, z) && #[trigger] local(x, y) is Ok
            && #[trigger] local(y, z) is Ok ==> local(x, z) == local(x, y) && local(y, z) == local(
            x,
            y,
        )
    &&& forall|x: N, y: N|
        reachable(a, b, x) && reachable(a, b, y) ==> (#[trigger] local(x, y) matches Err(c)
            ==> !c.spec_is_equiv())
}

/// A relation on counterparts that is kept by descending: related counterparts are the same
/// node, or compare equivalent ignoring descendents and have related counterpart edges.
pub open spec fn closed<N: Node>(s: spec_fn(N, N) -> bool) -> bool {
    forall|x: N, y: N| #[trigger]
        s(x, y) ==> x.spec_id() == y.spec_id() || (local(x, y) matches Ok(k) && forall|i: usize|
            i < k ==> #[trigger] s(x.spec_edge(i), y.spec_edge(i)))
}

/// Every descended path from counterparts in a closed relation reaches counterparts in it.
pub proof fn lemma_closed_reaches<N: Node>(s: spec_fn(N, N) -> bool, a: N, b: N, p: Seq<usize>)
    requires
        closed(s),
        s(a, b),
        descended(a, b, p),
    ensures
        s(at_path(a, p), at_path(b, p)),
    decreases p.len(),
{
    if p.len() > 0 {
        let q = p.drop_last();
        lemma_closed_reaches(s, a, b, q);
        let x = at_path(a, q);
        let y = at_path(b, q);
        assert(s(x, y));
        assert(compares_at(a, b, q) == local(x, y));
        assert(s(x.spec_edge(p.last()), y.spec_edge(p.last())));
    }
}

/// Coinduction: counterparts in a closed relation are equivalent at every descended path.
pub proof fn lemma_closed_all_equivalent<N: Node>(s: spec_fn(N, N) -> bool, a: N, b: N)
    requires
        closed(s),
        s(a, b),
    ensures
        all_equivalent(a, b),
{
    assert forall|p: Seq<usize>| #[trigger] descended(a, b, p) implies equivalent_at(a, b, p) by {
        lemma_closed_reaches(s, a, b, p);
    }
}

/// The nodes are related by `g` in one direction or the other.
pub open spec fn linked<T>(g: spec_fn(T, T) -> bool, x: T, y: T) -> bool {
    g(x, y) || g(y, x)
}

/// The nodes at `j` and `j + 1` of the sequence are linked.
pub open spec fn link_at<T>(g: spec_fn(T, T) -> bool, c: Seq<T>, j: int) -> bool {
    linked(g, c[j], c[j + 1])
}

/// A non-empty sequence of nodes each consecutive two of which are linked.
pub open spec fn is_chain<T>(g: spec_fn(T, T) -> bool, c: Seq<T>) -> bool {
    c.len() >= 1 && forall|j: int| 0 <= j < c.len() - 1 ==> #[trigger] link_at(g, c, j)
}

/// Whether a chain leads from `x` to `y`: the equivalence closure of `g`.
pub open spec fn connected<T>(g: spec_fn(T, T) -> bool, x: T, y: T) -> bool {
    exists|c: Seq<T>| #[trigger] is_chain(g, c) && c[0] == x && c.last() == y
}

/// Related nodes are connected.
pub proof fn lemma_connected_step<T>(g: spec_fn(T, T) -> bool, x: T, y: T)
    requires
        g(x, y),
    ensures
        connected(g, x, y),
{
    let c = seq![x, y];
    assert(link_at(g, c, 0));
    assert(is_chain(g, c));
}

/// A node is connected to itself.
pub proof fn lemma_connected_refl<T>(g: spec_fn(T, T) -> bool, x: T)
    ensures
        connected(g, x, x),
{
    let c = seq![x];
    assert(is_chain(g, c));
}

/// Connection is symmetric.
pub proof fn lemma_connected_sym<T>(g: spec_fn(T, T) -> bool, x: T, y: T)
    requires
        connected(g, x, y),
    ensures
        connected(g, y, x),
{
    let c = choose|c: Seq<T>| #[trigger] is_chain(g, c) && c[0] == x && c.last() == y;
    let n = c.len();
    let r = Seq::new(n, |j: int| c[n - 1 - j]);
    assert forall|j: int| 0 <= j < r.len() - 1 implies #[trigger] link_at(g, r, j) by {
        assert(link_at(g, c, n - 2 - j));
    }
    assert(is_chain(g, r));
}

/// Connection is transitive.
pub proof fn lemma_connected_trans<T>(g: spec_fn(T, T) -> bool, x: T, y: T, z: T)
    requires
        connected(g, x, y),
        connected(g, y, z),
    ensures
        connected(g, x, z),
{
    let c1 = choose|c: Seq<T>| #[trigger] is_chain(g, c) && c[0] == x && c.last() == y;
    let c2 = choose|c: Seq<T>| #[trigger] is_chain(g, c) && c[0] == y && c.last() == z;
    let n1 = c1.len();
    let c = c1 + c2.subrange(1, c2.len() as int);
    assert forall|j: int| 0 <= j < c.len() - 1 implies #[trigger] link_at(g, c, j) by {
        if j < n1 - 1 {
            assert(link_at(g, c1, j));
        } else {
            assert(link_at(g, c2, j - n1 + 1));
        }
    }
    assert(is_chain(g, c));
}

/// The counterparts are the same node, or compare equivalent ignoring descendents and have
/// connected counterpart edges.
pub open spec fn good<N: Node>(g: spec_fn(N, N) -> bool, x: N, y: N) -> bool {
    x == y || (local(x, y) matches Ok(k) && forall|i: usize|
        i < k ==> #[trigger] connected(g, x.spec_edge(i), y.spec_edge(i)))
}

/// [`good`] is symmetric.
pub proof fn lemma_good_sym<N: Node>(g: spec_fn(N, N) -> bool, a: N, b: N, x: N, y: N)
    requires
        local_is_equivalence(a, b),
        reachable(a, b, x),
        reachable(a, b, y),
        good(g, x, y),
    ensures
        good(g, y, x),
{
    if x != y {
        let k = local(x, y)->Ok_0;
        assert(local(y, x) == local(x, y));
        assert forall|i: usize| i < k implies #[trigger] connected(
            g,
            y.spec_edge(i),
            x.spec_edge(i),
        ) by {
            lemma_connected_sym(g, x.spec_edge(i), y.spec_edge(i));
        }
    }
}

/// [`good`] is transitive.
pub proof fn lemma_good_trans<N: Node>(g: spec_fn(N, N) -> bool, a: N, b: N, x: N, y: N, z: N)
    requires
        local_is_equivalence(a, b),
        reachable(a, b, x),
        reachable(a, b, y),
        reachable(a, b, z),
        good(g, x, y),
        good(g, y, z),
    ensures
        good(g, x, z),
{
    if x != y && y != z {
        let k = local(x, y)->Ok_0;
        assert(local(x, z) == local(x, y) && local(y, z) == local(x, y));
        assert forall|i: usize| i < k implies #[trigger] connected(
            g,
            x.spec_edge(i),
            z.spec_edge(i),
        ) by {
            lemma_connected_trans(g, x.spec_edge(i), y.spec_edge(i), z.spec_edge(i));
        }
    }
}

/// Every pair related by `g` is of nodes reachable from `a` or `b`, and is [`good`] up to the
/// identity of the nodes.
pub open spec fn all_good<N: Node>(g: spec_fn(N, N) -> bool, a: N, b: N) -> bool {
    forall|x: N, y: N| #[trigger]
        g(x, y) ==> reachable(a, b, x) && reachable(a, b, y) && (x.spec_id() == y.spec_id() || good(
            g,
            x,
            y,
        ))
}

/// The ends of a chain of pairs that are [`good`] are [`good`], and, when the chain has a link,
/// reachable.
pub proof fn lemma_chain_good<N: Node>(g: spec_fn(N, N) -> bool, a: N, b: N, c: Seq<N>)
    requires
        ids_identify(a, b),
        local_is_equivalence(a, b),
        all_good(g, a, b),
        is_chain(g, c),
    ensures
        good(g, c[0], c.last()),
        c.len() > 1 ==> reachable(a, b, c[0]) && reachable(a, b, c.last()),
    decreases c.len(),
{
    let n = c.len();
    if n > 1 {
        let d = c.drop_last();
        assert forall|j: int| 0 <= j < d.len() - 1 implies #[trigger] link_at(g, d, j) by {
            assert(link_at(g, c, j));
        }
        lemma_chain_good(g, a, b, d);
        let z = c[n - 2];
        let y = c[n - 1];
        assert(link_at(g, c, n - 2));
        if g(z, y) {
            if z.spec_id() == y.spec_id() {
                assert(z == y);
            }
        } else {
            assert(g(y, z));
            if z.spec_id() == y.spec_id() {
                assert(y == z);
            } else {
                lemma_good_sym(g, a, b, y, z);
            }
        }
        lemma_good_trans(g, a, b, c[0], z, y);
    }
}

/// The equivalence closure of a relation all of whose pairs are [`good`] is closed.
pub proof fn lemma_connected_closed<N: Node>(g: spec_fn(N, N) -> bool, a: N, b: N)
    requires
        ids_identify(a, b),
        local_is_equivalence(a, b),
        all_good(g, a, b),
    ensures
        closed(|x: N, y: N| connected(g, x, y)),
{
    let s = |x: N, y: N| connected(g, x, y);
    assert forall|x: N, y: N| #[trigger] s(x, y) implies x.spec_id() == y.spec_id() || (local(
        x,
        y,
    ) matches Ok(k) && forall|i: usize| i < k ==> #[trigger] s(x.spec_edge(i), y.spec_edge(i))) by {
        let c = choose|c: Seq<N>| #[trigger] is_chain(g, c) && c[0] == x && c.last() == y;
        lemma_chain_good(g, a, b, c);
    }
}

/// The counterparts are recorded in the same class of `u`.
pub open spec fn same_in<N: Node>(u: UfView, x: N, y: N) -> bool {
    same(u, x.spec_id(), y.spec_id())
}

/// Whether the path is descended from `a` and `b` without passing through counterparts that are
/// recorded in the same class of `u`.
pub open spec fn descended_outside<N: Node>(u: UfView, a: N, b: N, path: Seq<usize>) -> bool
    decreases path.len(),
{
    path.len() == 0 || {
        let q = path.drop_last();
        &&& descended_outside(u, a, b, q)
        &&& !same_in(u, at_path(a, q), at_path(b, q))
        &&& at_path(a, q).spec_id() != at_path(b, q).spec_id()
        &&& compares_at(a, b, q) matches Ok(k) && path.last() < k
    }
}

/// The counterparts are the same node, are recorded in the same class of `u`, or compare
/// equivalent ignoring their descendents.
pub open spec fn ends_well<N: Node>(u: UfView, x: N, y: N) -> bool {
    x.spec_id() == y.spec_id() || same_in(u, x, y) || local(x, y) is Ok
}

/// Every path descended outside the classes of `u` reaches counterparts that end well.
pub open spec fn equivalent_outside<N: Node>(u: UfView, x: N, y: N) -> bool {
    forall|p: Seq<usize>| #[trigger]
        descended_outside(u, x, y, p) ==> ends_well(u, at_path(x, p), at_path(y, p))
}

/// [`equivalent_outside`], as a relation.
pub open spec fn outside_fn<N: Node>(u: UfView) -> spec_fn(N, N) -> bool {
    |x: N, y: N| equivalent_outside(u, x, y)
}

/// The first step of a path descended outside the classes.
pub proof fn lemma_outside_first<N: Node>(u: UfView, a: N, b: N, path: Seq<usize>)
    requires
        descended_outside(u, a, b, path),
        path.len() > 0,
    ensures
        !same_in(u, a, b),
        a.spec_id() != b.spec_id(),
        local(a, b) matches Ok(k) && path[0] < k,
    decreases path.len(),
{
    if path.len() > 1 {
        lemma_outside_first(u, a, b, path.drop_last());
    } else {
        assert(path.drop_last() =~= Seq::<usize>::empty());
    }
}

/// A path that starts with an edge descended outside the classes is descended outside them
/// exactly when its rest is descended outside them from the counterpart edges.
pub proof fn lemma_outside_prepend<N: Node>(u: UfView, a: N, b: N, i: usize, path: Seq<usize>)
    requires
        !same_in(u, a, b),
        a.spec_id() != b.spec_id(),
        local(a, b) matches Ok(k) && i < k,
    ensures
        descended_outside(u, a, b, seq![i] + path) == descended_outside(
            u,
            a.spec_edge(i),
            b.spec_edge(i),
            path,
        ),
        at_path(a, seq![i] + path) == at_path(a.spec_edge(i), path),
        at_path(b, seq![i] + path) == at_path(b.spec_edge(i), path),
    decreases path.len(),
{
    lemma_at_path_prepend(a, i, path);
    lemma_at_path_prepend(b, i, path);
    if path.len() == 0 {
        assert((seq![i] + path).drop_last() =~= Seq::<usize>::empty());
        assert(descended_outside(u, a, b, Seq::<usize>::empty()));
    } else {
        let q = path.drop_last();
        assert((seq![i] + path).drop_last() =~= seq![i] + q);
        lemma_outside_prepend(u, a, b, i, q);
    }
}

/// Counterparts that are the same node, are recorded in the same class, or compare equivalent
/// ignoring descendents with no edges to descend, are equivalent outside the classes.
pub proof fn lemma_outside_stop<N: Node>(u: UfView, x: N, y: N)
    requires
        x.spec_id() == y.spec_id() || same_in(u, x, y) || local(x, y) == Ok::<usize, N::Cmp>(0),
    ensures
        equivalent_outside(u, x, y),
{
    assert forall|p: Seq<usize>| #[trigger] descended_outside(u, x, y, p) implies ends_well(
        u,
        at_path(x, p),
        at_path(y, p),
    ) by {
        if p.len() > 0 {
            lemma_outside_first(u, x, y, p);
        }
        assert(at_path(x, p) == x);
        assert(at_path(y, p) == y);
    }
}

/// Counterparts, not recorded in the same class, that compare equivalent ignoring descendents
/// are equivalent outside the classes exactly when their counterpart edges are.
pub proof fn lemma_outside_edges<N: Node>(u: UfView, x: N, y: N, k: usize)
    requires
        x.spec_id() != y.spec_id(),
        !same_in(u, x, y),
        local(x, y) == Ok::<usize, N::Cmp>(k),
    ensures
        equivalent_outside(u, x, y) <==> forall|j: usize|
            j < k ==> #[trigger] equivalent_outside(u, x.spec_edge(j), y.spec_edge(j)),
{
    if forall|j: usize| j < k ==> #[trigger] equivalent_outside(u, x.spec_edge(j), y.spec_edge(j)) {
        assert forall|p: Seq<usize>| #[trigger] descended_outside(u, x, y, p) implies ends_well(
            u,
            at_path(x, p),
            at_path(y, p),
        ) by {
            if p.len() == 0 {
                assert(at_path(x, p) == x);
                assert(at_path(y, p) == y);
            } else {
                lemma_outside_first(u, x, y, p);
                let i = p[0];
                let rest = p.subrange(1, p.len() as int);
                assert(p =~= seq![i] + rest);
                lemma_outside_prepend(u, x, y, i, rest);
                assert(equivalent_outside(u, x.spec_edge(i), y.spec_edge(i)));
            }
        }
    }
    if equivalent_outside(u, x, y) {
        assert forall|j: usize| j < k implies #[trigger] equivalent_outside(
            u,
            x.spec_edge(j),
            y.spec_edge(j),
        ) by {
            assert forall|p: Seq<usize>| #[trigger] descended_outside(
                u,
                x.spec_edge(j),
                y.spec_edge(j),
                p,
            ) implies ends_well(u, at_path(x.spec_edge(j), p), at_path(y.spec_edge(j), p)) by {
                lemma_outside_prepend(u, x, y, j, p);
                assert(descended_outside(u, x, y, seq![j] + p));
            }
        }
    }
}

/// Every two counterparts reachable from `a` or `b` and recorded in the same class of `u` are
/// [`good`].
pub open spec fn class_good<N: Node>(g: spec_fn(N, N) -> bool, a: N, b: N, u: UfView) -> bool {
    forall|x: N, y: N|
        reachable(a, b, x) && reachable(a, b, y) && #[trigger] same_in(u, x, y) ==> good(g, x, y)
}

/// A reachable member of the class of a reachable node, or that node itself, is [`good`] with
/// it.
proof fn lemma_member_good<N: Node>(
    g: spec_fn(N, N) -> bool,
    a: N,
    b: N,
    u: UfView,
    x: N,
    m: N,
)
    requires
        ids_identify(a, b),
        class_good(g, a, b, u),
        reachable(a, b, x),
        reachable(a, b, m),
        in_class_of(u, x.spec_id(), m.spec_id()),
    ensures
        good(g, x, m),
{
    if x.spec_id() == m.spec_id() {
        assert(x == m);
    } else {
        assert(same_in(u, x, m));
    }
}

/// Merging the classes of two reachable [`good`] counterparts keeps every two reachable
/// counterparts in the same class [`good`].
pub proof fn lemma_merge_good<N: Node>(
    g: spec_fn(N, N) -> bool,
    a: N,
    b: N,
    u: UfView,
    x0: N,
    y0: N,
)
    requires
        ids_identify(a, b),
        local_is_equivalence(a, b),
        uf_view_ok(u),
        class_good(g, a, b, u),
        reachable(a, b, x0),
        reachable(a, b, y0),
        good(g, x0, y0),
    ensures
        class_good(g, a, b, spec_same_class(u, x0.spec_id(), y0.spec_id()).0),
{
    let u2 = spec_same_class(u, x0.spec_id(), y0.spec_id()).0;
    assert forall|x: N, y: N|
        reachable(a, b, x) && reachable(a, b, y) && #[trigger] same_in(u2, x, y) implies good(
        g,
        x,
        y,
    ) by {
        lemma_same_class_merges(u, x0.spec_id(), y0.spec_id(), x.spec_id(), y.spec_id());
        if !same_in(u, x, y) {
            lemma_good_sym(g, a, b, x0, y0);
            if in_class_of(u, x.spec_id(), x0.spec_id()) {
                lemma_member_good(g, a, b, u, x, x0);
                if in_class_of(u, y.spec_id(), x0.spec_id()) {
                    lemma_member_good(g, a, b, u, y, x0);
                    lemma_good_sym(g, a, b, y, x0);
                    lemma_good_trans(g, a, b, x, x0, y);
                } else {
                    lemma_member_good(g, a, b, u, y, y0);
                    lemma_good_sym(g, a, b, y, y0);
                    lemma_good_trans(g, a, b, x0, y0, y);
                    lemma_good_trans(g, a, b, x, x0, y);
                }
            } else {
                lemma_member_good(g, a, b, u, x, y0);
                if in_class_of(u, y.spec_id(), y0.spec_id()) {
                    lemma_member_good(g, a, b, u, y, y0);
                    lemma_good_sym(g, a, b, y, y0);
                    lemma_good_trans(g, a, b, x, y0, y);
                } else {
                    lemma_member_good(g, a, b, u, y, x0);
                    lemma_good_sym(g, a, b, y, x0);
                    lemma_good_trans(g, a, b, y0, x0, y);
                    lemma_good_trans(g, a, b, x, y0, y);
                }
            }
        }
    }
}

/// Every two IDs in the same class of `u` are in the same class of `u2`.
pub open spec fn grows(u: UfView, u2: UfView) -> bool {
    forall|p: u64, q: u64| #[trigger] same(u, p, q) ==> same(u2, p, q)
}

/// What the interleave's decision on descending does to its classes: where it does not descend,
/// the counterparts were already in the same class and nothing changes; where it does, their
/// classes are merged or nothing changes.
pub proof fn lemma_do_edges_classes<N: Node, P: interleave::Params>(
    v: <Interleave<P> as View>::V,
    a: N,
    b: N,
)
    requires
        uf_view_ok(v.1),
    ensures
        ({
            let (v2, e) = <Interleave<P> as DescendMode<N>>::spec_do_edges(v, a, b);
            &&& e is Ok
            &&& uf_view_ok(v2.1)
            &&& grows(v.1, v2.1)
            &&& !e->Ok_0 ==> v2.1 == v.1 && same_in(v.1, a, b)
            &&& v2.1 == v.1 || v2.1 == spec_same_class(v.1, a.spec_id(), b.spec_id()).0
        }),
{
    let u2 = spec_same_class(v.1, a.spec_id(), b.spec_id()).0;
    assert forall|p: u64, q: u64| #[trigger] same(v.1, p, q) implies same(u2, p, q) by {
        lemma_same_class_merges(v.1, a.spec_id(), b.spec_id(), p, q);
    }
    lemma_same_class_merges(v.1, a.spec_id(), b.spec_id(), a.spec_id(), b.spec_id());
}

/// The main logic of the interleave only grows the classes.
pub proof fn lemma_main_grows<N: Node, P: interleave::Params, R: RecurMode<N>>(
    dv: <Interleave<P> as View>::V,
    rv: <R as View>::V,
    x: N,
    y: N,
    fuel: nat,
)
    requires
        uf_view_ok(dv.1),
    ensures
        main_spec::<N, Interleave<P>, R>(dv, rv, x, y, fuel) matches Some((dv1, _, _)) ==> uf_view_ok(
            dv1.1,
        ) && grows(dv.1, dv1.1),
    decreases fuel, 0nat,
{
    let (dv1, t) = <Interleave<P> as DescendMode<N>>::spec_do_traverse(dv);
    if x.spec_id() != y.spec_id() {
        if let Ok(k) = local(x, y) {
            if k != 0 {
                lemma_do_edges_classes::<N, P>(dv1, x, y);
                let (dv2, e) = <Interleave<P> as DescendMode<N>>::spec_do_edges(dv1, x, y);
                if R::spec_immediate() && fuel > 0 {
                    lemma_children_grows::<N, P, R>(dv2, rv, x, y, 0, k, (fuel - 1) as nat);
                }
            }
        }
    }
}

/// The immediate recursion of the interleave on edges only grows the classes.
pub proof fn lemma_children_grows<N: Node, P: interleave::Params, R: RecurMode<N>>(
    dv: <Interleave<P> as View>::V,
    rv: <R as View>::V,
    x: N,
    y: N,
    i: usize,
    k: usize,
    fuel: nat,
)
    requires
        uf_view_ok(dv.1),
    ensures
        children_spec::<N, Interleave<P>, R>(dv, rv, x, y, i, k, fuel) matches Some((dv1, _, _))
            ==> uf_view_ok(dv1.1) && grows(dv.1, dv1.1),
    decreases fuel, k - i,
{
    if i < k {
        lemma_main_grows::<N, P, R>(dv, rv, x.spec_edge(i), y.spec_edge(i), fuel);
        if let Some((dv1, rv1, r)) = main_spec::<N, Interleave<P>, R>(
            dv,
            rv,
            x.spec_edge(i),
            y.spec_edge(i),
            fuel,
        ) {
            if continues::<N, core::convert::Infallible>(r) {
                lemma_children_grows::<N, P, R>(dv1, rv1, x, y, (i + 1) as usize, k, fuel);
            }
        }
    }
}

/// The whole interleave only grows the classes.
pub proof fn lemma_run_grows<N: Node, P: interleave::Params, R: RecurMode<N>>(
    dv: <Interleave<P> as View>::V,
    rv: <R as View>::V,
    x: N,
    y: N,
    fuel: nat,
)
    requires
        uf_view_ok(dv.1),
    ensures
        run_spec::<N, Interleave<P>, R>(dv, rv, x, y, fuel) matches Some((dv1, _, _)) ==> uf_view_ok(
            dv1.1,
        ) && grows(dv.1, dv1.1),
    decreases fuel,
{
    lemma_main_grows::<N, P, R>(dv, rv, x, y, fuel);
    if let Some((dv1, rv1, r)) = main_spec::<N, Interleave<P>, R>(dv, rv, x, y, fuel) {
        if continues::<N, core::convert::Infallible>(r) {
            let (rv2, nx) = R::spec_next(rv1);
            if let Some((x2, y2)) = nx {
                if fuel > 0 {
                    lemma_run_grows::<N, P, R>(dv1, rv2, x2, y2, (fuel - 1) as nat);
                }
            }
        }
    }
}

/// With immediate recursion, the main logic leaves the recursion state as it was.
pub proof fn lemma_main_keeps<N: Node, D: DescendMode<N>, R: RecurMode<N>>(
    dv: <D as View>::V,
    rv: <R as View>::V,
    x: N,
    y: N,
    fuel: nat,
)
    requires
        R::spec_immediate(),
    ensures
        main_spec::<N, D, R>(dv, rv, x, y, fuel) matches Some((_, rv1, _)) ==> rv1 == rv,
    decreases fuel, 0nat,
{
    let (dv1, t) = D::spec_do_traverse(dv);
    if let Ok(k) = local(x, y) {
        let (dv2, e) = D::spec_do_edges(dv1, x, y);
        if fuel > 0 {
            lemma_children_keeps::<N, D, R>(dv2, rv, x, y, 0, k, (fuel - 1) as nat);
        }
    }
}

/// With immediate recursion, the recursion on edges leaves the recursion state as it was.
pub proof fn lemma_children_keeps<N: Node, D: DescendMode<N>, R: RecurMode<N>>(
    dv: <D as View>::V,
    rv: <R as View>::V,
    x: N,
    y: N,
    i: usize,
    k: usize,
    fuel: nat,
)
    requires
        R::spec_immediate(),
    ensures
        children_spec::<N, D, R>(dv, rv, x, y, i, k, fuel) matches Some((_, rv1, _)) ==> rv1 == rv,
    decreases fuel, k - i,
{
    if i < k {
        lemma_main_keeps::<N, D, R>(dv, rv, x.spec_edge(i), y.spec_edge(i), fuel);
        if let Some((dv1, rv1, r)) = main_spec::<N, D, R>(
            dv,
            rv,
            x.spec_edge(i),
            y.spec_edge(i),
            fuel,
        ) {
            if continues::<N, D::Error>(r) {
                lemma_children_keeps::<N, D, R>(dv1, rv1, x, y, (i + 1) as usize, k, fuel);
            }
        }
    }
}

/// Growing is transitive.
pub proof fn lemma_grows_trans(u1: UfView, u2: UfView, u3: UfView)
    requires
        grows(u1, u2),
        grows(u2, u3),
    ensures
        grows(u1, u3),
{
}

/// [`equivalent_outside`] the classes of `u`, for nodes reachable from `a` or `b`.
pub open spec fn outside_within<N: Node>(u: UfView, a: N, b: N) -> spec_fn(N, N) -> bool {
    |x: N, y: N| reachable(a, b, x) && reachable(a, b, y) && equivalent_outside(u, x, y)
}

/// The edges views of reachable nodes whose edges still to give are among the edges of both.
pub open spec fn reachable_views<N: Node>(a: N, b: N) -> spec_fn(EdgesView<N>) -> bool {
    |e: EdgesView<N>|
        reachable(a, b, e.0) && reachable(a, b, e.1) && e.3 <= e.0.spec_amount_edges() && e.3
            <= e.1.spec_amount_edges()
}

/// With immediate recursion, where the main logic of the interleave on reachable counterparts
/// gives equivalence and its classes only grow into `u` afterwards, the counterparts are
/// equivalent outside the classes of `u`.
pub proof fn lemma_main_outside<N: Node, P: interleave::Params, R: RecurMode<N>>(
    u: UfView,
    a: N,
    b: N,
    dv: <Interleave<P> as View>::V,
    rv: <R as View>::V,
    x: N,
    y: N,
    fuel: nat,
)
    requires
        R::spec_immediate(),
        local_is_equivalence(a, b),
        uf_view_ok(dv.1),
        reachable(a, b, x),
        reachable(a, b, y),
    ensures
        main_spec::<N, Interleave<P>, R>(dv, rv, x, y, fuel) matches Some((dv1, _, r)) ==> (
        continues::<N, core::convert::Infallible>(r) && grows(dv1.1, u) ==> equivalent_outside(
            u,
            x,
            y,
        )),
    decreases fuel, 0nat,
{
    N::Cmp::lemma_laws();
    let (dv1, t) = <Interleave<P> as DescendMode<N>>::spec_do_traverse(dv);
    if x.spec_id() == y.spec_id() {
        lemma_outside_stop(u, x, y);
    } else {
        match local(x, y) {
            Err(c) => {
                assert(!c.spec_is_equiv());
            },
            Ok(k) => {
                if k == 0 {
                    lemma_outside_stop(u, x, y);
                } else {
                    lemma_do_edges_classes::<N, P>(dv1, x, y);
                    let (dv2, e) = <Interleave<P> as DescendMode<N>>::spec_do_edges(dv1, x, y);
                    if !e->Ok_0 {
                        if grows(dv2.1, u) {
                            assert(same(dv2.1, x.spec_id(), y.spec_id()));
                            lemma_outside_stop(u, x, y);
                        }
                    } else if fuel > 0 {
                        lemma_children_outside::<N, P, R>(
                            u,
                            a,
                            b,
                            dv2,
                            rv,
                            x,
                            y,
                            0,
                            k,
                            (fuel - 1) as nat,
                        );
                        if same_in(u, x, y) {
                            lemma_outside_stop(u, x, y);
                        } else {
                            lemma_outside_edges(u, x, y, k);
                        }
                    }
                }
            },
        }
    }
}

/// With immediate recursion, where the recursion of the interleave on the edges `i .. k` of
/// reachable counterparts gives equivalence and its classes only grow into `u` afterwards,
/// those edges are equivalent outside the classes of `u`.
pub proof fn lemma_children_outside<N: Node, P: interleave::Params, R: RecurMode<N>>(
    u: UfView,
    a: N,
    b: N,
    dv: <Interleave<P> as View>::V,
    rv: <R as View>::V,
    x: N,
    y: N,
    i: usize,
    k: usize,
    fuel: nat,
)
    requires
        R::spec_immediate(),
        local_is_equivalence(a, b),
        uf_view_ok(dv.1),
        reachable(a, b, x),
        reachable(a, b, y),
        k <= x.spec_amount_edges(),
        k <= y.spec_amount_edges(),
    ensures
        children_spec::<N, Interleave<P>, R>(dv, rv, x, y, i, k, fuel) matches Some((dv1, _, r))
            ==> (continues::<N, core::convert::Infallible>(r) && grows(dv1.1, u) ==> forall|j: usize|
            i <= j < k ==> #[trigger] equivalent_outside(u, x.spec_edge(j), y.spec_edge(j))),
    decreases fuel, k - i,
{
    if i < k {
        lemma_reachable_edge(a, b, x, i);
        lemma_reachable_edge(a, b, y, i);
        lemma_main_outside::<N, P, R>(u, a, b, dv, rv, x.spec_edge(i), y.spec_edge(i), fuel);
        lemma_main_grows::<N, P, R>(dv, rv, x.spec_edge(i), y.spec_edge(i), fuel);
        if let Some((dv1, rv1, r)) = main_spec::<N, Interleave<P>, R>(
            dv,
            rv,
            x.spec_edge(i),
            y.spec_edge(i),
            fuel,
        ) {
            if continues::<N, core::convert::Infallible>(r) {
                lemma_children_outside::<N, P, R>(
                    u,
                    a,
                    b,
                    dv1,
                    rv1,
                    x,
                    y,
                    (i + 1) as usize,
                    k,
                    fuel,
                );
                lemma_children_grows::<N, P, R>(dv1, rv1, x, y, (i + 1) as usize, k, fuel);
                if let Some((dv2, _, r2)) = children_spec::<N, Interleave<P>, R>(
                    dv1,
                    rv1,
                    x,
                    y,
                    (i + 1) as usize,
                    k,
                    fuel,
                ) {
                    if grows(dv2.1, u) {
                        lemma_grows_trans(dv1.1, dv2.1, u);
                    }
                }
            }
        }
    }
}

/// With immediate recursion, where the main logic of the interleave on reachable counterparts
/// gives equivalence and its classes only grow into `u` afterwards, it keeps every two reachable
/// counterparts in the same class [`good`] for the relation [`outside_within`] the classes of
/// `u`.
pub proof fn lemma_main_classes<N: Node, P: interleave::Params, R: RecurMode<N>>(
    u: UfView,
    a: N,
    b: N,
    dv: <Interleave<P> as View>::V,
    rv: <R as View>::V,
    x: N,
    y: N,
    fuel: nat,
)
    requires
        R::spec_immediate(),
        ids_identify(a, b),
        local_is_equivalence(a, b),
        uf_view_ok(dv.1),
        reachable(a, b, x),
        reachable(a, b, y),
        class_good(outside_within::<N>(u, a, b), a, b, dv.1),
    ensures
        main_spec::<N, Interleave<P>, R>(dv, rv, x, y, fuel) matches Some((dv1, _, r)) ==> (
        continues::<N, core::convert::Infallible>(r) && grows(dv1.1, u) ==> class_good(
            outside_within::<N>(u, a, b),
            a,
            b,
            dv1.1,
        )),
    decreases fuel, 0nat,
{
    let g = outside_within::<N>(u, a, b);
    let (dv1, t) = <Interleave<P> as DescendMode<N>>::spec_do_traverse(dv);
    if x.spec_id() != y.spec_id() {
        if let Ok(k) = local(x, y) {
            if k != 0 {
                lemma_do_edges_classes::<N, P>(dv1, x, y);
                let (dv2, e) = <Interleave<P> as DescendMode<N>>::spec_do_edges(dv1, x, y);
                if e->Ok_0 && fuel > 0 {
                    let sub = (fuel - 1) as nat;
                    lemma_children_outside::<N, P, R>(u, a, b, dv2, rv, x, y, 0, k, sub);
                    lemma_children_grows::<N, P, R>(dv2, rv, x, y, 0, k, sub);
                    if let Some((dv3, _, r)) = children_spec::<N, Interleave<P>, R>(
                        dv2,
                        rv,
                        x,
                        y,
                        0,
                        k,
                        sub,
                    ) {
                        if continues::<N, core::convert::Infallible>(r) && grows(dv3.1, u) {
                            assert forall|i: usize| i < k implies #[trigger] connected(
                                g,
                                x.spec_edge(i),
                                y.spec_edge(i),
                            ) by {
                                lemma_reachable_edge(a, b, x, i);
                                lemma_reachable_edge(a, b, y, i);
                                assert(equivalent_outside(u, x.spec_edge(i), y.spec_edge(i)));
                                lemma_connected_step(g, x.spec_edge(i), y.spec_edge(i));
                            }
                            assert(good(g, x, y));
                            if dv2.1 != dv1.1 {
                                lemma_merge_good(g, a, b, dv1.1, x, y);
                            }
                            lemma_children_classes::<N, P, R>(u, a, b, dv2, rv, x, y, 0, k, sub);
                        }
                    }
                }
            }
        }
    }
}

/// [`lemma_main_classes`] for the immediate recursion on the edges `i .. k`.
pub proof fn lemma_children_classes<N: Node, P: interleave::Params, R: RecurMode<N>>(
    u: UfView,
    a: N,
    b: N,
    dv: <Interleave<P> as View>::V,
    rv: <R as View>::V,
    x: N,
    y: N,
    i: usize,
    k: usize,
    fuel: nat,
)
    requires
        R::spec_immediate(),
        ids_identify(a, b),
        local_is_equivalence(a, b),
        uf_view_ok(dv.1),
        reachable(a, b, x),
        reachable(a, b, y),
        k <= x.spec_amount_edges(),
        k <= y.spec_amount_edges(),
        class_good(outside_within::<N>(u, a, b), a, b, dv.1),
    ensures
        children_spec::<N, Interleave<P>, R>(dv, rv, x, y, i, k, fuel) matches Some((dv1, _, r))
            ==> (continues::<N, core::convert::Infallible>(r) && grows(dv1.1, u) ==> class_good(
            outside_within::<N>(u, a, b),
            a,
            b,
            dv1.1,
        )),
    decreases fuel, k - i,
{
    if i < k {
        lemma_reachable_edge(a, b, x, i);
        lemma_reachable_edge(a, b, y, i);
        lemma_main_grows::<N, P, R>(dv, rv, x.spec_edge(i), y.spec_edge(i), fuel);
        if let Some((dv1, rv1, r)) = main_spec::<N, Interleave<P>, R>(
            dv,
            rv,
            x.spec_edge(i),
            y.spec_edge(i),
            fuel,
        ) {
            if continues::<N, core::convert::Infallible>(r) {
                lemma_children_grows::<N, P, R>(dv1, rv1, x, y, (i + 1) as usize, k, fuel);
                if let Some((dv2, _, r2)) = children_spec::<N, Interleave<P>, R>(
                    dv1,
                    rv1,
                    x,
                    y,
                    (i + 1) as usize,
                    k,
                    fuel,
                ) {
                    if continues::<N, core::convert::Infallible>(r2) && grows(dv2.1, u) {
                        lemma_grows_trans(dv1.1, dv2.1, u);
                        lemma_main_classes::<N, P, R>(
                            u,
                            a,
                            b,
                            dv,
                            rv,
                            x.spec_edge(i),
                            y.spec_edge(i),
                            fuel,
                        );
                        lemma_children_classes::<N, P, R>(
                            u,
                            a,
                            b,
                            dv1,
                            rv1,
                            x,
                            y,
                            (i + 1) as usize,
                            k,
                            fuel,
                        );
                    }
                }
            }
        }
    }
}

/// With recursion that saves edges, where the main logic of the interleave on reachable
/// counterparts gives equivalence, its classes only grow into `u` afterwards, and what it
/// leaves pending is equivalent outside the classes of `u`, the counterparts are too, and so
/// was everything pending before.  It saves only views of reachable nodes that have edges left.
pub proof fn lemma_main_outside_saved<N: Node, P: interleave::Params, R: RecurMode<N>>(
    u: UfView,
    a: N,
    b: N,
    dv: <Interleave<P> as View>::V,
    rv: <R as View>::V,
    x: N,
    y: N,
    fuel: nat,
)
    requires
        !R::spec_immediate(),
        local_is_equivalence(a, b),
        uf_view_ok(dv.1),
        reachable(a, b, x),
        reachable(a, b, y),
    ensures
        main_spec::<N, Interleave<P>, R>(dv, rv, x, y, fuel) matches Some((dv1, rv1, r)) ==> ((
        R::spec_all_saved(rv, has_edges()) ==> R::spec_all_saved(rv1, has_edges())) && (
        R::spec_all_saved(rv, reachable_views(a, b)) ==> R::spec_all_saved(
            rv1,
            reachable_views(a, b),
        )) && (continues::<N, core::convert::Infallible>(r) && grows(dv1.1, u)
            && R::spec_all_pending(rv1, outside_fn::<N>(u)) ==> equivalent_outside(u, x, y)
            && R::spec_all_pending(rv, outside_fn::<N>(u)))),
{
    let g = outside_fn::<N>(u);
    N::Cmp::lemma_laws();
    let (dv1, t) = <Interleave<P> as DescendMode<N>>::spec_do_traverse(dv);
    if x.spec_id() == y.spec_id() {
        lemma_outside_stop(u, x, y);
    } else {
        match local(x, y) {
            Err(c) => {
                assert(!c.spec_is_equiv());
            },
            Ok(k) => {
                if k == 0 {
                    lemma_outside_stop(u, x, y);
                } else {
                    lemma_do_edges_classes::<N, P>(dv1, x, y);
                    let (dv2, e) = <Interleave<P> as DescendMode<N>>::spec_do_edges(dv1, x, y);
                    if !e->Ok_0 {
                        if grows(dv2.1, u) {
                            assert(same(dv2.1, x.spec_id(), y.spec_id()));
                            lemma_outside_stop(u, x, y);
                        }
                    } else {
                        let ev: EdgesView<N> = (x, y, 0usize, k);
                        R::lemma_saved(rv, ev, has_edges());
                        R::lemma_saved(rv, ev, reachable_views(a, b));
                        R::lemma_pending(rv, ev, g);
                        if R::spec_all_pending(R::spec_save(rv, ev), g) {
                            assert forall|j: usize| j < k implies #[trigger] equivalent_outside(
                                u,
                                x.spec_edge(j),
                                y.spec_edge(j),
                            ) by {
                                assert(edges_all(ev, g));
                                assert(ev.2 <= j < ev.3);
                                assert(g(ev.0.spec_edge(j), ev.1.spec_edge(j)));
                            }
                            if same_in(u, x, y) {
                                lemma_outside_stop(u, x, y);
                            } else {
                                lemma_outside_edges(u, x, y, k);
                            }
                        }
                    }
                }
            },
        }
    }
}

/// The next counterparts that a recursion state gives back, when it holds only views of
/// reachable nodes that have edges left, are reachable, and the views it still holds are such.
pub proof fn lemma_next_reachable<N: Node, R: RecurMode<N>>(rv: <R as View>::V, a: N, b: N)
    requires
        R::spec_all_saved(rv, reachable_views(a, b)),
    ensures
        R::spec_all_saved(R::spec_next(rv).0, reachable_views(a, b)),
        R::spec_next(rv).1 matches Some((x, y)) ==> reachable(a, b, x) && reachable(a, b, y),
{
    let p = reachable_views(a, b);
    assert(advance_keeps(p));
    R::lemma_saved(rv, (a, b, 0usize, 0usize), p);
    if let Some((x2, y2)) = R::spec_next(rv).1 {
        assert(from_saved(p, x2, y2));
        let e = choose|e: EdgesView<N>|
            #[trigger] p(e) && e.2 < e.3 && x2 == e.0.spec_edge(e.2) && y2 == e.1.spec_edge(e.2);
        lemma_reachable_edge(a, b, e.0, e.2);
        lemma_reachable_edge(a, b, e.1, e.2);
    }
}

/// With recursion that saves edges, where the whole interleave on reachable counterparts gives
/// equivalence with classes that grow into `u`, the counterparts and everything pending are
/// equivalent outside the classes of `u`.
pub proof fn lemma_run_outside_saved<N: Node, P: interleave::Params, R: RecurMode<N>>(
    u: UfView,
    a: N,
    b: N,
    dv: <Interleave<P> as View>::V,
    rv: <R as View>::V,
    x: N,
    y: N,
    fuel: nat,
)
    requires
        !R::spec_immediate(),
        local_is_equivalence(a, b),
        uf_view_ok(dv.1),
        reachable(a, b, x),
        reachable(a, b, y),
        R::spec_all_saved(rv, has_edges()),
        R::spec_all_saved(rv, reachable_views(a, b)),
    ensures
        run_spec::<N, Interleave<P>, R>(dv, rv, x, y, fuel) matches Some((dv1, _, r)) ==> (
        continues::<N, core::convert::Infallible>(r) && grows(dv1.1, u) ==> equivalent_outside(
            u,
            x,
            y,
        ) && R::spec_all_pending(rv, outside_fn::<N>(u))),
    decreases fuel,
{
    let g = outside_fn::<N>(u);
    lemma_main_outside_saved::<N, P, R>(u, a, b, dv, rv, x, y, fuel);
    lemma_main_grows::<N, P, R>(dv, rv, x, y, fuel);
    if let Some((dv1, rv1, r)) = main_spec::<N, Interleave<P>, R>(dv, rv, x, y, fuel) {
        if continues::<N, core::convert::Infallible>(r) {
            let (rv2, nx) = R::spec_next(rv1);
            R::lemma_pending(rv1, (x, y, 0usize, 0usize), g);
            lemma_next_reachable::<N, R>(rv1, a, b);
            if let Some((x2, y2)) = nx {
                if fuel > 0 {
                    let sub = (fuel - 1) as nat;
                    lemma_run_outside_saved::<N, P, R>(u, a, b, dv1, rv2, x2, y2, sub);
                    lemma_run_grows::<N, P, R>(dv1, rv2, x2, y2, sub);
                    if let Some((dv3, _, r3)) = run_spec::<N, Interleave<P>, R>(
                        dv1,
                        rv2,
                        x2,
                        y2,
                        sub,
                    ) {
                        if grows(dv3.1, u) {
                            lemma_grows_trans(dv1.1, dv3.1, u);
                        }
                    }
                }
            }
        }
    }
}

/// With recursion that saves edges, where the main logic of the interleave on reachable
/// counterparts gives equivalence and what it leaves pending is equivalent outside the classes
/// of `u`, it keeps every two reachable counterparts in the same class [`good`] for the
/// relation [`outside_within`] the classes of `u`.
pub proof fn lemma_main_classes_saved<N: Node, P: interleave::Params, R: RecurMode<N>>(
    u: UfView,
    a: N,
    b: N,
    dv: <Interleave<P> as View>::V,
    rv: <R as View>::V,
    x: N,
    y: N,
    fuel: nat,
)
    requires
        !R::spec_immediate(),
        ids_identify(a, b),
        local_is_equivalence(a, b),
        uf_view_ok(dv.1),
        reachable(a, b, x),
        reachable(a, b, y),
        class_good(outside_within::<N>(u, a, b), a, b, dv.1),
    ensures
        main_spec::<N, Interleave<P>, R>(dv, rv, x, y, fuel) matches Some((dv1, rv1, r)) ==> (
        continues::<N, core::convert::Infallible>(r) && R::spec_all_pending(
            rv1,
            outside_fn::<N>(u),
        ) ==> class_good(outside_within::<N>(u, a, b), a, b, dv1.1)),
{
    let g = outside_within::<N>(u, a, b);
    let h = outside_fn::<N>(u);
    let (dv1, t) = <Interleave<P> as DescendMode<N>>::spec_do_traverse(dv);
    if x.spec_id() != y.spec_id() {
        if let Ok(k) = local(x, y) {
            if k != 0 {
                lemma_do_edges_classes::<N, P>(dv1, x, y);
                let (dv2, e) = <Interleave<P> as DescendMode<N>>::spec_do_edges(dv1, x, y);
                if e->Ok_0 {
                    let ev: EdgesView<N> = (x, y, 0usize, k);
                    R::lemma_pending(rv, ev, h);
                    if R::spec_all_pending(R::spec_save(rv, ev), h) {
                        assert forall|i: usize| i < k implies #[trigger] connected(
                            g,
                            x.spec_edge(i),
                            y.spec_edge(i),
                        ) by {
                            assert(edges_all(ev, h));
                            assert(ev.2 <= i < ev.3);
                            assert(h(ev.0.spec_edge(i), ev.1.spec_edge(i)));
                            lemma_reachable_edge(a, b, x, i);
                            lemma_reachable_edge(a, b, y, i);
                            lemma_connected_step(g, x.spec_edge(i), y.spec_edge(i));
                        }
                        assert(good(g, x, y));
                        if dv2.1 != dv1.1 {
                            lemma_merge_good(g, a, b, dv1.1, x, y);
                        }
                    }
                }
            }
        }
    }
}

/// With recursion that saves edges, where the whole interleave on reachable counterparts gives
/// equivalence with classes that grow into `u`, it keeps every two reachable counterparts in the
/// same class [`good`] for the relation [`outside_within`] the classes of `u`.
pub proof fn lemma_run_classes_saved<N: Node, P: interleave::Params, R: RecurMode<N>>(
    u: UfView,
    a: N,
    b: N,
    dv: <Interleave<P> as View>::V,
    rv: <R as View>::V,
    x: N,
    y: N,
    fuel: nat,
)
    requires
        !R::spec_immediate(),
        ids_identify(a, b),
        local_is_equivalence(a, b),
        uf_view_ok(dv.1),
        reachable(a, b, x),
        reachable(a, b, y),
        class_good(outside_within::<N>(u, a, b), a, b, dv.1),
        R::spec_all_saved(rv, has_edges()),
        R::spec_all_saved(rv, reachable_views(a, b)),
    ensures
        run_spec::<N, Interleave<P>, R>(dv, rv, x, y, fuel) matches Some((dv1, _, r)) ==> (
        continues::<N, core::convert::Infallible>(r) && grows(dv1.1, u) ==> class_good(
            outside_within::<N>(u, a, b),
            a,
            b,
            dv1.1,
        )),
    decreases fuel,
{
    let h = outside_fn::<N>(u);
    lemma_main_outside_saved::<N, P, R>(u, a, b, dv, rv, x, y, fuel);
    lemma_main_classes_saved::<N, P, R>(u, a, b, dv, rv, x, y, fuel);
    lemma_main_grows::<N, P, R>(dv, rv, x, y, fuel);
    if let Some((dv1, rv1, r)) = main_spec::<N, Interleave<P>, R>(dv, rv, x, y, fuel) {
        if continues::<N, core::convert::Infallible>(r) {
            let (rv2, nx) = R::spec_next(rv1);
            R::lemma_pending(rv1, (x, y, 0usize, 0usize), h);
            lemma_next_reachable::<N, R>(rv1, a, b);
            if let Some((x2, y2)) = nx {
                if fuel > 0 {
                    let sub = (fuel - 1) as nat;
                    lemma_run_outside_saved::<N, P, R>(u, a, b, dv1, rv2, x2, y2, sub);
                    lemma_run_grows::<N, P, R>(dv1, rv2, x2, y2, sub);
                    if let Some((dv3, _, r3)) = run_spec::<N, Interleave<P>, R>(
                        dv1,
                        rv2,
                        x2,
                        y2,
                        sub,
                    ) {
                        if continues::<N, core::convert::Infallible>(r3) && grows(dv3.1, u) {
                            lemma_grows_trans(dv1.1, dv3.1, u);
                            lemma_run_classes_saved::<N, P, R>(u, a, b, dv1, rv2, x2, y2, sub);
                        }
                    }
                }
            }
        }
    }
}

/// The interleave decides equivalence, also of cyclic graphs: with either recursion mode, when
/// the comparison ignoring descendents behaves as an equivalence on the nodes reachable from
/// the roots and reachable nodes with the same identity are the same node, the result is
/// equivalent exactly when every descended path reaches counterparts that are the same node or
/// compare equivalent, ignoring their descendents.  Recording counterparts as equivalent before
/// their descendents are checked, and skipping counterparts already so recorded, does not let
/// the algorithm accept inequivalent graphs.
pub proof fn lemma_interleave_equivalence<N: Node, P: interleave::Params, R: RecurMode<N>>(
    a: N,
    b: N,
)
    requires
        ids_identify(a, b),
        local_is_equivalence(a, b),
        terminates::<N, Interleave<P>, R>(Interleave::<P>::spec_default(), R::spec_new(), a, b),
    ensures
        run_outcome::<N, Interleave<P>, R>(Interleave::<P>::spec_default(), R::spec_new(), a, b).2 matches Ok(
            c,
        ) ==> (c.spec_is_equiv() <==> all_equivalent(a, b)),
{
    lemma_inequivalence_is_witnessed::<N, Interleave<P>, R>(Interleave::<P>::spec_default(), a, b);
    lemma_reachable_roots(a, b);
    let dv0 = Interleave::<P>::spec_default();
    let rv0 = R::spec_new();
    let f = choose|f: nat| (#[trigger] run_spec::<N, Interleave<P>, R>(dv0, rv0, a, b, f)) is Some;
    let (dvf, rvf, r) = run_spec::<N, Interleave<P>, R>(dv0, rv0, a, b, f)->Some_0;
    let u = dvf.1;
    let g = outside_within::<N>(u, a, b);
    assert(uf_view_ok(dv0.1));
    assert(class_good(g, a, b, dv0.1));
    if continues::<N, core::convert::Infallible>(r) {
        assert(grows(u, u));
        if R::spec_immediate() {
            lemma_main_keeps::<N, Interleave<P>, R>(dv0, rv0, a, b, f);
            lemma_new_gives_nothing::<N, R>();
            lemma_main_outside::<N, P, R>(u, a, b, dv0, rv0, a, b, f);
            lemma_main_classes::<N, P, R>(u, a, b, dv0, rv0, a, b, f);
        } else {
            R::lemma_saved(rv0, (a, b, 0usize, 0usize), has_edges());
            R::lemma_saved(rv0, (a, b, 0usize, 0usize), reachable_views(a, b));
            lemma_run_outside_saved::<N, P, R>(u, a, b, dv0, rv0, a, b, f);
            lemma_run_classes_saved::<N, P, R>(u, a, b, dv0, rv0, a, b, f);
        }
        assert forall|x: N, y: N| #[trigger] g(x, y) implies reachable(a, b, x) && reachable(
            a,
            b,
            y,
        ) && (x.spec_id() == y.spec_id() || good(g, x, y)) by {
            if x.spec_id() != y.spec_id() && !same_in(u, x, y) {
                let e = Seq::<usize>::empty();
                assert(descended_outside(u, x, y, e));
                assert(at_path(x, e) == x && at_path(y, e) == y);
                let k = local(x, y)->Ok_0;
                lemma_outside_edges(u, x, y, k);
                assert forall|i: usize| i < k implies #[trigger] connected(
                    g,
                    x.spec_edge(i),
                    y.spec_edge(i),
                ) by {
                    lemma_reachable_edge(a, b, x, i);
                    lemma_reachable_edge(a, b, y, i);
                    assert(g(x.spec_edge(i), y.spec_edge(i)));
                    lemma_connected_step(g, x.spec_edge(i), y.spec_edge(i));
                }
            }
        }
        lemma_connected_closed(g, a, b);
        lemma_connected_step(g, a, b);
        let s = |x: N, y: N| connected(g, x, y);
        assert(s(a, b));
        lemma_closed_all_equivalent(s, a, b);
    }
}

/// The precheck, then the interleave where the precheck aborts, decides equivalence, also of
/// cyclic graphs, under the same conditions as [`lemma_interleave_equivalence`].
pub proof fn lemma_precheck_interleave_equivalence<N: Node, P: precheck_interleave::Params<N>>(
    a: N,
    b: N,
)
    requires
        ids_identify(a, b),
        local_is_equivalence(a, b),
        precheck_outcome::<N, P>(a, b).2 is Err ==> interleave_terminates::<N, P>(a, b),
    ensures
        precheck_interleave_result::<N, P>(a, b).spec_is_equiv() <==> all_equivalent(a, b),
{
    let limit = <P::InterleaveParams as interleave::Params>::spec_limits().precheck as nat;
    lemma_limited_terminates::<N, u16, P::RecurMode>(limit, P::RecurMode::spec_new(), a, b);
    if precheck_outcome::<N, P>(a, b).2 is Ok {
        lemma_limited_agrees::<N, u16, P::RecurMode>(limit, a, b);
        lemma_complete_equivalence::<N, P::RecurMode>(a, b);
    } else {
        lemma_interleave_never_errs::<N, P::InterleaveParams>();
        lemma_never_errs_outcome::<N, Interleave<P::InterleaveParams>, P::RecurMode>(
            Interleave::<P::InterleaveParams>::spec_default(),
            P::RecurMode::spec_new(),
            a,
            b,
        );
        lemma_interleave_equivalence::<N, P::InterleaveParams, P::RecurMode>(a, b);
    }
}

/// With immediate recursion, a run of counterpart edges that are locally-equal leaves only
/// counts the ticker down, one per pair, and leaves the classes and the generator as they were.
proof fn lemma_leaf_edges_count_down<N: Node, P: interleave::Params>(
    dv: InterleaveView<<P::RNG as View>::V>,
    a: N,
    b: N,
    i: usize,
    fuel: nat,
)
    requires
        i <= 41,
        -1000 <= dv.0 - (41 - i),
        dv.0 <= 1000,
        forall|j: usize| j < 41 ==> #[trigger] local(a.spec_edge(j), b.spec_edge(j)) == Ok::<
            usize,
            N::Cmp,
        >(0),
    ensures
        children_spec::<N, Interleave<P>, CallStack>(dv, (), a, b, i, 42, fuel)
            == children_spec::<N, Interleave<P>, CallStack>(
            ((dv.0 - (41 - i)) as i32, dv.1, dv.2),
            (),
            a,
            b,
            41,
            42,
            fuel,
        ),
    decreases 41 - i,
{
    if i < 41 {
        assert(local(a.spec_edge(i), b.spec_edge(i)) == Ok::<usize, N::Cmp>(0));
        N::Cmp::lemma_laws();
        let dv1: InterleaveView<<P::RNG as View>::V> = ((dv.0 - 1) as i32, dv.1, dv.2);
        let leaf = main_spec::<N, Interleave<P>, CallStack>(
            dv,
            (),
            a.spec_edge(i),
            b.spec_edge(i),
            fuel,
        );
        assert(leaf matches Some((dv2, _, r)) && dv2 == dv1 && r == Ok::<
            N::Cmp,
            core::convert::Infallible,
        >(N::Cmp::spec_new_equiv()));
        lemma_leaf_edges_count_down::<N, P>(dv1, a, b, (i + 1) as usize, fuel);
    }
}

/// Once the ticker is past the "slow" limit on entry to the pair, a generator that always
/// draws 0 makes the pair loop forever: its 41 leaf edges use up the "fast" phase and its last
/// edge leads back to the pair itself, past the limit again.
proof fn lemma_past_limit_loops<N: Node, P: interleave::Params>(
    dv: InterleaveView<<P::RNG as View>::V>,
    a: N,
    b: N,
    fuel: nat,
)
    requires
        -1000 <= dv.0 <= -41,
        P::spec_limits().slow == SLOW_LIMIT,
        forall|v: <P::RNG as View>::V, e: u16| #[trigger] P::RNG::spec_rand_upto(v, e).1 == 0,
        a.spec_id() != b.spec_id(),
        local(a, b) == Ok::<usize, N::Cmp>(42),
        a.spec_edge(41) == a,
        b.spec_edge(41) == b,
        forall|j: usize| j < 41 ==> #[trigger] local(a.spec_edge(j), b.spec_edge(j)) == Ok::<
            usize,
            N::Cmp,
        >(0),
    ensures
        main_spec::<N, Interleave<P>, CallStack>(dv, (), a, b, fuel) is None,
    decreases fuel,
{
    let draw = P::RNG::spec_rand_upto(dv.2, fast_limit_range_end(P::spec_limits()));
    assert(draw.1 == 0);
    if fuel > 0 {
        let f = (fuel - 1) as nat;
        let dv2: InterleaveView<<P::RNG as View>::V> = (0i32, dv.1, draw.0);
        lemma_leaf_edges_count_down::<N, P>(dv2, a, b, 0, f);
        lemma_past_limit_loops::<N, P>((-41i32, dv.1, draw.0), a, b, f);
    }
}

/// The queue counterpart of [`lemma_past_limit_loops`]: with the queue empty and the ticker
/// past the "slow" limit on entry to the pair, the run never completes.
proof fn lemma_queue_past_limit_loops<N: Node, P: interleave::Params>(
    dv: InterleaveView<<P::RNG as View>::V>,
    a: N,
    b: N,
    fuel: nat,
)
    requires
        -1000 <= dv.0 <= -41,
        P::spec_limits().slow == SLOW_LIMIT,
        forall|v: <P::RNG as View>::V, e: u16| #[trigger] P::RNG::spec_rand_upto(v, e).1 == 0,
        a.spec_id() != b.spec_id(),
        local(a, b) == Ok::<usize, N::Cmp>(42),
        a.spec_edge(41) == a,
        b.spec_edge(41) == b,
        forall|j: usize| j < 41 ==> #[trigger] local(a.spec_edge(j), b.spec_edge(j)) == Ok::<
            usize,
            N::Cmp,
        >(0),
    ensures
        run_spec::<N, Interleave<P>, RecurQueue<N>>(dv, Seq::empty(), a, b, fuel) is None,
    decreases fuel, 1nat,
{
    let draw = P::RNG::spec_rand_upto(dv.2, fast_limit_range_end(P::spec_limits()));
    assert(draw.1 == 0);
    N::Cmp::lemma_laws();
    let e: EdgesView<N> = (a, b, 0usize, 42usize);
    let q1: Seq<EdgesView<N>> = seq![(a, b, 1usize, 42usize)];
    assert(seq![(a, b, 1usize, 42usize)] + seq![e].drop_first() =~= q1);
    if fuel > 0 {
        lemma_queue_leaf_loops::<N, P>((0i32, dv.1, draw.0), a, b, 0, (fuel - 1) as nat);
    }
}

/// With the queue holding only the rest of the pair's edges, from the leaf edge `j` on, the run
/// never completes once those leaves bring the ticker past the "slow" limit.
proof fn lemma_queue_leaf_loops<N: Node, P: interleave::Params>(
    dv: InterleaveView<<P::RNG as View>::V>,
    a: N,
    b: N,
    j: usize,
    fuel: nat,
)
    requires
        j <= 40,
        -1000 <= dv.0 - (41 - j) <= -41,
        P::spec_limits().slow == SLOW_LIMIT,
        forall|v: <P::RNG as View>::V, e: u16| #[trigger] P::RNG::spec_rand_upto(v, e).1 == 0,
        a.spec_id() != b.spec_id(),
        local(a, b) == Ok::<usize, N::Cmp>(42),
        a.spec_edge(41) == a,
        b.spec_edge(41) == b,
        forall|k: usize| k < 41 ==> #[trigger] local(a.spec_edge(k), b.spec_edge(k)) == Ok::<
            usize,
            N::Cmp,
        >(0),
    ensures
        run_spec::<N, Interleave<P>, RecurQueue<N>>(
            dv,
            seq![(a, b, (j + 1) as usize, 42usize)],
            a.spec_edge(j),
            b.spec_edge(j),
            fuel,
        ) is None,
    decreases fuel, 0nat,
{
    assert(local(a.spec_edge(j), b.spec_edge(j)) == Ok::<usize, N::Cmp>(0));
    N::Cmp::lemma_laws();
    let dv1: InterleaveView<<P::RNG as View>::V> = ((dv.0 - 1) as i32, dv.1, dv.2);
    let q: Seq<EdgesView<N>> = seq![(a, b, (j + 1) as usize, 42usize)];
    if fuel > 0 {
        if j == 40 {
            assert(q.drop_first() =~= Seq::<EdgesView<N>>::empty());
            lemma_queue_past_limit_loops::<N, P>(dv1, a, b, (fuel - 1) as nat);
        } else {
            let q2: Seq<EdgesView<N>> = seq![(a, b, (j + 2) as usize, 42usize)];
            assert(seq![(a, b, (j + 2) as usize, 42usize)] + q.drop_first() =~= q2);
            lemma_queue_leaf_loops::<N, P>(dv1, a, b, (j + 1) as usize, (fuel - 1) as nat);
        }
    }
}

/// The "interleave" mode need not complete on a cyclic graph: its completion depends on the
/// numbers that its generator draws.  With a generator that always draws 0, two distinct
/// nodes, each with 41 leaf edges that compare equal and a 42nd edge back to itself, are
/// compared forever, with immediate recursion on the call-stack and with the queue alike.
pub proof fn lemma_interleave_may_not_terminate<N: Node, P: interleave::Params>(a: N, b: N)
    requires
        P::spec_limits().slow == SLOW_LIMIT,
        forall|v: <P::RNG as View>::V, e: u16| #[trigger] P::RNG::spec_rand_upto(v, e).1 == 0,
        a.spec_id() != b.spec_id(),
        local(a, b) == Ok::<usize, N::Cmp>(42),
        a.spec_edge(41) == a,
        b.spec_edge(41) == b,
        forall|j: usize| j < 41 ==> #[trigger] local(a.spec_edge(j), b.spec_edge(j)) == Ok::<
            usize,
            N::Cmp,
        >(0),
    ensures
        !terminates::<N, Interleave<P>, CallStack>(Interleave::<P>::spec_default(), (), a, b),
        !terminates::<N, Interleave<P>, RecurQueue<N>>(
            Interleave::<P>::spec_default(),
            Seq::empty(),
            a,
            b,
        ),
{
    let dv0 = Interleave::<P>::spec_default();
    assert forall|f: nat| !(#[trigger] run_spec::<N, Interleave<P>, CallStack>(
        dv0,
        (),
        a,
        b,
        f,
    ) is Some) by {
        if f > 0 {
            let g = (f - 1) as nat;
            let (uf2, same) = spec_same_class(dv0.1, a.spec_id(), b.spec_id());
            assert(!same);
            lemma_leaf_edges_count_down::<N, P>((-2i32, uf2, dv0.2), a, b, 0, g);
            lemma_past_limit_loops::<N, P>((-43i32, uf2, dv0.2), a, b, g);
        }
    }
    assert forall|f: nat| !(#[trigger] run_spec::<N, Interleave<P>, RecurQueue<N>>(
        dv0,
        Seq::empty(),
        a,
        b,
        f,
    ) is Some) by {
        N::Cmp::lemma_laws();
        let (uf2, same) = spec_same_class(dv0.1, a.spec_id(), b.spec_id());
        assert(!same);
        let e: EdgesView<N> = (a, b, 0usize, 42usize);
        assert(seq![(a, b, 1usize, 42usize)] + seq![e].drop_first() =~= seq![
            (a, b, 1usize, 42usize),
        ]);
        if f > 0 {
            lemma_queue_leaf_loops::<N, P>((-2i32, uf2, dv0.2), a, b, 0, (f - 1) as nat);
        }
    }
}

} // verus!
