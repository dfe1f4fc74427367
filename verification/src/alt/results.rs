use vstd::prelude::*;

use crate::alt::basic::{
    alt_at_path, alt_differs_at_some_path, alt_in_either, clip, alt_same, alt_view_ok, chains_ok,
    empty_alt_view, interleave_fuel_ok, interleave_terminates, lemma_alt_same_class,
    lemma_chain_rep, lemma_interleave_false_witnessed, lemma_more_reps,
    lemma_precheck_unequiv_witnessed, lemma_push_end_ok, lemma_relink, lemma_rep_of, sat_dec,
    spec_alt_same_class, spec_interleave, spec_interleave_edges, spec_interleave_equiv,
    spec_precheck, spec_precheck_edges, spec_precheck_interleave_equiv, spec_rep_of,
    spec_slow_or_fast, AltView, EquivResult, Node, FAST_LIMIT_RANGE_END, PRE_LIMIT,
    SLOW_LIMIT_NEG,
};
use crate::cycle_safe::modes::interleave::random::wyrng::RandomNumberGenerator;
use crate::cycle_safe::modes::interleave::random::NumberGenerator;
use crate::generic::cycle_results::{
    connected, is_chain, lemma_connected_refl, lemma_connected_step, lemma_connected_sym,
    lemma_connected_trans, link_at,
};

verus! {

/// The comparison of two nodes ignoring their descendents: the amount of edges to descend, when
/// they are equivalent.
pub open spec fn alt_local<N: Node>(x: N, y: N) -> Option<usize> {
    x.spec_equiv_modulo_descendents_then_amount_edges(&y)
}

/// Whether each index of the path is among the edges of the node that it leaves, from `n`.
pub open spec fn alt_valid_path<N: Node>(n: N, p: Seq<usize>) -> bool
    decreases p.len(),
{
    p.len() == 0 || (alt_valid_path(n, p.drop_last()) && p.last() < alt_at_path(
        n,
        p.drop_last(),
    ).spec_amount_edges())
}

/// Whether `x` is reached from `n` by following edges.
pub open spec fn alt_reaches<N: Node>(n: N, x: N) -> bool {
    exists|p: Seq<usize>| #[trigger] alt_valid_path(n, p) && alt_at_path(n, p) == x
}

/// Whether `x` is reached from `a` or from `b` by following edges.
pub open spec fn alt_reachable<N: Node>(a: N, b: N, x: N) -> bool {
    alt_reaches(a, x) || alt_reaches(b, x)
}

/// The roots are reachable.
pub proof fn lemma_alt_reachable_roots<N: Node>(a: N, b: N)
    ensures
        alt_reachable(a, b, a),
        alt_reachable(a, b, b),
{
    let e = Seq::<usize>::empty();
    assert(alt_valid_path(a, e) && alt_at_path(a, e) == a);
    assert(alt_valid_path(b, e) && alt_at_path(b, e) == b);
}

/// The edges of a reachable node are reachable.
pub proof fn lemma_alt_reachable_edge<N: Node>(a: N, b: N, x: N, i: usize)
    requires
        alt_reachable(a, b, x),
        i < x.spec_amount_edges(),
    ensures
        alt_reachable(a, b, x.spec_edge(i)),
{
    let n = if alt_reaches(a, x) {
        a
    } else {
        b
    };
    let p = choose|p: Seq<usize>| #[trigger] alt_valid_path(n, p) && alt_at_path(n, p) == x;
    assert(p.push(i).drop_last() =~= p);
    assert(alt_valid_path(n, p.push(i)) && alt_at_path(n, p.push(i)) == x.spec_edge(i));
}

/// Nodes reachable from `a` or `b` with the same identity are the same node.
pub open spec fn alt_ids_identify<N: Node>(a: N, b: N) -> bool {
    forall|x: N, y: N|
        alt_reachable(a, b, x) && alt_reachable(a, b, y) && #[trigger] x.spec_id()
            == #[trigger] y.spec_id() ==> x == y
}

/// The comparison ignoring descendents behaves as an equivalence on the nodes reachable from
/// `a` or `b`: where it lets two nodes be descended it does so symmetrically and transitively,
/// with the same amount of edges, which both nodes have.
pub open spec fn alt_local_is_equivalence<N: Node>(a: N, b: N) -> bool {
    &&& forall|x: N, y: N|
        alt_reachable(a, b, x) && alt_reachable(a, b, y) && #[trigger] alt_local(x, y) is Some
            ==> alt_local(y, x) == alt_local(x, y) && alt_local(x, y)->Some_0
            <= x.spec_amount_edges() && alt_local(x, y)->Some_0 <= y.spec_amount_edges()
    &&& forall|x: N, y: N, z: N|
        alt_reachable(a, b, x) && alt_reachable(a, b, y) && alt_reachable(a, b, z) && #[trigger] alt_local(
            x,
            y,
        ) is Some && #[trigger] alt_local(y, z) is Some ==> alt_local(x, z) == alt_local(x, y)
            && alt_local(y, z) == alt_local(x, y)
}

/// Whether the path is descended by a complete traversal: at every node before its end, the
/// counterparts have distinct identities, compare equivalent ignoring their descendents, and
/// have the next index among the edges to descend.
pub open spec fn alt_descended<N: Node>(a: N, b: N, path: Seq<usize>) -> bool
    decreases path.len(),
{
    path.len() == 0 || {
        let q = path.drop_last();
        &&& alt_descended(a, b, q)
        &&& alt_at_path(a, q).spec_id() != alt_at_path(b, q).spec_id()
        &&& alt_local(alt_at_path(a, q), alt_at_path(b, q)) matches Some(k) && path.last() < k
    }
}

/// The counterparts reached by the path are the same node, or compare equivalent ignoring their
/// descendents.
pub open spec fn alt_equivalent_at<N: Node>(a: N, b: N, path: Seq<usize>) -> bool {
    alt_at_path(a, path).spec_id() == alt_at_path(b, path).spec_id() || alt_local(
        alt_at_path(a, path),
        alt_at_path(b, path),
    ) is Some
}

/// Every descended path from the counterparts reaches counterparts that are the same node or
/// compare equivalent, ignoring their descendents: the graphs are equivalent.
pub open spec fn alt_all_equivalent<N: Node>(a: N, b: N) -> bool {
    forall|p: Seq<usize>| #[trigger] alt_descended(a, b, p) ==> alt_equivalent_at(a, b, p)
}

/// A relation on counterparts that is kept by descending: related counterparts are the same
/// node, or compare equivalent ignoring descendents and have related counterpart edges.
pub open spec fn alt_closed<N: Node>(s: spec_fn(N, N) -> bool) -> bool {
    forall|x: N, y: N| #[trigger]
        s(x, y) ==> x.spec_id() == y.spec_id() || (alt_local(x, y) matches Some(k) && forall|
            i: usize,
        | i < k ==> #[trigger] s(x.spec_edge(i), y.spec_edge(i)))
}

/// Every descended path from counterparts in a closed relation reaches counterparts in it.
pub proof fn lemma_alt_closed_reaches<N: Node>(s: spec_fn(N, N) -> bool, a: N, b: N, p: Seq<usize>)
    requires
        alt_closed(s),
        s(a, b),
        alt_descended(a, b, p),
    ensures
        s(alt_at_path(a, p), alt_at_path(b, p)),
    decreases p.len(),
{
    if p.len() > 0 {
        let q = p.drop_last();
        lemma_alt_closed_reaches(s, a, b, q);
        let x = alt_at_path(a, q);
        let y = alt_at_path(b, q);
        assert(s(x, y));
        assert(s(x.spec_edge(p.last()), y.spec_edge(p.last())));
    }
}

/// Coinduction: counterparts in a closed relation are equivalent at every descended path.
pub proof fn lemma_alt_closed_all_equivalent<N: Node>(s: spec_fn(N, N) -> bool, a: N, b: N)
    requires
        alt_closed(s),
        s(a, b),
    ensures
        alt_all_equivalent(a, b),
{
    assert forall|p: Seq<usize>| #[trigger] alt_descended(a, b, p) implies alt_equivalent_at(
        a,
        b,
        p,
    ) by {
        lemma_alt_closed_reaches(s, a, b, p);
    }
}

/// The counterparts are the same node, or compare equivalent ignoring descendents and have
/// connected counterpart edges.
pub open spec fn alt_good<N: Node>(g: spec_fn(N, N) -> bool, x: N, y: N) -> bool {
    x == y || (alt_local(x, y) matches Some(k) && forall|i: usize|
        i < k ==> #[trigger] connected(g, x.spec_edge(i), y.spec_edge(i)))
}

/// [`alt_good`] is symmetric.
pub proof fn lemma_alt_good_sym<N: Node>(g: spec_fn(N, N) -> bool, a: N, b: N, x: N, y: N)
    requires
        alt_local_is_equivalence(a, b),
        alt_reachable(a, b, x),
        alt_reachable(a, b, y),
        alt_good(g, x, y),
    ensures
        alt_good(g, y, x),
{
    if x != y {
        let k = alt_local(x, y)->Some_0;
        assert(alt_local(y, x) == alt_local(x, y));
        assert forall|i: usize| i < k implies #[trigger] connected(
            g,
            y.spec_edge(i),
            x.spec_edge(i),
        ) by {
            lemma_connected_sym(g, x.spec_edge(i), y.spec_edge(i));
        }
    }
}

/// [`alt_good`] is transitive.
pub proof fn lemma_alt_good_trans<N: Node>(
    g: spec_fn(N, N) -> bool,
    a: N,
    b: N,
    x: N,
    y: N,
    z: N,
)
    requires
        alt_local_is_equivalence(a, b),
        alt_reachable(a, b, x),
        alt_reachable(a, b, y),
        alt_reachable(a, b, z),
        alt_good(g, x, y),
        alt_good(g, y, z),
    ensures
        alt_good(g, x, z),
{
    if x != y && y != z {
        let k = alt_local(x, y)->Some_0;
        assert(alt_local(x, z) == alt_local(x, y) && alt_local(y, z) == alt_local(x, y));
        assert forall|i: usize| i < k implies #[trigger] connected(
            g,
            x.spec_edge(i),
            z.spec_edge(i),
        ) by {
            lemma_connected_trans(g, x.spec_edge(i), y.spec_edge(i), z.spec_edge(i));
        }
    }
}

/// Every pair related by `g` is of nodes reachable from `a` or `b`, and is [`alt_good`] up to
/// the identity of the nodes.
pub open spec fn alt_all_good<N: Node>(g: spec_fn(N, N) -> bool, a: N, b: N) -> bool {
    forall|x: N, y: N| #[trigger]
        g(x, y) ==> alt_reachable(a, b, x) && alt_reachable(a, b, y) && (x.spec_id() == y.spec_id()
            || alt_good(g, x, y))
}

/// The ends of a chain of pairs that are [`alt_good`] are [`alt_good`], and, when the chain has
/// a link, reachable.
pub proof fn lemma_alt_chain_good<N: Node>(g: spec_fn(N, N) -> bool, a: N, b: N, c: Seq<N>)
    requires
        alt_ids_identify(a, b),
        alt_local_is_equivalence(a, b),
        alt_all_good(g, a, b),
        is_chain(g, c),
    ensures
        alt_good(g, c[0], c.last()),
        c.len() > 1 ==> alt_reachable(a, b, c[0]) && alt_reachable(a, b, c.last()),
    decreases c.len(),
{
    let n = c.len();
    if n > 1 {
        let d = c.drop_last();
        assert forall|j: int| 0 <= j < d.len() - 1 implies #[trigger] link_at(g, d, j) by {
            assert(link_at(g, c, j));
        }
        lemma_alt_chain_good(g, a, b, d);
        let z = c[n - 2];
        let y = c[n - 1];
        assert(link_at(g, c, n - 2));
        if g(z, y) {
            if z.spec_id() == y.spec_id() {
                assert(z == y);
            }
        } else {
            assert(g(y, z));
            if z.spec_id() == y.spec_id() {
                assert(y == z);
            } else {
                lemma_alt_good_sym(g, a, b, y, z);
            }
        }
        lemma_alt_good_trans(g, a, b, c[0], z, y);
    }
}

/// The equivalence closure of a relation all of whose pairs are [`alt_good`] is closed.
pub proof fn lemma_alt_connected_closed<N: Node>(g: spec_fn(N, N) -> bool, a: N, b: N)
    requires
        alt_ids_identify(a, b),
        alt_local_is_equivalence(a, b),
        alt_all_good(g, a, b),
    ensures
        alt_closed(|x: N, y: N| connected(g, x, y)),
{
    let s = |x: N, y: N| connected(g, x, y);
    assert forall|x: N, y: N| #[trigger] s(x, y) implies x.spec_id() == y.spec_id() || (alt_local(
        x,
        y,
    ) matches Some(k) && forall|i: usize| i < k ==> #[trigger] s(x.spec_edge(i), y.spec_edge(i)))
        by {
        let c = choose|c: Seq<N>| #[trigger] is_chain(g, c) && c[0] == x && c.last() == y;
        lemma_alt_chain_good(g, a, b, c);
    }
}

/// The shape of a record, whatever its size: the chains are well-founded and end at valid
/// representatives, and the links of the keys are valid.
pub open spec fn alt_shape(v: AltView) -> bool {
    &&& chains_ok(v.chains, v.rank, v.reps.len())
    &&& forall|k: u64| #[trigger] v.keys.contains_key(k) ==> (v.keys[k] as int) < v.chains.len()
}

/// The record fits in memory.
pub open spec fn alt_fits(v: AltView) -> bool {
    v.chains.len() <= usize::MAX && v.reps.len() <= usize::MAX
}

/// The record has no fewer links and representatives than `v`.
pub open spec fn alt_no_smaller(v: AltView, v2: AltView) -> bool {
    v.chains.len() <= v2.chains.len() && v.reps.len() <= v2.reps.len()
}

/// Checking two keys keeps the shape of the record, and only adds links and representatives.
pub proof fn lemma_alt_shape(v: AltView, a: u64, b: u64)
    requires
        alt_shape(v),
    ensures
        alt_shape(spec_alt_same_class(v, a, b).0),
        alt_no_smaller(v, spec_alt_same_class(v, a, b).0),
{
    let n = v.reps.len();
    let v2 = spec_alt_same_class(v, a, b).0;
    if v.keys.contains_key(a) && v.keys.contains_key(b) {
        let (ac, bc) = (v.keys[a], v.keys[b]);
        lemma_rep_of(v.chains, v.rank, n, ac as int);
        let (ch1, arep) = spec_rep_of(v.chains, v.rank, ac as int);
        lemma_rep_of(ch1, v.rank, n, bc as int);
        let (ch2, brep) = spec_rep_of(ch1, v.rank, bc as int);
        lemma_chain_rep(v.chains, v.rank, n, ac as int);
        lemma_chain_rep(v.chains, v.rank, n, bc as int);
        if arep != brep {
            let aw = v.reps[arep].weight;
            let bw = v.reps[brep].weight;
            let (larger, smaller) = if aw >= bw {
                (ac, bc)
            } else {
                (bc, ac)
            };
            lemma_relink(ch2, v.rank, n, smaller, larger);
        }
    } else if v.keys.contains_key(a) || v.keys.contains_key(b) {
        let oc = if v.keys.contains_key(a) {
            v.keys[a]
        } else {
            v.keys[b]
        };
        lemma_rep_of(v.chains, v.rank, n, oc as int);
        let (ch2, rep) = spec_rep_of(v.chains, v.rank, oc as int);
        lemma_chain_rep(v.chains, v.rank, n, oc as int);
        lemma_push_end_ok(ch2, v.rank, n, rep as usize);
        assert forall|kk: u64| #[trigger] v2.keys.contains_key(kk) implies (v2.keys[kk] as int)
            < v2.chains.len() by {
        }
    } else {
        lemma_more_reps(v.chains, v.rank, n, n + 1);
        lemma_push_end_ok(v.chains, v.rank, n + 1, n as usize);
        assert forall|kk: u64| #[trigger] v2.keys.contains_key(kk) implies (v2.keys[kk] as int)
            < v2.chains.len() by {
        }
    }
}

/// The counterparts that the interleave compared and found equivalent ignoring their
/// descendents, without finding them already recorded as equivalent: those whose edges it
/// descended and those that had no edges to descend.
pub open spec fn alt_hist_sf<N: Node, R: NumberGenerator>(
    a: N,
    b: N,
    limit: i32,
    st: (AltView, R::V),
    fuel: nat,
) -> Set<(N, N)>
    decreases fuel, 2int, 0int,
{
    if limit < 0 {
        if limit >= SLOW_LIMIT_NEG {
            alt_hist_ie::<N, R>(a, b, limit, true, st, fuel)
        } else {
            let (rng2, n) = R::spec_rand_upto(st.1, FAST_LIMIT_RANGE_END);
            alt_hist_ie::<N, R>(a, b, n as i32, false, (st.0, rng2), fuel)
        }
    } else {
        alt_hist_ie::<N, R>(a, b, limit, false, st, fuel)
    }
}

/// [`alt_hist_sf`] for the comparison in the given phase.
pub open spec fn alt_hist_ie<N: Node, R: NumberGenerator>(
    a: N,
    b: N,
    limit: i32,
    slow: bool,
    st: (AltView, R::V),
    fuel: nat,
) -> Set<(N, N)>
    decreases fuel, 1int, 0int,
{
    if a.spec_id() == b.spec_id() {
        Set::empty()
    } else {
        match alt_local(a, b) {
            None => Set::empty(),
            Some(n) => if n == 0 {
                Set::empty().insert((a, b))
            } else if slow {
                let (uf2, same) = spec_alt_same_class(st.0, a.spec_id(), b.spec_id());
                if same {
                    Set::empty()
                } else {
                    alt_hist_edges::<N, R>(a, b, 0, n, limit, (uf2, st.1), fuel).insert((a, b))
                }
            } else {
                alt_hist_edges::<N, R>(a, b, 0, n, limit, st, fuel).insert((a, b))
            },
        }
    }
}

/// [`alt_hist_sf`] for the comparison of the edges from index `i` to `n`.
pub open spec fn alt_hist_edges<N: Node, R: NumberGenerator>(
    a: N,
    b: N,
    i: usize,
    n: usize,
    limit: i32,
    st: (AltView, R::V),
    fuel: nat,
) -> Set<(N, N)>
    decreases fuel, 0int, n - i,
{
    if i >= n || fuel == 0 {
        Set::empty()
    } else {
        let h = alt_hist_sf::<N, R>(
            a.spec_edge(i),
            b.spec_edge(i),
            sat_dec(limit),
            st,
            (fuel - 1) as nat,
        );
        match spec_slow_or_fast::<N, R>(
            a.spec_edge(i),
            b.spec_edge(i),
            sat_dec(limit),
            st,
            (fuel - 1) as nat,
        ) {
            Some((st2, EquivResult::Equiv(l2))) => h + alt_hist_edges::<N, R>(
                a,
                b,
                (i + 1) as usize,
                n,
                l2,
                st2,
                fuel,
            ),
            _ => h,
        }
    }
}

/// The interleave keeps the shape of the record and only adds links and representatives.
pub proof fn lemma_alt_sf_shape<N: Node, R: NumberGenerator>(
    a: N,
    b: N,
    limit: i32,
    st: (AltView, R::V),
    fuel: nat,
)
    requires
        alt_shape(st.0),
    ensures
        spec_slow_or_fast::<N, R>(a, b, limit, st, fuel) matches Some((st2, _)) ==> alt_shape(st2.0)
            && alt_no_smaller(st.0, st2.0),
    decreases fuel, 2int, 0int,
{
    if limit < 0 {
        if limit >= SLOW_LIMIT_NEG {
            lemma_alt_ie_shape::<N, R>(a, b, limit, true, st, fuel);
        } else {
            let (rng2, n) = R::spec_rand_upto(st.1, FAST_LIMIT_RANGE_END);
            lemma_alt_ie_shape::<N, R>(a, b, n as i32, false, (st.0, rng2), fuel);
        }
    } else {
        lemma_alt_ie_shape::<N, R>(a, b, limit, false, st, fuel);
    }
}

/// [`lemma_alt_sf_shape`] for the comparison in the given phase.
pub proof fn lemma_alt_ie_shape<N: Node, R: NumberGenerator>(
    a: N,
    b: N,
    limit: i32,
    slow: bool,
    st: (AltView, R::V),
    fuel: nat,
)
    requires
        alt_shape(st.0),
    ensures
        spec_interleave_equiv::<N, R>(a, b, limit, slow, st, fuel) matches Some((st2, _))
            ==> alt_shape(st2.0) && alt_no_smaller(st.0, st2.0),
    decreases fuel, 1int, 0int,
{
    if a.spec_id() != b.spec_id() {
        if let Some(n) = alt_local(a, b) {
            if n != 0 {
                if slow {
                    lemma_alt_shape(st.0, a.spec_id(), b.spec_id());
                    let (uf2, same) = spec_alt_same_class(st.0, a.spec_id(), b.spec_id());
                    if !same {
                        lemma_alt_edges_shape::<N, R>(a, b, 0, n, limit, (uf2, st.1), fuel);
                    }
                } else {
                    lemma_alt_edges_shape::<N, R>(a, b, 0, n, limit, st, fuel);
                }
            }
        }
    }
}

/// [`lemma_alt_sf_shape`] for the comparison of the edges from index `i` to `n`.
pub proof fn lemma_alt_edges_shape<N: Node, R: NumberGenerator>(
    a: N,
    b: N,
    i: usize,
    n: usize,
    limit: i32,
    st: (AltView, R::V),
    fuel: nat,
)
    requires
        alt_shape(st.0),
    ensures
        spec_interleave_edges::<N, R>(a, b, i, n, limit, st, fuel) matches Some((st2, _))
            ==> alt_shape(st2.0) && alt_no_smaller(st.0, st2.0),
    decreases fuel, 0int, n - i,
{
    if i < n && fuel > 0 {
        let sub = (fuel - 1) as nat;
        lemma_alt_sf_shape::<N, R>(a.spec_edge(i), b.spec_edge(i), sat_dec(limit), st, sub);
        if let Some((st2, EquivResult::Equiv(l2))) = spec_slow_or_fast::<N, R>(
            a.spec_edge(i),
            b.spec_edge(i),
            sat_dec(limit),
            st,
            sub,
        ) {
            lemma_alt_edges_shape::<N, R>(a, b, (i + 1) as usize, n, l2, st2, fuel);
        }
    }
}

/// The relation of the pairs in `f`.
pub open spec fn in_set<N>(f: Set<(N, N)>) -> spec_fn(N, N) -> bool {
    |x: N, y: N| f.contains((x, y))
}

/// Every two reachable nodes recorded in the same class of `v` are connected by pairs of `f`.
pub open spec fn alt_class_conn<N: Node>(f: Set<(N, N)>, a: N, b: N, v: AltView) -> bool {
    forall|x: N, y: N|
        alt_reachable(a, b, x) && alt_reachable(a, b, y) && #[trigger] alt_same(
            v,
            x.spec_id(),
            y.spec_id(),
        ) ==> connected(in_set(f), x, y)
}

/// Every pair of `h` is of distinct reachable nodes that compare equivalent ignoring their
/// descendents and whose counterpart edges are connected by pairs of `f`.
pub open spec fn alt_complete<N: Node>(f: Set<(N, N)>, h: Set<(N, N)>, a: N, b: N) -> bool {
    forall|p: (N, N)| #[trigger]
        h.contains(p) ==> alt_reachable(a, b, p.0) && alt_reachable(a, b, p.1) && p.0.spec_id()
            != p.1.spec_id() && (alt_local(p.0, p.1) matches Some(k) && forall|i: usize|
            i < k ==> #[trigger] connected(in_set(f), p.0.spec_edge(i), p.1.spec_edge(i)))
}

/// A reachable node that is one of two connected reachable nodes, or in the class of one of
/// them, is connected to the first.
proof fn lemma_alt_member_conn<N: Node>(
    f: Set<(N, N)>,
    a: N,
    b: N,
    v: AltView,
    x: N,
    x0: N,
    y0: N,
)
    requires
        alt_ids_identify(a, b),
        alt_class_conn(f, a, b, v),
        alt_reachable(a, b, x),
        alt_reachable(a, b, x0),
        alt_reachable(a, b, y0),
        connected(in_set(f), x0, y0),
        alt_in_either(v, x.spec_id(), x0.spec_id(), y0.spec_id()),
    ensures
        connected(in_set(f), x, x0),
{
    let g = in_set(f);
    if x.spec_id() == x0.spec_id() {
        assert(x == x0);
        lemma_connected_refl(g, x);
    } else if x.spec_id() == y0.spec_id() {
        assert(x == y0);
        lemma_connected_sym(g, x0, y0);
    } else if alt_same(v, x.spec_id(), x0.spec_id()) {
    } else {
        assert(alt_same(v, x.spec_id(), y0.spec_id()));
        lemma_connected_sym(g, x0, y0);
        lemma_connected_trans(g, x, y0, x0);
    }
}

/// Recording two connected reachable nodes as equivalent keeps every two reachable nodes in the
/// same class connected.
pub proof fn lemma_alt_merge_conn<N: Node>(f: Set<(N, N)>, a: N, b: N, v: AltView, x0: N, y0: N)
    requires
        alt_ids_identify(a, b),
        alt_view_ok(v),
        alt_fits(spec_alt_same_class(v, x0.spec_id(), y0.spec_id()).0),
        alt_class_conn(f, a, b, v),
        alt_reachable(a, b, x0),
        alt_reachable(a, b, y0),
        connected(in_set(f), x0, y0),
    ensures
        alt_class_conn(f, a, b, spec_alt_same_class(v, x0.spec_id(), y0.spec_id()).0),
{
    let g = in_set(f);
    let v2 = spec_alt_same_class(v, x0.spec_id(), y0.spec_id()).0;
    lemma_alt_same_class(v, x0.spec_id(), y0.spec_id());
    assert forall|x: N, y: N|
        alt_reachable(a, b, x) && alt_reachable(a, b, y) && #[trigger] alt_same(
            v2,
            x.spec_id(),
            y.spec_id(),
        ) implies connected(g, x, y) by {
        if !alt_same(v, x.spec_id(), y.spec_id()) {
            lemma_alt_member_conn(f, a, b, v, x, x0, y0);
            lemma_alt_member_conn(f, a, b, v, y, x0, y0);
            lemma_connected_sym(g, y, x0);
            lemma_connected_trans(g, x, x0, y);
        }
    }
}

/// Where the interleave on reachable counterparts gives equivalence and its record fits in
/// memory, given that every two reachable nodes in the same class are connected by pairs of
/// `f`, which holds the counterparts that it compares: the counterparts are connected, every
/// two reachable nodes in the same class are still connected, and the pairs it compared are
/// complete for `f`.
pub proof fn lemma_alt_sf_sound<N: Node, R: NumberGenerator>(
    f: Set<(N, N)>,
    ra: N,
    rb: N,
    a: N,
    b: N,
    limit: i32,
    st: (AltView, R::V),
    fuel: nat,
)
    requires
        alt_ids_identify(ra, rb),
        alt_local_is_equivalence(ra, rb),
        alt_reachable(ra, rb, a),
        alt_reachable(ra, rb, b),
        alt_shape(st.0),
        alt_class_conn(f, ra, rb, st.0),
        alt_hist_sf::<N, R>(a, b, limit, st, fuel).subset_of(f),
    ensures
        spec_slow_or_fast::<N, R>(a, b, limit, st, fuel) matches Some((st2, r)) ==> (r is Equiv
            && alt_fits(st2.0) ==> alt_class_conn(f, ra, rb, st2.0) && connected(in_set(f), a, b)
            && alt_complete(f, alt_hist_sf::<N, R>(a, b, limit, st, fuel), ra, rb)),
    decreases fuel, 2int, 0int,
{
    if limit < 0 {
        if limit >= SLOW_LIMIT_NEG {
            lemma_alt_ie_sound::<N, R>(f, ra, rb, a, b, limit, true, st, fuel);
        } else {
            let (rng2, n) = R::spec_rand_upto(st.1, FAST_LIMIT_RANGE_END);
            lemma_alt_ie_sound::<N, R>(f, ra, rb, a, b, n as i32, false, (st.0, rng2), fuel);
        }
    } else {
        lemma_alt_ie_sound::<N, R>(f, ra, rb, a, b, limit, false, st, fuel);
    }
}

/// [`lemma_alt_sf_sound`] for the comparison in the given phase.
pub proof fn lemma_alt_ie_sound<N: Node, R: NumberGenerator>(
    f: Set<(N, N)>,
    ra: N,
    rb: N,
    a: N,
    b: N,
    limit: i32,
    slow: bool,
    st: (AltView, R::V),
    fuel: nat,
)
    requires
        alt_ids_identify(ra, rb),
        alt_local_is_equivalence(ra, rb),
        alt_reachable(ra, rb, a),
        alt_reachable(ra, rb, b),
        alt_shape(st.0),
        alt_class_conn(f, ra, rb, st.0),
        alt_hist_ie::<N, R>(a, b, limit, slow, st, fuel).subset_of(f),
    ensures
        spec_interleave_equiv::<N, R>(a, b, limit, slow, st, fuel) matches Some((st2, r)) ==> (
        r is Equiv && alt_fits(st2.0) ==> alt_class_conn(f, ra, rb, st2.0) && connected(
            in_set(f),
            a,
            b,
        ) && alt_complete(f, alt_hist_ie::<N, R>(a, b, limit, slow, st, fuel), ra, rb)),
    decreases fuel, 1int, 0int,
{
    let g = in_set(f);
    let h = alt_hist_ie::<N, R>(a, b, limit, slow, st, fuel);
    if a.spec_id() == b.spec_id() {
        assert(a == b);
        lemma_connected_refl(g, a);
    } else if let Some(n) = alt_local(a, b) {
        if n == 0 {
            assert(h.contains((a, b)));
            assert(g(a, b));
            lemma_connected_step(g, a, b);
        } else {
            let he = if slow {
                alt_hist_edges::<N, R>(
                    a,
                    b,
                    0,
                    n,
                    limit,
                    (spec_alt_same_class(st.0, a.spec_id(), b.spec_id()).0, st.1),
                    fuel,
                )
            } else {
                alt_hist_edges::<N, R>(a, b, 0, n, limit, st, fuel)
            };
            let st1 = if slow {
                (spec_alt_same_class(st.0, a.spec_id(), b.spec_id()).0, st.1)
            } else {
                st
            };
            if let Some((st2, r)) = spec_interleave_equiv::<N, R>(a, b, limit, slow, st, fuel) {
                if r is Equiv && alt_fits(st2.0) {
                    if slow {
                        lemma_alt_shape(st.0, a.spec_id(), b.spec_id());
                        let (uf2, same) = spec_alt_same_class(st.0, a.spec_id(), b.spec_id());
                        if !same {
                            lemma_alt_edges_shape::<N, R>(a, b, 0, n, limit, st1, fuel);
                        }
                        assert(alt_fits(uf2));
                        lemma_alt_same_class(st.0, a.spec_id(), b.spec_id());
                        if same {
                            assert(alt_same(st.0, a.spec_id(), b.spec_id()));
                        } else {
                            assert(h.contains((a, b)));
                            lemma_connected_step(g, a, b);
                        }
                        lemma_alt_merge_conn(f, ra, rb, st.0, a, b);
                        if !same {
                            lemma_alt_edges_sound::<N, R>(f, ra, rb, a, b, 0, n, limit, st1, fuel);
                        }
                    } else {
                        assert(h.contains((a, b)));
                        lemma_connected_step(g, a, b);
                        lemma_alt_edges_sound::<N, R>(f, ra, rb, a, b, 0, n, limit, st1, fuel);
                    }
                    if h.contains((a, b)) {
                        assert(h == he.insert((a, b)));
                        assert forall|p: (N, N)| #[trigger] h.contains(p) implies alt_reachable(
                            ra,
                            rb,
                            p.0,
                        ) && alt_reachable(ra, rb, p.1) && p.0.spec_id() != p.1.spec_id() && (
                        alt_local(p.0, p.1) matches Some(k) && forall|i: usize|
                            i < k ==> #[trigger] connected(
                                in_set(f),
                                p.0.spec_edge(i),
                                p.1.spec_edge(i),
                            )) by {
                            if p != (a, b) {
                                assert(he.contains(p));
                            }
                        }
                    }
                }
            }
        }
    }
}

/// [`lemma_alt_sf_sound`] for the comparison of the edges from index `i` to `n` of reachable
/// counterparts: those edges are connected.
pub proof fn lemma_alt_edges_sound<N: Node, R: NumberGenerator>(
    f: Set<(N, N)>,
    ra: N,
    rb: N,
    a: N,
    b: N,
    i: usize,
    n: usize,
    limit: i32,
    st: (AltView, R::V),
    fuel: nat,
)
    requires
        alt_ids_identify(ra, rb),
        alt_local_is_equivalence(ra, rb),
        alt_reachable(ra, rb, a),
        alt_reachable(ra, rb, b),
        n <= a.spec_amount_edges(),
        n <= b.spec_amount_edges(),
        alt_shape(st.0),
        alt_class_conn(f, ra, rb, st.0),
        alt_hist_edges::<N, R>(a, b, i, n, limit, st, fuel).subset_of(f),
    ensures
        spec_interleave_edges::<N, R>(a, b, i, n, limit, st, fuel) matches Some((st2, r)) ==> (r is Equiv
            && alt_fits(st2.0) ==> alt_class_conn(f, ra, rb, st2.0) && (forall|j: usize|
            i <= j < n ==> #[trigger] connected(in_set(f), a.spec_edge(j), b.spec_edge(j)))
            && alt_complete(f, alt_hist_edges::<N, R>(a, b, i, n, limit, st, fuel), ra, rb)),
    decreases fuel, 0int, n - i,
{
    if i < n && fuel > 0 {
        let sub = (fuel - 1) as nat;
        let (x, y) = (a.spec_edge(i), b.spec_edge(i));
        lemma_alt_reachable_edge(ra, rb, a, i);
        lemma_alt_reachable_edge(ra, rb, b, i);
        let h1 = alt_hist_sf::<N, R>(x, y, sat_dec(limit), st, sub);
        lemma_alt_sf_shape::<N, R>(x, y, sat_dec(limit), st, sub);
        if let Some((st1, r1)) = spec_slow_or_fast::<N, R>(x, y, sat_dec(limit), st, sub) {
            if let EquivResult::Equiv(l2) = r1 {
                let h2 = alt_hist_edges::<N, R>(a, b, (i + 1) as usize, n, l2, st1, fuel);
                assert(alt_hist_edges::<N, R>(a, b, i, n, limit, st, fuel) == h1 + h2);
                lemma_alt_edges_shape::<N, R>(a, b, (i + 1) as usize, n, l2, st1, fuel);
                if let Some((st2, r)) = spec_interleave_edges::<N, R>(
                    a,
                    b,
                    (i + 1) as usize,
                    n,
                    l2,
                    st1,
                    fuel,
                ) {
                    if r is Equiv && alt_fits(st2.0) {
                        lemma_alt_sf_sound::<N, R>(f, ra, rb, x, y, sat_dec(limit), st, sub);
                        lemma_alt_edges_sound::<N, R>(
                            f,
                            ra,
                            rb,
                            a,
                            b,
                            (i + 1) as usize,
                            n,
                            l2,
                            st1,
                            fuel,
                        );
                    }
                }
            }
        }
    }
}

/// The state and result of the interleave from the counterparts with the limit, when it
/// completes.
pub open spec fn alt_interleave_outcome<N: Node, R: NumberGenerator>(a: N, b: N, limit: i32) -> (
    (AltView, R::V),
    EquivResult,
) {
    let fuel = choose|fuel: nat| interleave_fuel_ok::<N, R>(a, b, limit, fuel);
    spec_slow_or_fast::<N, R>(a, b, limit, (empty_alt_view(), R::spec_default()), fuel)->Some_0
}

/// A witnessed inequivalence means that the graphs are not equivalent.
pub proof fn lemma_alt_differs_not_equivalent<N: Node>(a: N, b: N)
    requires
        alt_differs_at_some_path(a, b),
    ensures
        !alt_all_equivalent(a, b),
{
    let path = choose|path: Seq<usize>|
        #[trigger] alt_descended(a, b, path) && alt_at_path(a, path).spec_id() != alt_at_path(
            b,
            path,
        ).spec_id() && alt_local(alt_at_path(a, path), alt_at_path(b, path)) is None;
    assert(!alt_equivalent_at(a, b, path));
}

/// The interleave decides equivalence, also of cyclic graphs: when the comparison ignoring
/// descendents behaves as an equivalence on the nodes reachable from the roots, reachable nodes
/// with the same identity are the same node, and the record of classes fits in memory, the
/// result is equivalent exactly when every descended path reaches counterparts that are the
/// same node or compare equivalent, ignoring their descendents.  The record may split a class,
/// which does not let the algorithm accept inequivalent graphs.
pub proof fn lemma_alt_interleave_equivalence<N: Node, R: NumberGenerator>(
    a: N,
    b: N,
    limit: i32,
)
    requires
        alt_ids_identify(a, b),
        alt_local_is_equivalence(a, b),
        interleave_terminates::<N, R>(a, b, limit),
        alt_fits(alt_interleave_outcome::<N, R>(a, b, limit).0.0),
    ensures
        spec_interleave::<N, R>(a, b, limit) <==> alt_all_equivalent(a, b),
{
    lemma_interleave_false_witnessed::<N, R>(a, b, limit);
    if !spec_interleave::<N, R>(a, b, limit) {
        lemma_alt_differs_not_equivalent(a, b);
    } else {
        lemma_alt_reachable_roots(a, b);
        let fuel = choose|fuel: nat| interleave_fuel_ok::<N, R>(a, b, limit, fuel);
        let st0 = (empty_alt_view(), R::spec_default());
        let f = alt_hist_sf::<N, R>(a, b, limit, st0, fuel);
        let g = in_set(f);
        assert(alt_shape(st0.0));
        assert(alt_class_conn(f, a, b, st0.0));
        lemma_alt_sf_sound::<N, R>(f, a, b, a, b, limit, st0, fuel);
        assert forall|x: N, y: N| #[trigger] g(x, y) implies alt_reachable(a, b, x)
            && alt_reachable(a, b, y) && (x.spec_id() == y.spec_id() || alt_good(g, x, y)) by {
            assert(f.contains((x, y)));
        }
        lemma_alt_connected_closed(g, a, b);
        let s = |x: N, y: N| connected(g, x, y);
        assert(s(a, b));
        lemma_alt_closed_all_equivalent(s, a, b);
    }
}

/// Following a first edge, then the rest of a path.
pub proof fn lemma_alt_at_path_prepend<N: Node>(n: N, i: usize, path: Seq<usize>)
    ensures
        alt_at_path(n, seq![i] + path) == alt_at_path(n.spec_edge(i), path),
    decreases path.len(),
{
    let whole = seq![i] + path;
    if path.len() == 0 {
        assert(whole.drop_last() =~= Seq::<usize>::empty());
        assert(whole.last() == i);
        assert(alt_at_path(n, whole.drop_last()) == n);
    } else {
        assert(whole.drop_last() =~= seq![i] + path.drop_last());
        assert(whole.last() == path.last());
        lemma_alt_at_path_prepend(n, i, path.drop_last());
    }
}

/// The first step of a descended path is a descended edge.
pub proof fn lemma_alt_descended_first<N: Node>(a: N, b: N, path: Seq<usize>)
    requires
        alt_descended(a, b, path),
        path.len() > 0,
    ensures
        a.spec_id() != b.spec_id(),
        alt_local(a, b) matches Some(k) && path[0] < k,
    decreases path.len(),
{
    if path.len() > 1 {
        lemma_alt_descended_first(a, b, path.drop_last());
    } else {
        assert(path.drop_last() =~= Seq::<usize>::empty());
    }
}

/// A path that starts with a descended edge is descended exactly when its rest is descended
/// from the counterpart edges.
pub proof fn lemma_alt_descended_prepend<N: Node>(a: N, b: N, i: usize, path: Seq<usize>)
    requires
        a.spec_id() != b.spec_id(),
        alt_local(a, b) matches Some(k) && i < k,
    ensures
        alt_descended(a, b, seq![i] + path) == alt_descended(a.spec_edge(i), b.spec_edge(i), path),
        alt_equivalent_at(a, b, seq![i] + path) == alt_equivalent_at(
            a.spec_edge(i),
            b.spec_edge(i),
            path,
        ),
    decreases path.len(),
{
    lemma_alt_at_path_prepend(a, i, path);
    lemma_alt_at_path_prepend(b, i, path);
    if path.len() == 0 {
        assert((seq![i] + path).drop_last() =~= Seq::<usize>::empty());
        assert(alt_descended(a, b, Seq::<usize>::empty()));
    } else {
        let q = path.drop_last();
        assert((seq![i] + path).drop_last() =~= seq![i] + q);
        lemma_alt_descended_prepend(a, b, i, q);
        lemma_alt_at_path_prepend(a, i, q);
        lemma_alt_at_path_prepend(b, i, q);
    }
}

/// Counterparts that are the same node, or that compare equivalent ignoring descendents with
/// no edges to descend, are equivalent.
pub proof fn lemma_alt_stop<N: Node>(x: N, y: N)
    requires
        x.spec_id() == y.spec_id() || alt_local(x, y) == Some(0usize),
    ensures
        alt_all_equivalent(x, y),
{
    assert forall|p: Seq<usize>| #[trigger] alt_descended(x, y, p) implies alt_equivalent_at(
        x,
        y,
        p,
    ) by {
        if p.len() > 0 {
            lemma_alt_descended_first(x, y, p);
        }
        assert(alt_at_path(x, p) == x);
        assert(alt_at_path(y, p) == y);
    }
}

/// Counterparts that compare equivalent, ignoring descendents, and all of whose descended edges
/// are equivalent, are equivalent.
pub proof fn lemma_alt_from_edges<N: Node>(x: N, y: N, k: usize)
    requires
        x.spec_id() != y.spec_id(),
        alt_local(x, y) == Some(k),
        forall|j: usize| j < k ==> #[trigger] alt_all_equivalent(x.spec_edge(j), y.spec_edge(j)),
    ensures
        alt_all_equivalent(x, y),
{
    assert forall|p: Seq<usize>| #[trigger] alt_descended(x, y, p) implies alt_equivalent_at(
        x,
        y,
        p,
    ) by {
        if p.len() == 0 {
            assert(alt_at_path(x, p) == x);
            assert(alt_at_path(y, p) == y);
        } else {
            lemma_alt_descended_first(x, y, p);
            let i = p[0];
            let rest = p.subrange(1, p.len() as int);
            assert(p =~= seq![i] + rest);
            lemma_alt_descended_prepend(x, y, i, rest);
            assert(alt_all_equivalent(x.spec_edge(i), y.spec_edge(i)));
            assert(alt_descended(x.spec_edge(i), y.spec_edge(i), rest));
        }
    }
}

/// The limit that the precheck gives back is no more than it was given.
pub proof fn lemma_alt_precheck_le<N: Node>(a: N, b: N, limit: i32)
    ensures
        spec_precheck(a, b, limit) matches EquivResult::Equiv(l) ==> l <= limit,
    decreases clip(limit), 1int, 0int,
{
    if a.spec_id() != b.spec_id() {
        if let Some(n) = alt_local(a, b) {
            if n != 0 && limit > 0 {
                lemma_alt_precheck_edges_le(a, b, 0, n, limit, limit);
            }
        }
    }
}

/// [`lemma_alt_precheck_le`] for the edges from index `i` to `n`.
pub proof fn lemma_alt_precheck_edges_le<N: Node>(
    a: N,
    b: N,
    i: usize,
    n: usize,
    limit: i32,
    bound: i32,
)
    ensures
        spec_precheck_edges(a, b, i, n, limit, bound) matches EquivResult::Equiv(l) ==> l <= limit,
    decreases clip(bound), 0int, n - i,
{
    if i < n && limit <= bound && bound > 0 {
        let l = sat_dec(limit);
        lemma_alt_precheck_le(a.spec_edge(i), b.spec_edge(i), l);
        if let EquivResult::Equiv(l2) = spec_precheck(a.spec_edge(i), b.spec_edge(i), l) {
            if l2 <= l {
                lemma_alt_precheck_edges_le(a, b, (i + 1) as usize, n, l2, bound);
            }
        }
    }
}

/// The precheck gives equivalence only for equivalent graphs.
pub proof fn lemma_alt_precheck_sound<N: Node>(a: N, b: N, limit: i32)
    ensures
        spec_precheck(a, b, limit) is Equiv ==> alt_all_equivalent(a, b),
    decreases clip(limit), 1int, 0int,
{
    if a.spec_id() == b.spec_id() {
        lemma_alt_stop(a, b);
    } else if let Some(n) = alt_local(a, b) {
        if n == 0 {
            lemma_alt_stop(a, b);
        } else if limit > 0 {
            lemma_alt_precheck_edges_sound(a, b, 0, n, limit, limit);
            if spec_precheck(a, b, limit) is Equiv {
                lemma_alt_from_edges(a, b, n);
            }
        }
    }
}

/// [`lemma_alt_precheck_sound`] for the edges from index `i` to `n`: each of them is
/// equivalent.
pub proof fn lemma_alt_precheck_edges_sound<N: Node>(
    a: N,
    b: N,
    i: usize,
    n: usize,
    limit: i32,
    bound: i32,
)
    requires
        limit <= bound,
        bound > 0,
    ensures
        spec_precheck_edges(a, b, i, n, limit, bound) is Equiv ==> forall|j: usize|
            i <= j < n ==> #[trigger] alt_all_equivalent(a.spec_edge(j), b.spec_edge(j)),
    decreases clip(bound), 0int, n - i,
{
    if i < n {
        let l = sat_dec(limit);
        lemma_alt_precheck_le(a.spec_edge(i), b.spec_edge(i), l);
        lemma_alt_precheck_sound(a.spec_edge(i), b.spec_edge(i), l);
        if let EquivResult::Equiv(l2) = spec_precheck(a.spec_edge(i), b.spec_edge(i), l) {
            lemma_alt_precheck_edges_sound(a, b, (i + 1) as usize, n, l2, bound);
        }
    }
}

/// The main equivalence algorithm of this variation decides equivalence, also of cyclic graphs,
/// under the conditions of [`lemma_alt_interleave_equivalence`] where the precheck aborts.
pub proof fn lemma_alt_precheck_interleave_equivalence<N: Node>(a: N, b: N)
    requires
        alt_ids_identify(a, b),
        alt_local_is_equivalence(a, b),
        spec_precheck(a, b, PRE_LIMIT as i32) is Abort ==> interleave_terminates::<
            N,
            RandomNumberGenerator,
        >(a, b, -1i32) && alt_fits(
            alt_interleave_outcome::<N, RandomNumberGenerator>(a, b, -1i32).0.0,
        ),
    ensures
        spec_precheck_interleave_equiv(a, b) <==> alt_all_equivalent(a, b),
{
    lemma_precheck_unequiv_witnessed(a, b, PRE_LIMIT as i32);
    lemma_alt_precheck_sound(a, b, PRE_LIMIT as i32);
    match spec_precheck(a, b, PRE_LIMIT as i32) {
        EquivResult::Unequiv => {
            lemma_alt_differs_not_equivalent(a, b);
        },
        EquivResult::Abort => {
            lemma_alt_interleave_equivalence::<N, RandomNumberGenerator>(a, b, -1i32);
        },
        EquivResult::Equiv(_) => {},
    }
}

/// Every descended path from the counterparts is shorter than `depth`.
pub open spec fn alt_depth_bounded<N: Node>(a: N, b: N, depth: nat) -> bool {
    forall|p: Seq<usize>| #[trigger] alt_descended(a, b, p) ==> p.len() < depth
}

/// The interleave, from any state of the record and the generator, completes on counterparts
/// whose descended paths are shorter than one more than the fuel.
pub proof fn lemma_alt_sf_bounded<N: Node, R: NumberGenerator>(
    a: N,
    b: N,
    limit: i32,
    st: (AltView, R::V),
    fuel: nat,
)
    requires
        alt_depth_bounded(a, b, fuel + 1),
    ensures
        spec_slow_or_fast::<N, R>(a, b, limit, st, fuel) is Some,
    decreases fuel, 2int, 0int,
{
    if limit < 0 {
        if limit >= SLOW_LIMIT_NEG {
            lemma_alt_ie_bounded::<N, R>(a, b, limit, true, st, fuel);
        } else {
            let (rng2, n) = R::spec_rand_upto(st.1, FAST_LIMIT_RANGE_END);
            lemma_alt_ie_bounded::<N, R>(a, b, n as i32, false, (st.0, rng2), fuel);
        }
    } else {
        lemma_alt_ie_bounded::<N, R>(a, b, limit, false, st, fuel);
    }
}

/// [`lemma_alt_sf_bounded`] for the comparison in the given phase.
pub proof fn lemma_alt_ie_bounded<N: Node, R: NumberGenerator>(
    a: N,
    b: N,
    limit: i32,
    slow: bool,
    st: (AltView, R::V),
    fuel: nat,
)
    requires
        alt_depth_bounded(a, b, fuel + 1),
    ensures
        spec_interleave_equiv::<N, R>(a, b, limit, slow, st, fuel) is Some,
    decreases fuel, 1int, 0int,
{
    if a.spec_id() != b.spec_id() {
        if let Some(n) = alt_local(a, b) {
            if n != 0 {
                let st1 = if slow {
                    (spec_alt_same_class(st.0, a.spec_id(), b.spec_id()).0, st.1)
                } else {
                    st
                };
                lemma_alt_edges_bounded::<N, R>(a, b, 0, n, limit, st1, fuel);
            }
        }
    }
}

/// [`lemma_alt_sf_bounded`] for the comparison of the edges from index `i` to `n` of
/// counterparts that are distinct and compare equivalent with `n` edges to descend.
pub proof fn lemma_alt_edges_bounded<N: Node, R: NumberGenerator>(
    a: N,
    b: N,
    i: usize,
    n: usize,
    limit: i32,
    st: (AltView, R::V),
    fuel: nat,
)
    requires
        a.spec_id() != b.spec_id(),
        alt_local(a, b) == Some(n),
        alt_depth_bounded(a, b, fuel + 1),
    ensures
        spec_interleave_edges::<N, R>(a, b, i, n, limit, st, fuel) is Some,
    decreases fuel, 0int, n - i,
{
    if i < n {
        assert(alt_at_path(a, Seq::<usize>::empty()) == a);
        assert(alt_at_path(b, Seq::<usize>::empty()) == b);
        let one = seq![i];
        assert(one =~= seq![i] + Seq::<usize>::empty());
        lemma_alt_descended_prepend(a, b, i, Seq::<usize>::empty());
        assert(alt_descended(a.spec_edge(i), b.spec_edge(i), Seq::<usize>::empty()));
        assert(alt_descended(a, b, one));
        let sub = (fuel - 1) as nat;
        assert forall|p: Seq<usize>| #[trigger] alt_descended(a.spec_edge(i), b.spec_edge(i), p)
            implies p.len() < sub + 1 by {
            lemma_alt_descended_prepend(a, b, i, p);
            assert(alt_descended(a, b, seq![i] + p));
        }
        lemma_alt_sf_bounded::<N, R>(a.spec_edge(i), b.spec_edge(i), sat_dec(limit), st, sub);
        if let Some((st2, EquivResult::Equiv(l2))) = spec_slow_or_fast::<N, R>(
            a.spec_edge(i),
            b.spec_edge(i),
            sat_dec(limit),
            st,
            sub,
        ) {
            lemma_alt_edges_bounded::<N, R>(a, b, (i + 1) as usize, n, l2, st2, fuel);
        }
    }
}

/// The interleave of this variation completes, from its starting state, on counterparts whose
/// descended paths are all shorter than some bound, as they are in finite acyclic graphs.
pub proof fn lemma_alt_bounded_depth_terminates<N: Node, R: NumberGenerator>(
    a: N,
    b: N,
    limit: i32,
    depth: nat,
)
    requires
        alt_depth_bounded(a, b, depth),
    ensures
        interleave_terminates::<N, R>(a, b, limit),
{
    assert(alt_descended(a, b, Seq::<usize>::empty()));
    lemma_alt_sf_bounded::<N, R>(a, b, limit, (empty_alt_view(), R::spec_default()), (depth - 1) as nat);
    assert(interleave_fuel_ok::<N, R>(a, b, limit, (depth - 1) as nat));
}

/// A run of counterpart edges, up to index `m`, that are locally-equal leaves only counts the
/// limit down, one per pair, while it stays in the "slow" phase or the "fast" phase.
proof fn lemma_alt_leaf_edges<N: Node, R: NumberGenerator>(
    x: N,
    y: N,
    n: usize,
    m: usize,
    i: usize,
    l: i32,
    st: (AltView, R::V),
    fuel: nat,
)
    requires
        i <= m <= n,
        fuel > 0,
        -40 <= l - (m - i),
        l <= 0,
        forall|j: usize| j < m ==> #[trigger] alt_local(x.spec_edge(j), y.spec_edge(j)) == Some(
            0usize,
        ),
    ensures
        spec_interleave_edges::<N, R>(x, y, i, n, l, st, fuel) == spec_interleave_edges::<N, R>(
            x,
            y,
            m,
            n,
            (l - (m - i)) as i32,
            st,
            fuel,
        ),
    decreases m - i,
{
    if i < m {
        assert(alt_local(x.spec_edge(i), y.spec_edge(i)) == Some(0usize));
        let l1 = (l - 1) as i32;
        assert(sat_dec(l) == l1);
        let f = (fuel - 1) as nat;
        let leaf = Some((st, EquivResult::Equiv(l1)));
        assert(spec_interleave_equiv::<N, R>(x.spec_edge(i), y.spec_edge(i), l1, l1 < 0, st, f)
            == leaf);
        assert(spec_slow_or_fast::<N, R>(x.spec_edge(i), y.spec_edge(i), l1, st, f) == leaf);
        lemma_alt_leaf_edges::<N, R>(x, y, n, m, (i + 1) as usize, l1, st, fuel);
    }
}

/// Entered with the limit past the "slow" limit, a generator that always draws 0 makes the
/// pair loop forever: its 40 leaf edges use up the "fast" phase and its last edge leads back to
/// the pair itself, past the limit again.
proof fn lemma_alt_past_limit_loops<N: Node, R: NumberGenerator>(
    c: N,
    d: N,
    l: i32,
    st: (AltView, R::V),
    fuel: nat,
)
    requires
        l < SLOW_LIMIT_NEG,
        forall|v: R::V| #[trigger] R::spec_rand_upto(v, FAST_LIMIT_RANGE_END).1 == 0,
        c.spec_id() != d.spec_id(),
        alt_local(c, d) == Some(41usize),
        c.spec_edge(40) == c,
        d.spec_edge(40) == d,
        forall|j: usize| j < 40 ==> #[trigger] alt_local(c.spec_edge(j), d.spec_edge(j)) == Some(
            0usize,
        ),
    ensures
        spec_slow_or_fast::<N, R>(c, d, l, st, fuel) is None,
    decreases fuel,
{
    let draw = R::spec_rand_upto(st.1, FAST_LIMIT_RANGE_END);
    assert(draw.1 == 0);
    let st2 = (st.0, draw.0);
    if fuel > 0 {
        lemma_alt_leaf_edges::<N, R>(c, d, 41, 40, 0, 0, st2, fuel);
        lemma_alt_past_limit_loops::<N, R>(c, d, -41i32, st2, (fuel - 1) as nat);
    }
}

/// The interleave need not complete on a cyclic graph: its completion depends on the numbers
/// that its generator draws.  With a generator that always draws 0, a node with 39 leaf edges
/// that compare equal and a 40th edge to a node with 40 such leaf edges and a 41st edge back to
/// itself, compared with a distinct copy of it, is compared forever.
pub proof fn lemma_alt_interleave_may_not_terminate<N: Node, R: NumberGenerator>(
    a: N,
    b: N,
    c: N,
    d: N,
)
    requires
        forall|v: R::V| #[trigger] R::spec_rand_upto(v, FAST_LIMIT_RANGE_END).1 == 0,
        a.spec_id() != b.spec_id(),
        alt_local(a, b) == Some(40usize),
        a.spec_edge(39) == c,
        b.spec_edge(39) == d,
        forall|j: usize| j < 39 ==> #[trigger] alt_local(a.spec_edge(j), b.spec_edge(j)) == Some(
            0usize,
        ),
        c.spec_id() != d.spec_id(),
        alt_local(c, d) == Some(41usize),
        c.spec_edge(40) == c,
        d.spec_edge(40) == d,
        forall|j: usize| j < 40 ==> #[trigger] alt_local(c.spec_edge(j), d.spec_edge(j)) == Some(
            0usize,
        ),
    ensures
        !interleave_terminates::<N, R>(a, b, -1i32),
{
    assert forall|fuel: nat| !#[trigger] interleave_fuel_ok::<N, R>(a, b, -1i32, fuel) by {
        let st = (empty_alt_view(), R::spec_default());
        let (uf2, same) = spec_alt_same_class(st.0, a.spec_id(), b.spec_id());
        assert(!same);
        if fuel > 0 {
            lemma_alt_leaf_edges::<N, R>(a, b, 40, 39, 0, -1i32, (uf2, st.1), fuel);
            lemma_alt_past_limit_loops::<N, R>(c, d, -41i32, (uf2, st.1), (fuel - 1) as nat);
        }
    }
}

} // verus!
