use vstd::hash_map::HashMapWithView;
use vstd::prelude::*;

use crate::alt::results::{
    alt_all_equivalent, alt_descended, alt_fits, alt_ids_identify, alt_interleave_outcome,
    alt_local, alt_local_is_equivalence, lemma_alt_interleave_equivalence,
    lemma_alt_precheck_interleave_equivalence,
};
use crate::cycle_safe::modes::interleave::random::wyrng::RandomNumberGenerator;
use crate::cycle_safe::modes::interleave::random::NumberGenerator;

verus! {

/// How many edges the precheck descends before it aborts.  These values are from the paper.
pub const PRE_LIMIT: u16 = 400;

/// The greatest limit of the "fast" phase, which is chosen at random up to it.
pub const FAST_LIMIT: u16 = 800;

/// How many nodes, consecutively, the "slow" phase traverses before it changes to the "fast"
/// phase.
pub const SLOW_LIMIT: u16 = 40;

/// The negated [`SLOW_LIMIT`], that the limit is compared with.
pub const SLOW_LIMIT_NEG: i32 = -40;

/// What the main equivalence algorithm needs from a type.
///
/// The `spec_*` functions are the mathematical model of a node: its identity, its amount of
/// edges, its descendents by index, and the comparison of its own values.
pub trait Node: Sized {
    /// The identity of the node.  Nodes with the same identity are the same identical node and
    /// so are immediately considered equivalent.
    spec fn spec_id(&self) -> u64;

    /// How many edges the node has.
    spec fn spec_amount_edges(&self) -> usize;

    /// The descendent at the given index.
    spec fn spec_edge(&self, idx: usize) -> Self;

    /// Whether the nodes' own values, ignoring their edges, are equivalent.
    spec fn spec_equiv_modulo_edges(&self, other: &Self) -> bool;

    /// How many edges to descend, when the nodes are equivalent ignoring their descendents.
    spec fn spec_equiv_modulo_descendents_then_amount_edges(&self, other: &Self) -> Option<usize>;

    /// The identity of the node.
    fn id(&self) -> (r: u64)
        ensures
            r == self.spec_id(),
    ;

    /// How many edges the node has.
    fn amount_edges(&self) -> (r: usize)
        ensures
            r == self.spec_amount_edges(),
    ;

    /// The descendent at the given index, which must be less than the amount of edges.
    fn get_edge(&self, idx: &usize) -> (r: Self)
        requires
            *idx < self.spec_amount_edges(),
        ensures
            r == self.spec_edge(*idx),
    ;

    /// Check if the nodes are equivalent in their own directly-contained values ignoring their
    /// edges and ignoring their descendent nodes.
    fn equiv_modulo_edges(&self, other: &Self) -> (r: bool)
        ensures
            r == self.spec_equiv_modulo_edges(other),
    ;

    /// Check if the nodes are equivalent in their own values and if their amounts of edges are
    /// similar enough that their descendents must be checked: if so, return the amount of edges
    /// to descend, which must be at most the amounts of edges of both nodes; else `None`.
    fn equiv_modulo_descendents_then_amount_edges(&self, other: &Self) -> (r: Option<usize>)
        ensures
            r == self.spec_equiv_modulo_descendents_then_amount_edges(other),
            r matches Some(k) ==> k <= self.spec_amount_edges() && k <= other.spec_amount_edges(),
    ;
}

/// The usual check of the nodes ignoring their descendents: equal amounts of edges and
/// equivalent own values, and then all the edges are descended.
pub open spec fn spec_default_modulo_descendents<N: Node>(a: &N, b: &N) -> Option<usize> {
    if a.spec_amount_edges() == b.spec_amount_edges() && a.spec_equiv_modulo_edges(b) {
        Some(a.spec_amount_edges())
    } else {
        None
    }
}

/// The usual check gives a result exactly when the nodes have the same amount of edges and
/// equivalent own values, and the result is then that amount, so that all the edges are
/// descended.
pub proof fn lemma_default_modulo_descendents<N: Node>(a: &N, b: &N)
    ensures
        spec_default_modulo_descendents(a, b) is Some <==> (a.spec_amount_edges()
            == b.spec_amount_edges() && a.spec_equiv_modulo_edges(b)),
        spec_default_modulo_descendents(a, b) matches Some(k) ==> k == a.spec_amount_edges() && k
            == b.spec_amount_edges(),
{
}

/// The usual implementation of [`Node::equiv_modulo_descendents_then_amount_edges`]: checks
/// that the amounts of edges are the same and then that the nodes' own values are equivalent,
/// in that order, and then returns the amount of edges.
pub fn default_equiv_modulo_descendents_then_amount_edges<N: Node>(a: &N, b: &N) -> (r: Option<
    usize,
>)
    ensures
        r == spec_default_modulo_descendents(a, b),
        r is Some <==> (a.spec_amount_edges() == b.spec_amount_edges()
            && a.spec_equiv_modulo_edges(b)),
        r matches Some(k) ==> k == a.spec_amount_edges() && k == b.spec_amount_edges(),
{
    let (az, bz) = (a.amount_edges(), b.amount_edges());
    if az == bz && a.equiv_modulo_edges(b) {
        Some(az)
    } else {
        None
    }
}

/// The result of comparing two nodes and their descendents, with the limit left.
#[derive(PartialEq, Eq, Structural, Clone, Copy, Debug)]
pub enum EquivResult {
    /// Not equivalent.
    Unequiv,
    /// The limit was reached before the comparison completed.
    Abort,
    /// Equivalent, with the given limit left.
    Equiv(i32),
}

/// The limit after descending an edge: one less, saturating at the minimum.
pub open spec fn sat_dec(l: i32) -> i32 {
    if l > i32::MIN {
        (l - 1) as i32
    } else {
        l
    }
}

/// The part of a limit that bounds further descent.
pub open spec fn clip(l: i32) -> int {
    if l > 0 {
        l as int
    } else {
        0
    }
}

/// The precheck: compare the nodes in depth-first preorder, descending the edges of a pair only
/// while the limit is positive, and decrementing the limit for each edge descended.
pub open spec fn spec_precheck<N: Node>(a: N, b: N, limit: i32) -> EquivResult
    decreases clip(limit), 1int, 0int,
{
    if a.spec_id() == b.spec_id() {
        EquivResult::Equiv(limit)
    } else {
        match a.spec_equiv_modulo_descendents_then_amount_edges(&b) {
            None => EquivResult::Unequiv,
            Some(n) => if n == 0 {
                EquivResult::Equiv(limit)
            } else if limit > 0 {
                spec_precheck_edges(a, b, 0, n, limit, limit)
            } else {
                EquivResult::Abort
            },
        }
    }
}

/// The precheck of the edges from index `i` to `n`, with the limit `limit` left, after the
/// decision to descend was made with the limit `bound`.  The limit never grows, and so the
/// last branch is never taken.
pub open spec fn spec_precheck_edges<N: Node>(
    a: N,
    b: N,
    i: usize,
    n: usize,
    limit: i32,
    bound: i32,
) -> EquivResult
    decreases clip(bound), 0int, n - i,
{
    if i < n && limit <= bound && bound > 0 {
        let l = sat_dec(limit);
        match spec_precheck(a.spec_edge(i), b.spec_edge(i), l) {
            EquivResult::Equiv(l2) => if l2 <= l {
                spec_precheck_edges(a, b, (i + 1) as usize, n, l2, bound)
            } else {
                EquivResult::Equiv(l2)
            },
            r => r,
        }
    } else {
        EquivResult::Equiv(limit)
    }
}

/// The precheck: compare in depth-first preorder, descending the edges of a pair only while the
/// limit is positive, and decrementing the limit for each edge descended.  Returns the result
/// with the limit left, or [`EquivResult::Abort`] if the limit was reached.
pub fn precheck<N: Node>(a: &N, b: &N, limit: i32) -> (r: EquivResult)
    ensures
        r == spec_precheck(*a, *b, limit),
        r matches EquivResult::Equiv(l) ==> l <= limit,
    decreases clip(limit), 1int, 0int,
{
    if a.id() == b.id() {
        return EquivResult::Equiv(limit);
    }
    match a.equiv_modulo_descendents_then_amount_edges(b) {
        None => EquivResult::Unequiv,
        Some(n) => {
            if n == 0 {
                return EquivResult::Equiv(limit);
            }
            if limit <= 0 {
                return EquivResult::Abort;
            }
            let mut lim = limit;
            let mut i: usize = 0;
            while i < n
                invariant
                    0 <= i <= n,
                    lim <= limit,
                    limit > 0,
                    n <= a.spec_amount_edges(),
                    n <= b.spec_amount_edges(),
                    spec_precheck(*a, *b, limit) == spec_precheck_edges(
                        *a,
                        *b,
                        i,
                        n,
                        lim,
                        limit,
                    ),
                decreases n - i,
            {
                let ae = a.get_edge(&i);
                let be = b.get_edge(&i);
                let ghost before = lim;
                lim = if lim > i32::MIN {
                    lim - 1
                } else {
                    lim
                };
                let r = precheck(&ae, &be, lim);
                assert(spec_precheck_edges(*a, *b, i, n, before, limit) == match r {
                    EquivResult::Equiv(l2) => spec_precheck_edges(*a, *b, (i + 1) as usize, n, l2, limit),
                    r => r,
                });
                match r {
                    EquivResult::Equiv(l) => lim = l,
                    r => return r,
                }
                i = i + 1;
            }
            EquivResult::Equiv(lim)
        },
    }
}

/// The descendent reached from `n` by following the edges at the indices of the path, in order.
pub open spec fn alt_at_path<N: Node>(n: N, path: Seq<usize>) -> N
    decreases path.len(),
{
    if path.len() == 0 {
        n
    } else {
        alt_at_path(n, path.drop_last()).spec_edge(path.last())
    }
}

/// Whether some distinct counterparts reached by the same descended path from `a` and `b` are
/// inequivalent, ignoring their descendents.
pub open spec fn alt_differs_at_some_path<N: Node>(a: N, b: N) -> bool {
    exists|path: Seq<usize>|
        #[trigger] alt_descended(a, b, path) && alt_at_path(a, path).spec_id() != alt_at_path(
            b,
            path,
        ).spec_id() && alt_local(alt_at_path(a, path), alt_at_path(b, path)) is None
}

/// [`lemma_precheck_unequiv_witnessed`] from counterparts reached by the path `p`.
proof fn lemma_precheck_witnessed_at<N: Node>(a: N, b: N, p: Seq<usize>, limit: i32)
    requires
        alt_descended(a, b, p),
    ensures
        spec_precheck(alt_at_path(a, p), alt_at_path(b, p), limit) is Unequiv
            ==> alt_differs_at_some_path(a, b),
    decreases clip(limit), 1int, 0int,
{
    let (x, y) = (alt_at_path(a, p), alt_at_path(b, p));
    if x.spec_id() != y.spec_id() {
        if let Some(n) = x.spec_equiv_modulo_descendents_then_amount_edges(&y) {
            if n != 0 && limit > 0 {
                lemma_precheck_edges_witnessed_at(a, b, p, 0, n, limit, limit);
            }
        } else {
            assert(alt_descended(a, b, p));
        }
    }
}

/// [`lemma_precheck_unequiv_witnessed`] for the edges from index `i` of the counterparts reached
/// by the path `p`.
proof fn lemma_precheck_edges_witnessed_at<N: Node>(
    a: N,
    b: N,
    p: Seq<usize>,
    i: usize,
    n: usize,
    limit: i32,
    bound: i32,
)
    requires
        alt_descended(a, b, p),
        alt_at_path(a, p).spec_id() != alt_at_path(b, p).spec_id(),
        alt_local(alt_at_path(a, p), alt_at_path(b, p)) == Some(n),
    ensures
        spec_precheck_edges(alt_at_path(a, p), alt_at_path(b, p), i, n, limit, bound) is Unequiv
            ==> alt_differs_at_some_path(a, b),
    decreases clip(bound), 0int, n - i,
{
    if i < n && limit <= bound && bound > 0 {
        let q = p.push(i);
        assert(q.drop_last() =~= p);
        assert(q.last() == i);
        assert(alt_descended(a, b, q));
        let l = sat_dec(limit);
        lemma_precheck_witnessed_at(a, b, q, l);
        if let EquivResult::Equiv(l2) = spec_precheck(alt_at_path(a, q), alt_at_path(b, q), l) {
            if l2 <= l {
                lemma_precheck_edges_witnessed_at(a, b, p, (i + 1) as usize, n, l2, bound);
            }
        }
    }
}

/// The precheck reports inequivalence only where it found one: some distinct counterparts
/// reached by the same descended path of edge indices from both roots are inequivalent,
/// ignoring their descendents.
pub proof fn lemma_precheck_unequiv_witnessed<N: Node>(a: N, b: N, limit: i32)
    ensures
        spec_precheck(a, b, limit) is Unequiv ==> alt_differs_at_some_path(a, b),
{
    assert(alt_descended(a, b, Seq::<usize>::empty()));
    lemma_precheck_witnessed_at(a, b, Seq::empty(), limit);
}

/// A link of the chain of an equivalence class: the end, with the handle of the
/// representative of the class, or the handle of the next link.
#[derive(Clone, Copy, PartialEq, Eq, Structural, Debug)]
pub enum EquivClassChain {
    /// The end of the chain, at the representative.
    End(usize),
    /// The next link of the chain.
    Next(usize),
}

/// The representative of an equivalence class, with the weight of the class.  Distinct
/// representatives, by their handles, represent distinct classes.
#[derive(Clone, Copy, PartialEq, Eq, Structural, Debug)]
pub struct Representative {
    /// How many merges the class has had, which decides which class absorbs the other.
    pub weight: usize,
}

/// The chains are well-founded: each link goes to a valid link of strictly smaller rank, and
/// each end to a valid representative.
pub open spec fn chains_ok(chains: Seq<EquivClassChain>, rank: Seq<nat>, n_reps: nat) -> bool {
    &&& chains.len() == rank.len()
    &&& forall|i: int|
        0 <= i < chains.len() ==> match #[trigger] chains[i] {
            EquivClassChain::End(r) => r < n_reps,
            EquivClassChain::Next(j) => j < chains.len() && rank[j as int] < rank[i],
        }
}

/// The representative at the end of the chain from the link `i`.
pub open spec fn chain_rep(chains: Seq<EquivClassChain>, rank: Seq<nat>, i: int) -> int
    decreases rank[i],
{
    if 0 <= i < chains.len() && chains.len() == rank.len() {
        match chains[i] {
            EquivClassChain::End(r) => r as int,
            EquivClassChain::Next(j) => if (j as int) < chains.len() && rank[j as int] < rank[i] {
                chain_rep(chains, rank, j as int)
            } else {
                -1
            },
        }
    } else {
        -1
    }
}

/// Whether the chain from the link `x` passes through the link `y`.
pub open spec fn reaches(chains: Seq<EquivClassChain>, rank: Seq<nat>, x: int, y: int) -> bool
    decreases rank[x],
{
    x == y || (0 <= x < chains.len() && chains.len() == rank.len() && match chains[x] {
        EquivClassChain::Next(j) => (j as int) < chains.len() && rank[j as int] < rank[x]
            && reaches(chains, rank, j as int, y),
        EquivClassChain::End(_) => false,
    })
}

/// Follow the chain from `next`, whose predecessor is `cur`, to its end, and make each link
/// skip the next one on the way (path halving).  Gives the new chains and the representative.
pub open spec fn spec_walk(chains: Seq<EquivClassChain>, rank: Seq<nat>, cur: int, next: int) -> (
    Seq<EquivClassChain>,
    int,
)
    decreases rank[next],
{
    if 0 <= next < chains.len() && chains.len() == rank.len() {
        match chains[next] {
            EquivClassChain::End(r) => (chains, r as int),
            EquivClassChain::Next(nn) => if (nn as int) < chains.len() && rank[nn as int]
                < rank[next] {
                spec_walk(chains.update(cur, EquivClassChain::Next(nn)), rank, next, nn as int)
            } else {
                (chains, -1)
            },
        }
    } else {
        (chains, -1)
    }
}

/// The representative of the class of the link `it`, with the chains after path halving.
pub open spec fn spec_rep_of(chains: Seq<EquivClassChain>, rank: Seq<nat>, it: int) -> (
    Seq<EquivClassChain>,
    int,
) {
    match chains[it] {
        EquivClassChain::End(r) => (chains, r as int),
        EquivClassChain::Next(next) => spec_walk(chains, rank, it, next as int),
    }
}

/// The ranks after the link `smaller` is made to go to the link `larger`: the links whose
/// chains pass through `smaller` move up by more than the rank of `larger`.
pub open spec fn relinked_rank(
    chains: Seq<EquivClassChain>,
    rank: Seq<nat>,
    smaller: usize,
    larger: usize,
) -> Seq<nat> {
    Seq::new(
        rank.len(),
        |x: int|
            if reaches(chains, rank, x, smaller as int) {
                rank[x] + rank[larger as int] + 1
            } else {
                rank[x]
            },
    )
}

/// A chain ends at a valid representative, and a link has the representative of the next.
pub proof fn lemma_chain_rep(chains: Seq<EquivClassChain>, rank: Seq<nat>, n_reps: nat, i: int)
    requires
        chains_ok(chains, rank, n_reps),
        0 <= i < chains.len(),
    ensures
        0 <= chain_rep(chains, rank, i) < n_reps,
        chains[i] matches EquivClassChain::Next(j) ==> chain_rep(chains, rank, i) == chain_rep(
            chains,
            rank,
            j as int,
        ),
        chains[i] matches EquivClassChain::End(r) ==> chain_rep(chains, rank, i) == r,
    decreases rank[i],
{
    if let EquivClassChain::Next(j) = chains[i] {
        lemma_chain_rep(chains, rank, n_reps, j as int);
    }
}

/// Chains that pass through a link end at its representative.
pub proof fn lemma_reaches_rep(
    chains: Seq<EquivClassChain>,
    rank: Seq<nat>,
    n_reps: nat,
    x: int,
    y: int,
)
    requires
        chains_ok(chains, rank, n_reps),
        0 <= x < chains.len(),
        reaches(chains, rank, x, y),
    ensures
        chain_rep(chains, rank, x) == chain_rep(chains, rank, y),
    decreases rank[x],
{
    if x != y {
        if let EquivClassChain::Next(j) = chains[x] {
            lemma_reaches_rep(chains, rank, n_reps, j as int, y);
        }
    }
}

/// Appending an end, or a link to an existing link, changes no existing chain.
pub proof fn lemma_push(
    chains: Seq<EquivClassChain>,
    rank: Seq<nat>,
    n_reps: nat,
    c: EquivClassChain,
    r: nat,
    i: int,
)
    requires
        chains_ok(chains, rank, n_reps),
        0 <= i < chains.len(),
    ensures
        chain_rep(chains.push(c), rank.push(r), i) == chain_rep(chains, rank, i),
        reaches(chains.push(c), rank.push(r), i, chains.len() as int) == false,
        forall|y: int| #[trigger]
            reaches(chains.push(c), rank.push(r), i, y) == reaches(chains, rank, i, y),
    decreases rank[i],
{
    let ch2 = chains.push(c);
    let rk2 = rank.push(r);
    assert(ch2[i] == chains[i]);
    assert(rk2[i] == rank[i]);
    if let EquivClassChain::Next(j) = chains[i] {
        assert(rk2[j as int] == rank[j as int]);
        lemma_push(chains, rank, n_reps, c, r, j as int);
    }
    assert forall|y: int| #[trigger] reaches(ch2, rk2, i, y) == reaches(chains, rank, i, y) by {
        lemma_push_reaches(chains, rank, n_reps, c, r, i, y);
    }
}

/// [`lemma_push`] for the chains that pass through one link.
proof fn lemma_push_reaches(
    chains: Seq<EquivClassChain>,
    rank: Seq<nat>,
    n_reps: nat,
    c: EquivClassChain,
    r: nat,
    i: int,
    y: int,
)
    requires
        chains_ok(chains, rank, n_reps),
        0 <= i < chains.len(),
    ensures
        reaches(chains.push(c), rank.push(r), i, y) == reaches(chains, rank, i, y),
    decreases rank[i],
{
    let ch2 = chains.push(c);
    let rk2 = rank.push(r);
    assert(ch2[i] == chains[i]);
    assert(rk2[i] == rank[i]);
    if let EquivClassChain::Next(j) = chains[i] {
        assert(ch2[j as int] == chains[j as int]);
        assert(rk2[j as int] == rank[j as int]);
        lemma_push_reaches(chains, rank, n_reps, c, r, j as int, y);
    }
}

/// Making the link `cur` skip to `nn`, further along its chain, changes no representative.
pub proof fn lemma_compress(
    chains: Seq<EquivClassChain>,
    rank: Seq<nat>,
    n_reps: nat,
    cur: int,
    nn: usize,
    i: int,
)
    requires
        chains_ok(chains, rank, n_reps),
        0 <= cur < chains.len(),
        (nn as int) < chains.len(),
        rank[nn as int] < rank[cur],
        0 <= i < chains.len(),
        chain_rep(chains, rank, nn as int) == chain_rep(chains, rank, cur),
    ensures
        chain_rep(chains.update(cur, EquivClassChain::Next(nn)), rank, i) == chain_rep(
            chains,
            rank,
            i,
        ),
    decreases rank[i],
{
    let ch2 = chains.update(cur, EquivClassChain::Next(nn));
    if i == cur {
        lemma_compress(chains, rank, n_reps, cur, nn, nn as int);
    } else {
        assert(ch2[i] == chains[i]);
        if let EquivClassChain::Next(j) = chains[i] {
            lemma_compress(chains, rank, n_reps, cur, nn, j as int);
        }
    }
}

/// Path halving keeps the chains well-founded, changes no representative, and finds the
/// representative of `cur`.
pub proof fn lemma_walk(
    chains: Seq<EquivClassChain>,
    rank: Seq<nat>,
    n_reps: nat,
    cur: int,
    next: usize,
)
    requires
        chains_ok(chains, rank, n_reps),
        0 <= cur < chains.len(),
        chains[cur] == EquivClassChain::Next(next),
    ensures
        ({
            let (ch2, r) = spec_walk(chains, rank, cur, next as int);
            &&& chains_ok(ch2, rank, n_reps)
            &&& ch2.len() == chains.len()
            &&& r == chain_rep(chains, rank, cur)
            &&& forall|x: int|
                0 <= x < chains.len() ==> #[trigger] chain_rep(ch2, rank, x) == chain_rep(
                    chains,
                    rank,
                    x,
                )
        }),
    decreases rank[next as int],
{
    lemma_chain_rep(chains, rank, n_reps, cur);
    lemma_chain_rep(chains, rank, n_reps, next as int);
    if let EquivClassChain::Next(nn) = chains[next as int] {
        let ch1 = chains.update(cur, EquivClassChain::Next(nn));
        assert forall|i: int| 0 <= i < ch1.len() implies match #[trigger] ch1[i] {
            EquivClassChain::End(r) => r < n_reps,
            EquivClassChain::Next(j) => j < ch1.len() && rank[j as int] < rank[i],
        } by {
            if i != cur {
                assert(ch1[i] == chains[i]);
            }
        }
        assert forall|x: int| 0 <= x < chains.len() implies #[trigger] chain_rep(ch1, rank, x)
            == chain_rep(chains, rank, x) by {
            lemma_compress(chains, rank, n_reps, cur, nn, x);
        }
        assert(ch1[next as int] == chains[next as int]);
        lemma_walk(ch1, rank, n_reps, next as int, nn);
    }
}

/// Making the link `smaller` go to the link `larger`, of another class, keeps the chains
/// well-founded with the relinked ranks, and moves exactly the links whose chains passed
/// through `smaller` into the class of `larger`.
pub proof fn lemma_relink(
    chains: Seq<EquivClassChain>,
    rank: Seq<nat>,
    n_reps: nat,
    smaller: usize,
    larger: usize,
)
    requires
        chains_ok(chains, rank, n_reps),
        (smaller as int) < chains.len(),
        (larger as int) < chains.len(),
        chain_rep(chains, rank, smaller as int) != chain_rep(chains, rank, larger as int),
    ensures
        ({
            let ch2 = chains.update(smaller as int, EquivClassChain::Next(larger));
            let rk2 = relinked_rank(chains, rank, smaller, larger);
            &&& chains_ok(ch2, rk2, n_reps)
            &&& forall|x: int|
                0 <= x < chains.len() ==> #[trigger] chain_rep(ch2, rk2, x) == if reaches(chains, rank, x, smaller as int) {
                    chain_rep(chains, rank, larger as int)
                } else {
                    chain_rep(chains, rank, x)
                }
        }),
{
    let ch2 = chains.update(smaller as int, EquivClassChain::Next(larger));
    let rk2 = relinked_rank(chains, rank, smaller, larger);
    if reaches(chains, rank, larger as int, smaller as int) {
        lemma_reaches_rep(chains, rank, n_reps, larger as int, smaller as int);
    }
    assert(!reaches(chains, rank, larger as int, smaller as int));
    assert forall|i: int| 0 <= i < ch2.len() implies match #[trigger] ch2[i] {
        EquivClassChain::End(r) => r < n_reps,
        EquivClassChain::Next(j) => j < ch2.len() && rk2[j as int] < rk2[i],
    } by {
        if i == smaller as int {
            assert(reaches(chains, rank, smaller as int, smaller as int));
        } else {
            assert(ch2[i] == chains[i]);
            if let EquivClassChain::Next(j) = chains[i] {
                assert(reaches(chains, rank, i, smaller as int) == reaches(chains, rank, j as int, smaller as int));
            }
        }
    }
    assert forall|x: int| 0 <= x < chains.len() implies #[trigger] chain_rep(ch2, rk2, x) == if reaches(chains, rank, x, smaller as int) {
        chain_rep(chains, rank, larger as int)
    } else {
        chain_rep(chains, rank, x)
    } by {
        lemma_relink_at(chains, rank, n_reps, smaller, larger, x);
    }
}

/// [`lemma_relink`] at one link, by induction on its relinked rank.
proof fn lemma_relink_at(
    chains: Seq<EquivClassChain>,
    rank: Seq<nat>,
    n_reps: nat,
    smaller: usize,
    larger: usize,
    x: int,
)
    requires
        chains_ok(chains, rank, n_reps),
        (smaller as int) < chains.len(),
        (larger as int) < chains.len(),
        !reaches(chains, rank, larger as int, smaller as int),
        chains_ok(
            chains.update(smaller as int, EquivClassChain::Next(larger)),
            relinked_rank(chains, rank, smaller, larger),
            n_reps,
        ),
        0 <= x < chains.len(),
    ensures
        chain_rep(
            chains.update(smaller as int, EquivClassChain::Next(larger)),
            relinked_rank(chains, rank, smaller, larger),
            x,
        ) == if reaches(chains, rank, x, smaller as int) {
            chain_rep(chains, rank, larger as int)
        } else {
            chain_rep(chains, rank, x)
        },
    decreases relinked_rank(chains, rank, smaller, larger)[x],
{
    let ch2 = chains.update(smaller as int, EquivClassChain::Next(larger));
    let rk2 = relinked_rank(chains, rank, smaller, larger);
    if x == smaller as int {
        assert(ch2[x] == EquivClassChain::Next(larger));
        lemma_relink_at(chains, rank, n_reps, smaller, larger, larger as int);
    } else {
        assert(ch2[x] == chains[x]);
        if let EquivClassChain::Next(j) = chains[x] {
            assert(reaches(chains, rank, x, smaller as int) == reaches(chains, rank, j as int, smaller as int));
            lemma_relink_at(chains, rank, n_reps, smaller, larger, j as int);
        }
    }
}

/// Making the link `cur` skip to `nn`, further along, keeps the chains well-founded.
pub proof fn lemma_compress_ok(
    chains: Seq<EquivClassChain>,
    rank: Seq<nat>,
    n_reps: nat,
    cur: int,
    nn: usize,
)
    requires
        chains_ok(chains, rank, n_reps),
        0 <= cur < chains.len(),
        (nn as int) < chains.len(),
        rank[nn as int] < rank[cur],
    ensures
        chains_ok(chains.update(cur, EquivClassChain::Next(nn)), rank, n_reps),
{
    let ch1 = chains.update(cur, EquivClassChain::Next(nn));
    assert forall|i: int| 0 <= i < ch1.len() implies match #[trigger] ch1[i] {
        EquivClassChain::End(r) => r < n_reps,
        EquivClassChain::Next(j) => j < ch1.len() && rank[j as int] < rank[i],
    } by {
        if i != cur {
            assert(ch1[i] == chains[i]);
        }
    }
}

/// Appending an end at a valid representative, with rank zero, keeps the chains well-founded,
/// also with one more representative.
pub proof fn lemma_push_end_ok(chains: Seq<EquivClassChain>, rank: Seq<nat>, n_reps: nat, r: usize)
    requires
        chains_ok(chains, rank, n_reps),
        (r as nat) < n_reps,
    ensures
        chains_ok(chains.push(EquivClassChain::End(r)), rank.push(0), n_reps),
        chains_ok(chains, rank, n_reps + 1),
        forall|i: int|
            0 <= i < chains.len() ==> #[trigger] chain_rep(
                chains.push(EquivClassChain::End(r)),
                rank.push(0),
                i,
            ) == chain_rep(chains, rank, i),
{
    let ch2 = chains.push(EquivClassChain::End(r));
    let rk2 = rank.push(0);
    assert forall|i: int| 0 <= i < ch2.len() implies match #[trigger] ch2[i] {
        EquivClassChain::End(r) => r < n_reps,
        EquivClassChain::Next(j) => j < ch2.len() && rk2[j as int] < rk2[i],
    } by {
        if i < chains.len() {
            assert(ch2[i] == chains[i]);
            if let EquivClassChain::Next(j) = chains[i] {
                assert(rk2[j as int] == rank[j as int]);
            }
        }
    }
    assert forall|i: int| 0 <= i < chains.len() implies match #[trigger] chains[i] {
        EquivClassChain::End(r) => r < n_reps + 1,
        EquivClassChain::Next(j) => j < chains.len() && rank[j as int] < rank[i],
    } by {
    }
    assert forall|i: int| 0 <= i < chains.len() implies #[trigger] chain_rep(ch2, rk2, i)
        == chain_rep(chains, rank, i) by {
        lemma_push(chains, rank, n_reps, EquivClassChain::End(r), 0, i);
    }
}

/// The view of the record of equivalence classes: the link of each key, the links, the
/// representatives, and the ranks of the links that show that the chains are well-founded.
pub struct AltView {
    /// The link of each key.
    pub keys: Map<u64, usize>,
    /// The links, by their handles.
    pub chains: Seq<EquivClassChain>,
    /// The representatives, by their handles.
    pub reps: Seq<Representative>,
    /// The ranks of the links, which strictly decrease along each chain.
    pub rank: Seq<nat>,
}

/// The view is well-formed: the chains are well-founded and end at valid representatives, and
/// the links of the keys are valid.
pub open spec fn alt_view_ok(v: AltView) -> bool {
    &&& chains_ok(v.chains, v.rank, v.reps.len())
    &&& v.chains.len() <= usize::MAX
    &&& v.reps.len() <= usize::MAX
    &&& forall|k: u64| #[trigger] v.keys.contains_key(k) ==> (v.keys[k] as int) < v.chains.len()
}

/// The representative of the class of a key that was seen.
pub open spec fn key_rep(v: AltView, k: u64) -> int {
    chain_rep(v.chains, v.rank, v.keys[k] as int)
}

/// Both keys are seen for the first time: give them one new link, to a new representative of
/// weight 1.
pub open spec fn spec_none_seen(v: AltView, a: u64, b: u64) -> AltView {
    let c = v.chains.len() as usize;
    AltView {
        keys: v.keys.insert(a, c).insert(b, c),
        chains: v.chains.push(EquivClassChain::End(v.reps.len() as usize)),
        reps: v.reps.push(Representative { weight: 1 }),
        rank: v.rank.push(0),
    }
}

/// The key `k` is seen for the first time and the other was seen with the link `oc`: give `k` a
/// new link to the representative of `oc`.
pub open spec fn spec_some_seen(v: AltView, oc: usize, k: u64) -> AltView {
    let (ch2, rep) = spec_rep_of(v.chains, v.rank, oc as int);
    AltView {
        keys: v.keys.insert(k, v.chains.len() as usize),
        chains: ch2.push(EquivClassChain::End(rep as usize)),
        reps: v.reps,
        rank: v.rank.push(0),
    }
}

/// Both keys were seen, with the links `ac` and `bc`: if their representatives differ, the link
/// of the class of smaller weight is made to go to the link of the other, whose weight becomes
/// the sum.  Gives whether they had the same representative.
pub open spec fn spec_all_seen(v: AltView, ac: usize, bc: usize) -> (AltView, bool) {
    let (ch1, arep) = spec_rep_of(v.chains, v.rank, ac as int);
    let (ch2, brep) = spec_rep_of(ch1, v.rank, bc as int);
    if arep == brep {
        (AltView { chains: ch2, ..v }, true)
    } else {
        let aw = v.reps[arep].weight;
        let bw = v.reps[brep].weight;
        let (larger, lrep, smaller) = if aw >= bw {
            (ac, arep, bc)
        } else {
            (bc, brep, ac)
        };
        (
            AltView {
                keys: v.keys,
                chains: ch2.update(smaller as int, EquivClassChain::Next(larger)),
                reps: v.reps.update(lrep, Representative { weight: aw.saturating_add(bw) }),
                rank: relinked_rank(ch2, v.rank, smaller, larger),
            },
            false,
        )
    }
}

/// Check whether the keys are already recorded as equivalent, and record them as equivalent
/// if not.
pub open spec fn spec_alt_same_class(v: AltView, a: u64, b: u64) -> (AltView, bool) {
    if v.keys.contains_key(a) {
        if v.keys.contains_key(b) {
            spec_all_seen(v, v.keys[a], v.keys[b])
        } else {
            (spec_some_seen(v, v.keys[a], b), false)
        }
    } else if v.keys.contains_key(b) {
        (spec_some_seen(v, v.keys[b], a), false)
    } else {
        (spec_none_seen(v, a, b), false)
    }
}

/// The well-founded chains stay well-founded, with the same representatives, when there are
/// more representatives.
pub proof fn lemma_more_reps(chains: Seq<EquivClassChain>, rank: Seq<nat>, n_reps: nat, m: nat)
    requires
        chains_ok(chains, rank, n_reps),
        n_reps <= m,
    ensures
        chains_ok(chains, rank, m),
{
    assert forall|i: int| 0 <= i < chains.len() implies match #[trigger] chains[i] {
        EquivClassChain::End(r) => r < m,
        EquivClassChain::Next(j) => j < chains.len() && rank[j as int] < rank[i],
    } by {
    }
}

/// Path halving from a link keeps the chains well-founded, changes no representative, and finds
/// the representative of the link.
pub proof fn lemma_rep_of(chains: Seq<EquivClassChain>, rank: Seq<nat>, n_reps: nat, it: int)
    requires
        chains_ok(chains, rank, n_reps),
        0 <= it < chains.len(),
    ensures
        ({
            let (ch2, r) = spec_rep_of(chains, rank, it);
            &&& chains_ok(ch2, rank, n_reps)
            &&& ch2.len() == chains.len()
            &&& r == chain_rep(chains, rank, it)
            &&& forall|x: int|
                0 <= x < chains.len() ==> #[trigger] chain_rep(ch2, rank, x) == chain_rep(
                    chains,
                    rank,
                    x,
                )
        }),
{
    lemma_chain_rep(chains, rank, n_reps, it);
    if let EquivClassChain::Next(next) = chains[it] {
        lemma_walk(chains, rank, n_reps, it, next);
    }
}

/// Two seen keys are recorded in the same class.
pub open spec fn alt_same(v: AltView, x: u64, y: u64) -> bool {
    v.keys.contains_key(x) && v.keys.contains_key(y) && key_rep(v, x) == key_rep(v, y)
}

/// The key `x` is `a` or `b`, or recorded in the class of one of them.
pub open spec fn alt_in_either(v: AltView, x: u64, a: u64, b: u64) -> bool {
    x == a || x == b || alt_same(v, x, a) || alt_same(v, x, b)
}

/// Checking whether two keys are in the same class gives whether they already were, and
/// afterwards they are: both keys are seen, every key that was seen stays seen, and each keeps
/// its class or joins the class of the two.  Two keys are in the same class afterwards only
/// when they were before, or when each is one of the two or was in the class of one of them.
/// (A key that was in the class that is absorbed may keep its old representative: this record
/// can split a class, which only makes the algorithm check some counterparts again.)  This
/// holds whenever the record afterwards fits in memory.
pub proof fn lemma_alt_same_class(v: AltView, a: u64, b: u64)
    requires
        alt_view_ok(v),
        spec_alt_same_class(v, a, b).0.chains.len() <= usize::MAX,
        spec_alt_same_class(v, a, b).0.reps.len() <= usize::MAX,
    ensures
        ({
            let (v2, r) = spec_alt_same_class(v, a, b);
            &&& alt_view_ok(v2)
            &&& r == alt_same(v, a, b)
            &&& v2.keys.dom() == v.keys.dom().insert(a).insert(b)
            &&& alt_same(v2, a, b)
            &&& forall|k: u64| #[trigger]
                v.keys.contains_key(k) ==> key_rep(v2, k) == key_rep(v, k) || key_rep(v2, k)
                    == key_rep(v2, a)
            &&& forall|x: u64, y: u64| #[trigger]
                alt_same(v2, x, y) ==> alt_same(v, x, y) || (alt_in_either(v, x, a, b)
                    && alt_in_either(v, y, a, b))
        }),
{
    let n = v.reps.len();
    if v.keys.contains_key(a) && v.keys.contains_key(b) {
        let (ac, bc) = (v.keys[a], v.keys[b]);
        lemma_rep_of(v.chains, v.rank, n, ac as int);
        let (ch1, arep) = spec_rep_of(v.chains, v.rank, ac as int);
        lemma_rep_of(ch1, v.rank, n, bc as int);
        let (ch2, brep) = spec_rep_of(ch1, v.rank, bc as int);
        lemma_chain_rep(v.chains, v.rank, n, ac as int);
        lemma_chain_rep(v.chains, v.rank, n, bc as int);
        let (v2, r) = spec_alt_same_class(v, a, b);
        if arep != brep {
            let aw = v.reps[arep].weight;
            let bw = v.reps[brep].weight;
            let (larger, smaller) = if aw >= bw {
                (ac, bc)
            } else {
                (bc, ac)
            };
            lemma_relink(ch2, v.rank, n, smaller, larger);
            if reaches(ch2, v.rank, larger as int, smaller as int) {
                lemma_reaches_rep(ch2, v.rank, n, larger as int, smaller as int);
            }
            assert(reaches(ch2, v.rank, smaller as int, smaller as int));
            assert forall|x: u64| #[trigger] v.keys.contains_key(x) implies key_rep(v2, x) == key_rep(
                v,
                x,
            ) || ((key_rep(v, x) == arep || key_rep(v, x) == brep) && key_rep(v2, x) == key_rep(
                v2,
                a,
            )) by {
                if reaches(ch2, v.rank, v.keys[x] as int, smaller as int) {
                    lemma_reaches_rep(ch2, v.rank, n, v.keys[x] as int, smaller as int);
                }
            }
        }
        assert(v2.keys.dom() =~= v.keys.dom().insert(a).insert(b));
        assert(alt_view_ok(v2));
        assert(r == (key_rep(v, a) == key_rep(v, b)));
        assert(key_rep(v2, a) == key_rep(v2, b));
        assert(key_rep(v2, a) == arep || key_rep(v2, a) == brep);
        assert forall|k: u64| #[trigger] v.keys.contains_key(k) implies key_rep(v2, k) == key_rep(v, k) || key_rep(v2, k)
                    == key_rep(v2, a) by {
        }
        assert forall|x: u64, y: u64| #[trigger] alt_same(v2, x, y) implies alt_same(v, x, y) || (
        alt_in_either(v, x, a, b) && alt_in_either(v, y, a, b)) by {
            assert(v.keys.contains_key(x) && v.keys.contains_key(y));
        }
    } else if v.keys.contains_key(a) || v.keys.contains_key(b) {
        let (oc, k) = if v.keys.contains_key(a) {
            (v.keys[a], b)
        } else {
            (v.keys[b], a)
        };
        let seen = if v.keys.contains_key(a) {
            a
        } else {
            b
        };
        lemma_rep_of(v.chains, v.rank, n, oc as int);
        let (ch2, rep) = spec_rep_of(v.chains, v.rank, oc as int);
        lemma_chain_rep(v.chains, v.rank, n, oc as int);
        lemma_push_end_ok(ch2, v.rank, n, rep as usize);
        let v2 = spec_some_seen(v, oc, k);
        assert(v2.chains[v.chains.len() as int] == EquivClassChain::End(rep as usize));
        lemma_chain_rep(v2.chains, v2.rank, n, v.chains.len() as int);
        assert forall|kk: u64| #[trigger] v2.keys.contains_key(kk) implies (v2.keys[kk] as int)
            < v2.chains.len() by {
        }
        assert(v2.keys.dom() =~= v.keys.dom().insert(a).insert(b));
        assert(alt_view_ok(v2));
        assert(key_rep(v2, a) == key_rep(v2, b));
        assert forall|kk: u64| #[trigger] v.keys.contains_key(kk) implies key_rep(v2, kk) == key_rep(v, kk) by {
        }
        assert(key_rep(v2, k) == key_rep(v, seen));
        assert forall|x: u64, y: u64| #[trigger] alt_same(v2, x, y) implies alt_same(v, x, y) || (
        alt_in_either(v, x, a, b) && alt_in_either(v, y, a, b)) by {
            if x != k && y != k {
                assert(v.keys.contains_key(x) && v.keys.contains_key(y));
            } else if x == k && y != k {
                assert(v.keys.contains_key(y));
                assert(key_rep(v, y) == key_rep(v, seen));
            } else if x != k && y == k {
                assert(v.keys.contains_key(x));
                assert(key_rep(v, x) == key_rep(v, seen));
            }
        }
    } else {
        lemma_more_reps(v.chains, v.rank, n, n + 1);
        lemma_push_end_ok(v.chains, v.rank, n + 1, n as usize);
        let v2 = spec_none_seen(v, a, b);
        assert(v2.chains[v.chains.len() as int] == EquivClassChain::End(n as usize));
        lemma_chain_rep(v2.chains, v2.rank, n + 1, v.chains.len() as int);
        assert forall|kk: u64| #[trigger] v2.keys.contains_key(kk) implies (v2.keys[kk] as int)
            < v2.chains.len() by {
        }
        assert(v2.keys.dom() =~= v.keys.dom().insert(a).insert(b));
        assert forall|x: u64, y: u64| #[trigger] alt_same(v2, x, y) implies alt_same(v, x, y) || (
        alt_in_either(v, x, a, b) && alt_in_either(v, y, a, b)) by {
            if x != a && x != b && y != a && y != b {
                assert(v.keys.contains_key(x) && v.keys.contains_key(y));
            } else if x != a && x != b {
                assert(v.keys.contains_key(x));
                lemma_chain_rep(v.chains, v.rank, n, v.keys[x] as int);
            } else if y != a && y != b {
                assert(v.keys.contains_key(y));
                lemma_chain_rep(v.chains, v.rank, n, v.keys[y] as int);
            }
        }
    }
}

/// The record of equivalence classes: each key has a link, whose chain ends at the
/// representative of the key's class.
pub struct EquivClasses {
    map: HashMapWithView<u64, usize>,
    chains: Vec<EquivClassChain>,
    reps: Vec<Representative>,
    rank: Ghost<Seq<nat>>,
}

impl View for EquivClasses {
    type V = AltView;

    closed spec fn view(&self) -> AltView {
        AltView { keys: self.map@, chains: self.chains@, reps: self.reps@, rank: self.rank@ }
    }
}

impl EquivClasses {
    /// The record is well-formed.
    pub closed spec fn wf(&self) -> bool {
        alt_view_ok(self@)
    }

    /// The lengths of the vectors fit in `usize`.
    proof fn lemma_len_bounds(&self)
        ensures
            self.chains@.len() <= usize::MAX,
            self.reps@.len() <= usize::MAX,
    {
        assert(self.chains@.len() == self.chains.len());
        assert(self.reps@.len() == self.reps.len());
    }

    /// A well-formed record has a well-formed view.
    pub proof fn lemma_wf(&self)
        requires
            self.wf(),
        ensures
            alt_view_ok(self@),
    {
    }

    /// A new record, with no keys, links, nor representatives.
    pub fn new() -> (r: Self)
        ensures
            r.wf(),
            r@ == (AltView {
                keys: Map::empty(),
                chains: Seq::empty(),
                reps: Seq::empty(),
                rank: Seq::empty(),
            }),
    {
        broadcast use vstd::std_specs::hash::axiom_u64_obeys_hash_table_key_model;

        let r = EquivClasses {
            map: HashMapWithView::new(),
            chains: Vec::new(),
            reps: Vec::new(),
            rank: Ghost(Seq::empty()),
        };
        assert(r@.chains =~= Seq::empty());
        assert(r@.reps =~= Seq::empty());
        r
    }

    /// A new representative of a class of the given weight.
    pub fn representative_new(&mut self, weight: usize) -> (r: usize)
        requires
            old(self).wf(),
        ensures
            final(self).wf(),
            r as nat == old(self)@.reps.len(),
            final(self)@ == (AltView {
                reps: old(self)@.reps.push(Representative { weight }),
                ..old(self)@
            }),
    {
        let r = self.reps.len();
        self.reps.push(Representative { weight });
        proof {
            let v = self@;
            assert forall|i: int| 0 <= i < v.chains.len() implies match #[trigger] v.chains[i] {
                EquivClassChain::End(r) => r < v.reps.len(),
                EquivClassChain::Next(j) => j < v.chains.len() && v.rank[j as int] < v.rank[i],
            } by {
                assert(old(self)@.chains[i] == v.chains[i]);
            }
            self.lemma_len_bounds();
        }
        r
    }

    /// A new representative of a class of weight 1.
    pub fn representative_default(&mut self) -> (r: usize)
        requires
            old(self).wf(),
        ensures
            final(self).wf(),
            r as nat == old(self)@.reps.len(),
            final(self)@ == (AltView {
                reps: old(self)@.reps.push(Representative { weight: 1 }),
                ..old(self)@
            }),
    {
        self.representative_new(1)
    }

    /// A new link that ends the chain at the representative `rep`.
    pub fn chain_new(&mut self, rep: usize) -> (r: usize)
        requires
            old(self).wf(),
            (rep as nat) < old(self)@.reps.len(),
        ensures
            final(self).wf(),
            r as nat == old(self)@.chains.len(),
            final(self)@ == (AltView {
                chains: old(self)@.chains.push(EquivClassChain::End(rep)),
                rank: old(self)@.rank.push(0),
                ..old(self)@
            }),
            forall|i: int|
                0 <= i < old(self)@.chains.len() ==> #[trigger] chain_rep(
                    final(self)@.chains,
                    final(self)@.rank,
                    i,
                ) == chain_rep(old(self)@.chains, old(self)@.rank, i),
    {
        let r = self.chains.len();
        proof {
            lemma_push_end_ok(self.chains@, self.rank@, self.reps@.len(), rep);
        }
        self.chains.push(EquivClassChain::End(rep));
        self.rank = Ghost(self.rank@.push(0));
        proof {
            self.lemma_len_bounds();
        }
        r
    }

    /// A new link that ends the chain at a new representative of weight 1.
    pub fn chain_default(&mut self) -> (r: usize)
        requires
            old(self).wf(),
        ensures
            final(self).wf(),
            r as nat == old(self)@.chains.len(),
            final(self)@ == (AltView {
                chains: old(self)@.chains.push(EquivClassChain::End(old(self)@.reps.len() as usize)),
                reps: old(self)@.reps.push(Representative { weight: 1 }),
                rank: old(self)@.rank.push(0),
                ..old(self)@
            }),
    {
        let rep = self.representative_default();
        self.chain_new(rep)
    }

    /// A new link that goes to the link `next`, and so is in its class.
    pub fn chain_next(&mut self, next: usize) -> (r: usize)
        requires
            old(self).wf(),
            (next as nat) < old(self)@.chains.len(),
        ensures
            final(self).wf(),
            r as nat == old(self)@.chains.len(),
            final(self)@.keys == old(self)@.keys,
            final(self)@.reps == old(self)@.reps,
            final(self)@.chains == old(self)@.chains.push(EquivClassChain::Next(next)),
            chain_rep(final(self)@.chains, final(self)@.rank, r as int) == chain_rep(
                old(self)@.chains,
                old(self)@.rank,
                next as int,
            ),
            forall|i: int|
                0 <= i < old(self)@.chains.len() ==> #[trigger] chain_rep(
                    final(self)@.chains,
                    final(self)@.rank,
                    i,
                ) == chain_rep(old(self)@.chains, old(self)@.rank, i),
    {
        let r = self.chains.len();
        let ghost old_v = self@;
        let ghost rk = self.rank@[next as int] + 1;
        proof {
            let ch2 = old_v.chains.push(EquivClassChain::Next(next));
            let rk2 = old_v.rank.push(rk);
            assert forall|i: int| 0 <= i < ch2.len() implies match #[trigger] ch2[i] {
                EquivClassChain::End(r) => r < old_v.reps.len(),
                EquivClassChain::Next(j) => j < ch2.len() && rk2[j as int] < rk2[i],
            } by {
                if i < old_v.chains.len() {
                    assert(ch2[i] == old_v.chains[i]);
                    if let EquivClassChain::Next(j) = old_v.chains[i] {
                        assert(rk2[j as int] == old_v.rank[j as int]);
                    }
                }
            }
            assert forall|i: int| 0 <= i < old_v.chains.len() implies #[trigger] chain_rep(
                ch2,
                rk2,
                i,
            ) == chain_rep(old_v.chains, old_v.rank, i) by {
                lemma_push(old_v.chains, old_v.rank, old_v.reps.len(), EquivClassChain::Next(next), rk, i);
            }
            lemma_push(old_v.chains, old_v.rank, old_v.reps.len(), EquivClassChain::Next(next), rk, next as int);
            assert(ch2[r as int] == EquivClassChain::Next(next));
        }
        self.chains.push(EquivClassChain::Next(next));
        self.rank = Ghost(self.rank@.push(rk));
        proof {
            assert forall|k: u64| #[trigger] self@.keys.contains_key(k) implies (self@.keys[k] as int)
                < self@.chains.len() by {
                assert(old_v.keys.contains_key(k));
            }
            self.lemma_len_bounds();
        }
        r
    }

    /// The link `it`, copied out.
    pub fn clone_inner(&self, it: usize) -> (r: EquivClassChain)
        requires
            (it as nat) < self@.chains.len(),
        ensures
            r == self@.chains[it as int],
    {
        self.chains[it]
    }

    /// The weight of the class of the representative `rep`.
    pub fn weight(&self, rep: usize) -> (r: usize)
        requires
            (rep as nat) < self@.reps.len(),
        ensures
            r == self@.reps[rep as int].weight,
    {
        self.reps[rep].weight
    }

    /// The representative of the class of the link `it`.  Each link along the way is made to
    /// skip the next (path halving), which changes no representative.
    pub fn rep_of(&mut self, it: usize) -> (r: usize)
        requires
            old(self).wf(),
            (it as nat) < old(self)@.chains.len(),
        ensures
            final(self).wf(),
            (final(self)@.chains, r as int) == spec_rep_of(
                old(self)@.chains,
                old(self)@.rank,
                it as int,
            ),
            final(self)@.chains.len() == old(self)@.chains.len(),
            final(self)@.keys == old(self)@.keys,
            final(self)@.reps == old(self)@.reps,
            final(self)@.rank == old(self)@.rank,
            r as int == chain_rep(old(self)@.chains, old(self)@.rank, it as int),
            (r as nat) < old(self)@.reps.len(),
            forall|x: int|
                0 <= x < old(self)@.chains.len() ==> #[trigger] chain_rep(
                    final(self)@.chains,
                    final(self)@.rank,
                    x,
                ) == chain_rep(old(self)@.chains, old(self)@.rank, x),
    {
        let ghost v = self@;
        proof {
            lemma_chain_rep(v.chains, v.rank, v.reps.len(), it as int);
        }
        match self.chains[it] {
            EquivClassChain::End(rep) => rep,
            EquivClassChain::Next(first) => {
                proof {
                    lemma_walk(v.chains, v.rank, v.reps.len(), it as int, first);
                }
                let mut cur = it;
                let mut next = first;
                loop
                    invariant
                        v == old(self)@,
                        self@.keys == v.keys,
                        self@.reps == v.reps,
                        self@.rank == v.rank,
                        chains_ok(self@.chains, v.rank, v.reps.len()),
                        (cur as int) < self@.chains.len(),
                        self@.chains[cur as int] == EquivClassChain::Next(next),
                        spec_walk(self@.chains, v.rank, cur as int, next as int) == spec_walk(
                            v.chains,
                            v.rank,
                            it as int,
                            first as int,
                        ),
                        alt_view_ok(v),
                        (it as int) < v.chains.len(),
                        v.chains[it as int] == EquivClassChain::Next(first),
                    decreases v.rank[next as int],
                {
                    match self.chains[next] {
                        EquivClassChain::End(rep) => {
                            proof {
                                lemma_walk(v.chains, v.rank, v.reps.len(), it as int, first);
                            }
                            return rep;
                        },
                        EquivClassChain::Next(nn) => {
                            proof {
                                lemma_compress_ok(self@.chains, v.rank, v.reps.len(), cur as int, nn);
                            }
                            self.chains.set(cur, EquivClassChain::Next(nn));
                            cur = next;
                            next = nn;
                        },
                    }
                }
            },
        }
    }

    /// Both keys are seen for the first time.
    fn none_seen(&mut self, ak: &u64, bk: &u64)
        requires
            old(self).wf(),
        ensures
            final(self).wf(),
            final(self)@ == spec_none_seen(old(self)@, *ak, *bk),
    {
        let aec = self.chain_default();
        let bec = aec;
        self.map.insert(*ak, aec);
        self.map.insert(*bk, bec);
    }

    /// The key `k` is seen for the first time, and the other key was seen with the link `oec`.
    fn some_seen(&mut self, oec: usize, k: &u64)
        requires
            old(self).wf(),
            (oec as nat) < old(self)@.chains.len(),
        ensures
            final(self).wf(),
            final(self)@ == spec_some_seen(old(self)@, oec, *k),
    {
        let rep = self.rep_of(oec);
        let ec = self.chain_new(rep);
        self.map.insert(*k, ec);
    }

    /// Both keys were seen, with the links `aec` and `bec`.
    fn all_seen(&mut self, aec: usize, bec: usize) -> (r: bool)
        requires
            old(self).wf(),
            (aec as nat) < old(self)@.chains.len(),
            (bec as nat) < old(self)@.chains.len(),
        ensures
            final(self).wf(),
            (final(self)@, r) == spec_all_seen(old(self)@, aec, bec),
    {
        let arep = self.rep_of(aec);
        let brep = self.rep_of(bec);
        if arep == brep {
            true
        } else {
            let (aw, bw) = (self.reps[arep].weight, self.reps[brep].weight);
            let (larger_chain, larger_rep, smaller_chain) = if aw >= bw {
                (aec, arep, bec)
            } else {
                (bec, brep, aec)
            };
            let ghost ch2 = self@.chains;
            let ghost rank = self@.rank;
            proof {
                lemma_relink(ch2, rank, self@.reps.len(), smaller_chain, larger_chain);
            }
            self.chains.set(smaller_chain, EquivClassChain::Next(larger_chain));
            self.rank = Ghost(relinked_rank(ch2, rank, smaller_chain, larger_chain));
            self.reps.set(larger_rep, Representative { weight: aw.saturating_add(bw) });
            false
        }
    }

    /// Check if the given keys are already known to be equivalent.  If not, they are made
    /// members of the same class, merging classes if needed.  Returns `true` if they were
    /// already recorded as equivalent, and `false` if not.
    pub fn same_class(&mut self, ak: &u64, bk: &u64) -> (r: bool)
        requires
            old(self).wf(),
        ensures
            final(self).wf(),
            (final(self)@, r) == spec_alt_same_class(old(self)@, *ak, *bk),
    {
        let ga = match self.map.get(ak) {
            Some(c) => Some(*c),
            None => None,
        };
        let gb = match self.map.get(bk) {
            Some(c) => Some(*c),
            None => None,
        };
        proof {
            if let Some(c) = ga {
                assert(self@.keys.contains_key(*ak));
            }
            if let Some(c) = gb {
                assert(self@.keys.contains_key(*bk));
            }
        }
        match (ga, gb) {
            (None, None) => {
                self.none_seen(ak, bk);
                false
            },
            (Some(aec), None) => {
                self.some_seen(aec, bk);
                false
            },
            (None, Some(bec)) => {
                self.some_seen(bec, ak);
                false
            },
            (Some(aec), Some(bec)) => self.all_seen(aec, bec),
        }
    }
}

/// The view of a record with nothing recorded.
pub open spec fn empty_alt_view() -> AltView {
    AltView { keys: Map::empty(), chains: Seq::empty(), reps: Seq::empty(), rank: Seq::empty() }
}

/// One past [`FAST_LIMIT`]: the exclusive end of the random limits of the "fast" phase.
pub const FAST_LIMIT_RANGE_END: u16 = 801;

/// The interleave from the counterparts `a` and `b` with the limit `limit`, from the state `st`
/// of the record and the generator, within `fuel` descents: `None` if the fuel does not
/// suffice, else the new state and the result.  A negative limit down to [`SLOW_LIMIT_NEG`]
/// is the "slow" phase; below, a "fast" phase starts with a random limit; a non-negative limit
/// is the "fast" phase.
pub open spec fn spec_slow_or_fast<N: Node, R: NumberGenerator>(
    a: N,
    b: N,
    limit: i32,
    st: (AltView, R::V),
    fuel: nat,
) -> Option<((AltView, R::V), EquivResult)>
    decreases fuel, 2int, 0int,
{
    if limit < 0 {
        if limit >= SLOW_LIMIT_NEG {
            spec_interleave_equiv::<N, R>(a, b, limit, true, st, fuel)
        } else {
            let (rng2, n) = R::spec_rand_upto(st.1, FAST_LIMIT_RANGE_END);
            spec_interleave_equiv::<N, R>(a, b, n as i32, false, (st.0, rng2), fuel)
        }
    } else {
        spec_interleave_equiv::<N, R>(a, b, limit, false, st, fuel)
    }
}

/// Compare the counterparts in the "slow" phase, which first records them as equivalent and
/// does not descend them if they already were, or in the "fast" phase.
pub open spec fn spec_interleave_equiv<N: Node, R: NumberGenerator>(
    a: N,
    b: N,
    limit: i32,
    slow: bool,
    st: (AltView, R::V),
    fuel: nat,
) -> Option<((AltView, R::V), EquivResult)>
    decreases fuel, 1int, 0int,
{
    if a.spec_id() == b.spec_id() {
        Some((st, EquivResult::Equiv(limit)))
    } else {
        match a.spec_equiv_modulo_descendents_then_amount_edges(&b) {
            None => Some((st, EquivResult::Unequiv)),
            Some(n) => if n == 0 {
                Some((st, EquivResult::Equiv(limit)))
            } else if slow {
                let (uf2, same) = spec_alt_same_class(st.0, a.spec_id(), b.spec_id());
                if same {
                    Some(((uf2, st.1), EquivResult::Equiv(-1i32)))
                } else {
                    spec_interleave_edges::<N, R>(a, b, 0, n, limit, (uf2, st.1), fuel)
                }
            } else {
                spec_interleave_edges::<N, R>(a, b, 0, n, limit, st, fuel)
            },
        }
    }
}

/// The interleave of the edges from index `i` to `n`, with the limit `limit` left.
pub open spec fn spec_interleave_edges<N: Node, R: NumberGenerator>(
    a: N,
    b: N,
    i: usize,
    n: usize,
    limit: i32,
    st: (AltView, R::V),
    fuel: nat,
) -> Option<((AltView, R::V), EquivResult)>
    decreases fuel, 0int, n - i,
{
    if i >= n {
        Some((st, EquivResult::Equiv(limit)))
    } else if fuel == 0 {
        None
    } else {
        match spec_slow_or_fast::<N, R>(
            a.spec_edge(i),
            b.spec_edge(i),
            sat_dec(limit),
            st,
            (fuel - 1) as nat,
        ) {
            None => None,
            Some((st2, EquivResult::Equiv(l2))) => spec_interleave_edges::<N, R>(
                a,
                b,
                (i + 1) as usize,
                n,
                l2,
                st2,
                fuel,
            ),
            Some((st2, r)) => Some((st2, r)),
        }
    }
}

/// The interleave from the counterparts with the limit completes within `fuel` descents.
pub open spec fn interleave_fuel_ok<N: Node, R: NumberGenerator>(
    a: N,
    b: N,
    limit: i32,
    fuel: nat,
) -> bool {
    spec_slow_or_fast::<N, R>(a, b, limit, (empty_alt_view(), R::spec_default()), fuel) is Some
}

/// The interleave from the counterparts with the limit completes.
pub open spec fn interleave_terminates<N: Node, R: NumberGenerator>(
    a: N,
    b: N,
    limit: i32,
) -> bool {
    exists|fuel: nat| interleave_fuel_ok::<N, R>(a, b, limit, fuel)
}

/// The result of the interleave from the counterparts with the limit, when it completes.
pub open spec fn spec_interleave<N: Node, R: NumberGenerator>(a: N, b: N, limit: i32) -> bool {
    let fuel = choose|fuel: nat| interleave_fuel_ok::<N, R>(a, b, limit, fuel);
    spec_slow_or_fast::<N, R>(a, b, limit, (empty_alt_view(), R::spec_default()), fuel)->Some_0.1
        is Equiv
}

/// The result of [`precheck_interleave_equiv`]: that of the precheck, unless it aborts, and
/// then that of the interleave.
pub open spec fn spec_precheck_interleave_equiv<N: Node>(a: N, b: N) -> bool {
    match spec_precheck(a, b, PRE_LIMIT as i32) {
        EquivResult::Equiv(_) => true,
        EquivResult::Unequiv => false,
        EquivResult::Abort => spec_interleave::<N, RandomNumberGenerator>(a, b, -1i32),
    }
}

/// The main equivalence algorithm, which can be used for `PartialEq` implementations: first the
/// precheck, and, if it aborts, the interleave, which can handle cyclic graphs.
pub fn precheck_interleave_equiv<N: Node>(a: &N, b: &N) -> (r: bool)
    requires
        spec_precheck(*a, *b, PRE_LIMIT as i32) is Abort ==> interleave_terminates::<
            N,
            RandomNumberGenerator,
        >(*a, *b, -1i32),
    ensures
        r == spec_precheck_interleave_equiv(*a, *b),
        alt_ids_identify(*a, *b) && alt_local_is_equivalence(*a, *b) ==> (r <==> alt_all_equivalent(
            *a,
            *b,
        )),
{
    let r = match precheck(a, b, PRE_LIMIT as i32) {
        EquivResult::Equiv(_) => true,
        EquivResult::Unequiv => false,
        EquivResult::Abort => interleave::<N, RandomNumberGenerator>(a, b, -1),
    };
    proof {
        if alt_ids_identify(*a, *b) && alt_local_is_equivalence(*a, *b) {
            lemma_alt_precheck_interleave_equivalence(*a, *b);
        }
    }
    r
}

/// The interleave of the "fast" and "slow" phases, from a new record and generator, which can
/// handle cyclic graphs.  Returns whether the counterparts are equivalent.
///
/// It completes on graphs whose descended paths are bounded (see
/// [`crate::alt::results::lemma_alt_bounded_depth_terminates`]).  On cyclic graphs, whether it
/// completes depends on the random numbers that it draws (see
/// [`crate::alt::results::lemma_alt_interleave_may_not_terminate`]), and so completion is
/// required.
pub fn interleave<N: Node, R: NumberGenerator>(a: &N, b: &N, limit: i32) -> (r: bool)
    requires
        interleave_terminates::<N, R>(*a, *b, limit),
    ensures
        r == spec_interleave::<N, R>(*a, *b, limit),
        alt_fits(alt_interleave_outcome::<N, R>(*a, *b, limit).0.0),
        alt_ids_identify(*a, *b) && alt_local_is_equivalence(*a, *b) ==> (r <==> alt_all_equivalent(
            *a,
            *b,
        )),
{
    let ghost fuel = choose|fuel: nat| interleave_fuel_ok::<N, R>(*a, *b, limit, fuel);
    let mut ec = EquivClasses::new();
    let mut rng = R::default_state();
    let r = slow_or_fast(a, b, limit, &mut ec, &mut rng, Ghost(fuel));
    proof {
        ec.lemma_wf();
        if alt_ids_identify(*a, *b) && alt_local_is_equivalence(*a, *b) {
            lemma_alt_interleave_equivalence::<N, R>(*a, *b, limit);
        }
    }
    match r {
        EquivResult::Equiv(_) => true,
        _ => false,
    }
}

/// Choose the phase by the limit, and compare in it.
fn slow_or_fast<N: Node, R: NumberGenerator>(
    a: &N,
    b: &N,
    limit: i32,
    ec: &mut EquivClasses,
    rng: &mut R,
    Ghost(fuel): Ghost<nat>,
) -> (r: EquivResult)
    requires
        old(ec).wf(),
        spec_slow_or_fast::<N, R>(*a, *b, limit, (old(ec)@, old(rng)@), fuel) is Some,
    ensures
        final(ec).wf(),
        spec_slow_or_fast::<N, R>(*a, *b, limit, (old(ec)@, old(rng)@), fuel) == Some(
            ((final(ec)@, final(rng)@), r),
        ),
    decreases fuel, 2int, 0int,
{
    if limit < 0 {
        if limit >= SLOW_LIMIT_NEG {
            slow(a, b, limit, ec, rng, Ghost(fuel))
        } else {
            let n = rng.rand_upto(FAST_LIMIT_RANGE_END);
            fast(a, b, n as i32, ec, rng, Ghost(fuel))
        }
    } else {
        fast(a, b, limit, ec, rng, Ghost(fuel))
    }
}

/// The "slow" phase: record the counterparts as equivalent, and do not descend them if they
/// already were.
fn slow<N: Node, R: NumberGenerator>(
    a: &N,
    b: &N,
    limit: i32,
    ec: &mut EquivClasses,
    rng: &mut R,
    Ghost(fuel): Ghost<nat>,
) -> (r: EquivResult)
    requires
        old(ec).wf(),
        spec_interleave_equiv::<N, R>(*a, *b, limit, true, (old(ec)@, old(rng)@), fuel) is Some,
    ensures
        final(ec).wf(),
        spec_interleave_equiv::<N, R>(*a, *b, limit, true, (old(ec)@, old(rng)@), fuel) == Some(
            ((final(ec)@, final(rng)@), r),
        ),
    decreases fuel, 1int, 1int,
{
    interleave_equiv(a, b, limit, true, ec, rng, Ghost(fuel))
}

/// The "fast" phase: descend without recording.
fn fast<N: Node, R: NumberGenerator>(
    a: &N,
    b: &N,
    limit: i32,
    ec: &mut EquivClasses,
    rng: &mut R,
    Ghost(fuel): Ghost<nat>,
) -> (r: EquivResult)
    requires
        old(ec).wf(),
        spec_interleave_equiv::<N, R>(*a, *b, limit, false, (old(ec)@, old(rng)@), fuel) is Some,
    ensures
        final(ec).wf(),
        spec_interleave_equiv::<N, R>(*a, *b, limit, false, (old(ec)@, old(rng)@), fuel) == Some(
            ((final(ec)@, final(rng)@), r),
        ),
    decreases fuel, 1int, 1int,
{
    interleave_equiv(a, b, limit, false, ec, rng, Ghost(fuel))
}

/// Compare the counterparts in the given phase, and descend their edges unless the "slow"
/// phase finds them already recorded as equivalent.
fn interleave_equiv<N: Node, R: NumberGenerator>(
    a: &N,
    b: &N,
    limit: i32,
    slow: bool,
    ec: &mut EquivClasses,
    rng: &mut R,
    Ghost(fuel): Ghost<nat>,
) -> (r: EquivResult)
    requires
        old(ec).wf(),
        spec_interleave_equiv::<N, R>(*a, *b, limit, slow, (old(ec)@, old(rng)@), fuel) is Some,
    ensures
        final(ec).wf(),
        spec_interleave_equiv::<N, R>(*a, *b, limit, slow, (old(ec)@, old(rng)@), fuel) == Some(
            ((final(ec)@, final(rng)@), r),
        ),
    decreases fuel, 1int, 0int,
{
    if a.id() == b.id() {
        return EquivResult::Equiv(limit);
    }
    let n = match a.equiv_modulo_descendents_then_amount_edges(b) {
        None => {
            return EquivResult::Unequiv;
        },
        Some(n) => n,
    };
    if n == 0 {
        return EquivResult::Equiv(limit);
    }
    if slow {
        let (a_id, b_id) = (a.id(), b.id());
        if ec.same_class(&a_id, &b_id) {
            // This is what prevents traversing descendents that have already been checked,
            // which prevents infinite loops on cycles and is more efficient on shared
            // structure.  The limit is reset so that "slow" is used for longer.
            return EquivResult::Equiv(-1);
        }
    }
    let ghost st0 = (ec@, rng@);
    let mut lim = limit;
    let mut i: usize = 0;
    while i < n
        invariant
            0 <= i <= n,
            n <= a.spec_amount_edges(),
            n <= b.spec_amount_edges(),
            ec.wf(),
            spec_interleave_edges::<N, R>(*a, *b, 0, n, limit, st0, fuel) == spec_interleave_edges::<
                N,
                R,
            >(*a, *b, i, n, lim, (ec@, rng@), fuel),
            spec_interleave_edges::<N, R>(*a, *b, 0, n, limit, st0, fuel) is Some,
            spec_interleave_equiv::<N, R>(*a, *b, limit, slow, (old(ec)@, old(rng)@), fuel)
                == spec_interleave_edges::<N, R>(*a, *b, 0, n, limit, st0, fuel),
        decreases n - i,
    {
        let ae = a.get_edge(&i);
        let be = b.get_edge(&i);
        let ghost before = (ec@, rng@, lim);
        lim = if lim > i32::MIN {
            lim - 1
        } else {
            lim
        };
        let r = slow_or_fast(&ae, &be, lim, ec, rng, Ghost((fuel - 1) as nat));
        assert(spec_interleave_edges::<N, R>(*a, *b, i, n, before.2, (before.0, before.1), fuel)
            == match r {
            EquivResult::Equiv(l2) => spec_interleave_edges::<N, R>(
                *a,
                *b,
                (i + 1) as usize,
                n,
                l2,
                (ec@, rng@),
                fuel,
            ),
            r => Some(((ec@, rng@), r)),
        });
        match r {
            EquivResult::Equiv(l) => lim = l,
            r => return r,
        }
        i = i + 1;
    }
    EquivResult::Equiv(lim)
}

/// [`lemma_interleave_false_witnessed`] from counterparts reached by the path `p`.
proof fn lemma_slow_or_fast_witnessed<N: Node, R: NumberGenerator>(
    a: N,
    b: N,
    p: Seq<usize>,
    limit: i32,
    st: (AltView, R::V),
    fuel: nat,
)
    requires
        alt_descended(a, b, p),
    ensures
        spec_slow_or_fast::<N, R>(alt_at_path(a, p), alt_at_path(b, p), limit, st, fuel) matches Some(
            (_, r),
        ) ==> (r is Equiv || alt_differs_at_some_path(a, b)),
    decreases fuel, 2int, 0int,
{
    if limit < 0 {
        if limit >= SLOW_LIMIT_NEG {
            lemma_interleave_equiv_witnessed::<N, R>(a, b, p, limit, true, st, fuel);
        } else {
            let (rng2, n) = R::spec_rand_upto(st.1, FAST_LIMIT_RANGE_END);
            lemma_interleave_equiv_witnessed::<N, R>(a, b, p, n as i32, false, (st.0, rng2), fuel);
        }
    } else {
        lemma_interleave_equiv_witnessed::<N, R>(a, b, p, limit, false, st, fuel);
    }
}

/// [`lemma_interleave_false_witnessed`] for one phase, from counterparts reached by the path
/// `p`.
proof fn lemma_interleave_equiv_witnessed<N: Node, R: NumberGenerator>(
    a: N,
    b: N,
    p: Seq<usize>,
    limit: i32,
    slow: bool,
    st: (AltView, R::V),
    fuel: nat,
)
    requires
        alt_descended(a, b, p),
    ensures
        spec_interleave_equiv::<N, R>(alt_at_path(a, p), alt_at_path(b, p), limit, slow, st, fuel) matches Some(
            (_, r),
        ) ==> (r is Equiv || alt_differs_at_some_path(a, b)),
    decreases fuel, 1int, 0int,
{
    let (x, y) = (alt_at_path(a, p), alt_at_path(b, p));
    if x.spec_id() != y.spec_id() {
        if let Some(n) = x.spec_equiv_modulo_descendents_then_amount_edges(&y) {
            if n != 0 {
                if slow {
                    let (uf2, same) = spec_alt_same_class(st.0, x.spec_id(), y.spec_id());
                    if !same {
                        lemma_interleave_edges_witnessed::<N, R>(a, b, p, 0, n, limit, (uf2, st.1), fuel);
                    }
                } else {
                    lemma_interleave_edges_witnessed::<N, R>(a, b, p, 0, n, limit, st, fuel);
                }
            }
        } else {
            assert(alt_descended(a, b, p));
        }
    }
}

/// [`lemma_interleave_false_witnessed`] for the edges from index `i` of the counterparts
/// reached by the path `p`.
proof fn lemma_interleave_edges_witnessed<N: Node, R: NumberGenerator>(
    a: N,
    b: N,
    p: Seq<usize>,
    i: usize,
    n: usize,
    limit: i32,
    st: (AltView, R::V),
    fuel: nat,
)
    requires
        alt_descended(a, b, p),
        alt_at_path(a, p).spec_id() != alt_at_path(b, p).spec_id(),
        alt_local(alt_at_path(a, p), alt_at_path(b, p)) == Some(n),
    ensures
        spec_interleave_edges::<N, R>(alt_at_path(a, p), alt_at_path(b, p), i, n, limit, st, fuel) matches Some(
            (_, r),
        ) ==> (r is Equiv || alt_differs_at_some_path(a, b)),
    decreases fuel, 0int, n - i,
{
    if i < n && fuel > 0 {
        let q = p.push(i);
        assert(q.drop_last() =~= p);
        assert(q.last() == i);
        assert(alt_descended(a, b, q));
        lemma_slow_or_fast_witnessed::<N, R>(a, b, q, sat_dec(limit), st, (fuel - 1) as nat);
        if let Some((st2, EquivResult::Equiv(l2))) = spec_slow_or_fast::<N, R>(
            alt_at_path(a, q),
            alt_at_path(b, q),
            sat_dec(limit),
            st,
            (fuel - 1) as nat,
        ) {
            lemma_interleave_edges_witnessed::<N, R>(a, b, p, (i + 1) as usize, n, l2, st2, fuel);
        }
    }
}

/// The interleave reports inequivalence only where it found one: some distinct counterparts
/// reached by the same descended path of edge indices from both roots are inequivalent,
/// ignoring their descendents.
pub proof fn lemma_interleave_false_witnessed<N: Node, R: NumberGenerator>(a: N, b: N, limit: i32)
    requires
        interleave_terminates::<N, R>(a, b, limit),
    ensures
        !spec_interleave::<N, R>(a, b, limit) ==> alt_differs_at_some_path(a, b),
{
    let fuel = choose|fuel: nat| interleave_fuel_ok::<N, R>(a, b, limit, fuel);
    assert(alt_descended(a, b, Seq::<usize>::empty()));
    lemma_slow_or_fast_witnessed::<N, R>(
        a,
        b,
        Seq::empty(),
        limit,
        (empty_alt_view(), R::spec_default()),
        fuel,
    );
}

/// The main equivalence algorithm reports inequivalence only where it found one.
pub proof fn lemma_precheck_interleave_false_witnessed<N: Node>(a: N, b: N)
    requires
        spec_precheck(a, b, PRE_LIMIT as i32) is Abort ==> interleave_terminates::<
            N,
            RandomNumberGenerator,
        >(a, b, -1i32),
    ensures
        !spec_precheck_interleave_equiv(a, b) ==> alt_differs_at_some_path(a, b),
{
    lemma_precheck_unequiv_witnessed(a, b, PRE_LIMIT as i32);
    if spec_precheck(a, b, PRE_LIMIT as i32) is Abort {
        lemma_interleave_false_witnessed::<N, RandomNumberGenerator>(a, b, -1i32);
    }
}

} // verus!
