//! The essential technique of the algorithm, that enables it to handle cyclic and degenerate
//! graphs efficiently, is determining whether nodes, at the same position in the input graphs,
//! have already been seen and are already known to be equivalent, before descending their
//! edges.
//!
//! The mechanism that achieves this is a table that associates nodes by ID with a representation
//! of equivalence classes that is optimized for making a union of classes by merging the links
//! to it and for checking if nodes are members of the same class by following the links to it.
//!
//! The classes live in an arena owned by [`EquivClasses`]; a handle to a class is its index in
//! the arena, and distinct representatives (indices) represent distinct classes.

/// Items made for ready use as specific choices for the generic types of the equivalence classes
/// mechanism.
pub mod premade;

use vstd::prelude::*;

use crate::generic::cycle_results::{
    connected, is_chain, lemma_connected_refl, lemma_connected_sym, lemma_connected_trans,
    link_at,
};

verus! {

/// Membership in an equivalence class.
///
/// Optimized for merging with other classes and for checking membership in the same class.
#[derive(Clone, Copy, Debug)]
pub enum Class<R> {
    /// An equivalence class.  Distinct objects of this variant represent distinct equivalence
    /// classes.
    Representative {
        /// Determines which `Representative` is merged when nodes are recorded as equivalent
        /// when both had already been seen separately.
        weight: usize,
    },
    /// A merger with another equivalence class.
    Link {
        /// The other class that we merged with.
        next: R,
    },
}

/// Allows being generic over the type that provides the table that associates nodes by ID with
/// their equivalence classes.
pub trait Table: Sized {
    /// The association of IDs with handles of classes.
    spec fn spec_map(&self) -> Map<u64, usize>;

    /// Create an empty table.
    fn new() -> (r: Self)
        ensures
            r.spec_map() == Map::<u64, usize>::empty(),
    ;

    /// Lookup a node ID and return its equivalence class if associated.
    fn get(&self, k: &u64) -> (r: Option<usize>)
        ensures
            r matches Some(v) ==> self.spec_map().contains_key(*k) && v == self.spec_map()[*k],
            r is None ==> !self.spec_map().contains_key(*k),
    ;

    /// Associate a node ID with an equivalence class.
    fn insert(&mut self, k: u64, v: usize)
        ensures
            final(self).spec_map() == old(self).spec_map().insert(k, v),
    ;
}

/// The representative that the class at index `i` is a member of: follow the links, which go
/// to strictly greater ranks, until a representative.
pub open spec fn rep_of(cls: Seq<Class<usize>>, rank: Seq<int>, bound: int, i: int) -> int
    decreases bound - rank[i],
{
    if 0 <= i < cls.len() && cls.len() == rank.len() {
        match cls[i] {
            Class::Representative { .. } => i,
            Class::Link { next } => {
                let n = next as int;
                if 0 <= n < cls.len() && rank[i] < rank[n] && rank[n] <= bound {
                    rep_of(cls, rank, bound, n)
                } else {
                    i
                }
            },
        }
    } else {
        i
    }
}

/// The links of the arena are well-founded: each goes to a valid index of strictly greater rank,
/// and all ranks are bounded.
pub open spec fn links_ok(cls: Seq<Class<usize>>, rank: Seq<int>, bound: int) -> bool {
    &&& cls.len() == rank.len()
    &&& forall|i: int| 0 <= i < cls.len() ==> #[trigger] rank[i] <= bound
    &&& forall|i: int|
        0 <= i < cls.len() && (#[trigger] cls[i]) is Link ==> 0 <= (cls[i]->next as int) < cls.len()
            && rank[i] < rank[cls[i]->next as int]
}

/// The representative of a class is a representative, at least as high in rank.
pub proof fn lemma_rep_of(cls: Seq<Class<usize>>, rank: Seq<int>, bound: int, i: int)
    requires
        links_ok(cls, rank, bound),
        0 <= i < cls.len(),
    ensures
        0 <= rep_of(cls, rank, bound, i) < cls.len(),
        cls[rep_of(cls, rank, bound, i)] is Representative,
        rank[rep_of(cls, rank, bound, i)] >= rank[i],
        cls[i] is Representative ==> rep_of(cls, rank, bound, i) == i,
        cls[i] is Link ==> rep_of(cls, rank, bound, i) == rep_of(
            cls,
            rank,
            bound,
            cls[i]->next as int,
        ),
    decreases bound - rank[i],
{
    if cls[i] is Link {
        let n = cls[i]->next as int;
        assert(rank[n] <= bound);
        lemma_rep_of(cls, rank, bound, n);
    }
}

/// Appending a class does not change the representatives of the existing classes.
pub proof fn lemma_rep_of_push(
    cls: Seq<Class<usize>>,
    rank: Seq<int>,
    bound: int,
    c: Class<usize>,
    r: int,
    i: int,
)
    requires
        links_ok(cls, rank, bound),
        0 <= i < cls.len(),
    ensures
        rep_of(cls.push(c), rank.push(r), bound, i) == rep_of(cls, rank, bound, i),
    decreases bound - rank[i],
{
    let cls2 = cls.push(c);
    let rank2 = rank.push(r);
    assert(cls2[i] == cls[i]);
    assert(rank2[i] == rank[i]);
    if cls[i] is Link {
        let n = cls[i]->next as int;
        assert(rank2[n] == rank[n]);
        assert(rank[n] <= bound);
        lemma_rep_of_push(cls, rank, bound, c, r, n);
    }
}

/// Shortening a link, to a class further along the same chain, does not change any
/// representative.
pub proof fn lemma_rep_of_compress(
    cls: Seq<Class<usize>>,
    rank: Seq<int>,
    bound: int,
    c: int,
    nn: usize,
    i: int,
)
    requires
        links_ok(cls, rank, bound),
        0 <= c < cls.len(),
        (nn as int) < cls.len(),
        0 <= i < cls.len(),
        cls[c] is Link,
        rank[c] < rank[nn as int],
        rep_of(cls, rank, bound, cls[c]->next as int) == rep_of(cls, rank, bound, nn as int),
    ensures
        rep_of(cls.update(c, Class::Link { next: nn }), rank, bound, i) == rep_of(
            cls,
            rank,
            bound,
            i,
        ),
    decreases bound - rank[i],
{
    let cls2 = cls.update(c, Class::Link { next: nn });
    lemma_rep_of(cls, rank, bound, i);
    if i == c {
        assert(cls2[c] == Class::<usize>::Link { next: nn });
        assert(rank[nn as int] <= bound);
        lemma_rep_of_compress(cls, rank, bound, c, nn, nn as int);
        lemma_rep_of(cls, rank, bound, c);
    } else {
        assert(cls2[i] == cls[i]);
        if cls[i] is Link {
            let m = cls[i]->next as int;
            assert(rank[m] <= bound);
            lemma_rep_of_compress(cls, rank, bound, c, nn, m);
        }
    }
}

/// The new rank of the representative that absorbs another.
pub open spec fn union_rank(rank: Seq<int>, large: int, small: int) -> int {
    if rank[large] > rank[small] {
        rank[large]
    } else {
        rank[small] + 1
    }
}

/// Merging the class of the representative `small` into that of the representative `large`
/// keeps the links well-founded and changes exactly the representative of the members of
/// `small`'s class.
pub proof fn lemma_rep_of_union(
    cls: Seq<Class<usize>>,
    rank: Seq<int>,
    bound: int,
    large: usize,
    small: usize,
    w: usize,
    i: int,
)
    requires
        links_ok(cls, rank, bound),
        (large as int) < cls.len(),
        (small as int) < cls.len(),
        large != small,
        cls[large as int] is Representative,
        cls[small as int] is Representative,
        0 <= i < cls.len(),
    ensures
        ({
            let cls2 = cls.update(large as int, Class::Representative { weight: w }).update(
                small as int,
                Class::Link { next: large },
            );
            let rank2 = rank.update(large as int, union_rank(rank, large as int, small as int));
            let bound2 = if bound >= union_rank(rank, large as int, small as int) {
                bound
            } else {
                union_rank(rank, large as int, small as int)
            };
            &&& links_ok(cls2, rank2, bound2)
            &&& rep_of(cls2, rank2, bound2, i) == if rep_of(cls, rank, bound, i) == small as int {
                large as int
            } else {
                rep_of(cls, rank, bound, i)
            }
        }),
    decreases bound - rank[i],
{
    let l = large as int;
    let sm = small as int;
    let cls2 = cls.update(l, Class::Representative { weight: w }).update(
        sm,
        Class::Link { next: large },
    );
    let rank2 = rank.update(l, union_rank(rank, l, sm));
    let bound2 = if bound >= union_rank(rank, l, sm) {
        bound
    } else {
        union_rank(rank, l, sm)
    };
    assert forall|j: int| 0 <= j < cls2.len() implies #[trigger] rank2[j] <= bound2 by {
        if j != l {
            assert(rank2[j] == rank[j]);
        }
    }
    assert forall|j: int| 0 <= j < cls2.len() && (#[trigger] cls2[j]) is Link implies 0 <= (
    cls2[j]->next as int) < cls2.len() && rank2[j] < rank2[cls2[j]->next as int] by {
        if j == sm {
            assert(cls2[j] == Class::<usize>::Link { next: large });
            assert(rank2[l] == union_rank(rank, l, sm));
            assert(rank2[sm] == rank[sm]);
        } else {
            assert(cls2[j] == cls[j]);
            assert(j != l);
            let m = cls[j]->next as int;
            assert(rank2[j] == rank[j]);
            if m != l {
                assert(rank2[m] == rank[m]);
            }
        }
    }
    assert(links_ok(cls2, rank2, bound2));
    lemma_rep_of(cls, rank, bound, i);
    if i == sm {
        assert(cls2[sm] == Class::<usize>::Link { next: large });
        assert(cls2[l] is Representative);
        assert(rank2[l] <= bound2);
        assert(rank2[sm] < rank2[l]);
        assert(rep_of(cls2, rank2, bound2, l) == l);
        assert(rep_of(cls2, rank2, bound2, sm) == l);
        assert(rep_of(cls, rank, bound, sm) == sm);
    } else if i == l {
        assert(cls2[l] is Representative);
        assert(rep_of(cls2, rank2, bound2, l) == l);
        assert(rep_of(cls, rank, bound, l) == l);
    } else {
        assert(cls2[i] == cls[i]);
        assert(rank2[i] == rank[i]);
        if cls[i] is Link {
            let m = cls[i]->next as int;
            assert(rank[m] <= bound);
            lemma_rep_of_union(cls, rank, bound, large, small, w, m);
            lemma_rep_of(cls2, rank2, bound2, i);
        }
    }
}

/// The abstract state of the equivalence classes: the representative of the class of each
/// seen ID, the weight of each representative, and the index the next new class gets.
pub struct UfView {
    /// The representative of the class of each seen ID.
    pub keys: Map<u64, nat>,
    /// The weight of each representative.
    pub weights: Map<nat, usize>,
    /// The index of the next new class.
    pub fresh: nat,
}

/// The weight after merging two classes: the sum, saturated at the maximum.
pub open spec fn merged_weight(wa: usize, wb: usize) -> usize {
    if wa + wb > usize::MAX {
        usize::MAX
    } else {
        (wa + wb) as usize
    }
}

/// What [`EquivClasses::same_class`] does to the abstract state, and what it returns.
pub open spec fn spec_same_class(v: UfView, a: u64, b: u64) -> (UfView, bool) {
    if !v.keys.contains_key(a) && !v.keys.contains_key(b) {
        (
            UfView {
                keys: v.keys.insert(a, v.fresh).insert(b, v.fresh),
                weights: v.weights.insert(v.fresh, 1),
                fresh: v.fresh + 1,
            },
            false,
        )
    } else if v.keys.contains_key(a) && !v.keys.contains_key(b) {
        (UfView { keys: v.keys.insert(b, v.keys[a]), ..v }, false)
    } else if !v.keys.contains_key(a) && v.keys.contains_key(b) {
        (UfView { keys: v.keys.insert(a, v.keys[b]), ..v }, false)
    } else {
        let ra = v.keys[a];
        let rb = v.keys[b];
        if ra == rb {
            (v, true)
        } else {
            let wa = v.weights[ra];
            let wb = v.weights[rb];
            let large = if wa >= wb {
                ra
            } else {
                rb
            };
            let small = if wa >= wb {
                rb
            } else {
                ra
            };
            (
                UfView {
                    keys: v.keys.map_values(
                        |r: nat|
                            if r == small {
                                large
                            } else {
                                r
                            },
                    ),
                    weights: v.weights.remove(small).insert(large, merged_weight(wa, wb)),
                    fresh: v.fresh,
                },
                false,
            )
        }
    }
}

/// Whether two IDs are recorded as members of the same class.
pub open spec fn same(v: UfView, x: u64, y: u64) -> bool {
    v.keys.contains_key(x) && v.keys.contains_key(y) && v.keys[x] == v.keys[y]
}

/// Whether `x` is `a` or recorded as a member of `a`'s class.
pub open spec fn in_class_of(v: UfView, x: u64, a: u64) -> bool {
    x == a || same(v, x, a)
}

/// The well-formedness of an abstract state: every representative of a seen ID has a weight.
pub open spec fn uf_view_ok(v: UfView) -> bool {
    forall|k: u64| #[trigger] v.keys.contains_key(k) ==> v.weights.contains_key(v.keys[k])
        && v.keys[k] < v.fresh
}

/// The classes of the nodes that are known to be equivalent, for an invocation of the
/// algorithm.
pub struct EquivClasses<T> {
    /// Table that associates nodes by ID with their equivalence class.
    table: T,
    /// The arena of classes.
    classes: Vec<Class<usize>>,
    /// The rank of each class, which strictly increases along links.
    rank: Ghost<Seq<int>>,
    /// An upper bound of the ranks.
    bound: Ghost<int>,
}

impl<T: Table> View for EquivClasses<T> {
    type V = UfView;

    closed spec fn view(&self) -> UfView {
        UfView {
            keys: self.table.spec_map().map_values(
                |c: usize| rep_of(self.classes@, self.rank@, self.bound@, c as int) as nat,
            ),
            weights: Map::new(
                |r: nat| r < self.classes@.len() && self.classes@[r as int] is Representative,
                |r: nat| self.classes@[r as int]->weight,
            ),
            fresh: self.classes@.len(),
        }
    }
}

impl<T: Table> EquivClasses<T> {
    /// The links are well-founded and the table associates IDs only with valid classes.
    pub closed spec fn wf(&self) -> bool {
        &&& links_ok(self.classes@, self.rank@, self.bound@)
        &&& forall|k: u64| #[trigger]
            self.table.spec_map().contains_key(k) ==> (self.table.spec_map()[k] as int)
                < self.classes@.len()
    }

    /// The representative of the class at index `i`.
    pub closed spec fn spec_rep(&self, i: int) -> int {
        rep_of(self.classes@, self.rank@, self.bound@, i)
    }

    /// The association of IDs with handles of classes.
    pub closed spec fn spec_table(&self) -> Map<u64, usize> {
        self.table.spec_map()
    }

    /// The amount of classes in the arena.
    pub closed spec fn spec_len(&self) -> nat {
        self.classes@.len()
    }

    /// The abstract states of two well-formed values are the same when their representatives
    /// and the weights of their representatives are the same.
    proof fn lemma_same_view(&self, other: &Self)
        requires
            self.wf(),
            other.wf(),
            self.table.spec_map() == other.table.spec_map(),
            self.classes@.len() == other.classes@.len(),
            forall|i: int|
                0 <= i < self.classes@.len() ==> #[trigger] self.spec_rep(i) == other.spec_rep(i),
            forall|i: int|
                0 <= i < self.classes@.len() ==> ((#[trigger] self.classes@[i]) is Representative
                    <==> other.classes@[i] is Representative),
            forall|i: int|
                0 <= i < self.classes@.len() && (#[trigger] self.classes@[i]) is Representative
                    ==> self.classes@[i]->weight == other.classes@[i]->weight,
        ensures
            self@ == other@,
    {
        assert forall|k: u64| #[trigger] self@.keys.contains_key(k) implies self@.keys[k]
            == other@.keys[k] by {
            let c = self.table.spec_map()[k] as int;
            assert(self.spec_rep(c) == other.spec_rep(c));
        }
        assert(self@.keys =~= other@.keys);
        assert(self@.weights =~= other@.weights);
    }

    /// The abstract state is well-formed.
    pub proof fn lemma_view_ok(&self)
        requires
            self.wf(),
        ensures
            uf_view_ok(self@),
    {
        assert forall|k: u64| #[trigger] self@.keys.contains_key(k) implies self@.weights.contains_key(
            self@.keys[k],
        ) && self@.keys[k] < self@.fresh by {
            let c = self.table.spec_map()[k] as int;
            lemma_rep_of(self.classes@, self.rank@, self.bound@, c);
        }
    }

    /// Create a new instance with no classes.
    pub fn new() -> (r: Self)
        ensures
            r.wf(),
            r@ == empty_uf(),
    {
        let r = EquivClasses {
            table: T::new(),
            classes: Vec::new(),
            rank: Ghost(Seq::empty()),
            bound: Ghost(0),
        };
        assert(r@.keys =~= Map::empty());
        assert(r@.weights =~= Map::empty());
        r
    }

    /// The class at index `it`.
    fn clone_inner(&self, it: usize) -> (r: Class<usize>)
        requires
            (it as int) < self.classes@.len(),
        ensures
            r == self.classes@[it as int],
    {
        self.classes[it]
    }

    /// Create a distinct [`Class::Representative`] that represents a distinct equivalence
    /// class, with the given weight, and return its handle.
    pub fn rep_with_weight(&mut self, weight: usize) -> (r: usize)
        requires
            old(self).wf(),
        ensures
            final(self).wf(),
            r as nat == old(self).spec_len(),
            final(self).spec_len() == old(self).spec_len() + 1,
            final(self).spec_table() == old(self).spec_table(),
            final(self)@ == (UfView {
                keys: old(self)@.keys,
                weights: old(self)@.weights.insert(r as nat, weight),
                fresh: old(self)@.fresh + 1,
            }),
            forall|i: int|
                0 <= i < old(self).spec_len() ==> #[trigger] final(self).spec_rep(i)
                    == old(self).spec_rep(i),
            final(self).spec_rep(r as int) == r,
    {
        let ghost old_self = *self;
        let idx = self.classes.len();
        let ghost b = self.bound@;
        proof {
            assert forall|i: int| 0 <= i < self.classes@.len() implies #[trigger] rep_of(
                self.classes@.push(Class::Representative { weight }),
                self.rank@.push(b),
                b,
                i,
            ) == rep_of(self.classes@, self.rank@, b, i) by {
                lemma_rep_of_push(
                    self.classes@,
                    self.rank@,
                    b,
                    Class::Representative { weight },
                    b,
                    i,
                );
            }
        }
        self.classes.push(Class::Representative { weight });
        self.rank = Ghost(self.rank@.push(b));
        assert(self.classes@[idx as int] is Representative);
        proof {
            assert(self@.keys =~= old_self@.keys);
            assert(self@.weights =~= old_self@.weights.insert(idx as nat, weight));
        }
        idx
    }

    /// Create a distinct [`Class::Representative`] with initial weight.
    pub fn class_new(&mut self) -> (r: usize)
        requires
            old(self).wf(),
        ensures
            final(self).wf(),
            r as nat == old(self).spec_len(),
            final(self).spec_len() == old(self).spec_len() + 1,
            final(self).spec_table() == old(self).spec_table(),
            final(self)@ == (UfView {
                keys: old(self)@.keys,
                weights: old(self)@.weights.insert(r as nat, 1),
                fresh: old(self)@.fresh + 1,
            }),
            forall|i: int|
                0 <= i < old(self).spec_len() ==> #[trigger] final(self).spec_rep(i)
                    == old(self).spec_rep(i),
            final(self).spec_rep(r as int) == r,
    {
        self.rep_with_weight(1)
    }

    /// Create a new class that is a [`Class::Link`] to the class `next`, and so a member of the
    /// same equivalence class, and return its handle.
    pub fn link_new(&mut self, next: usize) -> (r: usize)
        requires
            old(self).wf(),
            (next as nat) < old(self).spec_len(),
        ensures
            final(self).wf(),
            r as nat == old(self).spec_len(),
            final(self).spec_table() == old(self).spec_table(),
            final(self).spec_len() == old(self).spec_len() + 1,
            final(self)@ == (UfView { fresh: old(self)@.fresh + 1, ..old(self)@ }),
            forall|i: int|
                0 <= i < old(self).spec_len() ==> #[trigger] final(self).spec_rep(i)
                    == old(self).spec_rep(i),
            final(self).spec_rep(r as int) == old(self).spec_rep(next as int),
    {
        let ghost old_self = *self;
        let idx = self.classes.len();
        let ghost b = self.bound@;
        let ghost rn = self.rank@[next as int];
        let ghost c = Class::Link { next };
        proof {
            assert forall|i: int| 0 <= i < self.classes@.len() implies #[trigger] rep_of(
                self.classes@.push(c),
                self.rank@.push(rn - 1),
                b,
                i,
            ) == rep_of(self.classes@, self.rank@, b, i) by {
                lemma_rep_of_push(self.classes@, self.rank@, b, c, rn - 1, i);
            }
        }
        self.classes.push(Class::Link { next });
        self.rank = Ghost(self.rank@.push(rn - 1));
        assert(self.classes@[idx as int] == c);
        proof {
            lemma_rep_of(self.classes@, self.rank@, self.bound@, idx as int);
            assert(self@.keys =~= old_self@.keys);
            assert(self@.weights =~= old_self@.weights);
        }
        idx
    }

    /// Get the representative, and its weight, of the equivalence class `it` is a member of
    /// currently.
    ///
    /// Follows [`Class::Link`] chains to the distinct [`Class::Representative`].  Long chains
    /// are shortened, to improve efficiency for subsequent traversals, without changing any
    /// representative.
    pub fn get_rep_and_weight(&mut self, it: usize) -> (r: (usize, usize))
        requires
            old(self).wf(),
            (it as nat) < old(self).spec_len(),
        ensures
            final(self).wf(),
            final(self)@ == old(self)@,
            final(self).spec_table() == old(self).spec_table(),
            final(self).spec_len() == old(self).spec_len(),
            forall|i: int|
                0 <= i < old(self).spec_len() ==> #[trigger] final(self).spec_rep(i)
                    == old(self).spec_rep(i),
            r.0 as int == old(self).spec_rep(it as int),
            old(self)@.weights.contains_key(r.0 as nat),
            old(self)@.weights[r.0 as nat] == r.1,
            final(self).spec_rep(r.0 as int) == r.0,
            (r.0 as nat) < old(self).spec_len(),
    {
        proof {
            lemma_rep_of(self.classes@, self.rank@, self.bound@, it as int);
        }
        let it_inner = self.clone_inner(it);
        match it_inner {
            Class::Representative { weight } => {
                return (it, weight);
            },
            Class::Link { next } => {
                let ghost old_cls = self.classes@;
                let ghost rank = self.rank@;
                let ghost bound = self.bound@;
                let mut cur = it;
                let mut next = next;
                loop
                    invariant
                        self.wf(),
                        old(self).wf(),
                        links_ok(old_cls, rank, bound),
                        self.table == old(self).table,
                        self.rank@ == rank,
                        self.bound@ == bound,
                        rank == old(self).rank@,
                        bound == old(self).bound@,
                        old_cls == old(self).classes@,
                        self.classes@.len() == old_cls.len(),
                        (cur as int) < old_cls.len(),
                        (next as int) < old_cls.len(),
                        self.classes@[cur as int] == (Class::Link::<usize> { next }),
                        forall|i: int|
                            0 <= i < old_cls.len() ==> #[trigger] rep_of(
                                self.classes@,
                                rank,
                                bound,
                                i,
                            ) == rep_of(old_cls, rank, bound, i),
                        forall|i: int|
                            0 <= i < old_cls.len() ==> ((#[trigger] self.classes@[i]) is Representative
                                ==> self.classes@[i] == old_cls[i]) && (old_cls[i] is Representative
                                ==> self.classes@[i] == old_cls[i]),
                        rep_of(old_cls, rank, bound, next as int) == rep_of(
                            old_cls,
                            rank,
                            bound,
                            it as int,
                        ),
                    decreases bound - rank[next as int],
                {
                    proof {
                        lemma_rep_of(self.classes@, rank, bound, cur as int);
                        lemma_rep_of(self.classes@, rank, bound, next as int);
                    }
                    let next_inner = self.clone_inner(next);
                    match next_inner {
                        Class::Representative { weight } => {
                            proof {
                                assert(self.classes@[next as int] == old_cls[next as int]);
                                lemma_rep_of(old_cls, rank, bound, next as int);
                                lemma_rep_of(self.classes@, rank, bound, next as int);
                                self.lemma_same_view(old(self));
                            }
                            return (next, weight);
                        },
                        Class::Link { next: next_next } => {
                            proof {
                                lemma_rep_of(self.classes@, rank, bound, next_next as int);
                                assert forall|i: int| 0 <= i < old_cls.len() implies #[trigger] rep_of(
                                    self.classes@.update(
                                        cur as int,
                                        Class::Link { next: next_next },
                                    ),
                                    rank,
                                    bound,
                                    i,
                                ) == rep_of(self.classes@, rank, bound, i) by {
                                    lemma_rep_of_compress(
                                        self.classes@,
                                        rank,
                                        bound,
                                        cur as int,
                                        next_next,
                                        i,
                                    );
                                }
                            }
                            self.classes.set(cur, Class::Link { next: next_next });
                            proof {
                                assert(self.classes@[next as int] is Link);
                                assert forall|i: int|
                                    0 <= i < self.classes@.len() && (#[trigger] self.classes@[i]) is Link
                                    implies 0 <= (self.classes@[i]->next as int) < self.classes@.len()
                                    && rank[i] < rank[self.classes@[i]->next as int] by {
                                    if i == cur as int {
                                    } else {
                                    }
                                }
                            }
                            cur = next;
                            next = next_next;
                        },
                    }
                }
            },
        }
    }

    /// Like [`Self::get_rep_and_weight`] but only returns the representative.
    pub fn get_rep(&mut self, it: usize) -> (r: usize)
        requires
            old(self).wf(),
            (it as nat) < old(self).spec_len(),
        ensures
            final(self).wf(),
            final(self)@ == old(self)@,
            final(self).spec_table() == old(self).spec_table(),
            final(self).spec_len() == old(self).spec_len(),
            forall|i: int|
                0 <= i < old(self).spec_len() ==> #[trigger] final(self).spec_rep(i)
                    == old(self).spec_rep(i),
            r as int == old(self).spec_rep(it as int),
            final(self).spec_rep(r as int) == r,
            (r as nat) < old(self).spec_len(),
    {
        self.get_rep_and_weight(it).0
    }

    /// Compare handles of representatives, so that distinct representatives represent distinct
    /// equivalence classes.
    pub fn eq_rep(&self, it: usize, other: usize) -> (r: bool)
        ensures
            r == (it == other),
    {
        it == other
    }

    /// Set `it` to be a [`Class::Representative`] with the given `weight`.
    fn set_rep(&mut self, it: usize, weight: usize)
        requires
            (it as int) < old(self).classes@.len(),
        ensures
            final(self).classes@ == old(self).classes@.update(
                it as int,
                Class::Representative { weight },
            ),
            final(self).table == old(self).table,
            final(self).rank == old(self).rank,
            final(self).bound == old(self).bound,
    {
        self.classes.set(it, Class::Representative { weight });
    }

    /// Set `it` to be a [`Class::Link`] to the given `next`.
    fn set_link(&mut self, it: usize, next: usize)
        requires
            (it as int) < old(self).classes@.len(),
        ensures
            final(self).classes@ == old(self).classes@.update(it as int, Class::Link { next }),
            final(self).table == old(self).table,
            final(self).rank == old(self).rank,
            final(self).bound == old(self).bound,
    {
        self.classes.set(it, Class::Link { next });
    }
}


impl<T: Table> EquivClasses<T> {
    /// First time both nodes are seen.
    ///
    /// Immediately record them as being in the same equivalence class, before checking their
    /// descendents, by associating their IDs with a new equivalence class.
    fn none_seen(&mut self, ak: &u64, bk: &u64)
        requires
            old(self).wf(),
            !old(self)@.keys.contains_key(*ak),
            !old(self)@.keys.contains_key(*bk),
        ensures
            final(self).wf(),
            final(self)@ == spec_same_class(old(self)@, *ak, *bk).0,
    {
        let ghost v0 = self@;
        let ac = self.class_new();
        let bc = ac;
        let ghost v1 = self@;
        self.table.insert(*ak, ac);
        self.table.insert(*bk, bc);
        proof {
            assert(self.spec_rep(ac as int) == ac as int);
            assert forall|k: u64| #[trigger] self@.keys.contains_key(k) implies self@.keys[k]
                == v0.keys.insert(*ak, v0.fresh).insert(*bk, v0.fresh)[k] by {
                if k != *ak && k != *bk {
                    assert(v1.keys.contains_key(k));
                }
            }
            assert(self@.keys =~= v0.keys.insert(*ak, v0.fresh).insert(*bk, v0.fresh));
            assert(self@.weights =~= v1.weights);
        }
    }

    /// First time one node is seen but the other has already been seen.
    ///
    /// Immediately record them as being in the same equivalence class, before checking their
    /// descendents, by associating the ID of the unseen with the representative of the class of
    /// the seen.
    fn some_seen(&mut self, oc: usize, k: &u64)
        requires
            old(self).wf(),
            (oc as nat) < old(self).spec_len(),
        ensures
            final(self).wf(),
            final(self)@ == (UfView {
                keys: old(self)@.keys.insert(*k, old(self).spec_rep(oc as int) as nat),
                ..old(self)@
            }),
    {
        let ghost v0 = self@;
        let r = self.get_rep(oc);
        let ghost v1 = self@;
        self.table.insert(*k, r);
        proof {
            assert forall|kk: u64| #[trigger] self@.keys.contains_key(kk) implies self@.keys[kk]
                == v0.keys.insert(*k, r as nat)[kk] by {
                if kk != *k {
                    assert(v1.keys.contains_key(kk));
                }
            }
            assert(self@.keys =~= v0.keys.insert(*k, r as nat));
            assert(self@.weights =~= v1.weights);
        }
    }

    /// Both nodes have already been seen, but maybe not already known to be equivalent.
    ///
    /// Return `true` if already recorded as being in the same equivalence class.  Else return
    /// `false`, and immediately record them as being in the same equivalence class by merging
    /// their classes into a union, according to the "weighted union rule": the class whose
    /// representative has the smaller weight is linked to the other.
    fn all_seen(&mut self, ac: usize, bc: usize) -> (r: bool)
        requires
            old(self).wf(),
            (ac as nat) < old(self).spec_len(),
            (bc as nat) < old(self).spec_len(),
        ensures
            final(self).wf(),
            ({
                let v = old(self)@;
                let ra = old(self).spec_rep(ac as int) as nat;
                let rb = old(self).spec_rep(bc as int) as nat;
                if ra == rb {
                    r && final(self)@ == v
                } else {
                    let wa = v.weights[ra];
                    let wb = v.weights[rb];
                    let large = if wa >= wb {
                        ra
                    } else {
                        rb
                    };
                    let small = if wa >= wb {
                        rb
                    } else {
                        ra
                    };
                    !r && final(self)@ == (UfView {
                        keys: v.keys.map_values(
                            |x: nat|
                                if x == small {
                                    large
                                } else {
                                    x
                                },
                        ),
                        weights: v.weights.remove(small).insert(large, merged_weight(wa, wb)),
                        fresh: v.fresh,
                    })
                }
            }),
    {
        let ghost v0 = self@;
        let (ar, aw) = self.get_rep_and_weight(ac);
        let (br, bw) = self.get_rep_and_weight(bc);
        if self.eq_rep(ar, br) {
            true
        } else {
            let larger_rep;
            let smaller_rep;
            if aw >= bw {
                larger_rep = ar;
                smaller_rep = br;
            } else {
                larger_rep = br;
                smaller_rep = ar;
            }
            let ghost cls = self.classes@;
            let ghost rank = self.rank@;
            let ghost bound = self.bound@;
            let ghost table = self.table.spec_map();
            let w = aw.saturating_add(bw);
            let ghost cls2 = cls.update(larger_rep as int, Class::Representative { weight: w }).update(
                smaller_rep as int,
                Class::Link { next: larger_rep },
            );
            let ghost rank2 = rank.update(
                larger_rep as int,
                union_rank(rank, larger_rep as int, smaller_rep as int),
            );
            let ghost bound2 = if bound >= union_rank(rank, larger_rep as int, smaller_rep as int) {
                bound
            } else {
                union_rank(rank, larger_rep as int, smaller_rep as int)
            };
            proof {
                lemma_rep_of(cls, rank, bound, ar as int);
                lemma_rep_of(cls, rank, bound, br as int);
                assert forall|i: int| 0 <= i < cls.len() implies #[trigger] rep_of(
                    cls2,
                    rank2,
                    bound2,
                    i,
                ) == if rep_of(cls, rank, bound, i) == smaller_rep as int {
                    larger_rep as int
                } else {
                    rep_of(cls, rank, bound, i)
                } by {
                    lemma_rep_of_union(cls, rank, bound, larger_rep, smaller_rep, w, i);
                }
                lemma_rep_of_union(cls, rank, bound, larger_rep, smaller_rep, w, 0);
            }
            self.set_rep(larger_rep, w);
            self.set_link(smaller_rep, larger_rep);
            let ghost new_rank = union_rank(rank, larger_rep as int, smaller_rep as int);
            self.rank = Ghost(rank.update(larger_rep as int, new_rank));
            self.bound = Ghost(
                if bound >= new_rank {
                    bound
                } else {
                    new_rank
                },
            );
            proof {
                let small = smaller_rep as nat;
                let large = larger_rep as nat;
                assert forall|k: u64| #[trigger] self@.keys.contains_key(k) implies self@.keys[k]
                    == v0.keys.map_values(
                    |x: nat|
                        if x == small {
                            large
                        } else {
                            x
                        },
                )[k] by {
                    let c = table[k] as int;
                    lemma_rep_of(cls, rank, bound, c);
                }
                assert(self@.keys =~= v0.keys.map_values(
                    |x: nat|
                        if x == small {
                            large
                        } else {
                            x
                        },
                ));
                assert(self@.weights =~= v0.weights.remove(small).insert(
                    large,
                    merged_weight(v0.weights[large], v0.weights[small]),
                ));
            }
            false
        }
    }

    /// Check if the given node IDs are already known to be equivalent.  If not, they will be
    /// made members of the same equivalence class, merging classes if needed.
    ///
    /// Returns `true` if they were already recorded as equivalent, and their descendents do not
    /// need to be checked.  Returns `false` if not already recorded as equivalent, and they
    /// will be recorded as equivalent for if they are seen again.
    pub fn same_class(&mut self, ak: &u64, bk: &u64) -> (r: bool)
        requires
            old(self).wf(),
        ensures
            final(self).wf(),
            (final(self)@, r) == spec_same_class(old(self)@, *ak, *bk),
    {
        let ga = self.table.get(ak);
        let gb = self.table.get(bk);
        match (ga, gb) {
            (None, None) => {
                self.none_seen(ak, bk);
                false
            },
            (Some(ac), None) => {
                self.some_seen(ac, bk);
                false
            },
            (None, Some(bc)) => {
                self.some_seen(bc, ak);
                false
            },
            (Some(ac), Some(bc)) => self.all_seen(ac, bc),
        }
    }
}

/// Whether `x` is in the class of `a` or in the class of `b`.
pub open spec fn in_either_class(v: UfView, x: u64, a: u64, b: u64) -> bool {
    in_class_of(v, x, a) || in_class_of(v, x, b)
}

/// The law of [`EquivClasses::same_class`]: it returns whether `a` and `b` were already
/// recorded as members of the same class; afterwards they are, and two IDs are members of the
/// same class exactly when they were before, or when each was `a` or `b` or a member of the
/// class of one of them.  That is, the classes are merged and nothing else changes.
pub proof fn lemma_same_class_merges(v: UfView, a: u64, b: u64, x: u64, y: u64)
    requires
        uf_view_ok(v),
    ensures
        spec_same_class(v, a, b).1 == same(v, a, b),
        same(spec_same_class(v, a, b).0, a, b),
        uf_view_ok(spec_same_class(v, a, b).0),
        same(spec_same_class(v, a, b).0, x, y) <==> (same(v, x, y) || (in_either_class(
            v,
            x,
            a,
            b,
        ) && in_either_class(v, y, a, b))),
{
    let (v2, r) = spec_same_class(v, a, b);
    if !v.keys.contains_key(a) && !v.keys.contains_key(b) {
        assert forall|k: u64| #[trigger] v2.keys.contains_key(k) implies v2.weights.contains_key(
            v2.keys[k],
        ) && v2.keys[k] < v2.fresh by {
            if k != a && k != b {
                assert(v.keys.contains_key(k));
            }
        }
        if v.keys.contains_key(x) {
            assert(v.keys[x] < v.fresh);
        }
        if v.keys.contains_key(y) {
            assert(v.keys[y] < v.fresh);
        }
    } else if v.keys.contains_key(a) && !v.keys.contains_key(b) {
        assert forall|k: u64| #[trigger] v2.keys.contains_key(k) implies v2.weights.contains_key(
            v2.keys[k],
        ) && v2.keys[k] < v2.fresh by {
            if k != b {
                assert(v.keys.contains_key(k));
            }
        }
    } else if !v.keys.contains_key(a) && v.keys.contains_key(b) {
        assert forall|k: u64| #[trigger] v2.keys.contains_key(k) implies v2.weights.contains_key(
            v2.keys[k],
        ) && v2.keys[k] < v2.fresh by {
            if k != a {
                assert(v.keys.contains_key(k));
            }
        }
    } else {
        let ra = v.keys[a];
        let rb = v.keys[b];
        if ra != rb {
            let wa = v.weights[ra];
            let wb = v.weights[rb];
            let large = if wa >= wb {
                ra
            } else {
                rb
            };
            let small = if wa >= wb {
                rb
            } else {
                ra
            };
            assert forall|k: u64| #[trigger] v2.keys.contains_key(k) implies v2.weights.contains_key(
                v2.keys[k],
            ) && v2.keys[k] < v2.fresh by {
                assert(v.keys.contains_key(k));
            }
        }
    }
}

/// The abstract state with no classes, which [`EquivClasses::new`] starts from.
pub open spec fn empty_uf() -> UfView {
    UfView { keys: Map::empty(), weights: Map::empty(), fresh: 0 }
}

/// The abstract state after a call of [`EquivClasses::same_class`] on each pair, in order, from
/// no classes.
pub open spec fn uf_after(pairs: Seq<(u64, u64)>) -> UfView
    decreases pairs.len(),
{
    if pairs.len() == 0 {
        empty_uf()
    } else {
        spec_same_class(uf_after(pairs.drop_last()), pairs.last().0, pairs.last().1).0
    }
}

/// Whether the ID occurs in one of the pairs.
pub open spec fn seen_in(pairs: Seq<(u64, u64)>, x: u64) -> bool {
    exists|j: int| #![trigger pairs[j]] 0 <= j < pairs.len() && (pairs[j].0 == x || pairs[j].1 == x)
}

/// The pairs as a relation.
pub open spec fn pair_rel(pairs: Seq<(u64, u64)>) -> spec_fn(u64, u64) -> bool {
    |x: u64, y: u64| exists|j: int| 0 <= j < pairs.len() && #[trigger] pairs[j] == (x, y)
}

/// The smallest equivalence relation on the IDs that occur in the pairs that relates each pair.
pub open spec fn pairs_equivalent(pairs: Seq<(u64, u64)>, x: u64, y: u64) -> bool {
    seen_in(pairs, x) && seen_in(pairs, y) && connected(pair_rel(pairs), x, y)
}

/// A chain of the pairs without the last is a chain of all the pairs.
proof fn lemma_chain_grows(pairs: Seq<(u64, u64)>, x: u64, y: u64)
    requires
        pairs.len() > 0,
        connected(pair_rel(pairs.drop_last()), x, y),
    ensures
        connected(pair_rel(pairs), x, y),
{
    let g1 = pair_rel(pairs.drop_last());
    let g = pair_rel(pairs);
    let c = choose|c: Seq<u64>| #[trigger] is_chain(g1, c) && c[0] == x && c.last() == y;
    assert forall|j: int| 0 <= j < c.len() - 1 implies #[trigger] link_at(g, c, j) by {
        assert(link_at(g1, c, j));
        if g1(c[j], c[j + 1]) {
            let i = choose|i: int|
                0 <= i < pairs.drop_last().len() && #[trigger] pairs.drop_last()[i] == (
                    c[j],
                    c[j + 1],
                );
            assert(pairs[i] == (c[j], c[j + 1]));
        } else {
            let i = choose|i: int|
                0 <= i < pairs.drop_last().len() && #[trigger] pairs.drop_last()[i] == (
                    c[j + 1],
                    c[j],
                );
            assert(pairs[i] == (c[j + 1], c[j]));
        }
    }
    assert(is_chain(g, c));
}

/// Two distinct connected IDs occur in the pairs.
proof fn lemma_connected_seen(pairs: Seq<(u64, u64)>, x: u64, y: u64)
    requires
        x != y,
        connected(pair_rel(pairs), x, y),
    ensures
        seen_in(pairs, x),
        seen_in(pairs, y),
{
    let g = pair_rel(pairs);
    let c = choose|c: Seq<u64>| #[trigger] is_chain(g, c) && c[0] == x && c.last() == y;
    assert(c.len() >= 2);
    assert(link_at(g, c, 0));
    assert(link_at(g, c, c.len() - 2));
    let i = if g(c[0], c[1]) {
        choose|i: int| 0 <= i < pairs.len() && #[trigger] pairs[i] == (c[0], c[1])
    } else {
        choose|i: int| 0 <= i < pairs.len() && #[trigger] pairs[i] == (c[1], c[0])
    };
    assert(pairs[i].0 == x || pairs[i].1 == x);
    let n = c.len() - 2;
    let m = if g(c[n], c[n + 1]) {
        choose|m: int| 0 <= m < pairs.len() && #[trigger] pairs[m] == (c[n], c[n + 1])
    } else {
        choose|m: int| 0 <= m < pairs.len() && #[trigger] pairs[m] == (c[n + 1], c[n])
    };
    assert(c[n + 1] == c.last());
    assert(pairs[m].0 == y || pairs[m].1 == y);
}

/// Connected, without the last pair, to `a` or to `b`.
pub open spec fn near(g: spec_fn(u64, u64) -> bool, w: u64, a: u64, b: u64) -> bool {
    connected(g, w, a) || connected(g, w, b)
}

/// Along a chain of all the pairs, each ID is connected to the start without the last pair
/// `(a, b)`, or both are connected to `a` or `b` without it.
proof fn lemma_chain_split(pairs: Seq<(u64, u64)>, c: Seq<u64>, m: int)
    requires
        pairs.len() > 0,
        is_chain(pair_rel(pairs), c),
        0 <= m < c.len(),
    ensures
        ({
            let g1 = pair_rel(pairs.drop_last());
            let (a, b) = pairs.last();
            connected(g1, c[0], c[m]) || (near(g1, c[0], a, b) && near(g1, c[m], a, b))
        }),
    decreases m,
{
    let g1 = pair_rel(pairs.drop_last());
    let g = pair_rel(pairs);
    let (a, b) = pairs.last();
    if m == 0 {
        lemma_connected_refl(g1, c[0]);
    } else {
        lemma_chain_split(pairs, c, m - 1);
        let z = c[m - 1];
        let z2 = c[m];
        assert(link_at(g, c, m - 1));
        let (p, q) = if g(z, z2) {
            (z, z2)
        } else {
            (z2, z)
        };
        let i = choose|i: int| 0 <= i < pairs.len() && #[trigger] pairs[i] == (p, q);
        lemma_connected_refl(g1, a);
        lemma_connected_refl(g1, b);
        if i < pairs.len() - 1 {
            assert(pairs.drop_last()[i] == (p, q));
            assert(connected(g1, z, z2)) by {
                let c2 = seq![z, z2];
                assert(link_at(g1, c2, 0));
                assert(is_chain(g1, c2));
            }
            lemma_connected_sym(g1, z, z2);
            if connected(g1, c[0], z) {
                lemma_connected_trans(g1, c[0], z, z2);
            } else {
                if connected(g1, z, a) {
                    lemma_connected_trans(g1, z2, z, a);
                } else {
                    lemma_connected_trans(g1, z2, z, b);
                }
            }
        } else {
            assert((p, q) == (a, b));
            if connected(g1, c[0], z) {
                if z == a {
                    assert(near(g1, c[0], a, b));
                } else {
                    assert(near(g1, c[0], a, b));
                }
            }
        }
    }
}

/// The law of [`EquivClasses::same_class`] over a sequence of calls: after a call on each pair,
/// in order, from no classes, two IDs are members of the same class exactly when the smallest
/// equivalence relation on the IDs of the pairs that relates each pair relates them; and a
/// further call on `a` and `b` returns exactly whether it relates them.
pub proof fn lemma_same_class_sequence(pairs: Seq<(u64, u64)>, a: u64, b: u64)
    ensures
        uf_view_ok(uf_after(pairs)),
        forall|x: u64, y: u64| #[trigger] same(uf_after(pairs), x, y) <==> pairs_equivalent(
            pairs,
            x,
            y,
        ),
        spec_same_class(uf_after(pairs), a, b).1 == pairs_equivalent(pairs, a, b),
    decreases pairs.len(),
{
    if pairs.len() == 0 {
        assert forall|x: u64, y: u64| !pairs_equivalent(pairs, x, y) by {}
    } else {
        let p1 = pairs.drop_last();
        let (c, d) = pairs.last();
        lemma_same_class_sequence(p1, c, d);
        let v = uf_after(p1);
        let g1 = pair_rel(p1);
        let g = pair_rel(pairs);
        assert(pairs[pairs.len() - 1] == (c, d));
        assert(seen_in(pairs, c) && seen_in(pairs, d));
        assert(g(c, d));
        assert(connected(g, c, d)) by {
            let c2 = seq![c, d];
            assert(link_at(g, c2, 0));
            assert(is_chain(g, c2));
        }
        assert forall|x: u64| seen_in(p1, x) implies seen_in(pairs, x) by {
            let j = choose|j: int|
                #![trigger p1[j]]
                0 <= j < p1.len() && (p1[j].0 == x || p1[j].1 == x);
            assert(pairs[j] == p1[j]);
        }
        assert forall|x: u64, y: u64| #[trigger]
            same(uf_after(pairs), x, y) <==> pairs_equivalent(pairs, x, y) by {
            lemma_same_class_merges(v, c, d, x, y);
            lemma_same_class_merges(v, c, d, x, c);
            lemma_same_class_merges(v, c, d, x, d);
            lemma_same_class_merges(v, c, d, y, c);
            lemma_same_class_merges(v, c, d, y, d);
            lemma_connected_refl(g, x);
            lemma_connected_refl(g1, x);
            lemma_connected_refl(g1, y);
            // From the classes to the relation.
            if same(uf_after(pairs), x, y) {
                if pairs_equivalent(p1, x, y) {
                    lemma_chain_grows(pairs, x, y);
                } else {
                    // Each of x and y is c, d or related to one of them before the call.
                    assert forall|w: u64| in_either_class(v, w, c, d) implies seen_in(pairs, w)
                        && (connected(g, w, c) || connected(g, w, d)) by {
                        lemma_connected_refl(g, w);
                        if same(v, w, c) {
                            lemma_chain_grows(pairs, w, c);
                        } else if same(v, w, d) {
                            lemma_chain_grows(pairs, w, d);
                        }
                    }
                    assert(in_either_class(v, x, c, d) && in_either_class(v, y, c, d));
                    lemma_connected_sym(g, c, d);
                    if connected(g, x, c) {
                        lemma_connected_trans(g, x, c, d);
                    } else {
                        lemma_connected_trans(g, x, d, c);
                    }
                    if connected(g, y, c) {
                        lemma_connected_sym(g, y, c);
                        lemma_connected_trans(g, x, c, y);
                    } else {
                        lemma_connected_sym(g, y, d);
                        lemma_connected_trans(g, x, d, y);
                    }
                }
            }
            // From the relation to the classes.
            if pairs_equivalent(pairs, x, y) {
                let ch = choose|ch: Seq<u64>| #[trigger] is_chain(g, ch) && ch[0] == x
                    && ch.last() == y;
                lemma_chain_split(pairs, ch, ch.len() - 1);
                // Before the call, w is c, d or in the class of one of them.
                assert forall|w: u64| seen_in(pairs, w) && near(g1, w, c, d) implies in_either_class(
                    v,
                    w,
                    c,
                    d,
                ) by {
                    if w != c && w != d {
                        if connected(g1, w, c) {
                            lemma_connected_seen(p1, w, c);
                        } else {
                            lemma_connected_seen(p1, w, d);
                        }
                    }
                }
                if connected(g1, x, y) {
                    if x != y {
                        lemma_connected_seen(p1, x, y);
                    } else if !seen_in(p1, x) {
                        // x is c or d, which are in the same class after the call.
                        let j = choose|j: int|
                            #![trigger pairs[j]]
                            0 <= j < pairs.len() && (pairs[j].0 == x || pairs[j].1 == x);
                        if j < pairs.len() - 1 {
                            assert(p1[j] == pairs[j]);
                            assert(p1[j].0 == x || p1[j].1 == x);
                        }
                        assert(x == c || x == d);
                        lemma_connected_refl(g1, c);
                        lemma_connected_refl(g1, d);
                    }
                }
            }
        }
        lemma_same_class_merges(v, c, d, a, b);
        assert(uf_view_ok(uf_after(pairs)));
        lemma_same_class_merges(uf_after(pairs), a, b, a, b);
    }
}

} // verus!
