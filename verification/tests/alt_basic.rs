use graph_safe_compare::alt::basic::{
    interleave, precheck, precheck_interleave_equiv, EquivClassChain, EquivClasses, EquivResult,
};
use graph_safe_compare::cycle_safe::modes::interleave::random::wyrng::RandomNumberGenerator;
use graph_safe_compare::tests_utils::node_types::boxed::Datum;
use EquivResult::{Abort, Equiv, Unequiv};

/// Makes data with distinct identities.
struct Maker(u64);

impl Maker {
    fn next_id(&mut self) -> u64 {
        self.0 += 1;
        self.0
    }

    fn leaf(&mut self) -> Datum {
        Datum::leaf(self.next_id())
    }

    fn pair(&mut self, a: Datum, b: Datum) -> Datum {
        Datum::pair(self.next_id(), a, b)
    }

    fn end_pair(&mut self) -> Datum {
        let (a, b) = (self.leaf(), self.leaf());
        self.pair(a, b)
    }

    /// A pair of a leaf and an end pair.
    fn leaf_then_end_pair(&mut self) -> Datum {
        let (a, b) = (self.leaf(), self.end_pair());
        self.pair(a, b)
    }

    /// A list of `depth` pairs, each with a leaf on the left.
    fn list(&mut self, depth: u32) -> Datum {
        let mut head = self.leaf();
        for _ in 0..depth {
            let leaf = self.leaf();
            head = self.pair(leaf, head);
        }
        head
    }
}

#[test]
fn precheck_basic() {
    let mut m = Maker(0);

    assert_eq!(precheck(&&m.leaf(), &&m.leaf(), 42), Equiv(42));
    assert_eq!(precheck(&&m.leaf(), &&m.leaf(), -1), Equiv(-1));
    assert_eq!(precheck(&&m.leaf(), &&m.end_pair(), 42), Unequiv);
    assert_eq!(precheck(&&m.end_pair(), &&m.leaf(), 42), Unequiv);
    assert_eq!(precheck(&&m.end_pair(), &&m.end_pair(), 7), Equiv(5));
    assert_eq!(precheck(&&m.leaf_then_end_pair(), &&m.leaf_then_end_pair(), 7), Equiv(3));
    assert_eq!(precheck(&&m.end_pair(), &&m.end_pair(), 0), Abort);
    assert_eq!(precheck(&&m.leaf_then_end_pair(), &&m.leaf_then_end_pair(), 1), Abort);
    assert_eq!(
        {
            let (a, b) = (m.end_pair(), m.leaf());
            let x = m.pair(a, b);
            precheck(&&x, &&x, 0)
        },
        Equiv(0)
    );
}

#[test]
fn representative() {
    let mut ec = EquivClasses::new();
    {
        let r = ec.representative_new(0);
        assert!(r == r);
    }
    {
        let r1 = ec.representative_new(1);
        let r2 = r1;
        assert_eq!(r1, r2);
    }
    {
        let r1 = ec.representative_new(2);
        let r2 = r1;
        assert_eq!(r1, r2);
    }
    {
        let r1 = ec.representative_new(3);
        let r2 = ec.representative_new(3);
        assert_ne!(r1, r2);
    }
}

#[test]
fn rep_of() {
    let mut ec = EquivClasses::new();
    let rep1 = ec.representative_default();
    let ecc1 = ec.chain_new(rep1);
    let ecc2 = ec.chain_new(rep1);
    let ecc3 = ec.chain_next(ecc1);
    let ecc4 = ec.chain_next(ecc2);
    let ecc5 = ec.chain_next(ecc4);
    let ecc6 = ec.chain_next(ecc5);

    for ecc in [ecc1, ecc2, ecc3, ecc4, ecc5, ecc6] {
        assert_eq!(ec.rep_of(ecc), rep1);
    }

    let rep2 = ec.representative_default();
    let ecc7 = ec.chain_new(rep2);
    assert_ne!(ec.rep_of(ecc7), rep1);
}

#[test]
fn rep_of_halves_paths() {
    let mut ec = EquivClasses::new();
    let rep = ec.representative_default();
    let first = ec.chain_new(rep);
    let mut last = first;
    for _ in 0..4 {
        last = ec.chain_next(last);
    }
    // The chain is last -> 3 -> 2 -> 1 -> first; each link on the way skips the next.
    assert_eq!(ec.rep_of(last), rep);
    assert_eq!(ec.clone_inner(last), EquivClassChain::Next(last - 2));
    assert_eq!(ec.clone_inner(last - 1), EquivClassChain::Next(last - 3));
    assert_eq!(ec.clone_inner(last - 2), EquivClassChain::Next(first));
    assert_eq!(ec.weight(rep), 1);
}

#[test]
fn basic_same_class() {
    let mut ec = EquivClasses::new();
    let keys: Vec<u64> = ['a', 'b', 'c', 'd', 'e', 'f'].iter().map(|c| *c as u64).collect();

    assert!(!ec.same_class(&keys[0], &keys[1]));
    assert!(ec.same_class(&keys[0], &keys[1]));

    assert!(!ec.same_class(&keys[0], &keys[2]));
    assert!(ec.same_class(&keys[0], &keys[2]));
    assert!(ec.same_class(&keys[1], &keys[2]));

    assert!(!ec.same_class(&keys[3], &keys[2]));
    assert!(ec.same_class(&keys[3], &keys[2]));
    assert!(ec.same_class(&keys[3], &keys[1]));
    assert!(ec.same_class(&keys[3], &keys[0]));

    assert!(!ec.same_class(&keys[4], &keys[5]));
    assert!(ec.same_class(&keys[4], &keys[5]));
    assert!(!ec.same_class(&keys[1], &keys[4]));

    for a in &keys {
        for b in &keys {
            assert!(ec.same_class(a, b));
        }
    }
}

#[test]
fn precheck_interleave_small_and_deep() {
    let mut m = Maker(0);
    let (a, b) = (m.end_pair(), m.end_pair());
    assert!(precheck_interleave_equiv(&&a, &&b));
    let (c, d) = (m.end_pair(), m.leaf());
    assert!(!precheck_interleave_equiv(&&c, &&d));

    // Deeper than the precheck's limit: the interleave decides.
    let (x, y) = (m.list(1000), m.list(1000));
    assert_eq!(precheck(&&x, &&y, 400), Abort);
    assert!(precheck_interleave_equiv(&&x, &&y));
    let z = m.list(999);
    assert!(!precheck_interleave_equiv(&&x, &&z));
    assert!(interleave::<_, RandomNumberGenerator>(&&x, &&y, -1));
}
