use graph_safe_compare::basic::modes::{LimitReached, Limited};
use graph_safe_compare::basic::{self, LimitedArgs};
use graph_safe_compare::generic::equiv::Equiv;
use graph_safe_compare::tests_utils::node_types::boxed::Datum;
use graph_safe_compare::{cycle_safe, deep_safe, robust, wide_safe};
use ResultLimit::{Abort, False, True};

/// Makes data with distinct identities.
struct Maker(u64);

impl Maker {
    fn next_id(&mut self) -> u64 {
        self.0 += 1;
        self.0
    }

    fn leaf(&mut self) -> Datum {
        Datum::leaf(self.next_id())
    }

    fn pair(&mut self, a: Datum, b: Datum) -> Datum {
        Datum::pair(self.next_id(), a, b)
    }

    fn end_pair(&mut self) -> Datum {
        let (a, b) = (self.leaf(), self.leaf());
        self.pair(a, b)
    }
}

#[derive(PartialEq, Eq, Debug)]
enum ResultLimit {
    True(u32),
    False(u32),
    Abort(u32),
}

fn eqv(a: &Datum, b: &Datum, limit: u32) -> ResultLimit {
    let mut e = Equiv::<LimitedArgs<&Datum, u32>>::new(Limited(limit));
    match e.equiv(a, b) {
        Ok(true) => ResultLimit::True(e.descend_mode.0),
        Ok(false) => ResultLimit::False(e.descend_mode.0),
        Err(LimitReached) => ResultLimit::Abort(e.descend_mode.0),
    }
}

#[test]
fn limiting() {
    let mut m = Maker(0);

    assert_eq!(eqv(&m.leaf(), &m.leaf(), 42), True(41));
    assert_eq!(eqv(&m.leaf(), &m.leaf(), 1), True(0));
    assert_eq!(eqv(&m.leaf(), &m.leaf(), 0), Abort(0));
    assert_eq!(eqv(&m.leaf(), &m.end_pair(), 42), False(41));
    assert_eq!(eqv(&m.end_pair(), &m.leaf(), 42), False(41));
    assert_eq!(eqv(&m.end_pair(), &m.end_pair(), 7), True(4));
    let (x1, x2) = (m.leaf(), m.end_pair());
    let x = m.pair(x1, x2);
    let (y1, y2) = (m.leaf(), m.end_pair());
    let y = m.pair(y1, y2);
    assert_eq!(eqv(&x, &y, 7), True(2));
    assert_eq!(eqv(&m.end_pair(), &m.end_pair(), 0), Abort(0));
    assert_eq!(eqv(&m.end_pair(), &m.end_pair(), 2), Abort(0));
    assert_eq!(eqv(&x, &y, 1), Abort(0));
    let (z1, z2) = (m.leaf(), m.leaf());
    let z = m.pair(z1, z2);
    assert_eq!(eqv(&z, &x, 42), False(39));
    assert_eq!(
        {
            let (w1, w2) = (m.end_pair(), m.leaf());
            let w = m.pair(w1, w2);
            eqv(&w, &w, 1)
        },
        True(0)
    );
}

#[test]
fn all_variations_agree_on_trees() {
    let mut m = Maker(0);
    let (x1, x2) = (m.leaf(), m.end_pair());
    let x = m.pair(x1, x2);
    let (y1, y2) = (m.leaf(), m.end_pair());
    let y = m.pair(y1, y2);
    let (z1, z2) = (m.end_pair(), m.leaf());
    let z = m.pair(z1, z2);
    for (a, b, expected) in [(&x, &y, true), (&x, &z, false), (&z, &z, true)] {
        assert_eq!(basic::equiv(a, b), expected);
        assert_eq!(basic::limited_equiv(u32::MAX, a, b), Ok(expected));
        assert_eq!(cycle_safe::equiv(a, b), expected);
        assert_eq!(cycle_safe::precheck_equiv(a, b), expected);
        assert_eq!(deep_safe::equiv(a, b), expected);
        assert_eq!(deep_safe::limited_equiv(u64::MAX, a, b), Ok(expected));
        assert_eq!(wide_safe::equiv(a, b), expected);
        assert_eq!(wide_safe::limited_equiv(100usize, a, b), Ok(expected));
        assert_eq!(robust::equiv(a, b), expected);
        assert_eq!(robust::precheck_equiv(a, b), expected);
    }
}

#[test]
fn limited_abort_is_an_error() {
    let mut m = Maker(0);
    let (a, b) = (m.end_pair(), m.end_pair());
    assert_eq!(basic::limited_equiv(2u8, &a, &b), Err(LimitReached));
    assert_eq!(basic::limited_equiv(3u8, &a, &b), Ok(true));
}

#[test]
fn limit_law_for_every_recursion_mode() {
    let mut m = Maker(0);
    let (a, b) = (m.end_pair(), m.end_pair());
    // The unlimited traversal visits the root pair and the pairs of its two edges.
    for limit in 0..3u8 {
        assert_eq!(deep_safe::limited_equiv(limit, &a, &b), Err(LimitReached));
        assert_eq!(wide_safe::limited_equiv(limit, &a, &b), Err(LimitReached));
        assert_eq!(basic::limited_equiv(limit, &a, &b), Err(LimitReached));
    }
    for limit in 3..6u8 {
        assert_eq!(deep_safe::limited_equiv(limit, &a, &b), Ok(true));
        assert_eq!(wide_safe::limited_equiv(limit, &a, &b), Ok(true));
        assert_eq!(basic::limited_equiv(limit, &a, &b), Ok(true));
    }
}
