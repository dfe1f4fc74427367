use graph_safe_compare::tests_utils::node_types::ordered::{Datum, Kind};
use graph_safe_compare::{basic, cycle_safe, deep_safe, robust, Order};
use Order::{Equal, Greater, Less};

fn datum(kind: Kind) -> Datum {
    Datum { id: 0, kind }
}

fn da() -> Datum {
    datum(Kind::A)
}

fn db() -> Datum {
    datum(Kind::B)
}

fn dc(c: char) -> Datum {
    datum(Kind::C(c))
}

fn dd(l: Option<Box<Datum>>, r: Option<Box<Datum>>) -> Datum {
    datum(Kind::D(l, r))
}

fn de(v: Vec<Datum>) -> Datum {
    datum(Kind::E(v))
}

fn a() -> Box<Datum> {
    Box::new(da())
}

fn b() -> Box<Datum> {
    Box::new(db())
}

fn c(c: char) -> Box<Datum> {
    Box::new(dc(c))
}

fn d(l: Option<Box<Datum>>, r: Option<Box<Datum>>) -> Box<Datum> {
    Box::new(dd(l, r))
}

fn e(v: Vec<Datum>) -> Box<Datum> {
    Box::new(de(v))
}

/// Give every datum of the tree a distinct identity, from `next` on.
fn number(d: &mut Datum, next: &mut u64) {
    d.id = *next;
    *next += 1;
    match &mut d.kind {
        Kind::D(l, r) => {
            if let Some(x) = l {
                number(x, next);
            }
            if let Some(x) = r {
                number(x, next);
            }
        },
        Kind::E(v) => {
            for x in v.iter_mut() {
                number(x, next);
            }
        },
        _ => {},
    }
}

/// Every variation of the algorithm gives the same ordering.
fn check(a: &Datum, b: &Datum) -> Order {
    let r = basic::equiv(a, b);
    assert_eq!(robust::equiv(a, b), r);
    assert_eq!(robust::precheck_equiv(a, b), r);
    assert_eq!(cycle_safe::equiv(a, b), r);
    assert_eq!(cycle_safe::precheck_equiv(a, b), r);
    assert_eq!(deep_safe::equiv(a, b), r);
    assert_eq!(basic::limited_equiv(usize::MAX, a, b).unwrap(), r);
    r
}

fn case(mut a: Datum, mut b: Datum, r: Order) -> Order {
    let mut next = 1;
    number(&mut a, &mut next);
    number(&mut b, &mut next);
    assert_eq!(check(&a, &b), r);
    r
}

/// A description of the shape and values of a tree, regardless of identities.
fn shape(d: &Datum) -> String {
    match &d.kind {
        Kind::A => "A".to_string(),
        Kind::B => "B".to_string(),
        Kind::C(c) => format!("C({c})"),
        Kind::D(l, r) => format!(
            "D({}, {})",
            l.as_ref().map_or("-".to_string(), |x| shape(x)),
            r.as_ref().map_or("-".to_string(), |x| shape(x))
        ),
        Kind::E(v) => format!("E[{}]", v.iter().map(shape).collect::<Vec<_>>().join(", ")),
    }
}

fn sort_case(mut pre: Vec<Datum>, post: Vec<Datum>) {
    let mut next = 1;
    for x in pre.iter_mut() {
        number(x, &mut next);
    }
    pre.sort_by(|a, b| check(a, b).to_std());
    let got: Vec<String> = pre.iter().map(shape).collect();
    let want: Vec<String> = post.iter().map(shape).collect();
    assert_eq!(got, want);
}

#[test]
fn variants() {
    case(da(), da(), Equal);
    case(da(), db(), Less);
    case(da(), dc(' '), Less);
    case(da(), dd(None, None), Less);
    case(da(), de(vec![]), Less);
    case(db(), da(), Greater);
    case(db(), db(), Equal);
    case(db(), dc(' '), Less);
    case(db(), dd(None, None), Less);
    case(db(), de(vec![]), Less);
    case(dc(' '), da(), Greater);
    case(dc(' '), db(), Greater);
    case(dc(' '), dc(' '), Equal);
    case(dc(' '), dd(None, None), Less);
    case(dc(' '), de(vec![]), Less);
    case(dd(None, None), da(), Greater);
    case(dd(None, None), db(), Greater);
    case(dd(None, None), dc(' '), Greater);
    case(dd(None, None), dd(None, None), Equal);
    case(dd(None, None), de(vec![]), Equal);
    case(de(vec![]), da(), Greater);
    case(de(vec![]), db(), Greater);
    case(de(vec![]), dc(' '), Greater);
    case(de(vec![]), dd(None, None), Equal);
    case(de(vec![]), de(vec![]), Equal);
}

#[test]
fn directly_contained() {
    case(dc('x'), dc('y'), Less);
    case(dc('z'), dc('y'), Greater);

    case(dd(None, None), dd(None, Some(a())), Less);
    case(dd(None, None), dd(Some(a()), None), Less);
    case(dd(None, None), dd(Some(a()), Some(a())), Less);

    case(dd(None, Some(a())), dd(None, None), Greater);
    case(dd(None, Some(a())), dd(None, Some(a())), Equal);
    case(dd(None, Some(a())), dd(Some(a()), None), Less);
    case(dd(None, Some(a())), dd(Some(a()), Some(a())), Less);

    case(dd(Some(a()), None), dd(None, None), Greater);
    case(dd(Some(a()), None), dd(None, Some(a())), Greater);
    case(dd(Some(a()), None), dd(Some(a()), None), Equal);
    case(dd(Some(a()), None), dd(Some(a()), Some(a())), Less);

    case(dd(Some(a()), Some(a())), dd(None, None), Greater);
    case(dd(Some(a()), Some(a())), dd(None, Some(a())), Greater);
    case(dd(Some(a()), Some(a())), dd(Some(a()), None), Greater);
    case(dd(Some(a()), Some(a())), dd(Some(a()), Some(a())), Equal);
}

#[test]
fn amount_edges() {
    case(de(vec![]), de(vec![da()]), Less);
    case(de(vec![da()]), de(vec![da()]), Equal);
    case(de(vec![da()]), de(vec![]), Greater);

    case(de(vec![da()]), de(vec![da(), da()]), Less);
    case(de(vec![da(), da()]), de(vec![da(), da()]), Equal);
    case(de(vec![da(), da()]), de(vec![da()]), Greater);

    case(dd(None, None), de(vec![da()]), Less);
    case(dd(None, Some(a())), de(vec![da()]), Equal);
    case(dd(Some(a()), None), de(vec![da()]), Equal);
    case(dd(Some(a()), Some(a())), de(vec![da(), da()]), Equal);
    case(dd(None, Some(a())), de(vec![]), Greater);
    case(dd(Some(a()), None), de(vec![]), Greater);
    case(dd(Some(a()), Some(a())), de(vec![da(), da(), da()]), Less);

    case(de(vec![da()]), dd(None, None), Greater);
    case(de(vec![da()]), dd(None, Some(a())), Equal);
    case(de(vec![da()]), dd(Some(a()), None), Equal);
    case(de(vec![da(), da()]), dd(Some(a()), Some(a())), Equal);
    case(de(vec![]), dd(None, Some(a())), Less);
    case(de(vec![]), dd(Some(a()), None), Less);
    case(de(vec![da(), da(), da()]), dd(Some(a()), Some(a())), Greater);
}

#[test]
fn descendents() {
    case(dd(None, Some(a())), dd(None, Some(b())), Less);
    case(dd(None, Some(a())), dd(None, Some(c(' '))), Less);
    case(dd(None, Some(b())), dd(None, Some(a())), Greater);
    case(dd(None, Some(b())), dd(None, Some(c(' '))), Less);
    case(dd(None, Some(c('x'))), dd(None, Some(c('y'))), Less);
    case(dd(None, Some(c('z'))), dd(None, Some(c('y'))), Greater);

    case(dd(Some(b()), None), dd(Some(a()), None), Greater);
    case(dd(Some(c(' ')), None), dd(Some(a()), None), Greater);
    case(dd(Some(a()), None), dd(Some(b()), None), Less);
    case(dd(Some(c(' ')), None), dd(Some(b()), None), Greater);
    case(dd(Some(c('y')), None), dd(Some(c('x')), None), Greater);
    case(dd(Some(c('y')), None), dd(Some(c('z')), None), Less);

    case(dd(None, Some(d(Some(a()), Some(a())))), dd(None, Some(d(Some(a()), Some(a())))), Equal);
    case(dd(None, Some(d(Some(a()), Some(a())))), dd(None, Some(d(Some(a()), Some(b())))), Less);
    case(dd(None, Some(d(Some(b()), Some(a())))), dd(None, Some(d(Some(a()), Some(a())))), Greater);
    case(dd(None, Some(d(Some(b()), Some(b())))), dd(None, Some(d(Some(b()), Some(a())))), Greater);
    case(dd(None, Some(d(Some(a()), Some(b())))), dd(None, Some(d(Some(b()), Some(b())))), Less);
    case(dd(None, Some(d(Some(b()), Some(b())))), dd(None, Some(d(Some(b()), Some(b())))), Equal);

    case(dd(Some(d(Some(c('x')), None)), None), dd(Some(d(Some(c('x')), None)), None), Equal);
    case(dd(Some(d(Some(c('x')), None)), None), dd(Some(d(Some(c('x')), Some(d(None, None)))), None), Less);
    case(dd(Some(d(Some(c('y')), None)), None), dd(Some(d(Some(c('x')), Some(d(None, None)))), None), Less);
    case(dd(Some(d(Some(c('y')), Some(a()))), None), dd(Some(d(Some(c('x')), Some(d(None, None)))), None), Greater);
    case(dd(Some(d(Some(c('x')), Some(a()))), None), dd(Some(d(Some(c('x')), Some(d(None, None)))), None), Less);


    case(dd(None, Some(a())), de(vec![db()]), Less);
    case(de(vec![da()]), dd(None, Some(c(' '))), Less);
    case(dd(None, Some(b())), de(vec![da()]), Greater);
    case(de(vec![db()]), dd(None, Some(c(' '))), Less);
    case(dd(None, Some(c('x'))), de(vec![dc('y')]), Less);
    case(de(vec![dc('z')]), dd(None, Some(c('y'))), Greater);

    case(dd(Some(b()), None), de(vec![da()]), Greater);
    case(de(vec![dc(' ')]), dd(Some(a()), None), Greater);
    case(dd(Some(a()), None), de(vec![db()]), Less);
    case(de(vec![dc(' ')]), dd(Some(b()), None), Greater);
    case(dd(Some(c('y')), None), de(vec![dc('x')]), Greater);
    case(de(vec![dc('y')]), dd(Some(c('z')), None), Less);

    case(dd(None, Some(d(Some(a()), Some(a())))), de(vec![dd(Some(a()), Some(a()))]), Equal);
    case(de(vec![de(vec![da(), da()])]), dd(None, Some(d(Some(a()), Some(b())))), Less);
    case(dd(None, Some(e(vec![db(), da()]))), de(vec![dd(Some(a()), Some(a()))]), Greater);
    case(de(vec![de(vec![db(), db()])]), dd(None, Some(d(Some(b()), Some(a())))), Greater);
    case(dd(None, Some(d(Some(a()), Some(b())))), de(vec![dd(Some(b()), Some(b()))]), Less);
    case(de(vec![de(vec![db(), db()])]), dd(None, Some(e(vec![db(), db()]))), Equal);

    case(dd(Some(d(Some(c('x')), None)), None), de(vec![dd(Some(c('x')), None)]), Equal);
    case(de(vec![de(vec![dc('x')])]), dd(Some(d(Some(c('x')), Some(d(None, None)))), None), Less);
    case(dd(Some(d(Some(c('y')), None)), None), de(vec![dd(Some(c('x')), Some(d(None, None)))]), Less);
    case(de(vec![dd(Some(c('y')), Some(a()))]), dd(Some(e(vec![dc('x'), dd(None, None)])), None), Greater);
    case(dd(Some(d(Some(c('x')), Some(a()))), None), de(vec![dd(Some(c('x')), Some(d(None, None)))]), Less);
}


#[test]
fn sorting() {
    sort_case(vec![], vec![]);
    sort_case(vec![da()], vec![da()]);
    sort_case(vec![db()], vec![db()]);
    sort_case(vec![dc(' ')], vec![dc(' ')]);
    sort_case(vec![dd(None, None)], vec![dd(None, None)]);
    sort_case(vec![de(vec![])], vec![de(vec![])]);

    sort_case(vec![dc('x'), dc('y')], vec![dc('x'), dc('y')]);
    sort_case(vec![dc('y'), dc('x')], vec![dc('x'), dc('y')]);
    sort_case(vec![dd(None, Some(b())), dd(Some(a()), None)], vec![dd(None, Some(b())), dd(Some(a()), None)]);
    sort_case(vec![dd(Some(a()), None), dd(None, Some(b()))], vec![dd(None, Some(b())), dd(Some(a()), None)]);
    sort_case(vec![de(vec![da()]), de(vec![db()])], vec![de(vec![da()]), de(vec![db()])]);
    sort_case(vec![de(vec![db()]), de(vec![da()])], vec![de(vec![da()]), de(vec![db()])]);
    sort_case(vec![de(vec![db(), db()]), de(vec![da(), da(), da()])], vec![de(vec![db(), db()]), de(vec![da(), da(), da()])]);
    sort_case(vec![de(vec![da(), da(), da()]), de(vec![db(), db()])], vec![de(vec![db(), db()]), de(vec![da(), da(), da()])]);

    sort_case(vec![de(vec![dc('z'), da()]), db(), da(), dd(Some(c('z')), Some(a())), dc('y'), dc('x'), da(), db()], vec![da(), da(), db(), db(), dc('x'), dc('y'), de(vec![dc('z'), da()]), dd(Some(c('z')), Some(a()))]);
    sort_case(vec![dd(None, Some(e(vec![de(vec![dc('λ'), db(), da()]), dd(Some(a()), None)]))),
        de(vec![dd(Some(d(Some(c('λ')), Some(b()))), Some(e(vec![da()])))]),
        dd(None, Some(e(vec![de(vec![dc('λ'), db()]), dd(Some(a()), None)]))),
        de(vec![dd(Some(d(Some(c('λ')), Some(b()))), Some(e(vec![da()])))])], vec![de(vec![dd(Some(d(Some(c('λ')), Some(b()))), Some(e(vec![da()])))]),
        dd(None, Some(e(vec![de(vec![dc('λ'), db()]), dd(Some(a()), None)]))),
        de(vec![dd(Some(d(Some(c('λ')), Some(b()))), Some(e(vec![da()])))]),
        dd(None, Some(e(vec![de(vec![dc('λ'), db(), da()]), dd(Some(a()), None)])))]);
}

fn reversed(o: Order) -> Order {
    match o {
        Less => Greater,
        Equal => Equal,
        Greater => Less,
    }
}

#[test]
fn ordering_is_antisymmetric_and_transitive() {
    // Kind `D` is left out: its data compare equal to those of kind `E` ignoring their edges,
    // but not to each other, and so its comparison is not transitive.
    let mut xs = vec![
        da(),
        db(),
        dc('x'),
        dc('y'),
        de(vec![]),
        de(vec![da()]),
        de(vec![db()]),
        de(vec![dc('x'), da()]),
        de(vec![db(), db()]),
        de(vec![de(vec![da()]), da()]),
        de(vec![da(), da(), da()]),
        da(),
    ];
    let mut next = 1;
    for x in xs.iter_mut() {
        number(x, &mut next);
    }
    for x in &xs {
        for y in &xs {
            let r = basic::equiv(x, y);
            assert_eq!(basic::equiv(y, x), reversed(r));
            for z in &xs {
                let s = basic::equiv(y, z);
                if r != Greater && s != Greater {
                    let want = if r == Equal && s == Equal { Equal } else { Less };
                    assert_eq!(basic::equiv(x, z), want);
                }
            }
        }
    }
}
