use graph_safe_compare::generic::equiv_classes::premade::hash_map::Table;
use graph_safe_compare::generic::equiv_classes::EquivClasses;

type Ec = EquivClasses<Table>;

#[test]
fn equiv_classes_eq_rep() {
    let mut ec = Ec::new();
    {
        let r = ec.rep_with_weight(0);
        assert!(ec.eq_rep(r, r));
    }
    {
        let r1 = ec.rep_with_weight(2);
        let r2 = r1;
        assert!(ec.eq_rep(r1, r2));
    }
    {
        let r1 = ec.rep_with_weight(3);
        let r2 = ec.rep_with_weight(3);
        assert!(!ec.eq_rep(r1, r2));
    }
}

#[test]
fn equiv_classes_get_rep() {
    let mut ec = Ec::new();

    let rep1 = ec.class_new();
    let link1 = ec.link_new(rep1);
    let link2 = ec.link_new(rep1);
    let link3 = ec.link_new(link1);
    let link4 = ec.link_new(link2);
    let link5 = ec.link_new(link4);
    let link6 = ec.link_new(link5);

    for link in [link1, link2, link3, link4, link5, link6] {
        let rep = ec.get_rep(link);
        assert!(ec.eq_rep(rep, rep1));
    }

    let rep2 = ec.class_new();
    let link7 = ec.link_new(rep2);
    let rep = ec.get_rep(link7);
    assert!(!ec.eq_rep(rep, rep1));
}

#[test]
fn equiv_classes_same_class() {
    let mut ec = Ec::new();
    let keys: Vec<u64> = ['a', 'b', 'c', 'd', 'e', 'f', 'g'].iter().map(|c| *c as u64).collect();

    assert!(!ec.same_class(&keys[0], &keys[1]));
    assert!(ec.same_class(&keys[0], &keys[1]));

    assert!(!ec.same_class(&keys[0], &keys[2]));
    assert!(ec.same_class(&keys[0], &keys[2]));
    assert!(ec.same_class(&keys[1], &keys[2]));

    assert!(!ec.same_class(&keys[3], &keys[2]));
    assert!(ec.same_class(&keys[3], &keys[2]));
    assert!(ec.same_class(&keys[3], &keys[1]));
    assert!(ec.same_class(&keys[3], &keys[0]));

    assert!(!ec.same_class(&keys[4], &keys[5]));
    assert!(ec.same_class(&keys[4], &keys[5]));

    assert!(!ec.same_class(&keys[5], &keys[6]));
    assert!(ec.same_class(&keys[5], &keys[6]));
    assert!(ec.same_class(&keys[4], &keys[6]));

    assert!(!ec.same_class(&keys[1], &keys[4]));
    assert!(ec.same_class(&keys[1], &keys[4]));
    assert!(ec.same_class(&keys[1], &keys[5]));
    assert!(ec.same_class(&keys[1], &keys[6]));

    for a in &keys {
        for b in &keys {
            assert!(ec.same_class(a, b));
        }
    }
}

#[test]
fn same_key_is_same_class_after_first_sight() {
    let mut ec = Ec::new();
    assert!(!ec.same_class(&7, &7));
    assert!(ec.same_class(&7, &7));
}

#[test]
fn path_compression_keeps_representatives() {
    let mut ec = Ec::new();
    let rep = ec.rep_with_weight(5);
    let mut last = rep;
    for _ in 0..100 {
        last = ec.link_new(last);
    }
    assert_eq!(ec.get_rep_and_weight(last), (rep, 5));
    assert_eq!(ec.get_rep_and_weight(last), (rep, 5));
    assert_eq!(ec.get_rep(last), rep);
}

#[test]
fn same_class_follows_the_equivalence_closure_of_the_calls() {
    let mut ec = Ec::new();
    assert!(!ec.same_class(&1, &2));
    assert!(!ec.same_class(&3, &4));
    assert!(!ec.same_class(&2, &3));
    // 1 ~ 2 ~ 3 ~ 4 by the calls so far.
    assert!(ec.same_class(&1, &4));
    assert!(ec.same_class(&4, &1));
    assert!(!ec.same_class(&5, &6));
    assert!(!ec.same_class(&1, &6));
    assert!(ec.same_class(&2, &5));
    // An ID seen for the first time is not yet in a class, even with itself.
    assert!(!ec.same_class(&7, &7));
    assert!(ec.same_class(&7, &7));
    assert!(!ec.same_class(&7, &8));
    assert!(!ec.same_class(&9, &4));
    assert!(!ec.same_class(&9, &8));
    // The last call joined the class of 7 and 8 with that of 1 to 6 and 9.
    assert!(ec.same_class(&7, &1));
    assert!(ec.same_class(&6, &8));
}
