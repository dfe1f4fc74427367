use graph_safe_compare::cycle_safe::modes::interleave::{
    default_limits, limits_from_precheck, Params, FAST_LIMIT_MAX, PRECHECK_LIMIT, SLOW_LIMIT,
};
use graph_safe_compare::cycle_safe::CycleArgs;
use graph_safe_compare::robust::RobustArgs;
use graph_safe_compare::tests_utils::node_types::unit::My;

#[test]
fn default_limits_are_the_papers() {
    let l = default_limits();
    assert_eq!((l.precheck, l.fast_max, l.slow), (400, 800, 40));
    assert_eq!((PRECHECK_LIMIT, FAST_LIMIT_MAX, SLOW_LIMIT), (400, 800, 40));
}

#[test]
fn limits_derive_from_the_precheck_limit() {
    let l = limits_from_precheck(100);
    assert_eq!((l.precheck, l.fast_max, l.slow), (100, 200, 10));
    let l = limits_from_precheck(PRECHECK_LIMIT);
    assert_eq!((l.precheck, l.fast_max, l.slow), (PRECHECK_LIMIT, FAST_LIMIT_MAX, SLOW_LIMIT));
    let l = limits_from_precheck(32767);
    assert_eq!((l.precheck, l.fast_max, l.slow), (32767, 65534, 3276));
    let l = limits_from_precheck(0);
    assert_eq!((l.precheck, l.fast_max, l.slow), (0, 0, 0));
}

#[test]
fn premade_parameters_use_the_papers_limits() {
    let c = <CycleArgs<My> as Params>::limits();
    assert_eq!((c.precheck, c.fast_max, c.slow), (400, 800, 40));
    let r = <RobustArgs<My> as Params>::limits();
    assert_eq!((r.precheck, r.fast_max, r.slow), (400, 800, 40));
}
