use graph_safe_compare::cycle_safe::modes::interleave::random::wyrng::RandomNumberGenerator;
use graph_safe_compare::cycle_safe::modes::interleave::random::NumberGenerator;

/// One step of the generator, by the formula that its contract states.
fn step(seed: &mut u64) -> u64 {
    *seed = seed.wrapping_add(0xa076_1d64_78bd_642f);
    let r = u128::from(*seed ^ 0xe703_7ed1_a0b4_28db) * u128::from(*seed);
    ((r >> 64) ^ r) as u64
}

#[test]
fn rand_upto_follows_wyrng() {
    let mut r = RandomNumberGenerator::default_state();
    let mut seed = 0u64;
    let mut formula_seed = 0u64;
    for _ in 0..20 {
        let from_crate = (wyhash::wyrng(&mut seed) as u16) % 801;
        let from_formula = (step(&mut formula_seed) as u16) % 801;
        assert_eq!(from_crate, from_formula);
        assert_eq!(r.rand_upto(801), from_crate);
        assert_eq!(r.0, seed);
    }
    assert_ne!(r.0, 0);
}

#[test]
fn rand_upto_stays_below_the_end() {
    let mut r = RandomNumberGenerator(12345);
    for end in 1..200u16 {
        assert!(r.rand_upto(end) < end);
    }
    assert_eq!(r.rand_upto(1), 0);
}
