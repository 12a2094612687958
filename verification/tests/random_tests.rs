use memtable::random::Random;

#[test]
fn next_exact_test() {
    // seed * 16807 mod (2^31 - 1), one step from seed 1.
    let mut rnd = Random::new(1);
    assert_eq!(rnd.next(), 16807);
    assert_eq!(rnd.next(), 282475249);
}

#[test]
fn uniform_exact_test() {
    let mut rnd = Random::new(1);
    assert_eq!(rnd.uniform(10), 16807 % 10);
    let mut rnd2 = Random::new(1);
    for _ in 0..100 {
        assert!(rnd2.uniform(7) < 7);
    }
}

#[test]
fn one_in_exact_test() {
    let mut rnd = Random::new(1);
    // The first draw is exactly 16807.
    assert!(rnd.one_in(16807));
    let mut rnd2 = Random::new(1);
    assert!(!rnd2.one_in(2));
}

#[test]
fn skewed_exact_test() {
    // From seed 1: exponent draw 16807 % 6 == 1, then 282475249 % 2 == 1.
    let mut rnd = Random::new(1);
    assert_eq!(rnd.skewed(5), 1);
    let mut rnd2 = Random::new(301);
    for _ in 0..100 {
        assert!(rnd2.skewed(4) < 16);
    }
}

#[test]
fn reproducibility_test() {
    // Same seed, same mixed call sequence, same outputs and same state after.
    let mut a = Random::new(301);
    let mut b = Random::new(301);
    for i in 0..200 {
        assert_eq!(a.next(), b.next());
        assert_eq!(a.uniform(97), b.uniform(97));
        assert_eq!(a.one_in(3 + i), b.one_in(3 + i));
        assert_eq!(a.skewed(7), b.skewed(7));
    }
}
