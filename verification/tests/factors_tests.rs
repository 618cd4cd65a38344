use hall_of_mirrors::factors::{compute_factors, FactorCache};

#[test]
fn factors_of_twelve_descending() {
    assert_eq!(compute_factors(12), vec![12, 6, 4, 3, 2, 1]);
}

#[test]
fn factors_of_one() {
    assert_eq!(compute_factors(1), vec![1]);
}

#[test]
fn factors_of_zero_degenerate() {
    assert_eq!(compute_factors(0), vec![1]);
}

#[test]
fn factors_of_prime() {
    assert_eq!(compute_factors(7), vec![7, 1]);
}

#[test]
fn factors_of_square() {
    assert_eq!(compute_factors(49), vec![49, 7, 1]);
}

#[test]
fn factors_of_thirty_six() {
    assert_eq!(compute_factors(36), vec![36, 18, 12, 9, 6, 4, 3, 2, 1]);
}

#[test]
fn factors_contain_one_and_n() {
    for n in 1usize..200 {
        let f = compute_factors(n);
        assert_eq!(f[0], n);
        assert!(f.contains(&1));
        for w in f.windows(2) {
            assert!(w[0] > w[1], "not strictly descending for {}", n);
        }
        for d in &f {
            assert_eq!(n % d, 0, "{} does not divide {}", d, n);
        }
        for d in 1usize..=n {
            if n % d == 0 {
                assert!(f.contains(&d), "missing divisor {} of {}", d, n);
            }
        }
    }
}

#[test]
fn cache_answers_match_and_memoize() {
    let mut cache = FactorCache::new();
    let first = cache.get_factors(48);
    let second = cache.get_factors(48);
    assert_eq!(first, second);
    assert_eq!(first, compute_factors(48));
    assert_eq!(cache.get_factors(5), vec![5, 1]);
}
