use days_left::factorize;

#[test]
fn zero_factors_as_zero() {
    assert_eq!(factorize(0), vec![0]);
}

#[test]
fn one_factors_as_one() {
    assert_eq!(factorize(1), vec![1]);
    assert_eq!(factorize(-1), vec![1]);
}

#[test]
fn sign_is_discarded() {
    for n in [2i64, 3, 12, 13, 100, 360, 997] {
        assert_eq!(factorize(n), factorize(-n));
    }
}

#[test]
fn primes_get_a_leading_one() {
    assert_eq!(factorize(2), vec![1, 2]);
    assert_eq!(factorize(7), vec![1, 7]);
    assert_eq!(factorize(13), vec![1, 13]);
    assert_eq!(factorize(997), vec![1, 997]);
}

#[test]
fn composites_keep_the_bare_list() {
    assert_eq!(factorize(4), vec![2, 2]);
    assert_eq!(factorize(12), vec![2, 2, 3]);
    assert_eq!(factorize(100), vec![2, 2, 5, 5]);
    assert_eq!(factorize(360), vec![2, 2, 2, 3, 3, 5]);
}

#[test]
fn composite_list_is_sorted_with_product_restored() {
    for n in [4i64, 12, 100, 360, 1024, 9999] {
        let factors = factorize(n);
        assert!(factors.len() >= 2);
        assert!(factors.windows(2).all(|w| w[0] <= w[1]));
        assert_eq!(factors.iter().product::<i64>(), n);
    }
}

#[test]
fn repeated_runs_agree() {
    for n in [-100i64, 0, 1, 13, 100, 1_000_000] {
        assert_eq!(factorize(n), factorize(n));
    }
}

#[test]
fn large_prime_square() {
    assert_eq!(factorize(997 * 997), vec![997, 997]);
}
