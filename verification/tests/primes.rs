use hlsearch::generate_primes;

#[test]
fn small_limits_have_no_primes() {
    assert!(generate_primes(0).is_empty());
    assert!(generate_primes(1).is_empty());
    assert_eq!(generate_primes(2), vec![2]);
}

#[test]
fn lists_primes_in_increasing_order() {
    assert_eq!(
        generate_primes(50),
        vec![2, 3, 5, 7, 11, 13, 17, 19, 23, 29, 31, 37, 41, 43, 47]
    );
}

#[test]
fn prime_squares_are_not_listed() {
    let primes = generate_primes(169);
    for square in [4, 9, 25, 49, 121, 169] {
        assert!(!primes.contains(&square));
    }
    assert_eq!(primes.last(), Some(&167));
}

#[test]
fn default_limit_gives_every_search_level() {
    let primes = generate_primes(1579);
    assert_eq!(primes.len(), 249);
    assert_eq!(primes[248], 1579);
}
