use sparkx_primegen::generators::sieve_to_primes;

#[test]
fn skips_zero_and_one_without_offset() {
    let sieve = vec![true, true, true, true, false, true];
    let mut primes = Vec::new();
    sieve_to_primes(&sieve, &mut primes, 0);
    assert_eq!(primes, vec![2, 3, 5]);
}

#[test]
fn skips_nothing_with_an_offset() {
    let sieve = vec![true, true, false, true];
    let mut primes = Vec::new();
    sieve_to_primes(&sieve, &mut primes, 10);
    assert_eq!(primes, vec![10, 11, 13]);
}

#[test]
fn offset_one_yields_one() {
    let sieve = vec![true];
    let mut primes = Vec::new();
    sieve_to_primes(&sieve, &mut primes, 1);
    assert_eq!(primes, vec![1]);
}

#[test]
fn appends_after_what_is_there() {
    let sieve = vec![false, true, false, true];
    let mut primes = vec![2, 3, 5, 7];
    sieve_to_primes(&sieve, &mut primes, 10);
    assert_eq!(primes, vec![2, 3, 5, 7, 11, 13]);
}

#[test]
fn short_buffers_without_offset_yield_nothing() {
    for len in 0..3 {
        let sieve = vec![true; len];
        let mut primes = vec![99];
        sieve_to_primes(&sieve, &mut primes, 0);
        assert_eq!(primes, vec![99]);
    }
}

#[test]
fn all_cleared_yields_nothing() {
    let sieve = vec![false; 8];
    let mut primes = Vec::new();
    sieve_to_primes(&sieve, &mut primes, 0);
    assert!(primes.is_empty());
    sieve_to_primes(&sieve, &mut primes, 5);
    assert!(primes.is_empty());
}

#[test]
fn reaches_the_top_of_the_range() {
    let sieve = vec![false, true, true];
    let mut primes = Vec::new();
    sieve_to_primes(&sieve, &mut primes, u64::MAX - 2);
    assert_eq!(primes, vec![u64::MAX - 1, u64::MAX]);
}
