use sparkx_primegen::common::Config;
use sparkx_primegen::generators::sieve_of_eratosthenes;

fn sieve(end: u64) -> Vec<u64> {
    sieve_of_eratosthenes(&Config::build(end))
}

fn is_prime_by_trial_division(n: u64) -> bool {
    n >= 2 && (2..n).take_while(|d| d * d <= n).all(|d| n % d != 0)
}

fn primes_below(end: u64) -> Vec<u64> {
    (0..end).filter(|n| is_prime_by_trial_division(*n)).collect()
}

fn floor_sqrt(n: u64) -> u64 {
    (0..=n).take_while(|r| r * r <= n).last().unwrap_or(0)
}

#[test]
fn empty_below_zero_and_one() {
    assert_eq!(sieve(0), Vec::<u64>::new());
    assert_eq!(sieve(1), Vec::<u64>::new());
}

#[test]
fn empty_below_two() {
    assert_eq!(sieve(2), Vec::<u64>::new());
}

#[test]
fn small_ranges() {
    assert_eq!(sieve(3), vec![2]);
    assert_eq!(sieve(4), vec![2, 3]);
    assert_eq!(sieve(9), vec![2, 3, 5, 7]);
}

#[test]
fn marking_stops_short_of_the_root_of_ten() {
    // The floor square root of 10 is 3, so only 2 marks and 9 stays.
    assert_eq!(sieve(10), vec![2, 3, 5, 7, 9]);
}

#[test]
fn marking_stops_short_of_the_root_of_thirty() {
    // The floor square root of 30 is 5, so 2, 3 and 4 have a turn and 25 stays.
    assert_eq!(sieve(30), vec![2, 3, 5, 7, 11, 13, 17, 19, 23, 25, 29]);
}

#[test]
fn exact_below_one_hundred() {
    assert_eq!(
        sieve(100),
        vec![
            2, 3, 5, 7, 11, 13, 17, 19, 23, 29, 31, 37, 41, 43, 47, 53, 59, 61, 67, 71, 73, 79,
            83, 89, 97
        ]
    );
}

#[test]
fn square_of_a_prime_root_is_kept_when_inside_the_range() {
    assert_eq!(sieve(5), vec![2, 3, 4]);
    assert!(sieve(1000).contains(&961));
    assert!(!sieve(961).contains(&961));
    assert_eq!(sieve(961), primes_below(961));
}

fn kept_below_root(n: u64, root: u64) -> bool {
    (2..root).take_while(|d| d * d <= n).all(|d| n % d != 0)
}

#[test]
fn keeps_what_no_number_below_the_root_strikes() {
    for end in 0..400u64 {
        let root = floor_sqrt(end);
        let expected: Vec<u64> = (2..end).filter(|n| kept_below_root(*n, root)).collect();
        assert_eq!(sieve(end), expected, "range end {}", end);
    }
}

#[test]
fn agrees_with_trial_division_wherever_exact() {
    for end in 0..400u64 {
        let root = floor_sqrt(end);
        let found = sieve(end);
        if is_prime_by_trial_division(root) && root * root < end {
            assert!(found.contains(&(root * root)), "range end {}", end);
            assert_ne!(found, primes_below(end), "range end {}", end);
        } else {
            assert_eq!(found, primes_below(end), "range end {}", end);
        }
    }
}

#[test]
fn counts_the_primes_below_a_million() {
    assert_eq!(sieve(1_000_000).len(), 78_498);
}

#[test]
fn result_is_strictly_ascending() {
    for end in [0u64, 2, 10, 30, 97, 1000, 5000] {
        let found = sieve(end);
        assert!(found.windows(2).all(|pair| pair[0] < pair[1]), "range end {}", end);
        assert!(found.iter().all(|n| 2 <= *n && *n < end), "range end {}", end);
    }
}

#[test]
fn two_runs_give_the_same_list() {
    for end in [0u64, 10, 1000, 12_345] {
        assert_eq!(sieve(end), sieve(end));
    }
}

#[test]
fn only_the_range_end_matters() {
    let mut config = Config::build(50);
    config.prime_range_start = 17;
    config.sieve_segment_size = 0;
    config.progress = false;
    assert_eq!(sieve_of_eratosthenes(&config), sieve(50));
}
