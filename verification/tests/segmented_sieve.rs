use sparkx_primegen::common::Config;
use sparkx_primegen::generators::{
    sieve_of_eratosthenes, sieve_of_eratosthenes_segmented, sieve_segment,
};

fn segmented(end: u64, size: u64) -> Vec<u64> {
    let mut config = Config::build(end);
    config.sieve_segment_size = size;
    config.progress = false;
    sieve_of_eratosthenes_segmented(&config)
}

fn trial_division_says_prime(n: u64) -> bool {
    n >= 2 && (2..n).take_while(|d| d * d <= n).all(|d| n % d != 0)
}

fn trial_division_primes_below(end: u64) -> Vec<u64> {
    (0..end).filter(|n| trial_division_says_prime(*n)).collect()
}

#[test]
fn thousand_in_segments_of_hundred() {
    let found = segmented(1000, 100);
    assert_eq!(found.len(), 168);
    assert_eq!(found, trial_division_primes_below(1000));
}

#[test]
fn thousand_segmented_against_the_in_memory_sieve() {
    // The in-memory sieve over [0, 1000) stops marking short of 31 and so
    // keeps 961; apart from that the two agree.
    let mut in_memory = sieve_of_eratosthenes(&Config::build(1000));
    assert!(in_memory.contains(&961));
    in_memory.retain(|n| *n != 961);
    assert_eq!(segmented(1000, 100), in_memory);
}

#[test]
fn segmented_agrees_with_the_in_memory_sieve_where_that_is_exact() {
    assert_eq!(segmented(100, 10), sieve_of_eratosthenes(&Config::build(100)));
    assert_eq!(segmented(900, 100), sieve_of_eratosthenes(&Config::build(900)));
    assert_eq!(segmented(10_000, 100), sieve_of_eratosthenes(&Config::build(10_000)));
}

#[test]
fn tail_after_the_last_whole_segment_is_left_out() {
    let found = segmented(950, 100);
    assert_eq!(found, trial_division_primes_below(900));
    for prime in [907u64, 911, 919, 929, 937, 941, 947] {
        assert!(!found.contains(&prime));
    }
    assert_eq!(found.last(), Some(&887));
}

#[test]
fn default_segment_size_is_used_as_built() {
    let mut config = Config::build(250);
    config.progress = false;
    assert_eq!(sieve_of_eratosthenes_segmented(&config), trial_division_primes_below(200));
}

#[test]
fn range_shorter_than_a_segment_yields_nothing() {
    assert_eq!(segmented(99, 100), Vec::<u64>::new());
    assert_eq!(segmented(0, 5), Vec::<u64>::new());
}

#[test]
fn every_segment_size_from_two_on_gives_the_primes() {
    for size in 2..40u64 {
        for end in [0u64, 1, 2, 3, 10, 97, 100, 200] {
            let covered = (end / size) * size;
            assert_eq!(
                segmented(end, size),
                trial_division_primes_below(covered),
                "range end {}, segments of {}",
                end,
                size
            );
        }
    }
}

#[test]
fn segments_of_one_gather_only_the_number_one() {
    assert_eq!(segmented(0, 1), Vec::<u64>::new());
    assert_eq!(segmented(1, 1), Vec::<u64>::new());
    assert_eq!(segmented(2, 1), vec![1]);
    assert_eq!(segmented(50, 1), vec![1]);
}

#[test]
fn segmented_result_is_strictly_ascending() {
    for (end, size) in [(1000u64, 100u64), (950, 100), (500, 7), (64, 2), (10, 1)] {
        let found = segmented(end, size);
        assert!(found.windows(2).all(|pair| pair[0] < pair[1]), "{} in {}", end, size);
    }
}

#[test]
fn two_segmented_runs_give_the_same_list() {
    assert_eq!(segmented(1000, 100), segmented(1000, 100));
    assert_eq!(segmented(777, 13), segmented(777, 13));
}

#[test]
fn progress_setting_does_not_change_the_result() {
    let mut quiet = Config::build(300);
    quiet.progress = false;
    let loud = Config::build(300);
    assert_eq!(sieve_of_eratosthenes_segmented(&quiet), sieve_of_eratosthenes_segmented(&loud));
}

#[test]
fn first_segment_is_a_sieve_of_its_own() {
    let mut primes = Vec::new();
    sieve_segment(&mut primes, 0, 30);
    assert_eq!(primes, vec![2, 3, 5, 7, 11, 13, 17, 19, 23, 29]);
}

#[test]
fn later_segment_divides_by_the_primes_gathered() {
    let mut primes = vec![2, 3, 5, 7];
    sieve_segment(&mut primes, 10, 10);
    assert_eq!(primes, vec![2, 3, 5, 7, 11, 13, 17, 19]);
}

#[test]
fn trial_division_stops_at_the_first_square_beyond() {
    // The square of 4 is beyond 10 to 15, so those stay flagged, while 16, 20
    // and 24 are divided by it. 5 comes after 7, whose square ends the search
    // for every number here, so 25 stays too.
    let mut primes = vec![4, 7, 5];
    sieve_segment(&mut primes, 10, 16);
    assert_eq!(
        primes,
        vec![4, 7, 5, 10, 11, 12, 13, 14, 15, 17, 18, 19, 21, 22, 23, 25]
    );
}

#[test]
fn segment_marks_within_itself_from_the_square() {
    // Nothing gathered yet: 2 and 3 strike their multiples from 4 and 9 on.
    let mut primes = Vec::new();
    sieve_segment(&mut primes, 2, 10);
    assert_eq!(primes, vec![2, 3, 5, 7, 11]);
}

#[test]
fn empty_segment_gathers_nothing() {
    let mut primes = vec![2, 3];
    sieve_segment(&mut primes, 4, 0);
    assert_eq!(primes, vec![2, 3]);
}

#[test]
fn segment_at_the_top_of_the_range() {
    let mut primes = vec![2];
    sieve_segment(&mut primes, u64::MAX - 3, 4);
    // Of 2^64 - 4 .. 2^64 - 1 the odd ones pass division by 2.
    assert_eq!(primes, vec![2, u64::MAX - 2, u64::MAX]);
}
