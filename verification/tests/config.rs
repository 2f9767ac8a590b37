use sparkx_primegen::common::Config;

#[test]
fn build_sets_the_range_end() {
    let config = Config::build(1000);
    assert_eq!(1000, config.prime_range_end);
}

#[test]
fn build_fills_in_the_defaults() {
    let config = Config::build(42);
    assert_eq!(config.prime_range_start, 2);
    assert_eq!(config.sieve_segment_size, 100);
    assert!(config.progress);
}

#[test]
fn build_accepts_the_extremes() {
    assert_eq!(Config::build(0).prime_range_end, 0);
    assert_eq!(Config::build(u64::MAX).prime_range_end, u64::MAX);
}
