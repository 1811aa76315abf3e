use prime_sieve::sieve::ceil_sqrt;
use prime_sieve::sieve::clear_stride;
use prime_sieve::sieve::count_primes;
use prime_sieve::sieve::sieve;
use prime_sieve::sieve::sieve_chunked;
use prime_sieve::sieve::sieve_serial;
use prime_sieve::sieve::update_chunk;

#[test]
fn counts_match_reference() {
    let cases: [(usize, usize); 9] = [
        (0, 0),
        (1, 0),
        (2, 0),
        (3, 0),
        (10, 3),
        (30, 9),
        (100, 24),
        (1000, 167),
        (100000, 9591),
    ];
    for (bound, expected) in cases {
        assert_eq!(count_primes(bound), expected, "bound {}", bound);
    }
}

#[test]
fn enumeration_below_thirty() {
    assert_eq!(sieve(30), vec![3, 5, 7, 11, 13, 17, 19, 23, 29]);
}

#[test]
fn sequence_is_ascending() {
    let primes = sieve(10000);
    for k in 1..primes.len() {
        assert!(primes[k - 1] < primes[k]);
    }
}

#[test]
fn repeated_calls_are_identical() {
    let first = sieve(5000);
    let second = sieve(5000);
    assert_eq!(first, second);
    assert_eq!(count_primes(5000), count_primes(5000));
}

#[test]
fn chunk_size_never_changes_the_result() {
    for bound in [0usize, 1, 2, 3, 10, 30, 100, 1000, 10000] {
        let reference = sieve(bound);
        assert_eq!(sieve_chunked(bound, 1), reference, "bound {}", bound);
        assert_eq!(sieve_chunked(bound, 7), reference, "bound {}", bound);
        assert_eq!(sieve_chunked(bound, 100000), reference, "bound {}", bound);
    }
}

#[test]
fn boundary_bounds_yield_empty() {
    assert_eq!(sieve(0), Vec::<usize>::new());
    assert_eq!(sieve(1), Vec::<usize>::new());
    assert_eq!(count_primes(0), 0);
    assert_eq!(count_primes(1), 0);
}

#[test]
fn small_bounds_are_exclusive() {
    assert_eq!(count_primes(2), 0);
    assert_eq!(count_primes(3), 0);
    assert_eq!(sieve(3), Vec::<usize>::new());
    assert_eq!(count_primes(4), 1);
    assert_eq!(sieve(4), vec![3]);
}

#[test]
fn two_is_never_enumerated() {
    assert!(!sieve(10).contains(&2));
    assert!(!sieve(100).contains(&2));
}

#[test]
fn ceil_sqrt_values() {
    assert_eq!(ceil_sqrt(0), 0);
    assert_eq!(ceil_sqrt(1), 1);
    assert_eq!(ceil_sqrt(2), 2);
    assert_eq!(ceil_sqrt(4), 2);
    assert_eq!(ceil_sqrt(5), 3);
    assert_eq!(ceil_sqrt(100), 10);
    assert_eq!(ceil_sqrt(101), 11);
}

#[test]
fn serial_low_sieve_below_ten() {
    // indexes stand for 1, 3, 5, 7, 9
    assert_eq!(sieve_serial(10), vec![false, true, true, true, false]);
    assert_eq!(sieve_serial(0), Vec::<bool>::new());
    assert_eq!(sieve_serial(1), Vec::<bool>::new());
}

#[test]
fn chunk_update_clears_composites() {
    let low = sieve_serial(6);
    assert_eq!(low, vec![false, true, true]);
    // chunk indexes stand for 7, 9, 11
    let mut chunk = vec![true, true, true];
    update_chunk(&low, &mut chunk, 7);
    assert_eq!(chunk, vec![true, false, true]);
}

#[test]
fn stride_clearing_pattern() {
    let mut field = vec![true; 6];
    clear_stride(&mut field, 1, 2);
    assert_eq!(field, vec![true, false, true, false, true, false]);
}
