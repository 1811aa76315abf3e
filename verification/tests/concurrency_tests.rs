use prime_sieve::codec::count_primes_middleware;
use prime_sieve::sieve::count_primes;
use prime_sieve::sieve::sieve;
use rayon::iter::IntoParallelRefIterator;
use rayon::iter::ParallelIterator;

#[test]
fn simultaneous_counts_stay_correct() {
    let bounds: Vec<usize> = (0..120).map(|k| k * 17).collect();
    let expected: Vec<usize> = bounds.iter().map(|&b| count_primes(b)).collect();
    let parallel: Vec<usize> = bounds.par_iter().map(|&b| count_primes(b)).collect();
    assert_eq!(expected, parallel);
}

#[test]
fn simultaneous_enumerations_stay_correct() {
    let bounds: Vec<usize> = (0..40).map(|k| k * 231).collect();
    let expected: Vec<Vec<usize>> = bounds.iter().map(|&b| sieve(b)).collect();
    let parallel: Vec<Vec<usize>> = bounds.par_iter().map(|&b| sieve(b)).collect();
    assert_eq!(expected, parallel);
}

#[test]
fn simultaneous_structured_calls_stay_correct() {
    let bodies: Vec<Vec<u8>> = (0..60)
        .map(|k| format!("{{\"max\":{}}}", k * 50).into_bytes())
        .collect();
    let expected: Vec<Vec<u8>> = bodies.iter().map(|b| count_primes_middleware(b).unwrap()).collect();
    let parallel: Vec<Vec<u8>> = bodies
        .par_iter()
        .map(|b| count_primes_middleware(b).unwrap())
        .collect();
    assert_eq!(expected, parallel);
}
