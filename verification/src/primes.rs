//! Primality over the integers, and the sequence of odd primes that a
//! finished sieve field denotes.

use vstd::prelude::*;
use vstd::arithmetic::div_mod::lemma_fundamental_div_mod;
use vstd::arithmetic::div_mod::lemma_mod_multiples_basic;

verus! {

/// `d` divides `n` over the integers.
pub open spec fn divides(d: int, n: int) -> bool {
    exists|k: int| #[trigger] (d * k) == n
}

/// `n` is prime: at least 2, with no divisor strictly between 1 and `n`.
pub open spec fn is_prime(n: int) -> bool {
    2 <= n && forall|d: int| 2 <= d < n ==> !(#[trigger] divides(d, n))
}

pub proof fn lemma_divides_transitive(a: int, b: int, c: int)
    requires
        divides(a, b),
        divides(b, c),
    ensures
        divides(a, c),
{
    let k1 = choose|k: int| #[trigger] (a * k) == b;
    let k2 = choose|k: int| #[trigger] (b * k) == c;
    assert(a * (k1 * k2) == c) by (nonlinear_arith)
        requires
            a * k1 == b,
            b * k2 == c,
    ;
}

/// Every integer of at least 2 has a prime divisor.
pub proof fn lemma_prime_factor(n: int) -> (p: int)
    requires
        2 <= n,
    ensures
        is_prime(p),
        divides(p, n),
        2 <= p <= n,
    decreases n,
{
    if is_prime(n) {
        assert(n * 1 == n);
        n
    } else {
        let d = choose|d: int| 2 <= d < n && divides(d, n);
        let p = lemma_prime_factor(d);
        lemma_divides_transitive(p, d, n);
        p
    }
}

/// A composite number has a prime divisor no larger than its square root.
pub proof fn lemma_small_prime_factor(n: int) -> (p: int)
    requires
        2 <= n,
        !is_prime(n),
    ensures
        is_prime(p),
        divides(p, n),
        p * p <= n,
        2 <= p < n,
{
    let d = choose|d: int| 2 <= d < n && divides(d, n);
    let k = choose|k: int| #[trigger] (d * k) == n;
    assert(2 <= k) by (nonlinear_arith)
        requires
            d * k == n,
            2 <= d,
            d < n,
            2 <= n,
    ;
    let m = if d <= k { d } else { k };
    assert(m * m <= n) by (nonlinear_arith)
        requires
            d * k == n,
            2 <= d,
            2 <= k,
            2 <= m,
            m <= d,
            m <= k,
    ;
    if d <= k {
        assert(m * k == n);
    } else {
        assert(m * d == n) by (nonlinear_arith)
            requires
                d * k == n,
                m == k,
        ;
    }
    assert(divides(m, n));
    assert(2 * m <= m * m) by (nonlinear_arith)
        requires
            2 <= m,
    ;
    let p = lemma_prime_factor(m);
    lemma_divides_transitive(p, m, n);
    assert(p * p <= m * m) by (nonlinear_arith)
        requires
            2 <= p,
            p <= m,
    ;
    p
}

/// A positive divisor of an odd number is odd.
pub proof fn lemma_divisor_of_odd_is_odd(d: int, n: int)
    requires
        divides(d, n),
        n % 2 == 1,
        1 <= d,
    ensures
        d % 2 == 1,
{
    if d % 2 != 1 {
        let k = choose|k: int| #[trigger] (d * k) == n;
        lemma_fundamental_div_mod(d, 2);
        let c = d / 2;
        assert(n == (c * k) * 2) by (nonlinear_arith)
            requires
                d * k == n,
                d == 2 * c,
        ;
        lemma_mod_multiples_basic(c * k, 2);
    }
}

/// An odd number of at least 3 is prime exactly when no odd prime whose
/// square is within it divides it.
pub proof fn lemma_odd_prime_criterion(n: int)
    requires
        n % 2 == 1,
        3 <= n,
    ensures
        is_prime(n) <==> !(exists|p: int|
            is_prime(p) && #[trigger] (p * p) <= n && divides(p, n)),
{
    if is_prime(n) {
        if exists|p: int| is_prime(p) && #[trigger] (p * p) <= n && divides(p, n) {
            let p = choose|p: int| is_prime(p) && #[trigger] (p * p) <= n && divides(p, n);
            assert(2 * p <= p * p) by (nonlinear_arith)
                requires
                    2 <= p,
            ;
            assert(2 <= p < n);
            assert(!divides(p, n));
        }
    } else {
        let p = lemma_small_prime_factor(n);
        assert(is_prime(p) && p * p <= n && divides(p, n));
    }
}

/// The small prime factor of an odd composite is itself odd.
pub proof fn lemma_odd_composite_witness(n: int) -> (p: int)
    requires
        n % 2 == 1,
        3 <= n,
        !is_prime(n),
    ensures
        is_prime(p),
        p % 2 == 1,
        p * p <= n,
        divides(p, n),
        3 <= p,
{
    let p = lemma_small_prime_factor(n);
    lemma_divisor_of_odd_is_odd(p, n);
    p
}

/// The odd primes represented by the field indexes `0 .. l`, ascending:
/// the value `2*i + 1` of index `i` appears exactly when it is prime.
pub open spec fn primes_seq(l: int) -> Seq<int>
    decreases l,
{
    if l <= 0 {
        Seq::empty()
    } else if is_prime(2 * (l - 1) + 1) {
        primes_seq(l - 1).push(2 * (l - 1) + 1)
    } else {
        primes_seq(l - 1)
    }
}

/// Every entry of `primes_seq(l)` lies strictly below `2*l`.
pub proof fn lemma_primes_seq_bound(l: int, i: int)
    requires
        0 <= i < primes_seq(l).len(),
    ensures
        3 <= primes_seq(l)[i] < 2 * l,
    decreases l,
{
    if l > 0 {
        if i < primes_seq(l - 1).len() {
            lemma_primes_seq_bound(l - 1, i);
        }
    }
}

/// The sequence of odd primes is strictly ascending.
pub proof fn lemma_primes_seq_sorted(l: int, i: int, j: int)
    requires
        0 <= i < j < primes_seq(l).len(),
    ensures
        primes_seq(l)[i] < primes_seq(l)[j],
    decreases l,
{
    if l > 0 {
        if j < primes_seq(l - 1).len() {
            lemma_primes_seq_sorted(l - 1, i, j);
        } else {
            lemma_primes_seq_bound(l - 1, i);
        }
    }
}

/// The sequence of odd primes repeats no entry, so its length counts the
/// odd primes it holds.
pub proof fn lemma_primes_seq_no_duplicates(l: int)
    ensures
        primes_seq(l).no_duplicates(),
{
    let s = primes_seq(l);
    assert forall|i: int, j: int|
        (0 <= i < s.len() && 0 <= j < s.len() && i != j) implies s[i] != s[j] by {
        if i < j {
            lemma_primes_seq_sorted(l, i, j);
        } else {
            lemma_primes_seq_sorted(l, j, i);
        }
    }
}

/// `primes_seq(l)` holds exactly the odd primes below `2*l`.
pub proof fn lemma_primes_seq_contains(l: int, v: int)
    requires
        0 <= l,
    ensures
        primes_seq(l).contains(v) <==> (v % 2 == 1 && is_prime(v) && v < 2 * l),
    decreases l,
{
    if l > 0 {
        lemma_primes_seq_contains(l - 1, v);
        let s = primes_seq(l - 1);
        let x = 2 * (l - 1) + 1;
        if is_prime(x) {
            let t = primes_seq(l);
            assert(t == s.push(x));
            if t.contains(v) {
                let idx = choose|idx: int| 0 <= idx < t.len() && t[idx] == v;
                if idx < s.len() {
                    assert(s[idx] == v);
                    assert(s.contains(v));
                } else {
                    assert(v == x);
                }
            }
            if s.contains(v) {
                let idx = choose|idx: int| 0 <= idx < s.len() && s[idx] == v;
                assert(t[idx] == v);
                assert(t.contains(v));
            }
            if v == x {
                assert(t[t.len() - 1] == v);
                assert(t.contains(v));
            }
        } else {
            if v % 2 == 1 && is_prime(v) && v < 2 * l {
                assert(v != x);
                assert(v < 2 * (l - 1));
            }
        }
    } else {
        if v % 2 == 1 && is_prime(v) && v < 2 * l {
            assert(2 <= v);
            assert(false);
        }
    }
}

} // verus!
