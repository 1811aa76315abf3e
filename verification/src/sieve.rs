//! The segmented sieve itself: serial low sieve, per-chunk clearing, the
//! parallel dispatch over disjoint chunks, and assembly of the result.

use vstd::prelude::*;
use vstd::arithmetic::div_mod::lemma_fundamental_div_mod;
use vstd::arithmetic::div_mod::lemma_mod_multiples_basic;
use vstd::arithmetic::div_mod::lemma_mod_division_less_than_divisor;
use crate::primes::divides;
use crate::primes::is_prime;
use crate::primes::primes_seq;
use crate::primes::lemma_odd_prime_criterion;
use crate::primes::lemma_odd_composite_witness;
use crate::primes::lemma_primes_seq_contains;
use rayon::slice::ParallelSliceMut;
use rayon::iter::ParallelIterator;
use rayon::iter::IndexedParallelIterator;

verus! {

/// The product of two odd numbers is odd.
proof fn lemma_odd_mul_odd(x: int, y: int)
    requires
        x % 2 == 1,
        y % 2 == 1,
    ensures
        (x * y) % 2 == 1,
{
    lemma_fundamental_div_mod(x, 2);
    lemma_fundamental_div_mod(y, 2);
    let a = x / 2;
    let c = y / 2;
    assert(x * y == 2 * (2 * a * c + a + c) + 1) by (nonlinear_arith)
        requires
            x == 2 * a + 1,
            y == 2 * c + 1,
    ;
}

/// Sets every `stride`-th entry of `field` to `false`, starting at `from`.
pub fn clear_stride(field: &mut Vec<bool>, from: usize, stride: usize)
    requires
        1 <= stride,
        from <= old(field).len(),
        old(field).len() + stride <= usize::MAX,
    ensures
        final(field).len() == old(field).len(),
        forall|j: int| 0 <= j < old(field).len() ==> final(field)@[j]
            == (old(field)@[j] && !(from <= j && divides(stride as int, j - from))),
{
    let ghost orig = field@;
    let mut i: usize = from;
    let ghost mut steps: int = 0;
    while i < field.len()
        invariant
            1 <= stride,
            from <= i,
            field@.len() == orig.len(),
            orig.len() + stride <= usize::MAX,
            stride as int * steps == i - from,
            0 <= steps,
            forall|j: int| 0 <= j < orig.len() ==> field@[j]
                == (orig[j] && !(from <= j < i && divides(stride as int, j - from))),
        decreases field@.len() + stride - i,
    {
        let ghost i0 = i as int;
        field.set(i, false);
        proof {
            assert(stride as int * steps == i0 - from);
            assert(divides(stride as int, i0 - from));
        }
        i = i + stride;
        proof {
            assert(stride as int * (steps + 1) == i0 + stride - from) by (nonlinear_arith)
                requires
                    stride as int * steps == i0 - from,
            ;
            steps = steps + 1;
            assert forall|j: int| i0 < j < i0 + stride implies !(#[trigger] divides(
                stride as int,
                j - from,
            )) by {
                if divides(stride as int, j - from) {
                    let k = choose|k: int| #[trigger] (stride as int * k) == j - from;
                    assert(false) by (nonlinear_arith)
                        requires
                            stride as int * k == j - from,
                            stride as int * steps == i0 + stride - from,
                            i0 < j < i0 + stride,
                            1 <= stride,
                    ;
                }
            }
        }
    }
}

/// Index `j` of a field whose index `0` stands for the odd value `b` holds
/// the value `b + 2*j`.  A stride pass of period `p` starting at the index
/// of the odd multiple `pm` of `p` reaches exactly the indexes of the
/// multiples of `p` that are at least `pm`.
proof fn lemma_stride_positions(p: int, pm: int, b: int, j: int)
    requires
        3 <= p,
        p % 2 == 1,
        pm % 2 == 1,
        b % 2 == 1,
        divides(p, pm),
        b <= pm,
        0 <= j,
    ensures
        ((pm - b) / 2 <= j && divides(p, j - (pm - b) / 2)) <==> (pm <= b + 2 * j && divides(
            p,
            b + 2 * j,
        )),
{
    let f = (pm - b) / 2;
    lemma_fundamental_div_mod(pm - b, 2);
    assert(pm - b == 2 * f);
    let n = b + 2 * j;
    let m0 = choose|k: int| #[trigger] (p * k) == pm;
    if f <= j && divides(p, j - f) {
        let k = choose|k: int| #[trigger] (p * k) == j - f;
        assert(p * (m0 + 2 * k) == n) by (nonlinear_arith)
            requires
                p * k == j - f,
                p * m0 == pm,
                pm - b == 2 * f,
                n == b + 2 * j,
        ;
        assert(divides(p, n));
    }
    if pm <= n && divides(p, n) {
        let m = choose|k: int| #[trigger] (p * k) == n;
        if (m - m0) % 2 == 1 {
            lemma_odd_mul_odd(p, m - m0);
            assert(p * (m - m0) == n - pm) by (nonlinear_arith)
                requires
                    p * m == n,
                    p * m0 == pm,
            ;
            assert((n - pm) % 2 == 1);
            lemma_mod_multiples_basic(j - f, 2);
            assert(n - pm == (j - f) * 2);
            assert(false);
        }
        lemma_fundamental_div_mod(m - m0, 2);
        let h = (m - m0) / 2;
        assert(p * h == j - f) by (nonlinear_arith)
            requires
                p * m == n,
                p * m0 == pm,
                m - m0 == 2 * h,
                pm - b == 2 * f,
                n == b + 2 * j,
        ;
        assert(divides(p, j - f));
    }
}

/// Some prime whose field index lies below `i` accounts for clearing the
/// odd value `v`: its square is within `v` and it divides `v`.
pub open spec fn low_cleared(v: int, i: int) -> bool {
    exists|t: int|
        1 <= t < i && is_prime(2 * t + 1) && #[trigger] ((2 * t + 1) * (2 * t + 1)) <= v
            && divides(2 * t + 1, v)
}

/// Clearing marks below index `i` settle primality of an odd value `v`,
/// provided every prime whose square is within `v` has an index below `i`.
proof fn lemma_low_cleared_iff_composite(v: int, l: int)
    requires
        v % 2 == 1,
        3 <= v,
        0 <= l,
        v < (2 * l + 1) * (2 * l + 1),
    ensures
        low_cleared(v, l) <==> !is_prime(v),
{
    lemma_odd_prime_criterion(v);
    if low_cleared(v, l) {
        let t = choose|t: int|
            1 <= t < l && is_prime(2 * t + 1) && #[trigger] ((2 * t + 1) * (2 * t + 1)) <= v
                && divides(2 * t + 1, v);
        let p = 2 * t + 1;
        assert(is_prime(p) && p * p <= v && divides(p, v));
        assert(!is_prime(v));
    }
    if !is_prime(v) {
        let p = lemma_odd_composite_witness(v);
        lemma_fundamental_div_mod(p, 2);
        let t = p / 2;
        assert(p == 2 * t + 1);
        assert(p < 2 * l + 1) by (nonlinear_arith)
            requires
                p * p <= v,
                v < (2 * l + 1) * (2 * l + 1),
                0 <= p,
                0 <= l,
        ;
        assert(1 <= t < l);
        assert((2 * t + 1) * (2 * t + 1) <= v);
        assert(low_cleared(v, l));
    }
}

/// Processing the prime of index `i` extends the cleared set by exactly the
/// multiples of that prime from its square on.
proof fn lemma_low_cleared_step(v: int, i: int)
    requires
        1 <= i,
        is_prime(2 * i + 1),
    ensures
        low_cleared(v, i + 1) <==> (low_cleared(v, i) || ((2 * i + 1) * (2 * i + 1) <= v
            && divides(2 * i + 1, v))),
{
    if low_cleared(v, i + 1) {
        let t = choose|t: int|
            1 <= t < i + 1 && is_prime(2 * t + 1) && #[trigger] ((2 * t + 1) * (2 * t + 1)) <= v
                && divides(2 * t + 1, v);
        if t < i {
            assert(low_cleared(v, i));
        }
    }
    if low_cleared(v, i) {
        let t = choose|t: int|
            1 <= t < i && is_prime(2 * t + 1) && #[trigger] ((2 * t + 1) * (2 * t + 1)) <= v
                && divides(2 * t + 1, v);
        assert(1 <= t < i + 1 && (2 * t + 1) * (2 * t + 1) <= v);
        assert(low_cleared(v, i + 1));
    }
    if (2 * i + 1) * (2 * i + 1) <= v && divides(2 * i + 1, v) {
        assert(low_cleared(v, i + 1));
    }
}

/// A composite entry of the field clears nothing new: its multiples are
/// already covered by a smaller prime.
proof fn lemma_low_cleared_skip(v: int, i: int)
    requires
        !is_prime(2 * i + 1),
    ensures
        low_cleared(v, i + 1) <==> low_cleared(v, i),
{
    if low_cleared(v, i + 1) {
        let t = choose|t: int|
            1 <= t < i + 1 && is_prime(2 * t + 1) && #[trigger] ((2 * t + 1) * (2 * t + 1)) <= v
                && divides(2 * t + 1, v);
        assert(t < i);
        assert(low_cleared(v, i));
    }
    if low_cleared(v, i) {
        let t = choose|t: int|
            1 <= t < i && is_prime(2 * t + 1) && #[trigger] ((2 * t + 1) * (2 * t + 1)) <= v
                && divides(2 * t + 1, v);
        assert(1 <= t < i + 1 && (2 * t + 1) * (2 * t + 1) <= v);
        assert(low_cleared(v, i + 1));
    }
}

/// Once a prime's square reaches the range of interest, later indexes
/// cannot clear any value below that square.
proof fn lemma_low_cleared_stop(v: int, i: int, l: int)
    requires
        1 <= i <= l,
        v < (2 * i + 1) * (2 * i + 1),
    ensures
        low_cleared(v, l) <==> low_cleared(v, i),
{
    if low_cleared(v, l) {
        let t = choose|t: int|
            1 <= t < l && is_prime(2 * t + 1) && #[trigger] ((2 * t + 1) * (2 * t + 1)) <= v
                && divides(2 * t + 1, v);
        assert(t < i) by (nonlinear_arith)
            requires
                (2 * t + 1) * (2 * t + 1) <= v,
                v < (2 * i + 1) * (2 * i + 1),
                1 <= t,
                1 <= i,
        ;
        assert(low_cleared(v, i));
    }
    if low_cleared(v, i) {
        let t = choose|t: int|
            1 <= t < i && is_prime(2 * t + 1) && #[trigger] ((2 * t + 1) * (2 * t + 1)) <= v
                && divides(2 * t + 1, v);
        assert(1 <= t < l && (2 * t + 1) * (2 * t + 1) <= v);
        assert(low_cleared(v, l));
    }
}

/// Serial classical sieve: resolves primality of every odd number below
/// `small_max`.  Index `j` of the result stands for the value `2*j + 1` and
/// ends up `true` exactly when that value is prime.
pub fn sieve_serial(small_max: usize) -> (field: Vec<bool>)
    requires
        2 <= small_max ==> (small_max - 1) * (small_max - 1) <= usize::MAX,
    ensures
        field@.len() == small_max as int / 2,
        forall|j: int| 0 <= j < field@.len() ==> field@[j] == (1 <= j && is_prime(2 * j + 1)),
{
    let n: usize = small_max / 2;
    let mut field: Vec<bool> = Vec::new();
    while field.len() < n
        invariant
            field@.len() <= n,
            forall|j: int| 0 <= j < field@.len() ==> field@[j],
        decreases n - field.len(),
    {
        field.push(true);
    }
    if n > 0 {
        field.set(0, false);
    }
    let mut i: usize = 1;
    if n >= 1 {
        while i < n
            invariant
                1 <= i <= n,
                n == small_max as int / 2,
                field@.len() == n,
                2 <= small_max ==> (small_max - 1) * (small_max - 1) <= usize::MAX,
                forall|j: int| 0 <= j < n ==> field@[j] == (1 <= j && !low_cleared(
                    2 * j + 1,
                    i as int,
                )),
            ensures
                field@.len() == n,
                n == small_max as int / 2,
                forall|j: int| 0 <= j < n ==> field@[j] == (1 <= j && !low_cleared(
                    2 * j + 1,
                    n as int,
                )),
            decreases n - i,
        {
            if field[i] {
                let p: usize = 2 * i + 1;
                proof {
                    assert(2 * i + 1 < (2 * i + 1) * (2 * i + 1)) by (nonlinear_arith)
                        requires
                            1 <= i,
                    ;
                    lemma_low_cleared_iff_composite(2 * i + 1, i as int);
                    assert(is_prime(p as int));
                    assert(p <= small_max - 1);
                    assert(p * p <= (small_max - 1) * (small_max - 1)) by (nonlinear_arith)
                        requires
                            1 <= p,
                            p <= small_max - 1,
                    ;
                }
                let pp: usize = p * p;
                if pp >= small_max {
                    proof {
                        assert forall|j: int| 0 <= j < n implies (#[trigger] low_cleared(
                            2 * j + 1,
                            n as int,
                        ) <==> low_cleared(2 * j + 1, i as int)) by {
                            lemma_low_cleared_stop(2 * j + 1, i as int, n as int);
                        }
                    }
                    break ;
                }
                proof {
                    lemma_odd_mul_odd(p as int, p as int);
                    assert(p as int * p as int == pp as int);
                    assert(divides(p as int, pp as int));
                    lemma_fundamental_div_mod(pp as int, 2);
                    assert(3 * p <= pp) by (nonlinear_arith)
                        requires
                            3 <= p,
                            pp == p * p,
                    ;
                }
                clear_stride(&mut field, pp / 2, p);
                proof {
                    assert forall|j: int| 0 <= j < n implies field@[j] == (1 <= j && !low_cleared(
                        2 * j + 1,
                        i as int + 1,
                    )) by {
                        lemma_stride_positions(p as int, pp as int, 1, j);
                        lemma_low_cleared_step(2 * j + 1, i as int);
                    }
                }
            } else {
                proof {
                    assert(2 * i + 1 < (2 * i + 1) * (2 * i + 1)) by (nonlinear_arith)
                        requires
                            1 <= i,
                    ;
                    lemma_low_cleared_iff_composite(2 * i + 1, i as int);
                    assert forall|j: int| 0 <= j < n implies field@[j] == (1 <= j && !low_cleared(
                        2 * j + 1,
                        i as int + 1,
                    )) by {
                        lemma_low_cleared_skip(2 * j + 1, i as int);
                    }
                }
            }
            i = i + 1;
        }
    }
    proof {
        assert forall|j: int| 0 <= j < field@.len() implies field@[j] == (1 <= j && is_prime(
            2 * j + 1,
        )) by {
            if 1 <= j {
                assert(2 * n + 1 <= (2 * n + 1) * (2 * n + 1)) by (nonlinear_arith)
                    requires
                        0 <= n,
                ;
                lemma_low_cleared_iff_composite(2 * j + 1, n as int);
            }
        }
    }
    field
}

/// Some `true` entry of the low field with index in `1 .. i` accounts for
/// clearing the odd value `v`: the odd number it stands for has its square
/// within `v` and divides `v`.
pub open spec fn chunk_cleared(low: Seq<bool>, v: int, i: int) -> bool {
    exists|t: int|
        1 <= t < i && t < low.len() && low[t] && #[trigger] ((2 * t + 1) * (2 * t + 1)) <= v
            && divides(2 * t + 1, v)
}

/// Some `true` entry of the low field accounts for clearing the odd value `v`.
pub open spec fn cleared_by_low(low: Seq<bool>, v: int) -> bool {
    chunk_cleared(low, v, low.len() as int)
}

/// The chunk state after the entries of the low field below index `i` have
/// done their clearing work.
pub open spec fn chunk_inv(orig: Seq<bool>, cur: Seq<bool>, low: Seq<bool>, base: int, i: int) -> bool {
    cur.len() == orig.len() && forall|j: int|
        0 <= j < orig.len() ==> cur[j] == ((#[trigger] orig[j]) && !chunk_cleared(
            low,
            base + 2 * j,
            i,
        ))
}

proof fn lemma_chunk_cleared_step(low: Seq<bool>, v: int, i: int)
    requires
        1 <= i < low.len(),
        low[i],
    ensures
        chunk_cleared(low, v, i + 1) <==> (chunk_cleared(low, v, i) || ((2 * i + 1) * (2 * i + 1)
            <= v && divides(2 * i + 1, v))),
{
    if chunk_cleared(low, v, i + 1) {
        let t = choose|t: int|
            1 <= t < i + 1 && t < low.len() && low[t] && #[trigger] ((2 * t + 1) * (2 * t + 1))
                <= v && divides(2 * t + 1, v);
        if t < i {
            assert(chunk_cleared(low, v, i));
        }
    }
    if chunk_cleared(low, v, i) {
        let t = choose|t: int|
            1 <= t < i && t < low.len() && low[t] && #[trigger] ((2 * t + 1) * (2 * t + 1)) <= v
                && divides(2 * t + 1, v);
        assert(1 <= t < i + 1 && (2 * t + 1) * (2 * t + 1) <= v);
        assert(chunk_cleared(low, v, i + 1));
    }
    if (2 * i + 1) * (2 * i + 1) <= v && divides(2 * i + 1, v) {
        assert(chunk_cleared(low, v, i + 1));
    }
}

proof fn lemma_chunk_cleared_skip(low: Seq<bool>, v: int, i: int)
    requires
        0 <= i < low.len(),
        !low[i],
    ensures
        chunk_cleared(low, v, i + 1) <==> chunk_cleared(low, v, i),
{
    if chunk_cleared(low, v, i + 1) {
        let t = choose|t: int|
            1 <= t < i + 1 && t < low.len() && low[t] && #[trigger] ((2 * t + 1) * (2 * t + 1))
                <= v && divides(2 * t + 1, v);
        assert(t != i);
        assert(chunk_cleared(low, v, i));
    }
    if chunk_cleared(low, v, i) {
        let t = choose|t: int|
            1 <= t < i && t < low.len() && low[t] && #[trigger] ((2 * t + 1) * (2 * t + 1)) <= v
                && divides(2 * t + 1, v);
        assert(1 <= t < i + 1 && (2 * t + 1) * (2 * t + 1) <= v);
        assert(chunk_cleared(low, v, i + 1));
    }
}

proof fn lemma_chunk_cleared_stop(low: Seq<bool>, v: int, i: int, l: int)
    requires
        1 <= i <= l,
        v < (2 * i + 1) * (2 * i + 1),
    ensures
        chunk_cleared(low, v, l) <==> chunk_cleared(low, v, i),
{
    if chunk_cleared(low, v, l) {
        let t = choose|t: int|
            1 <= t < l && t < low.len() && low[t] && #[trigger] ((2 * t + 1) * (2 * t + 1)) <= v
                && divides(2 * t + 1, v);
        assert(t < i) by (nonlinear_arith)
            requires
                (2 * t + 1) * (2 * t + 1) <= v,
                v < (2 * i + 1) * (2 * i + 1),
                1 <= t,
                1 <= i,
        ;
        assert(chunk_cleared(low, v, i));
    }
    if chunk_cleared(low, v, i) {
        let t = choose|t: int|
            1 <= t < i && t < low.len() && low[t] && #[trigger] ((2 * t + 1) * (2 * t + 1)) <= v
                && divides(2 * t + 1, v);
        assert(1 <= t < l && (2 * t + 1) * (2 * t + 1) <= v);
        assert(chunk_cleared(low, v, l));
    }
}

/// Rounding the least multiplier `(b-1)/p + 1` up to odd yields the least
/// odd multiple of `p` at or above the odd value `b`.
proof fn lemma_first_odd_multiple(p: int, b: int, q: int)
    requires
        3 <= p,
        p % 2 == 1,
        1 <= b,
        b % 2 == 1,
        q == if ((b - 1) / p + 1) % 2 == 1 {
            (b - 1) / p + 1
        } else {
            (b - 1) / p + 2
        },
    ensures
        1 <= q,
        q % 2 == 1,
        b <= p * q,
        (p * q) % 2 == 1,
        divides(p, p * q),
        forall|v: int| v % 2 == 1 && b <= v && #[trigger] divides(p, v) ==> p * q <= v,
{
    let d0 = (b - 1) / p;
    lemma_fundamental_div_mod(b - 1, p);
    lemma_mod_division_less_than_divisor(b - 1, p);
    assert(0 <= d0) by (nonlinear_arith)
        requires
            b - 1 == p * d0 + (b - 1) % p,
            0 <= (b - 1) % p,
            1 <= b,
            3 <= p,
    ;
    let q0 = d0 + 1;
    assert(b <= p * q0) by (nonlinear_arith)
        requires
            b - 1 == p * d0 + (b - 1) % p,
            (b - 1) % p < p,
            q0 == d0 + 1,
    ;
    assert(p * d0 < b);
    assert(q0 <= q <= q0 + 1);
    assert(q % 2 == 1);
    assert(p * q0 <= p * q) by (nonlinear_arith)
        requires
            q0 <= q,
            0 < p,
    ;
    lemma_odd_mul_odd(p, q);
    assert(divides(p, p * q));
    assert forall|v: int| v % 2 == 1 && b <= v && #[trigger] divides(p, v) implies p * q <= v by {
        let m = choose|k: int| #[trigger] (p * k) == v;
        assert(d0 < m) by (nonlinear_arith)
            requires
                p * d0 < b,
                b <= v,
                p * m == v,
                3 <= p,
                0 <= d0,
        ;
        if m % 2 == 0 {
            lemma_fundamental_div_mod(m, 2);
            assert(v == (p * (m / 2)) * 2) by (nonlinear_arith)
                requires
                    p * m == v,
                    m == 2 * (m / 2),
            ;
            lemma_mod_multiples_basic(p * (m / 2), 2);
            assert(false);
        }
        assert(q0 <= m);
        assert(q <= m);
        assert(p * q <= p * m) by (nonlinear_arith)
            requires
                q <= m,
                0 < p,
        ;
    }
}

/// A `false` entry of the low field changes nothing: advancing past it
/// keeps the chunk state.
proof fn lemma_chunk_inv_skip(orig: Seq<bool>, cur: Seq<bool>, low: Seq<bool>, base: int, i: int)
    requires
        chunk_inv(orig, cur, low, base, i),
        0 <= i < low.len(),
        !low[i],
    ensures
        chunk_inv(orig, cur, low, base, i + 1),
{
    assert forall|j: int| 0 <= j < orig.len() implies cur[j] == ((#[trigger] orig[j])
        && !chunk_cleared(low, base + 2 * j, i + 1)) by {
        assert(cur[j] == (orig[j] && !chunk_cleared(low, base + 2 * j, i)));
        lemma_chunk_cleared_skip(low, base + 2 * j, i);
    }
}

/// One prime's pass over a chunk whose index `0` stands for the odd value
/// `base`: clears exactly the positions holding a multiple of `p` that is
/// at least `p*p`.
fn clear_prime_in_chunk(chunk: &mut Vec<bool>, base: usize, p: usize)
    requires
        base % 2 == 1,
        3 <= p,
        p % 2 == 1,
        p * p < base + 2 * old(chunk)@.len(),
        base + 2 * old(chunk)@.len() <= usize::MAX,
    ensures
        final(chunk)@.len() == old(chunk)@.len(),
        forall|j: int| 0 <= j < old(chunk)@.len() ==> final(chunk)@[j] == ((#[trigger] old(
            chunk,
        )@[j]) && !(p * p <= base + 2 * j && divides(p as int, base + 2 * j))),
{
    let ghost orig = chunk@;
    let cu: usize = base + 2 * chunk.len();
    proof {
        assert(p * p < cu);
        assert(2 * p <= p * p) by (nonlinear_arith)
            requires
                2 <= p,
        ;
        lemma_odd_mul_odd(p as int, p as int);
    }
    let pp: usize = p * p;
    proof {
        assert(p as int * p as int == pp as int);
        assert(divides(p as int, pp as int));
    }
    if pp >= base {
        let from: usize = (pp - base) / 2;
        clear_stride(chunk, from, p);
        proof {
            assert forall|j: int| 0 <= j < orig.len() implies chunk@[j] == ((#[trigger] orig[j])
                && !(p * p <= base + 2 * j && divides(p as int, base + 2 * j))) by {
                assert(chunk@[j] == (orig[j] && !(from <= j && divides(p as int, j - from))));
                assert(from as int == (pp as int - base as int) / 2);
                lemma_stride_positions(p as int, pp as int, base as int, j);
            }
        }
    } else {
        let q0: usize = (base - 1) / p + 1;
        let q: usize = if q0 % 2 == 1 {
            q0
        } else {
            q0 + 1
        };
        proof {
            lemma_first_odd_multiple(p as int, base as int, q as int);
            lemma_fundamental_div_mod(cu as int, p as int);
            lemma_mod_division_less_than_divisor(cu as int, p as int);
            assert(p as int * (cu / p) as int <= cu);
        }
        if q <= cu / p {
            proof {
                assert(p as int * q as int <= p as int * (cu / p) as int) by (nonlinear_arith)
                    requires
                        q <= cu / p,
                        0 < p,
                ;
            }
            let pm: usize = p * q;
            if pm < cu {
                let from: usize = (pm - base) / 2;
                clear_stride(chunk, from, p);
                proof {
                    assert forall|j: int| 0 <= j < orig.len() implies chunk@[j] == ((
                    #[trigger] orig[j]) && !(p * p <= base + 2 * j && divides(
                        p as int,
                        base + 2 * j,
                    ))) by {
                        let v = base + 2 * j;
                        assert(v % 2 == 1);
                        assert(chunk@[j] == (orig[j] && !(from <= j && divides(
                            p as int,
                            j - from,
                        ))));
                        assert(from as int == (pm as int - base as int) / 2);
                        lemma_stride_positions(p as int, pm as int, base as int, j);
                        if divides(p as int, v) {
                            assert(pm <= v);
                        }
                    }
                }
            } else {
                proof {
                    assert forall|j: int| 0 <= j < orig.len() implies chunk@[j] == ((
                    #[trigger] orig[j]) && !(p * p <= base + 2 * j && divides(
                        p as int,
                        base + 2 * j,
                    ))) by {
                        let v = base + 2 * j;
                        assert(v % 2 == 1);
                        if divides(p as int, v) {
                            assert(p as int * q as int <= v);
                            assert(false);
                        }
                    }
                }
            }
        } else {
            proof {
                assert(cu < p * q) by (nonlinear_arith)
                    requires
                        cu / p + 1 <= q,
                        0 < p,
                        cu == p * (cu / p) + cu % p,
                        cu % p < p,
                ;
                assert forall|j: int| 0 <= j < orig.len() implies chunk@[j] == ((#[trigger] orig[j])
                    && !(p * p <= base + 2 * j && divides(p as int, base + 2 * j))) by {
                    let v = base + 2 * j;
                    assert(v % 2 == 1);
                    if divides(p as int, v) {
                        assert(p as int * q as int <= v);
                        assert(false);
                    }
                }
            }
        }
    }
}

/// Clears, inside one chunk, every position whose value has a witness among
/// the `true` entries of the finished low field.  Index `j` of `chunk`
/// stands for the odd value `base + 2*j`.
pub fn update_chunk(low: &Vec<bool>, chunk: &mut Vec<bool>, base: usize)
    requires
        base % 2 == 1,
        base + 2 * old(chunk)@.len() <= usize::MAX,
        1 <= low@.len() ==> !low@[0],
        1 <= low@.len() ==> (2 * low@.len() - 1) * (2 * low@.len() - 1) <= usize::MAX,
    ensures
        final(chunk)@.len() == old(chunk)@.len(),
        forall|j: int| 0 <= j < old(chunk)@.len() ==> final(chunk)@[j] == (old(chunk)@[j]
            && !cleared_by_low(low@, base + 2 * j)),
{
    if chunk.len() == 0 {
        return ;
    }
    let ghost orig = chunk@;
    let cu: usize = base + 2 * chunk.len();
    let ll: usize = low.len();
    let mut t: usize = 1;
    proof {
        assert forall|j: int| 0 <= j < orig.len() implies chunk@[j] == ((#[trigger] orig[j])
            && !chunk_cleared(low@, base + 2 * j, 1)) by {
            assert(!chunk_cleared(low@, base + 2 * j, 1));
        }
        assert(chunk_inv(orig, chunk@, low@, base as int, 1));
    }
    if ll >= 1 {
        while t < ll
            invariant
                1 <= t <= ll,
                ll == low@.len(),
                1 <= orig.len(),
                cu == base + 2 * orig.len(),
                cu <= usize::MAX,
                base % 2 == 1,
                !low@[0],
                (2 * low@.len() - 1) * (2 * low@.len() - 1) <= usize::MAX,
                chunk_inv(orig, chunk@, low@, base as int, t as int),
            ensures
                chunk_inv(orig, chunk@, low@, base as int, ll as int),
            decreases ll - t,
        {
            if low[t] {
                proof {
                    assert((2 * t + 1) * (2 * t + 1) <= (2 * ll - 1) * (2 * ll - 1))
                        by (nonlinear_arith)
                        requires
                            1 <= 2 * t + 1,
                            2 * t + 1 <= 2 * ll - 1,
                    ;
                    assert(2 * ll - 1 <= (2 * ll - 1) * (2 * ll - 1)) by (nonlinear_arith)
                        requires
                            1 <= 2 * ll - 1,
                    ;
                }
                let p: usize = 2 * t + 1;
                let pp: usize = p * p;
                if pp >= cu {
                    proof {
                        assert forall|j: int| 0 <= j < orig.len() implies chunk@[j] == ((
                        #[trigger] orig[j]) && !chunk_cleared(low@, base + 2 * j, ll as int)) by {
                            assert(chunk@[j] == (orig[j] && !chunk_cleared(
                                low@,
                                base + 2 * j,
                                t as int,
                            )));
                            lemma_chunk_cleared_stop(low@, base + 2 * j, t as int, ll as int);
                        }
                        assert(chunk_inv(orig, chunk@, low@, base as int, ll as int));
                    }
                    break ;
                }
                let ghost prev = chunk@;
                clear_prime_in_chunk(chunk, base, p);
                proof {
                    assert forall|j: int| 0 <= j < orig.len() implies chunk@[j] == ((
                    #[trigger] orig[j]) && !chunk_cleared(low@, base + 2 * j, t as int + 1)) by {
                        assert(prev[j] == (orig[j] && !chunk_cleared(
                            low@,
                            base + 2 * j,
                            t as int,
                        )));
                        assert(chunk@[j] == (prev[j] && !(p * p <= base + 2 * j && divides(
                            p as int,
                            base + 2 * j,
                        ))));
                        lemma_chunk_cleared_step(low@, base + 2 * j, t as int);
                    }
                    assert(chunk_inv(orig, chunk@, low@, base as int, t as int + 1));
                }
            } else {
                proof {
                    lemma_chunk_inv_skip(orig, chunk@, low@, base as int, t as int);
                }
            }
            t = t + 1;
        }
    }
    proof {
        assert forall|j: int| 0 <= j < orig.len() implies chunk@[j] == (orig[j]
            && !cleared_by_low(low@, base + 2 * j)) by {
            if ll >= 1 {
                assert(chunk@[j] == (orig[j] && !chunk_cleared(low@, base + 2 * j, ll as int)));
            } else {
                assert(!chunk_cleared(low@, base + 2 * j, ll as int));
            }
        }
    }
}

/// The least integer whose square reaches `max`.
pub fn ceil_sqrt(max: usize) -> (s: usize)
    ensures
        max <= s as int * s as int,
        1 <= s ==> (s as int - 1) * (s as int - 1) < max,
        s <= max,
{
    let m: u128 = max as u128;
    let mut s: u128 = 0;
    while s * s < m
        invariant
            m == max as int,
            0 <= s <= m,
            m <= 0xffff_ffff_ffff_ffff,
            s as int * s as int <= 0xfffffffffffffffe0000000000000001,
            1 <= s ==> (s as int - 1) * (s as int - 1) < m,
        decreases m - s,
    {
        proof {
            assert(s < m) by (nonlinear_arith)
                requires
                    s * s < m,
                    0 <= s,
            ;
            assert((s as int + 1) * (s as int + 1) <= 0xfffffffffffffffe0000000000000001)
                by (nonlinear_arith)
                requires
                    0 <= s as int + 1,
                    s as int + 1 <= 0xffffffffffffffff,
            ;
        }
        s = s + 1;
    }
    proof {
        if max >= 1 && s > max {
            assert((s as int - 1) * (s as int - 1) >= max as int * max as int)
                by (nonlinear_arith)
                requires
                    s as int - 1 >= max as int,
                    max as int >= 1,
            ;
            assert(max as int <= max as int * max as int) by (nonlinear_arith)
                requires
                    1 <= max as int,
            ;
        }
    }
    s as usize
}

/// A field of the given length with every entry set.
fn filled_true(len: usize) -> (v: Vec<bool>)
    ensures
        v@.len() == len,
        forall|j: int| 0 <= j < len ==> v@[j],
{
    let mut v: Vec<bool> = Vec::new();
    while v.len() < len
        invariant
            v@.len() <= len,
            forall|j: int| 0 <= j < v@.len() ==> v@[j],
        decreases len - v.len(),
    {
        v.push(true);
    }
    v
}

/// The odd value that the first index of chunk `ci` stands for, when the
/// whole field has `low_len` indexes before the chunked region and chunks
/// hold `chunk_size` indexes each.
fn chunk_base(low_len: usize, ci: usize, chunk_size: usize) -> (b: usize)
    requires
        2 * (low_len + ci * chunk_size) + 1 <= usize::MAX,
    ensures
        b as int == 2 * (low_len + ci * chunk_size) + 1,
        b % 2 == 1,
{
    2 * (low_len + ci * chunk_size) + 1
}

/// Relies on rayon's `par_chunks_mut`, `enumerate`, `with_max_len` and
/// `for_each` (rayon 1.12): the slice is split into consecutive disjoint
/// chunks of `chunk_size` entries (the last possibly shorter), each chunk is
/// handed to the closure exactly once together with its chunk index, and the
/// call returns only after every task has finished.  The closure copies its
/// chunk out, runs the verified `update_chunk` on it with the base that the
/// verified `chunk_base` computes, and copies the result back; chunk `ci`
/// starts at index `ci * chunk_size` of `high`, so index `j` of `high`
/// overall stands for the odd value `2 * (low_len + j) + 1`.
#[verifier::external_body]
fn dispatch_chunks(low: &Vec<bool>, high: &mut Vec<bool>, low_len: usize, chunk_size: usize)
    requires
        1 <= chunk_size,
        low@.len() == low_len as int,
        2 * (low_len + old(high)@.len()) + 1 <= usize::MAX,
        1 <= low@.len() ==> !low@[0],
        1 <= low@.len() ==> (2 * low@.len() - 1) * (2 * low@.len() - 1) <= usize::MAX,
    ensures
        final(high)@.len() == old(high)@.len(),
        forall|j: int| 0 <= j < old(high)@.len() ==> final(high)@[j] == (old(high)@[j]
            && !cleared_by_low(low@, 2 * (low_len + j) + 1)),
{
    high.par_chunks_mut(chunk_size).enumerate().with_max_len(1).for_each(|(ci, chunk)| {
        let base = chunk_base(low_len, ci, chunk_size);
        let mut part = chunk.to_vec();
        update_chunk(low, &mut part, base);
        chunk.copy_from_slice(&part);
    });
}

/// Over a finished low field, a clearing witness exists exactly for the odd
/// composites, as long as the field covers every prime up to the square
/// root of the value.
proof fn lemma_cleared_by_low_iff_composite(low: Seq<bool>, v: int, small_max: int)
    requires
        forall|j: int| 0 <= j < low.len() ==> low[j] == (1 <= j && is_prime(2 * j + 1)),
        low.len() == small_max / 2,
        0 <= small_max,
        v % 2 == 1,
        3 <= v,
        v < small_max * small_max,
    ensures
        cleared_by_low(low, v) <==> !is_prime(v),
{
    if cleared_by_low(low, v) {
        let t = choose|t: int|
            1 <= t < low.len() && t < low.len() && low[t] && #[trigger] ((2 * t + 1) * (2 * t
                + 1)) <= v && divides(2 * t + 1, v);
        let p = 2 * t + 1;
        assert(is_prime(p));
        assert(p < p * p) by (nonlinear_arith)
            requires
                3 <= p,
        ;
        assert(2 <= p < v);
        assert(!is_prime(v));
    }
    if !is_prime(v) {
        let p = lemma_odd_composite_witness(v);
        lemma_fundamental_div_mod(p, 2);
        let t = p / 2;
        assert(p == 2 * t + 1);
        assert(p < small_max) by (nonlinear_arith)
            requires
                p * p <= v,
                v < small_max * small_max,
                0 <= p,
                0 <= small_max,
        ;
        assert(1 <= t && t < low.len());
        assert(low[t]);
        assert((2 * t + 1) * (2 * t + 1) <= v);
        assert(chunk_cleared(low, v, low.len() as int));
    }
}

/// Full segmented sieve with an explicit chunk length: all odd primes
/// strictly below `max`, ascending.  The chunk length only shapes the
/// partition of the parallel phase; the result never depends on it.
pub fn sieve_chunked(max: usize, chunk_size: usize) -> (primes: Vec<usize>)
    requires
        1 <= chunk_size,
    ensures
        primes@.map_values(|x: usize| x as int) == primes_seq(max as int / 2),
{
    let small_max = ceil_sqrt(max);
    let mut low = sieve_serial(small_max);
    let n: usize = max / 2;
    let low_len: usize = low.len();
    let mut high: Vec<bool> = filled_true(n - low_len);
    proof {
        assert(2 * (low_len + high@.len()) + 1 <= usize::MAX);
        if 1 <= low_len {
            assert(2 <= small_max);
            assert((2 * low@.len() - 1) * (2 * low@.len() - 1) <= (small_max as int - 1) * (
            small_max as int - 1)) by (nonlinear_arith)
                requires
                    1 <= 2 * low@.len() - 1,
                    2 * low@.len() - 1 <= small_max as int - 1,
            ;
        }
    }
    dispatch_chunks(&low, &mut high, low_len, chunk_size);
    let mut primes: Vec<usize> = Vec::new();
    let mut i: usize = 0;
    while i < low_len
        invariant
            i <= low_len,
            low_len == low@.len(),
            low_len <= n,
            n == max as int / 2,
            forall|j: int| 0 <= j < low@.len() ==> low@[j] == (1 <= j && is_prime(2 * j + 1)),
            primes@.map_values(|x: usize| x as int) == primes_seq(i as int),
        decreases low_len - i,
    {
        if low[i] {
            primes.push(2 * i + 1);
        }
        proof {
            assert(primes@.map_values(|x: usize| x as int) =~= primes_seq(i as int + 1));
        }
        i = i + 1;
    }
    let high_len: usize = high.len();
    proof {
        if 1 <= high@.len() {
            assert(2 <= max);
            if small_max <= 1 {
                assert(small_max as int * small_max as int <= 1) by (nonlinear_arith)
                    requires
                        0 <= small_max,
                        small_max <= 1,
                ;
                assert(false);
            }
            assert(1 <= low_len);
        }
    }
    let mut j: usize = 0;
    while j < high_len
        invariant
            j <= high_len,
            high_len == high@.len(),
            low_len + high_len == n,
            n == max as int / 2,
            2 * n + 1 <= usize::MAX,
            low_len == low@.len(),
            low.len() == small_max as int / 2,
            max <= small_max as int * small_max as int,
            high_len >= 1 ==> 1 <= low_len,
            forall|t: int| 0 <= t < low@.len() ==> low@[t] == (1 <= t && is_prime(2 * t + 1)),
            forall|k: int| 0 <= k < high@.len() ==> high@[k] == !cleared_by_low(
                low@,
                2 * (low_len + k) + 1,
            ),
            primes@.map_values(|x: usize| x as int) == primes_seq(low_len + j),
        decreases high_len - j,
    {
        let g: usize = low_len + j;
        proof {
            let v = 2 * (g as int) + 1;
            assert(high@[j as int] == !cleared_by_low(low@, v));
            lemma_cleared_by_low_iff_composite(low@, v, small_max as int);
        }
        if high[j] {
            primes.push(2 * g + 1);
        }
        proof {
            assert(primes@.map_values(|x: usize| x as int) =~= primes_seq(g as int + 1));
        }
        j = j + 1;
    }
    primes
}

/// Fixed chunk length used by `sieve`: a tuning value only, which the
/// contract shows has no effect on the result.
pub const CHUNK_SIZE: usize = 100000;

/// Segmented, partially parallel sieve: all odd primes strictly below
/// `max`, ascending.  The even prime 2 is never represented.
pub fn sieve(max: usize) -> (primes: Vec<usize>)
    ensures
        primes@.map_values(|x: usize| x as int) == primes_seq(max as int / 2),
{
    sieve_chunked(max, CHUNK_SIZE)
}

/// The number of odd primes strictly below `max`.
pub fn count_primes(max: usize) -> (count: usize)
    ensures
        count as int == primes_seq(max as int / 2).len(),
{
    sieve(max).len()
}

/// What the sieve returns holds exactly the odd primes strictly below the
/// bound: membership in the specified result is primality plus oddness plus
/// the exclusive upper limit.
pub proof fn lemma_sieve_complete(max: int, v: int)
    requires
        0 <= max,
    ensures
        primes_seq(max / 2).contains(v) <==> (v % 2 == 1 && is_prime(v) && v < max),
{
    lemma_primes_seq_contains(max / 2, v);
}

/// Determinism: any two result sequences that meet the sieve's contract for
/// one bound are equal — in particular results produced with different
/// chunk lengths, since the contract never mentions the chunk length, and
/// results of repeated calls, since no state outlives a call.
pub proof fn lemma_sieve_deterministic(max: int, r1: Seq<int>, r2: Seq<int>)
    requires
        r1 == primes_seq(max / 2),
        r2 == primes_seq(max / 2),
    ensures
        r1 == r2,
{
}

/// Bounds 0 and 1 admit no odd prime: the result is empty and the count 0.
pub proof fn lemma_boundary_empty(max: int)
    requires
        0 <= max < 2,
    ensures
        primes_seq(max / 2).len() == 0,
{
    assert(primes_seq(0) == Seq::<int>::empty());
}

} // verus!
