//! The mathematical model shared by the whole crate: primality, and the
//! increasing sequence of primes contained in an interval.

use vstd::prelude::*;

verus! {

/// `n` is prime: at least 2, with no divisor strictly between 1 and `n`.
pub open spec fn is_prime(n: int) -> bool {
    n >= 2 && forall|d: int| 2 <= d < n ==> #[trigger] (n % d) != 0
}

/// The primes in `[lo, hi]`, listed in increasing order.
pub open spec fn primes_seq(lo: int, hi: int) -> Seq<u64>
    decreases hi - lo + 1,
{
    if lo > hi {
        Seq::empty()
    } else if is_prime(hi) {
        primes_seq(lo, hi - 1).push(hi as u64)
    } else {
        primes_seq(lo, hi - 1)
    }
}

/// Every element of `primes_seq(lo, hi)` is a prime in `[max(lo, 2), hi]`.
pub proof fn lemma_primes_seq_elements(lo: int, hi: int)
    requires
        hi <= u64::MAX,
    ensures
        forall|i: int|
            0 <= i < primes_seq(lo, hi).len() ==> {
                let v = #[trigger] primes_seq(lo, hi)[i];
                &&& is_prime(v as int)
                &&& lo <= v as int <= hi
            },
    decreases hi - lo + 1,
{
    if lo > hi {
    } else {
        lemma_primes_seq_elements(lo, hi - 1);
        let prev = primes_seq(lo, hi - 1);
        let cur = primes_seq(lo, hi);
        assert forall|i: int| 0 <= i < cur.len() implies {
            let v = #[trigger] cur[i];
            &&& is_prime(v as int)
            &&& lo <= v as int <= hi
        } by {
            if is_prime(hi) && i == cur.len() - 1 {
                assert(cur[i] == hi as u64);
            } else {
                assert(cur[i] == prev[i]);
            }
        }
    }
}

/// `primes_seq(lo, hi)` is sorted strictly increasing.
pub proof fn lemma_primes_seq_increasing(lo: int, hi: int)
    requires
        hi <= u64::MAX,
    ensures
        forall|i: int, j: int|
            0 <= i < j < primes_seq(lo, hi).len()
                ==> #[trigger] primes_seq(lo, hi)[i] < #[trigger] primes_seq(lo, hi)[j],
    decreases hi - lo + 1,
{
    if lo > hi {
    } else {
        lemma_primes_seq_increasing(lo, hi - 1);
        lemma_primes_seq_elements(lo, hi - 1);
        let prev = primes_seq(lo, hi - 1);
        let cur = primes_seq(lo, hi);
        assert forall|i: int, j: int| 0 <= i < j < cur.len() implies #[trigger] cur[i]
            < #[trigger] cur[j] by {
            if is_prime(hi) && j == cur.len() - 1 {
                assert(cur[i] == prev[i]);
                assert(cur[j] == hi as u64);
            } else {
                assert(cur[i] == prev[i]);
                assert(cur[j] == prev[j]);
            }
        }
    }
}

/// A value appears in `primes_seq(lo, hi)` exactly when it is a prime of the
/// interval.
pub proof fn lemma_primes_seq_contains(lo: int, hi: int, v: u64)
    requires
        hi <= u64::MAX,
    ensures
        primes_seq(lo, hi).contains(v) <==> (lo <= v as int <= hi && is_prime(v as int)),
    decreases hi - lo + 1,
{
    if lo > hi {
    } else {
        lemma_primes_seq_contains(lo, hi - 1, v);
        if lo <= v as int <= hi && is_prime(v as int) {
            if v as int == hi {
                assert(primes_seq(lo, hi)[primes_seq(lo, hi).len() - 1] == v);
            } else {
                let s = primes_seq(lo, hi - 1);
                let i = choose|i: int| 0 <= i < s.len() && s[i] == v;
                assert(primes_seq(lo, hi)[i] == v);
            }
        } else {
            if primes_seq(lo, hi).contains(v) {
                let s = primes_seq(lo, hi);
                let i = choose|i: int| 0 <= i < s.len() && s[i] == v;
                if is_prime(hi) && i == s.len() - 1 {
                } else {
                    assert(primes_seq(lo, hi - 1)[i] == v);
                }
            }
        }
    }
}

/// Splitting an interval splits its prime sequence.
pub proof fn lemma_primes_seq_concat(lo: int, mid: int, hi: int)
    requires
        lo - 1 <= mid <= hi,
    ensures
        primes_seq(lo, hi) == primes_seq(lo, mid) + primes_seq(mid + 1, hi),
    decreases hi - mid,
{
    if mid == hi {
        assert(primes_seq(lo, hi) =~= primes_seq(lo, mid) + primes_seq(mid + 1, hi));
    } else {
        lemma_primes_seq_concat(lo, mid, hi - 1);
        if is_prime(hi) {
            assert(primes_seq(lo, hi) =~= primes_seq(lo, mid) + primes_seq(mid + 1, hi));
        } else {
            assert(primes_seq(lo, hi) =~= primes_seq(lo, mid) + primes_seq(mid + 1, hi));
        }
    }
}

/// An interval without primes contributes an empty sequence.
pub proof fn lemma_primes_seq_empty(lo: int, hi: int)
    requires
        forall|v: int| lo <= v <= hi ==> !is_prime(v),
    ensures
        primes_seq(lo, hi) == Seq::<u64>::empty(),
    decreases hi - lo + 1,
{
    if lo > hi {
    } else {
        lemma_primes_seq_empty(lo, hi - 1);
    }
}

/// A prefix of the prime sequence is unchanged by appending an interval
/// that holds no primes.
pub proof fn lemma_primes_seq_no_primes_extend(lo: int, a: int, b: int)
    requires
        lo - 1 <= a <= b,
        forall|u: int| a < u <= b ==> !is_prime(u),
    ensures
        primes_seq(lo, b) == primes_seq(lo, a),
{
    lemma_primes_seq_concat(lo, a, b);
    lemma_primes_seq_empty(a + 1, b);
    assert(primes_seq(lo, b) =~= primes_seq(lo, a));
}

/// Primality decided for the values a wheel can pre-exclude.
pub proof fn lemma_small_primes()
    ensures
        is_prime(2),
        is_prime(3),
        is_prime(5),
        !is_prime(0),
        !is_prime(1),
        !is_prime(4),
        forall|v: int| 2 <= v <= 5 && #[trigger] is_prime(v) ==> v == 2 || v == 3 || v == 5,
{
    assert forall|d: int| 2 <= d < 3 implies #[trigger] (3int % d) != 0 by {
        assert(3int % 2 == 1);
    }
    assert forall|d: int| 2 <= d < 5 implies #[trigger] (5int % d) != 0 by {
        if d == 2 {
            assert(5int % 2 == 1);
        } else if d == 3 {
            assert(5int % 3 == 2);
        } else {
            assert(5int % 4 == 1);
        }
    }
    assert(4int % 2 == 0);
    assert(!is_prime(4));
}

/// If `d` divides `m` and `m` divides `v`, then `d` divides `v`.
pub proof fn lemma_divides_transitive(d: int, m: int, v: int)
    requires
        1 <= d,
        1 <= m,
        0 <= v,
        m % d == 0,
        v % m == 0,
    ensures
        v % d == 0,
{
    let a = m / d;
    let b = v / m;
    vstd::arithmetic::div_mod::lemma_fundamental_div_mod(m, d);
    vstd::arithmetic::div_mod::lemma_fundamental_div_mod(v, m);
    assert(m == d * a);
    assert(v == m * b);
    assert(v == d * (a * b)) by {
        vstd::arithmetic::mul::lemma_mul_is_associative(d, a, b);
    }
    assert(a * b >= 0) by (nonlinear_arith)
        requires d >= 1, d * (a * b) >= 0, d * (a * b) == v, v >= 0, a >= 0 || b >= 0 || true,
    {
    }
    vstd::arithmetic::div_mod::lemma_fundamental_div_mod_converse(v, d, a * b, 0);
}

/// The least divisor (at least `c`) of a composite number; used to extract a
/// prime factor.
proof fn find_divisor_from(v: int, c: int) -> (d: int)
    requires
        2 <= c,
        c < v,
        exists|e: int| c <= e < v && #[trigger] (v % e) == 0,
    ensures
        c <= d < v,
        v % d == 0,
        forall|e: int| c <= e < d ==> #[trigger] (v % e) != 0,
    decreases v - c,
{
    if v % c == 0 {
        c
    } else {
        find_divisor_from(v, c + 1)
    }
}

/// Every composite number has a prime factor `q` with `q * q <= v`.
pub proof fn lemma_composite_has_small_prime_factor(v: int) -> (q: int)
    requires
        v >= 2,
        !is_prime(v),
    ensures
        is_prime(q),
        2 <= q,
        q * q <= v,
        v % q == 0,
{
    let e0 = choose|e: int| 2 <= e < v && #[trigger] (v % e) == 0;
    let d = find_divisor_from(v, 2);
    // d is prime: a proper divisor of d would be a smaller divisor of v.
    assert forall|f: int| 2 <= f < d implies #[trigger] (d % f) != 0 by {
        if d % f == 0 {
            lemma_divides_transitive(f, d, v);
        }
    }
    // d * d <= v: the cofactor is a divisor of v no smaller than d.
    let k = v / d;
    vstd::arithmetic::div_mod::lemma_fundamental_div_mod(v, d);
    assert(v == d * k);
    assert(k >= 2) by (nonlinear_arith)
        requires v == d * k, 2 <= d < v,
    {
    }
    assert(v % k == 0) by {
        vstd::arithmetic::div_mod::lemma_fundamental_div_mod_converse(v, k, d, 0);
    }
    assert(k >= d) by {
        if k < d {
            assert(v % k != 0);
        }
    }
    assert(d * d <= v) by (nonlinear_arith)
        requires v == d * k, k >= d, d >= 2,
    {
    }
    d
}

} // verus!
