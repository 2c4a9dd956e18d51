//! Integer square root and the plain (non-segmented) sieve of Eratosthenes
//! that supplies the shared small-prime table.

use vstd::prelude::*;

use crate::primes::is_prime;
use crate::primes::lemma_composite_has_small_prime_factor;
use crate::primes::primes_seq;

verus! {

/// The largest integer `r` with `r * r <= n`, found by binary search.
pub fn integer_sqrt(n: u64) -> (r: u64)
    ensures
        r as int * r as int <= n as int,
        (r as int + 1) * (r as int + 1) > n as int,
{
    let mut low: u64 = 0;
    let mut high: u64 = n;
    proof {
        assert((n as int + 1) * (n as int + 1) > n as int) by (nonlinear_arith)
            requires n >= 0,
        {
        }
    }
    while low <= high
        invariant
            low as int <= high as int + 1,
            high <= n,
            low == 0 || (low as int - 1) * (low as int - 1) <= n as int,
            (high as int + 1) * (high as int + 1) > n as int,
        decreases high as int + 1 - low as int,
    {
        let mid = low + (high - low) / 2;
        match mid.checked_mul(mid) {
            Some(val) => {
                if val == n {
                    proof {
                        assert((mid as int + 1) * (mid as int + 1) > n as int) by (nonlinear_arith)
                            requires mid as int * mid as int == n as int, mid >= 0,
                        {
                        }
                    }
                    return mid;
                } else if val < n {
                    proof {
                        assert(mid as int <= 0xffff_ffffu64 as int) by (nonlinear_arith)
                            requires mid as int * mid as int <= u64::MAX as int, mid >= 0,
                        {
                        }
                    }
                    low = mid + 1;
                } else {
                    proof {
                        assert(mid >= 1) by (nonlinear_arith)
                            requires mid as int * mid as int > n as int, n >= 0, mid >= 0,
                        {
                        }
                    }
                    high = mid - 1;
                }
            },
            None => {
                proof {
                    assert(mid >= 1) by (nonlinear_arith)
                        requires mid as int * mid as int > u64::MAX as int, mid >= 0,
                    {
                    }
                }
                high = mid - 1;
            },
        }
    }
    high
}

/// Two multiples of `i` are at least `i` apart.
pub proof fn lemma_multiple_gap(i: int, j: int, c: int)
    requires
        i >= 1,
        j >= 0,
        c >= 0,
        j % i == 0,
        c % i == 0,
        c > j,
    ensures
        c >= j + i,
{
    let q1 = j / i;
    let q2 = c / i;
    vstd::arithmetic::div_mod::lemma_fundamental_div_mod(j, i);
    vstd::arithmetic::div_mod::lemma_fundamental_div_mod(c, i);
    assert(c >= j + i) by (nonlinear_arith)
        requires j == i * q1, c == i * q2, c > j, i >= 1,
    {
    }
}

/// All primes in `[2, limit]`, via a boolean-array sieve of Eratosthenes.
///
/// Memory is `O(limit)`, so the crate only calls it with `limit` near the
/// square root of the range being sieved.
pub fn simple_sieve(limit: u64) -> (r: Vec<u64>)
    requires
        limit < usize::MAX as u64,
    ensures
        r@ == primes_seq(2, limit as int),
{
    if limit < 2 {
        return Vec::new();
    }
    let lim: usize = limit as usize;
    let mut flags: Vec<bool> = Vec::new();
    flags.resize(lim + 1, true);
    flags[0] = false;
    flags[1] = false;

    let lim_sqrt = integer_sqrt(limit);
    proof {
        assert(lim_sqrt as int <= lim as int) by (nonlinear_arith)
            requires
                lim_sqrt as int * lim_sqrt as int <= lim as int,
                lim as int >= 2,
                lim_sqrt >= 0,
        {
        }
        assert(lim_sqrt >= 1) by (nonlinear_arith)
            requires
                (lim_sqrt as int + 1) * (lim_sqrt as int + 1) > lim as int,
                lim as int >= 2,
                lim_sqrt >= 0,
        {
        }
    }
    let mut i: usize = 2;
    while i as u64 <= lim_sqrt
        invariant
            2 <= i,
            i as int <= lim_sqrt as int + 1,
            lim_sqrt as int <= lim as int,
            lim_sqrt as int * lim_sqrt as int <= lim as int,
            (lim_sqrt as int + 1) * (lim_sqrt as int + 1) > lim as int,
            2 <= lim <= usize::MAX - 1,
            lim == limit,
            flags.len() == lim + 1,
            flags[0] == false,
            flags[1] == false,
            forall|c: int|
                2 <= c <= lim ==> (flags[c] == false <==> exists|d: int|
                    2 <= d < i && d * d <= c && #[trigger] (c % d) == 0),
        decreases lim_sqrt as int + 1 - i as int,
    {
        proof {
            assert(i as int * i as int <= lim as int) by (nonlinear_arith)
                requires
                    2 <= i as int <= lim_sqrt as int,
                    lim_sqrt as int * lim_sqrt as int <= lim as int,
            {
            }
        }
        if flags[i] {
            let ghost flags_before = flags@;
            let mut j: usize = i * i;
            proof {
                vstd::arithmetic::div_mod::lemma_mod_multiples_basic(i as int, i as int);
            }
            while j <= lim
                invariant_except_break
                    forall|c: int|
                        #![trigger flags@[c]]
                        0 <= c <= lim ==> (flags[c] == false <==> (flags_before[c] == false || (i
                            * i <= c < j && (c % (i as int)) == 0))),
                invariant
                    2 <= i <= lim,
                    i * i <= lim,
                    2 <= lim <= usize::MAX - 1,
                    flags.len() == lim + 1,
                    flags_before.len() == lim + 1,
                    j >= i * i,
                    j as int % i as int == 0,
                ensures
                    flags.len() == lim + 1,
                    forall|c: int|
                        #![trigger flags@[c]]
                        0 <= c <= lim ==> (flags[c] == false <==> (flags_before[c] == false || (i
                            * i <= c <= lim && (c % (i as int)) == 0))),
                decreases lim as int - j as int,
            {
                let ghost flags_at_head = flags@;
                flags[j] = false;
                if j > lim - i {
                    proof {
                        assert forall|c: int|
                            0 <= c <= lim implies (flags[c] == false <==> (flags_before[c] == false
                            || (i * i <= c <= lim && (c % (i as int)) == 0))) by {
                            assert(flags@ == flags_at_head.update(j as int, false));
                            if c == j as int {
                                assert(flags[c] == false);
                                assert(i * i <= c <= lim && c % (i as int) == 0);
                            } else {
                                assert(flags[c] == flags_at_head[c]);
                                if i * i <= c <= lim && c % (i as int) == 0 && c > j as int {
                                    // j + i already exceeds lim, so no further
                                    // multiple of i fits below lim
                                    lemma_multiple_gap(i as int, j as int, c);
                                    assert(false);
                                }
                            }
                        }
                    }
                    break;
                }
                j = j + i;
                proof {
                    vstd::arithmetic::div_mod::lemma_mod_add_multiples_vanish(
                        j as int - i as int,
                        i as int,
                    );
                    assert forall|c: int|
                        0 <= c <= lim implies (flags[c] == false <==> (flags_before[c] == false
                        || (i * i <= c < j && (c % (i as int)) == 0))) by {
                        assert(flags@ == flags_at_head.update(j as int - i as int, false));
                        if c == j as int - i as int {
                            assert(flags[c] == false);
                            assert(i * i <= c);
                            assert(c < j);
                            assert((c % (i as int)) == 0);
                        } else {
                            assert(flags[c] == flags_at_head[c]);
                            assert(flags_at_head[c] == false <==> (flags_before[c] == false || (i
                                * i <= c && c < (j as int - i as int) && (c % (i as int)) == 0)));
                            if c % (i as int) == 0 && (j as int - i as int) < c && c < j as int {
                                // no multiple of i lies strictly between two
                                // consecutive multiples
                                lemma_multiple_gap(i as int, j as int - i as int, c);
                                assert(false);
                            }
                        }
                    }
                }
            }
            proof {
                assert(flags[0] == false) by {
                    assert((0int) % (i as int) == 0);
                }
                assert(flags[1] == false) by {
                    vstd::arithmetic::div_mod::lemma_small_mod(1nat, i as nat);
                    assert((1int) % (i as int) == 1);
                }
                assert forall|c: int|
                    2 <= c <= lim implies (flags[c] == false <==> exists|d: int|
                    2 <= d < i as int + 1 && d * d <= c && #[trigger] (c % d) == 0) by {
                    if flags[c] == false {
                        if flags_before[c] == false {
                            let d = choose|d: int|
                                2 <= d < i as int && d * d <= c && #[trigger] (c % d) == 0;
                            assert(2 <= d < i as int + 1 && d * d <= c && c % d == 0);
                        } else {
                            assert(i as int * i as int <= c && c % (i as int) == 0);
                        }
                    } else {
                        if exists|d: int|
                            2 <= d < i as int + 1 && d * d <= c && #[trigger] (c % d) == 0 {
                            let d = choose|d: int|
                                2 <= d < i as int + 1 && d * d <= c && #[trigger] (c % d) == 0;
                            if d < i as int {
                                assert(flags_before[c] == false);
                            } else {
                                assert(d == i as int);
                                assert((c % (i as int)) == 0);
                                assert(i as int * i as int <= c);
                                assert(flags[c] == false);
                            }
                            assert(false);
                        }
                    }
                }
            }
        } else {
            proof {
                // i is composite here, so every multiple of i was already
                // marked through a smaller divisor of i.
                assert(flags[i as int] == false);
                assert(exists|d: int|
                    2 <= d < i as int && d * d <= i as int && #[trigger] (i as int % d) == 0);
                let di = choose|d: int|
                    2 <= d < i as int && d * d <= i as int && #[trigger] (i as int % d) == 0;
                assert forall|c: int|
                    2 <= c <= lim implies (flags[c] == false <==> exists|d: int|
                    2 <= d < i as int + 1 && d * d <= c && #[trigger] (c % d) == 0) by {
                    if flags[c] == false {
                        let d = choose|d: int|
                            2 <= d < i as int && d * d <= c && #[trigger] (c % d) == 0;
                        assert(2 <= d < i as int + 1 && d * d <= c && c % d == 0);
                    } else {
                        if exists|d: int|
                            2 <= d < i as int + 1 && d * d <= c && #[trigger] (c % d) == 0 {
                            let d = choose|d: int|
                                2 <= d < i as int + 1 && d * d <= c && #[trigger] (c % d) == 0;
                            if d == i as int {
                                crate::primes::lemma_divides_transitive(di, i as int, c);
                                assert(di * di <= c) by (nonlinear_arith)
                                    requires
                                        di * di <= i as int,
                                        i as int * i as int <= c,
                                        2 <= i as int,
                                {
                                }
                                assert(flags[c] == false);
                            } else {
                                assert(flags[c] == false);
                            }
                            assert(false);
                        }
                    }
                }
            }
        }
        i = i + 1;
    }

    proof {
        assert forall|c: int| 2 <= c <= lim implies (flags[c] == true <==> is_prime(c)) by {
            if flags[c] == false {
                let d = choose|d: int| 2 <= d < i as int && d * d <= c && #[trigger] (c % d) == 0;
                assert(d < c) by (nonlinear_arith)
                    requires 2 <= d, d * d <= c,
                {
                }
                assert(!is_prime(c));
            } else {
                if !is_prime(c) {
                    let q = lemma_composite_has_small_prime_factor(c);
                    assert(q <= lim_sqrt as int) by (nonlinear_arith)
                        requires
                            q * q <= c,
                            c <= lim as int,
                            (lim_sqrt as int + 1) * (lim_sqrt as int + 1) > lim as int,
                            q >= 2,
                            lim_sqrt >= 0,
                    {
                    }
                    assert(2 <= q < i as int && q * q <= c && c % q == 0);
                    assert(false);
                }
            }
        }
    }

    let mut primes: Vec<u64> = Vec::new();
    let mut k: usize = 2;
    while k <= lim
        invariant
            2 <= k <= lim + 1,
            2 <= lim <= usize::MAX - 1,
            lim == limit,
            flags.len() == lim + 1,
            forall|c: int| 2 <= c <= lim ==> (flags[c] == true <==> is_prime(c)),
            primes@ == primes_seq(2, k as int - 1),
        decreases lim as int + 1 - k as int,
    {
        if flags[k] {
            primes.push(k as u64);
        }
        k = k + 1;
    }
    primes
}

} // verus!
