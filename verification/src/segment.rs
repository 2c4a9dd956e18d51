//! The segment sieving kernel: computes the sorted primes of one
//! wheel-aligned sub-range, marking composites by the shared small primes.

use vstd::prelude::*;

use crate::bits::bit_seq;
use crate::bits::bits_clear;
use crate::bits::bits_get;
use crate::bits::bits_new;
use crate::cancel::CancelFlag;
use crate::config::WheelType;
use crate::primes::is_prime;
use crate::primes::lemma_composite_has_small_prime_factor;
use crate::primes::lemma_primes_seq_contains;
use crate::primes::lemma_primes_seq_elements;
use crate::primes::lemma_primes_seq_empty;
use crate::primes::lemma_primes_seq_increasing;
use crate::primes::primes_seq;
use crate::wheel::calculate_bitvec_size;
use crate::wheel::adjust_low;
use crate::wheel::index_value;
use crate::wheel::is_candidate;
use crate::wheel::is_wheel_candidate;
use crate::wheel::lemma_candidate_coprime;
use crate::wheel::lemma_index_fits;
use crate::wheel::lemma_noncandidate_composite;
use crate::wheel::lemma_rank_strictly_increasing;
use crate::wheel::lemma_rank_unrank;
use crate::wheel::lemma_seg_value_basics;
use crate::wheel::lemma_unrank_rank;
use crate::wheel::n_to_index;
use crate::wheel::seg_value;
use crate::wheel::spec_bitvec_size;
use crate::wheel::wheel_max_excluded;
use crate::wheel::wheel_max_excluded_prime;
use crate::wheel::wheel_rank;

verus! {

/// What the kernel assumes of its inputs: the sub-range sits above the
/// wheel's excluded primes, is no wider than the memory advisor's maximum,
/// and the small-prime table lists every prime up to some `root` whose
/// square exceeds the sub-range's top.
pub open spec fn segment_inputs_ok(lo: int, hi: int, sp: Seq<u64>, w: WheelType) -> bool {
    &&& wheel_max_excluded(w) < lo
    &&& hi - lo + 1 <= 1_000_000_000
    &&& hi <= u64::MAX
    &&& exists|root: int|
        0 <= root <= u64::MAX && sp == primes_seq(2, root) && #[trigger] (root * root) > hi
}

/// Whether the small prime `p` marks `v` composite: `p` is not excluded by
/// the wheel, `p * p` does not exceed `v`, and `p` divides `v`.
pub open spec fn seg_clearer(w: WheelType, p: int, v: int) -> bool {
    &&& p > wheel_max_excluded(w)
    &&& p * p <= v
    &&& v % p == 0
}

/// Whether one of the first `k` small primes clears the in-range value `v`.
pub open spec fn seg_cleared(w: WheelType, hi: int, sp: Seq<u64>, k: int, v: int) -> bool {
    v <= hi && exists|t: int| 0 <= t < k && #[trigger] seg_clearer(w, sp[t] as int, v)
}

/// Extending the prime prefix by one either adds that prime's multiples or
/// changes nothing.
proof fn lemma_cleared_step(w: WheelType, hi: int, sp: Seq<u64>, k: int, v: int)
    requires
        0 <= k < sp.len(),
    ensures
        seg_cleared(w, hi, sp, k + 1, v) == (seg_cleared(w, hi, sp, k, v) || (v <= hi
            && seg_clearer(w, sp[k as int] as int, v))),
{
    if seg_cleared(w, hi, sp, k + 1, v) {
        let t = choose|t: int| 0 <= t < k + 1 && #[trigger] seg_clearer(w, sp[t] as int, v);
        if t < k {
            assert(seg_cleared(w, hi, sp, k, v));
        }
    }
    if seg_cleared(w, hi, sp, k, v) {
        let t = choose|t: int| 0 <= t < k && #[trigger] seg_clearer(w, sp[t] as int, v);
        assert(seg_clearer(w, sp[t] as int, v));
    }
}

/// The heart of the kernel's exactness: over the whole small-prime table, a
/// candidate of the sub-range is cleared exactly when it is composite.
proof fn lemma_cleared_iff_composite(w: WheelType, v: int, hi: int, sp: Seq<u64>, root: int)
    requires
        0 <= root <= u64::MAX,
        sp == primes_seq(2, root),
        root * root > hi,
        is_candidate(w, v),
        wheel_max_excluded(w) < v <= hi,
    ensures
        seg_cleared(w, hi, sp, sp.len() as int, v) <==> !is_prime(v),
{
    lemma_primes_seq_elements(2, root);
    if seg_cleared(w, hi, sp, sp.len() as int, v) {
        let t = choose|t: int|
            0 <= t < sp.len() && #[trigger] seg_clearer(w, sp[t] as int, v);
        let p = sp[t] as int;
        assert(is_prime(p));
        assert(p < v) by (nonlinear_arith)
            requires p >= 2, p * p <= v,
        {
        }
        assert(v % p == 0);
        assert(!is_prime(v));
    }
    if !is_prime(v) {
        let q = lemma_composite_has_small_prime_factor(v);
        assert(q <= root) by (nonlinear_arith)
            requires q * q <= v, v <= hi, root * root > hi, q >= 2, root >= 0,
        {
        }
        lemma_primes_seq_contains(2, root, q as u64);
        assert(sp.contains(q as u64));
        let t = choose|t: int| 0 <= t < sp.len() && sp[t] == q as u64;
        if q <= wheel_max_excluded(w) {
            lemma_candidate_coprime(w, v);
            assert(4int % 2 == 0);
            assert(!is_prime(4));
            assert(q == 2 || q == 3 || q == 5);
            crate::primes::lemma_divides_transitive(q, q, v);
            assert(false);
        }
        assert(seg_clearer(w, sp[t] as int, v));
        assert(seg_cleared(w, hi, sp, sp.len() as int, v));
    }
}

/// Context carried through the kernel's loops.
pub open spec fn kernel_ctx(
    w: WheelType,
    li: int,
    lo: int,
    hi: int,
    sp: Seq<u64>,
    root: int,
    len: int,
) -> bool {
    &&& wheel_max_excluded(w) < li
    &&& li <= lo <= hi <= u64::MAX
    &&& is_candidate(w, lo)
    &&& forall|m: int| li <= m < lo ==> !is_candidate(w, m)
    &&& hi - li + 1 <= 1_000_000_000
    &&& 0 <= root <= u64::MAX
    &&& sp == primes_seq(2, root)
    &&& root * root > hi
    &&& len == spec_bitvec_size(w, lo, hi)
}

/// An interval that holds no candidates above the wheel's excluded primes
/// holds no primes.
proof fn lemma_no_candidates_no_primes(w: WheelType, a: int, b: int)
    requires
        wheel_max_excluded(w) < a,
        forall|m: int| a <= m <= b ==> !is_candidate(w, m),
    ensures
        primes_seq(a, b) == Seq::<u64>::empty(),
{
    assert forall|m: int| a <= m <= b implies !is_prime(m) by {
        lemma_noncandidate_composite(w, m);
    }
    lemma_primes_seq_empty(a, b);
}

/// The sorted primes of `[low_inclusive, high_inclusive]`, or `None` when
/// the cancellation flag was observed set.
///
/// The flag is written by another thread, so nothing can be promised about
/// when `None` comes back; whenever the kernel does return a list, it is
/// exactly the primes of the sub-range, in increasing order.
#[verifier::rlimit(100)]
pub fn sieve_segment_collect(
    low_inclusive: u64,
    high_inclusive: u64,
    small_primes: &Vec<u64>,
    stop_flag: &CancelFlag,
    wheel_type: WheelType,
) -> (r: Option<Vec<u64>>)
    requires
        segment_inputs_ok(
            low_inclusive as int,
            high_inclusive as int,
            small_primes@,
            wheel_type,
        ),
    ensures
        r matches Some(v) ==> v@ == primes_seq(low_inclusive as int, high_inclusive as int),
{
    let ghost w = wheel_type;
    let ghost li = low_inclusive as int;
    let ghost hi = high_inclusive as int;
    let ghost sp = small_primes@;
    let ghost root = choose|root: int|
        0 <= root <= u64::MAX && sp == primes_seq(2, root) && #[trigger] (root * root) > hi;

    if low_inclusive > high_inclusive {
        return Some(Vec::new());
    }
    let low = match adjust_low(low_inclusive, wheel_type) {
        Some(v) => v,
        None => {
            proof {
                lemma_no_candidates_no_primes(w, li, hi);
            }
            return Some(Vec::new());
        },
    };
    if low > high_inclusive {
        proof {
            lemma_no_candidates_no_primes(w, li, hi);
        }
        return Some(Vec::new());
    }

    let len = calculate_bitvec_size(low, high_inclusive, wheel_type);
    proof {
        lemma_index_fits(w, low as int, low as int, hi);
        assert(len >= 1);
    }
    let mut bits = bits_new(len);

    let ghost lo = low as int;
    let mut k: usize = 0;
    while k < small_primes.len()
        invariant_except_break
            forall|ii: int|
                #![trigger bit_seq(&bits)[ii]]
                0 <= ii < len ==> (bit_seq(&bits)[ii] == false <==> seg_cleared(
                    w,
                    hi,
                    sp,
                    k as int,
                    seg_value(w, lo, ii),
                )),
        invariant
            0 <= k <= sp.len(),
            sp == small_primes@,
            w == wheel_type,
            lo == low as int,
            hi == high_inclusive as int,
            bit_seq(&bits).len() == len,
            len >= 1,
            kernel_ctx(w, li, lo, hi, sp, root, len as int),
        ensures
            bit_seq(&bits).len() == len,
            forall|ii: int|
                #![trigger bit_seq(&bits)[ii]]
                0 <= ii < len ==> (bit_seq(&bits)[ii] == false <==> seg_cleared(
                    w,
                    hi,
                    sp,
                    sp.len() as int,
                    seg_value(w, lo, ii),
                )),
        decreases sp.len() - k,
    {
        if stop_flag.is_set() {
            return None;
        }
        let p = small_primes[k];
        proof {
            lemma_primes_seq_elements(2, root);
            assert(is_prime(sp[k as int] as int));
            assert(2 <= p);
        }
        let wmax = wheel_max_excluded_prime(wheel_type);
        if p <= wmax {
            proof {
                assert forall|ii: int| 0 <= ii < len implies (#[trigger] bit_seq(&bits)[ii]
                    == false <==> seg_cleared(w, hi, sp, k as int + 1, seg_value(w, lo, ii))) by {
                    lemma_cleared_step(w, hi, sp, k as int, seg_value(w, lo, ii));
                }
            }
            k = k + 1;
            continue;
        }
        let p2 = match p.checked_mul(p) {
            Some(x) => x,
            None => {
                proof {
                    lemma_primes_seq_increasing(2, root);
                    assert forall|ii: int| 0 <= ii < len implies (#[trigger] bit_seq(
                        &bits,
                    )[ii] == false <==> seg_cleared(w, hi, sp, sp.len() as int, seg_value(
                        w,
                        lo,
                        ii,
                    ))) by {
                        let v = seg_value(w, lo, ii);
                        if seg_cleared(w, hi, sp, sp.len() as int, v) && !seg_cleared(
                            w,
                            hi,
                            sp,
                            k as int,
                            v,
                        ) {
                            let t = choose|t: int|
                                0 <= t < sp.len() && #[trigger] seg_clearer(w, sp[t] as int, v);
                            assert(t >= k);
                            assert(sp[t] >= p);
                            assert(sp[t] as int * sp[t] as int >= p as int * p as int)
                                by (nonlinear_arith)
                                requires sp[t] as int >= p as int, p as int >= 2,
                            {
                            }
                            assert(false);
                        }
                    }
                }
                break;
            },
        };
        if p2 > high_inclusive {
            proof {
                lemma_primes_seq_increasing(2, root);
                assert forall|ii: int| 0 <= ii < len implies (#[trigger] bit_seq(&bits)[ii]
                    == false <==> seg_cleared(w, hi, sp, sp.len() as int, seg_value(
                    w,
                    lo,
                    ii,
                ))) by {
                    let v = seg_value(w, lo, ii);
                    if seg_cleared(w, hi, sp, sp.len() as int, v) && !seg_cleared(
                        w,
                        hi,
                        sp,
                        k as int,
                        v,
                    ) {
                        let t = choose|t: int|
                            0 <= t < sp.len() && #[trigger] seg_clearer(w, sp[t] as int, v);
                        assert(t >= k);
                        assert(sp[t] >= p);
                        assert(sp[t] as int * sp[t] as int >= p as int * p as int)
                            by (nonlinear_arith)
                            requires sp[t] as int >= p as int, p as int >= 2,
                        {
                        }
                        assert(false);
                    }
                }
            }
            break;
        }
        // first multiple of p at or above low
        let rem = low % p;
        let start0_opt: Option<u64> = if rem == 0 {
            Some(low)
        } else {
            low.checked_add(p - rem)
        };
        let start0 = match start0_opt {
            Some(s) => s,
            None => {
                proof {
                    // the first multiple of p at or above low already
                    // exceeds u64::MAX, so p clears nothing here
                    assert forall|ii: int| 0 <= ii < len implies (#[trigger] bit_seq(
                        &bits,
                    )[ii] == false <==> seg_cleared(w, hi, sp, k as int + 1, seg_value(
                        w,
                        lo,
                        ii,
                    ))) by {
                        let v = seg_value(w, lo, ii);
                        lemma_cleared_step(w, hi, sp, k as int, v);
                        if v <= hi && seg_clearer(w, sp[k as int] as int, v) {
                            lemma_seg_value_basics(w, lo, ii);
                            vstd::arithmetic::div_mod::lemma_fundamental_div_mod(
                                lo,
                                p as int,
                            );
                            vstd::arithmetic::div_mod::lemma_mod_multiples_basic(
                                lo / p as int,
                                p as int,
                            );
                            vstd::arithmetic::mul::lemma_mul_is_commutative(
                                p as int,
                                lo / p as int,
                            );
                            assert((lo - rem as int) % (p as int) == 0);
                            crate::sieve_math::lemma_multiple_gap(
                                p as int,
                                lo - rem as int,
                                v,
                            );
                            assert(false);
                        }
                    }
                }
                k = k + 1;
                continue;
            },
        };
        proof {
            vstd::arithmetic::div_mod::lemma_fundamental_div_mod(lo, p as int);
            if rem != 0 {
                assert((lo / p as int + 1) * p as int == (lo / p as int) * p as int
                    + p as int) by {
                    vstd::arithmetic::mul::lemma_mul_is_distributive_add_other_way(
                        p as int,
                        lo / p as int,
                        1,
                    );
                }
                vstd::arithmetic::mul::lemma_mul_is_commutative(p as int, lo / p as int);
                vstd::arithmetic::div_mod::lemma_fundamental_div_mod_converse(
                    start0 as int,
                    p as int,
                    lo / p as int + 1,
                    0,
                );
            }
            assert(start0 as int % p as int == 0);
            assert(lo <= start0 as int);
        }
        let start = if start0 < p2 {
            proof {
                vstd::arithmetic::div_mod::lemma_mod_multiples_basic(p as int, p as int);
            }
            p2
        } else {
            start0
        };
        proof {
            assert(start as int % p as int == 0);
            // every multiple of p that is a segment value and at least p*p
            // is at least start
            assert((start0 as int - p as int) < lo);
            assert forall|ii: int| 0 <= ii < len implies (#[trigger] bit_seq(&bits)[ii]
                == false <==> (seg_cleared(w, hi, sp, k as int, seg_value(w, lo, ii)) || (
            p as int * p as int <= seg_value(w, lo, ii) && seg_value(w, lo, ii) % (p as int)
                == 0 && seg_value(w, lo, ii) <= hi && seg_value(w, lo, ii)
                < start as int))) by {
                let v = seg_value(w, lo, ii);
                lemma_seg_value_basics(w, lo, ii);
                if p as int * p as int <= v && v % (p as int) == 0 && v < start as int {
                    // no multiple of p at or above both low and p * p lies
                    // below start
                    assert((start0 as int) <= start as int || p2 as int <= start as int);
                    vstd::arithmetic::div_mod::lemma_mod_sub_multiples_vanish(
                        start0 as int,
                        p as int,
                    );
                    crate::sieve_math::lemma_multiple_gap(
                        p as int,
                        start0 as int - p as int,
                        v,
                    );
                    assert(v >= start0);
                    assert(false);
                }
            }
        }
        let mut n = start;
        while n <= high_inclusive
            invariant_except_break
                forall|ii: int|
                    #![trigger bit_seq(&bits)[ii]]
                    0 <= ii < len ==> (bit_seq(&bits)[ii] == false <==> (seg_cleared(
                        w,
                        hi,
                        sp,
                        k as int,
                        seg_value(w, lo, ii),
                    ) || (p as int * p as int <= seg_value(w, lo, ii) && seg_value(w, lo, ii) % (
                    p as int) == 0 && seg_value(w, lo, ii) <= hi && seg_value(w, lo, ii)
                        < n as int))),
            invariant
                0 <= k < sp.len(),
                sp == small_primes@,
                w == wheel_type,
                lo == low as int,
                hi == high_inclusive as int,
                bit_seq(&bits).len() == len,
                len >= 1,
                kernel_ctx(w, li, lo, hi, sp, root, len as int),
                p == sp[k as int],
                2 <= p,
                p as int > wheel_max_excluded(w),
                p2 as int == p as int * p as int,
                p2 <= high_inclusive,
                start as int % p as int == 0,
                start0 as int % p as int == 0,
                (start0 as int - p as int) < lo,
                lo <= start0 as int,
                start as int == (if (start0 as int) < p2 as int {
                    p2 as int
                } else {
                    start0 as int
                }),
                n >= start,
                n as int % p as int == 0,
            ensures
                bit_seq(&bits).len() == len,
                forall|ii: int|
                    #![trigger bit_seq(&bits)[ii]]
                    0 <= ii < len ==> (bit_seq(&bits)[ii] == false <==> (seg_cleared(
                        w,
                        hi,
                        sp,
                        k as int,
                        seg_value(w, lo, ii),
                    ) || (p as int * p as int <= seg_value(w, lo, ii) && seg_value(w, lo, ii) % (
                    p as int) == 0 && seg_value(w, lo, ii) <= hi))),
            decreases hi + p as int - n as int,
        {
            if stop_flag.is_set() {
                return None;
            }
            let ghost bits_head = bit_seq(&bits);
            if is_wheel_candidate(n, wheel_type) {
                proof {
                    lemma_unrank_rank(w, lo);
                    lemma_index_fits(w, lo, n as int, hi);
                }
                let idx = match n_to_index(n, low, wheel_type) {
                    Some(i) => i,
                    None => {
                        proof {
                            assert(false);
                        }
                        0
                    },
                };
                proof {
                    assert(idx < len);
                }
                bits_clear(&mut bits, idx);
                proof {
                    lemma_rank_unrank(w, wheel_rank(w, lo) + idx as int);
                    lemma_unrank_rank(w, n as int);
                    assert(seg_value(w, lo, idx as int) == n as int);
                }
            }
            proof {
                // whether or not n was a candidate, every candidate multiple
                // of p below n + p and at least p * p is now cleared
                assert forall|ii: int| 0 <= ii < len implies (#[trigger] bit_seq(&bits)[ii]
                    == false <==> (seg_cleared(w, hi, sp, k as int, seg_value(w, lo, ii)) || (
                p as int * p as int <= seg_value(w, lo, ii) && seg_value(w, lo, ii) % (p as int)
                    == 0 && seg_value(w, lo, ii) <= hi && seg_value(w, lo, ii) < n as int
                    + p as int))) by {
                    let v = seg_value(w, lo, ii);
                    lemma_seg_value_basics(w, lo, ii);
                    if is_candidate(w, n as int) {
                        let nidx = wheel_rank(w, n as int) - wheel_rank(w, lo);
                        if ii == nidx {
                            assert(bit_seq(&bits)[ii] == false);
                            assert(v == n as int);
                        } else {
                            assert(bit_seq(&bits)[ii] == bits_head[ii]);
                            lemma_unrank_rank(w, n as int);
                            assert(v != n as int);
                            if v % (p as int) == 0 && (n as int) < v && v < n as int + p as int {
                                crate::sieve_math::lemma_multiple_gap(p as int, n as int, v);
                                assert(false);
                            }
                        }
                    } else {
                        assert(bit_seq(&bits)[ii] == bits_head[ii]);
                        assert(v != n as int);
                        if v % (p as int) == 0 && (n as int) < v && v < n as int + p as int {
                            crate::sieve_math::lemma_multiple_gap(p as int, n as int, v);
                            assert(false);
                        }
                    }
                }
            }
            match n.checked_add(p) {
                Some(m) => {
                    proof {
                        vstd::arithmetic::div_mod::lemma_mod_add_multiples_vanish(
                            n as int,
                            p as int,
                        );
                    }
                    n = m;
                },
                None => {
                    proof {
                        assert forall|ii: int| 0 <= ii < len implies (#[trigger] bit_seq(
                            &bits,
                        )[ii] == false <==> (seg_cleared(w, hi, sp, k as int, seg_value(w, lo, ii))
                            || (p as int * p as int <= seg_value(w, lo, ii) && seg_value(w, lo, ii)
                            % (p as int) == 0 && seg_value(w, lo, ii) <= hi))) by {
                            let v = seg_value(w, lo, ii);
                            assert(v <= hi ==> v < n as int + p as int);
                        }
                    }
                    break;
                },
            }
        }
        proof {
            // merge p's multiples into the cleared set for k + 1 primes
            assert forall|ii: int| 0 <= ii < len implies (#[trigger] bit_seq(&bits)[ii] == false
                <==> seg_cleared(w, hi, sp, k as int + 1, seg_value(w, lo, ii))) by {
                let v = seg_value(w, lo, ii);
                lemma_cleared_step(w, hi, sp, k as int, v);
            }
        }
        k = k + 1;
    }

    // collect the survivors in increasing order
    proof {
        lemma_seg_value_basics(w, lo, 0);
    }
    let mut primes: Vec<u64> = Vec::new();
    let ghost mut covered: int = li - 1;
    let mut i: usize = 0;
    while i < len
        invariant
            0 <= i <= len,
            sp == small_primes@,
            w == wheel_type,
            lo == low as int,
            hi == high_inclusive as int,
            bit_seq(&bits).len() == len,
            len >= 1,
            kernel_ctx(w, li, lo, hi, sp, root, len as int),
            forall|ii: int|
                #![trigger bit_seq(&bits)[ii]]
                0 <= ii < len ==> (bit_seq(&bits)[ii] == false <==> seg_cleared(
                    w,
                    hi,
                    sp,
                    sp.len() as int,
                    seg_value(w, lo, ii),
                )),
            primes@ == primes_seq(li, covered),
            li - 1 <= covered <= hi,
            seg_value(w, lo, i as int) > covered || seg_value(w, lo, i as int) > hi,
            forall|u: int|
                #![trigger wheel_rank(w, u)]
                covered < u <= hi && is_candidate(w, u) ==> wheel_rank(w, u) - wheel_rank(w, lo)
                    >= i as int,
        decreases len - i,
    {
        let ghost v = seg_value(w, lo, i as int);
        let ghost vh = if v <= hi { v } else { hi };
        let ghost newcov = if covered >= vh { covered } else { vh };
        proof {
            lemma_seg_value_basics(w, lo, i as int);
            // between the old cover and this slot's value nothing is prime:
            // a candidate there would sit in an earlier slot
            assert forall|u: int| covered < u <= newcov && u != v implies !is_prime(u) by {
                if is_candidate(w, u) {
                    assert(wheel_rank(w, u) - wheel_rank(w, lo) >= i as int);
                    lemma_rank_strictly_increasing(w, u, v);
                    lemma_unrank_rank(w, u);
                    assert(false);
                } else {
                    lemma_noncandidate_composite(w, u);
                }
            }
        }
        let keep = bits_get(&bits, i);
        if keep {
            match index_value(i as u64, low, wheel_type) {
                Some(vv) => {
                    if vv <= high_inclusive {
                        proof {
                            assert(vv as int == v);
                            assert(v <= hi);
                            assert(v > covered);
                            assert(newcov == v);
                            lemma_cleared_iff_composite(w, v, hi, sp, root);
                            assert(is_prime(v));
                            crate::primes::lemma_primes_seq_no_primes_extend(li, covered, v - 1);
                            assert(primes@ == primes_seq(li, v - 1));
                            assert(primes_seq(li, v) == primes_seq(li, v - 1).push(vv));
                            covered = newcov;
                        }
                        primes.push(vv);
                    } else {
                        proof {
                            assert(v > hi);
                            if newcov > covered {
                                crate::primes::lemma_primes_seq_no_primes_extend(
                                    li,
                                    covered,
                                    newcov,
                                );
                            }
                            covered = newcov;
                        }
                    }
                },
                None => {
                    proof {
                        assert(v > u64::MAX as int);
                        if newcov > covered {
                            crate::primes::lemma_primes_seq_no_primes_extend(li, covered, newcov);
                        }
                        covered = newcov;
                    }
                },
            }
        } else {
            proof {
                if v <= hi {
                    assert(v > covered);
                    assert(newcov == v);
                    lemma_cleared_iff_composite(w, v, hi, sp, root);
                    assert(!is_prime(v));
                    crate::primes::lemma_primes_seq_no_primes_extend(li, covered, newcov);
                } else {
                    if newcov > covered {
                        crate::primes::lemma_primes_seq_no_primes_extend(li, covered, newcov);
                    }
                }
                covered = newcov;
            }
        }
        proof {
            // candidates beyond the new cover sit in later slots
            assert forall|u: int|
                covered < u <= hi && is_candidate(w, u) implies #[trigger] wheel_rank(w, u)
                - wheel_rank(w, lo) >= i as int + 1 by {
                lemma_unrank_rank(w, u);
                lemma_seg_value_basics(w, lo, i as int);
                if wheel_rank(w, u) - wheel_rank(w, lo) == i as int {
                    assert(u == v);
                    assert(false);
                }
            }
            // the next slot's value clears the new cover (or the range top)
            lemma_seg_value_basics(w, lo, i as int + 1);
        }
        i = i + 1;
    }
    proof {
        // nothing prime is left between the cover and the top of the range
        assert forall|u: int| covered < u <= hi implies !is_prime(u) by {
            if is_candidate(w, u) {
                assert(wheel_rank(w, u) - wheel_rank(w, lo) >= len as int);
                lemma_unrank_rank(w, u);
                lemma_index_fits(w, lo, u, hi);
                assert(false);
            } else {
                lemma_noncandidate_composite(w, u);
            }
        }
        if covered < hi {
            crate::primes::lemma_primes_seq_no_primes_extend(li, covered, hi);
        }
    }
    Some(primes)
}

} // verus!
