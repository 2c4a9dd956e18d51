//! Wheel coordinate mapping: the bijection between wheel-valid integers and
//! dense per-segment bit-array indices, for each wheel variant.
//!
//! A wheel of period `P` keeps only `C` residues per period (the candidates,
//! coprime to the wheel's base). `wheel_rank(w, n)` counts the candidates
//! below `n`; `wheel_unrank(w, t)` is its inverse. A segment whose aligned
//! low bound is the candidate `low` stores the candidate `n` at bit index
//! `wheel_rank(w, n) - wheel_rank(w, low)`.

use vstd::prelude::*;

use crate::config::WheelType;

verus! {

/// The wheel's period: candidates repeat modulo this base.
pub open spec fn wheel_period(w: WheelType) -> int {
    match w {
        WheelType::Odd => 2,
        WheelType::Mod6 => 6,
        WheelType::Mod30 => 30,
    }
}

/// How many candidates one period holds.
pub open spec fn wheel_cpp(w: WheelType) -> int {
    match w {
        WheelType::Odd => 1,
        WheelType::Mod6 => 2,
        WheelType::Mod30 => 8,
    }
}

/// Whether the residue `r` (taken modulo the period) is kept by the wheel.
pub open spec fn wheel_candidate_residue(w: WheelType, r: int) -> bool {
    match w {
        WheelType::Odd => r == 1,
        WheelType::Mod6 => r == 1 || r == 5,
        WheelType::Mod30 => r == 1 || r == 7 || r == 11 || r == 13 || r == 17 || r == 19 || r
            == 23 || r == 29,
    }
}

/// Whether `n` survives the wheel's pre-exclusion.
pub open spec fn is_candidate(w: WheelType, n: int) -> bool {
    wheel_candidate_residue(w, n % wheel_period(w))
}

/// How many candidate residues lie strictly below `r` within one period.
pub open spec fn wheel_slot(w: WheelType, r: int) -> int {
    match w {
        WheelType::Odd => (if r > 1 {
            1int
        } else {
            0int
        }),
        WheelType::Mod6 => (if r > 1 {
            1int
        } else {
            0int
        }) + (if r > 5 {
            1int
        } else {
            0int
        }),
        WheelType::Mod30 => (if r > 1 {
            1int
        } else {
            0int
        }) + (if r > 7 {
            1int
        } else {
            0int
        }) + (if r > 11 {
            1int
        } else {
            0int
        }) + (if r > 13 {
            1int
        } else {
            0int
        }) + (if r > 17 {
            1int
        } else {
            0int
        }) + (if r > 19 {
            1int
        } else {
            0int
        }) + (if r > 23 {
            1int
        } else {
            0int
        }) + (if r > 29 {
            1int
        } else {
            0int
        }),
    }
}

/// The `s`-th candidate residue of the wheel, for `0 <= s < wheel_cpp(w)`.
pub open spec fn wheel_residue(w: WheelType, s: int) -> int {
    match w {
        WheelType::Odd => 1,
        WheelType::Mod6 => (if s == 0 {
            1int
        } else {
            5int
        }),
        WheelType::Mod30 => (if s == 0 {
            1int
        } else if s == 1 {
            7int
        } else if s == 2 {
            11int
        } else if s == 3 {
            13int
        } else if s == 4 {
            17int
        } else if s == 5 {
            19int
        } else if s == 6 {
            23int
        } else {
            29int
        }),
    }
}

/// How many candidates lie in `[0, n)`.
pub open spec fn wheel_rank(w: WheelType, n: int) -> int {
    (n / wheel_period(w)) * wheel_cpp(w) + wheel_slot(w, n % wheel_period(w))
}

/// The candidate whose rank is `t`: the inverse of `wheel_rank` on
/// candidates.
pub open spec fn wheel_unrank(w: WheelType, t: int) -> int {
    (t / wheel_cpp(w)) * wheel_period(w) + wheel_residue(w, t % wheel_cpp(w))
}

/// The slot table and the residue table are inverse to each other.
proof fn lemma_slot_residue_inverse(w: WheelType)
    ensures
        forall|s: int|
            0 <= s < wheel_cpp(w) ==> {
                &&& wheel_candidate_residue(w, #[trigger] wheel_residue(w, s))
                &&& 0 <= wheel_residue(w, s) < wheel_period(w)
                &&& wheel_slot(w, wheel_residue(w, s)) == s
            },
        forall|r: int|
            0 <= r < wheel_period(w) && wheel_candidate_residue(w, r) ==> wheel_residue(
                w,
                #[trigger] wheel_slot(w, r),
            ) == r,
        forall|r1: int, r2: int|
            0 <= r1 <= r2 <= wheel_period(w) ==> #[trigger] wheel_slot(w, r1)
                <= #[trigger] wheel_slot(w, r2),
        forall|r1: int, r2: int|
            0 <= r1 < r2 <= wheel_period(w) && wheel_candidate_residue(w, r1)
                ==> #[trigger] wheel_slot(w, r1) < #[trigger] wheel_slot(w, r2),
        forall|r: int| 0 <= r < wheel_period(w) ==> 0 <= #[trigger] wheel_slot(w, r) < wheel_cpp(w),
        wheel_slot(w, wheel_period(w)) == wheel_cpp(w),
{
}

/// `wheel_unrank` produces a candidate whose rank is the given index.
pub proof fn lemma_rank_unrank(w: WheelType, t: int)
    requires
        t >= 0,
    ensures
        wheel_unrank(w, t) >= 0,
        is_candidate(w, wheel_unrank(w, t)),
        wheel_rank(w, wheel_unrank(w, t)) == t,
{
    lemma_slot_residue_inverse(w);
    let cpp = wheel_cpp(w);
    let p = wheel_period(w);
    let q = t / cpp;
    let s = t % cpp;
    vstd::arithmetic::div_mod::lemma_fundamental_div_mod(t, cpp);
    let res = wheel_residue(w, s);
    let u = q * p + res;
    assert(q >= 0) by {
        vstd::arithmetic::div_mod::lemma_div_pos_is_pos(t, cpp);
    }
    assert(u >= 0) by (nonlinear_arith)
        requires q >= 0, p > 0, res >= 0, u == q * p + res,
    {
    }
    vstd::arithmetic::div_mod::lemma_fundamental_div_mod_converse(u, p, q, res);
    assert(u % p == res);
    assert(u / p == q);
    assert(wheel_rank(w, u) == q * cpp + wheel_slot(w, res));
    assert(wheel_slot(w, res) == s);
    assert(q * cpp == cpp * q) by {
        vstd::arithmetic::mul::lemma_mul_is_commutative(q, cpp);
    }
}

/// Applying `wheel_unrank` to a candidate's rank returns the candidate.
pub proof fn lemma_unrank_rank(w: WheelType, n: int)
    requires
        n >= 0,
        is_candidate(w, n),
    ensures
        wheel_rank(w, n) >= 0,
        wheel_unrank(w, wheel_rank(w, n)) == n,
{
    lemma_slot_residue_inverse(w);
    let cpp = wheel_cpp(w);
    let p = wheel_period(w);
    let q = n / p;
    let r = n % p;
    vstd::arithmetic::div_mod::lemma_fundamental_div_mod(n, p);
    assert(q >= 0) by {
        vstd::arithmetic::div_mod::lemma_div_pos_is_pos(n, p);
    }
    let s = wheel_slot(w, r);
    let t = q * cpp + s;
    assert(wheel_rank(w, n) == t);
    vstd::arithmetic::div_mod::lemma_fundamental_div_mod_converse(t, cpp, q, s);
    assert(t % cpp == s);
    assert(t / cpp == q);
    assert(wheel_residue(w, s) == r);
    assert(wheel_rank(w, n) >= 0) by (nonlinear_arith)
        requires q >= 0, cpp > 0, s >= 0, t == q * cpp + s, t == wheel_rank(w, n),
    {
    }
}

/// Among candidates, the rank is strictly increasing.
pub proof fn lemma_rank_strictly_increasing(w: WheelType, m: int, n: int)
    requires
        0 <= m < n,
        is_candidate(w, m),
        is_candidate(w, n),
    ensures
        wheel_rank(w, m) < wheel_rank(w, n),
{
    lemma_slot_residue_inverse(w);
    let p = wheel_period(w);
    let cpp = wheel_cpp(w);
    vstd::arithmetic::div_mod::lemma_fundamental_div_mod(m, p);
    vstd::arithmetic::div_mod::lemma_fundamental_div_mod(n, p);
    assert(m / p <= n / p) by {
        vstd::arithmetic::div_mod::lemma_div_is_ordered(m, n, p);
    }
    if m / p == n / p {
        assert(m % p < n % p);
        assert(wheel_slot(w, m % p) < wheel_slot(w, n % p));
    } else {
        assert((n / p - m / p) * cpp >= 1 * cpp) by {
            vstd::arithmetic::mul::lemma_mul_inequality(1, n / p - m / p, cpp);
        }
        assert((n / p) * cpp - (m / p) * cpp == (n / p - m / p) * cpp) by {
            vstd::arithmetic::mul::lemma_mul_is_distributive_sub_other_way(cpp, n / p, m / p);
        }
        assert(0 <= wheel_slot(w, m % p) < cpp);
        assert(0 <= wheel_slot(w, n % p) < cpp);
    }
}

/// The rank never decreases, even across non-candidates.
pub proof fn lemma_rank_monotone(w: WheelType, m: int, n: int)
    requires
        0 <= m <= n,
    ensures
        wheel_rank(w, m) <= wheel_rank(w, n),
{
    lemma_slot_residue_inverse(w);
    let p = wheel_period(w);
    let cpp = wheel_cpp(w);
    vstd::arithmetic::div_mod::lemma_fundamental_div_mod(m, p);
    vstd::arithmetic::div_mod::lemma_fundamental_div_mod(n, p);
    assert(m / p <= n / p) by {
        vstd::arithmetic::div_mod::lemma_div_is_ordered(m, n, p);
    }
    if m / p == n / p {
        assert(m % p <= n % p);
        assert(wheel_slot(w, m % p) <= wheel_slot(w, n % p));
    } else {
        assert((n / p - m / p) * cpp >= 1 * cpp) by {
            vstd::arithmetic::mul::lemma_mul_inequality(1, n / p - m / p, cpp);
        }
        assert((n / p) * cpp - (m / p) * cpp == (n / p - m / p) * cpp) by {
            vstd::arithmetic::mul::lemma_mul_is_distributive_sub_other_way(cpp, n / p, m / p);
        }
        assert(0 <= wheel_slot(w, m % p) < cpp);
        assert(0 <= wheel_slot(w, n % p) < cpp);
    }
}

/// Every run of `wheel_period(w)` consecutive integers holds a candidate:
/// the one congruent to 1 modulo the period.
pub proof fn lemma_candidate_in_window(w: WheelType, lo: int) -> (v: int)
    requires
        lo >= 0,
    ensures
        lo <= v < lo + wheel_period(w),
        is_candidate(w, v),
{
    let p = wheel_period(w);
    let r = lo % p;
    vstd::arithmetic::div_mod::lemma_fundamental_div_mod(lo, p);
    let k = if r <= 1 {
        1 - r
    } else {
        p + 1 - r
    };
    let v = lo + k;
    assert(v % p == 1) by {
        vstd::arithmetic::div_mod::lemma_fundamental_div_mod_converse(
            v,
            p,
            if r <= 1 {
                lo / p
            } else {
                lo / p + 1
            },
            1,
        );
    }
    v
}

/// The largest of the small primes the wheel pre-excludes.
pub open spec fn wheel_max_excluded(w: WheelType) -> int {
    match w {
        WheelType::Odd => 2,
        WheelType::Mod6 => 3,
        WheelType::Mod30 => 5,
    }
}

/// A candidate is coprime to every prime the wheel pre-excludes.
pub proof fn lemma_candidate_coprime(w: WheelType, v: int)
    requires
        v >= 0,
        is_candidate(w, v),
    ensures
        v % 2 == 1,
        w != WheelType::Odd ==> v % 3 != 0,
        w == WheelType::Mod30 ==> v % 5 != 0,
{
    let p = wheel_period(w);
    let q = v / p;
    let r = v % p;
    vstd::arithmetic::div_mod::lemma_fundamental_div_mod(v, p);
    match w {
        WheelType::Odd => {
        },
        WheelType::Mod6 => {
            assert(v == 2 * (3 * q) + r);
            vstd::arithmetic::div_mod::lemma_mod_multiples_vanish(3 * q, r, 2);
            assert(v == 3 * (2 * q) + r);
            vstd::arithmetic::div_mod::lemma_mod_multiples_vanish(2 * q, r, 3);
        },
        WheelType::Mod30 => {
            assert(v == 2 * (15 * q) + r);
            vstd::arithmetic::div_mod::lemma_mod_multiples_vanish(15 * q, r, 2);
            assert(v == 3 * (10 * q) + r);
            vstd::arithmetic::div_mod::lemma_mod_multiples_vanish(10 * q, r, 3);
            assert(v == 5 * (6 * q) + r);
            vstd::arithmetic::div_mod::lemma_mod_multiples_vanish(6 * q, r, 5);
        },
    }
}

/// A non-candidate above the wheel's excluded primes is composite: one of
/// those primes divides it properly.
pub proof fn lemma_noncandidate_composite(w: WheelType, v: int)
    requires
        v > wheel_max_excluded(w),
        !is_candidate(w, v),
    ensures
        !crate::primes::is_prime(v),
{
    let p = wheel_period(w);
    let q = v / p;
    let r = v % p;
    vstd::arithmetic::div_mod::lemma_fundamental_div_mod(v, p);
    match w {
        WheelType::Odd => {
            assert(v % 2 == 0);
        },
        WheelType::Mod6 => {
            assert(v == 2 * (3 * q) + r);
            vstd::arithmetic::div_mod::lemma_mod_multiples_vanish(3 * q, r, 2);
            assert(v == 3 * (2 * q) + r);
            vstd::arithmetic::div_mod::lemma_mod_multiples_vanish(2 * q, r, 3);
            assert(v % 2 == 0 || v % 3 == 0);
        },
        WheelType::Mod30 => {
            assert(v == 2 * (15 * q) + r);
            vstd::arithmetic::div_mod::lemma_mod_multiples_vanish(15 * q, r, 2);
            assert(v == 3 * (10 * q) + r);
            vstd::arithmetic::div_mod::lemma_mod_multiples_vanish(10 * q, r, 3);
            assert(v == 5 * (6 * q) + r);
            vstd::arithmetic::div_mod::lemma_mod_multiples_vanish(6 * q, r, 5);
            assert(v % 2 == 0 || v % 3 == 0 || v % 5 == 0);
        },
    }
}

/// The candidate stored `i` slots after the aligned bound `low`.
pub open spec fn seg_value(w: WheelType, low: int, i: int) -> int {
    wheel_unrank(w, wheel_rank(w, low) + i)
}

/// Basic facts about segment slots: each holds a candidate, values grow
/// strictly with the slot, and slot 0 holds `low` itself.
pub proof fn lemma_seg_value_basics(w: WheelType, low: int, i: int)
    requires
        low >= 0,
        is_candidate(w, low),
        i >= 0,
    ensures
        is_candidate(w, seg_value(w, low, i)),
        seg_value(w, low, i) >= low,
        wheel_rank(w, seg_value(w, low, i)) == wheel_rank(w, low) + i,
        i > 0 ==> seg_value(w, low, i) > seg_value(w, low, i - 1),
        seg_value(w, low, 0) == low,
{
    lemma_unrank_rank(w, low);
    lemma_rank_unrank(w, wheel_rank(w, low) + i);
    let v = seg_value(w, low, i);
    if v < low {
        lemma_rank_strictly_increasing(w, v, low);
    }
    if i > 0 {
        lemma_rank_unrank(w, wheel_rank(w, low) + i - 1);
        let u = seg_value(w, low, i - 1);
        if u >= v {
            if u == v {
                assert(false);
            } else {
                lemma_rank_strictly_increasing(w, v, u);
            }
        }
    }
}

/// The wheel round trip: mapping a wheel-valid value to its bit-array
/// index relative to a wheel-valid segment bound, and that index back to a
/// value, returns the value unchanged — for every wheel and every pair of
/// candidates. This is the spec-level statement of composing `n_to_index`
/// with `index_to_n`.
pub proof fn lemma_wheel_round_trip(w: WheelType, low: int, n: int)
    requires
        0 <= low <= n,
        is_candidate(w, low),
        is_candidate(w, n),
    ensures
        wheel_rank(w, n) - wheel_rank(w, low) >= 0,
        wheel_unrank(w, wheel_rank(w, low) + (wheel_rank(w, n) - wheel_rank(w, low))) == n,
{
    lemma_rank_monotone(w, low, n);
    lemma_unrank_rank(w, n);
}

/// Exec test of `is_candidate`.
pub fn is_wheel_candidate(n: u64, wheel_type: WheelType) -> (r: bool)
    ensures
        r == is_candidate(wheel_type, n as int),
{
    match wheel_type {
        WheelType::Odd => n % 2 == 1,
        WheelType::Mod6 => {
            let m = n % 6;
            m == 1 || m == 5
        },
        WheelType::Mod30 => {
            let m = n % 30;
            m == 1 || m == 7 || m == 11 || m == 13 || m == 17 || m == 19 || m == 23 || m == 29
        },
    }
}

/// The wheel's period as a run-time value.
pub fn wheel_period_len(wheel_type: WheelType) -> (r: u64)
    ensures
        r as int == wheel_period(wheel_type),
{
    match wheel_type {
        WheelType::Odd => 2,
        WheelType::Mod6 => 6,
        WheelType::Mod30 => 30,
    }
}

/// How many candidates lie in `[0, n)`, by the closed period-count formula.
fn rank_of(n: u64, wheel_type: WheelType) -> (r: u64)
    ensures
        r as int == wheel_rank(wheel_type, n as int),
{
    proof {
        vstd::arithmetic::div_mod::lemma_fundamental_div_mod(
            n as int,
            wheel_period(wheel_type),
        );
    }
    match wheel_type {
        WheelType::Odd => n / 2,
        WheelType::Mod6 => {
            let q = n / 6;
            let m = n % 6;
            let s: u64 = if m > 1 {
                1
            } else {
                0
            };
            q * 2 + s
        },
        WheelType::Mod30 => {
            let q = n / 30;
            let m = n % 30;
            let s: u64 = if m > 23 {
                7
            } else if m > 19 {
                6
            } else if m > 17 {
                5
            } else if m > 13 {
                4
            } else if m > 11 {
                3
            } else if m > 7 {
                2
            } else if m > 1 {
                1
            } else {
                0
            };
            q * 8 + s
        },
    }
}

/// The bit-array index of `n` relative to the aligned segment bound `low`,
/// or `None` when `n` is below `low`, when either value is not wheel-valid,
/// or when the index would not fit the platform's pointer width.
pub fn n_to_index(n: u64, low: u64, wheel_type: WheelType) -> (r: Option<usize>)
    ensures
        r is Some <==> {
            &&& low <= n
            &&& is_candidate(wheel_type, n as int)
            &&& is_candidate(wheel_type, low as int)
            &&& wheel_rank(wheel_type, n as int) - wheel_rank(wheel_type, low as int)
                <= usize::MAX as int
        },
        r matches Some(i) ==> i as int == wheel_rank(wheel_type, n as int) - wheel_rank(
            wheel_type,
            low as int,
        ),
{
    if n < low {
        return None;
    }
    if !is_wheel_candidate(n, wheel_type) {
        return None;
    }
    if !is_wheel_candidate(low, wheel_type) {
        return None;
    }
    proof {
        lemma_rank_monotone(wheel_type, low as int, n as int);
    }
    let d = rank_of(n, wheel_type) - rank_of(low, wheel_type);
    if d <= usize::MAX as u64 {
        Some(d as usize)
    } else {
        None
    }
}

/// The largest wheel-excluded prime as a run-time value.
pub fn wheel_max_excluded_prime(wheel_type: WheelType) -> (r: u64)
    ensures
        r as int == wheel_max_excluded(wheel_type),
{
    match wheel_type {
        WheelType::Odd => 2,
        WheelType::Mod6 => 3,
        WheelType::Mod30 => 5,
    }
}

/// The candidate stored at offset `idx` of a segment aligned at `low`, or
/// `None` when that candidate lies beyond `u64::MAX`.
pub(crate) fn index_value(idx: u64, low: u64, wheel_type: WheelType) -> (r: Option<u64>)
    requires
        is_candidate(wheel_type, low as int),
    ensures
        r matches Some(v) ==> v as int == wheel_unrank(
            wheel_type,
            wheel_rank(wheel_type, low as int) + idx as int,
        ),
        r is None ==> wheel_unrank(wheel_type, wheel_rank(wheel_type, low as int) + idx as int)
            > u64::MAX as int,
{
    let cpp: u128 = match wheel_type {
        WheelType::Odd => 1,
        WheelType::Mod6 => 2,
        WheelType::Mod30 => 8,
    };
    let p: u128 = match wheel_type {
        WheelType::Odd => 2,
        WheelType::Mod6 => 6,
        WheelType::Mod30 => 30,
    };
    let t: u128 = rank_of(low, wheel_type) as u128 + idx as u128;
    let q = t / cpp;
    let s = t % cpp;
    let res: u128 = match wheel_type {
        WheelType::Odd => 1,
        WheelType::Mod6 => (if s == 0 {
            1
        } else {
            5
        }),
        WheelType::Mod30 => (if s == 0 {
            1
        } else if s == 1 {
            7
        } else if s == 2 {
            11
        } else if s == 3 {
            13
        } else if s == 4 {
            17
        } else if s == 5 {
            19
        } else if s == 6 {
            23
        } else {
            29
        }),
    };
    proof {
        assert(wheel_rank(wheel_type, low as int) >= 0) by {
            lemma_unrank_rank(wheel_type, low as int);
        }
        assert(q as int * p as int <= t as int * 30) by (nonlinear_arith)
            requires q as int <= t as int, 0 < p as int <= 30, q >= 0,
        {
        }
    }
    let v = q * p + res;
    if v > u64::MAX as u128 {
        None
    } else {
        Some(v as u64)
    }
}

/// The inverse of `n_to_index`: reconstructs the candidate at a bit-array
/// slot, given the aligned (wheel-valid) segment bound `low`.
pub fn index_to_n(idx: usize, low: u64, wheel_type: WheelType) -> (r: u64)
    requires
        is_candidate(wheel_type, low as int),
        wheel_unrank(wheel_type, wheel_rank(wheel_type, low as int) + idx as int)
            <= u64::MAX as int,
    ensures
        r as int == wheel_unrank(wheel_type, wheel_rank(wheel_type, low as int) + idx as int),
{
    match index_value(idx as u64, low, wheel_type) {
        Some(v) => v,
        None => {
            proof {
                assert(false);
            }
            0
        },
    }
}

/// The smallest wheel-valid value at or above `low`, or `None` when no such
/// value fits in 64 bits.
pub fn adjust_low(low: u64, wheel_type: WheelType) -> (r: Option<u64>)
    ensures
        r matches Some(v) ==> {
            &&& low <= v
            &&& is_candidate(wheel_type, v as int)
            &&& forall|m: int| low <= m < v as int ==> !is_candidate(wheel_type, m)
        },
        r is None ==> forall|m: int| low <= m <= u64::MAX as int ==> !is_candidate(wheel_type, m),
{
    let p = wheel_period_len(wheel_type);
    let mut k: u64 = 0;
    while k < p
        invariant
            0 <= k <= p,
            p as int == wheel_period(wheel_type),
            forall|m: int| low <= m < low as int + k ==> !is_candidate(wheel_type, m),
        decreases p - k,
    {
        match low.checked_add(k) {
            Some(v) => {
                if is_wheel_candidate(v, wheel_type) {
                    return Some(v);
                }
            },
            None => {
                return None;
            },
        }
        k = k + 1;
    }
    proof {
        let v = lemma_candidate_in_window(wheel_type, low as int);
        assert(false);
    }
    None
}

/// What `calculate_bitvec_size` computes: a per-period bound on the number
/// of candidates, with one extra period of slack against boundary rounding.
pub open spec fn spec_bitvec_size(w: WheelType, lo: int, hi: int) -> int {
    match w {
        WheelType::Odd => (hi - lo) / 2 + 1,
        WheelType::Mod6 => ((hi - lo + 1) / 6) * 2 + 2,
        WheelType::Mod30 => ((hi - lo + 1) / 30) * 8 + 8,
    }
}

/// A conservative upper bound on the number of wheel-valid candidates in
/// `[low, high]`, used to size a segment's bit array.
pub fn calculate_bitvec_size(low: u64, high: u64, wheel_type: WheelType) -> (r: usize)
    requires
        low <= high,
        high as int - low as int + 1 <= 1_000_000_000,
    ensures
        r as int == spec_bitvec_size(wheel_type, low as int, high as int),
{
    match wheel_type {
        WheelType::Odd => ((high - low) / 2 + 1) as usize,
        WheelType::Mod6 => {
            let range = high - low + 1;
            ((range / 6) * 2 + 2) as usize
        },
        WheelType::Mod30 => {
            let range = high - low + 1;
            ((range / 30) * 8 + 8) as usize
        },
    }
}

/// Every candidate of `[low, high]` gets an index below the computed array
/// size: the sizing formula never undersizes.
pub proof fn lemma_index_fits(w: WheelType, low: int, v: int, high: int)
    requires
        0 <= low <= v <= high,
        is_candidate(w, low),
        is_candidate(w, v),
    ensures
        0 <= wheel_rank(w, v) - wheel_rank(w, low) < spec_bitvec_size(w, low, high),
{
    lemma_slot_residue_inverse(w);
    lemma_rank_monotone(w, low, v);
    let p = wheel_period(w);
    let cpp = wheel_cpp(w);
    let rl = low % p;
    let rv = v % p;
    let dq = v / p - low / p;
    vstd::arithmetic::div_mod::lemma_fundamental_div_mod(low, p);
    vstd::arithmetic::div_mod::lemma_fundamental_div_mod(v, p);
    assert(dq >= 0) by {
        vstd::arithmetic::div_mod::lemma_div_is_ordered(low, v, p);
    }
    assert(dq * p == (v / p) * p - (low / p) * p) by {
        vstd::arithmetic::mul::lemma_mul_is_distributive_sub_other_way(p, v / p, low / p);
    }
    assert(dq * p == v - low - rv + rl);
    if rv >= rl {
        // dq * p <= v - low, so dq <= (v - low) / p
        assert(dq <= (v - low) / p) by {
            vstd::arithmetic::div_mod::lemma_div_multiples_vanish(dq, p);
            vstd::arithmetic::div_mod::lemma_div_is_ordered(dq * p, v - low, p);
            vstd::arithmetic::mul::lemma_mul_is_commutative(dq, p);
        }
        assert(dq * cpp <= ((v - low) / p) * cpp) by {
            vstd::arithmetic::mul::lemma_mul_inequality(dq, (v - low) / p, cpp);
        }
        assert(((v - low) / p) * cpp <= ((high - low) / p) * cpp) by {
            vstd::arithmetic::div_mod::lemma_div_is_ordered(v - low, high - low, p);
            vstd::arithmetic::mul::lemma_mul_inequality((v - low) / p, (high - low) / p, cpp);
        }
        assert(((high - low) / p) * cpp <= ((high - low + 1) / p) * cpp) by {
            vstd::arithmetic::div_mod::lemma_div_is_ordered(high - low, high - low + 1, p);
            vstd::arithmetic::mul::lemma_mul_inequality((high - low) / p, (high - low + 1) / p,
                cpp);
        }
    } else {
        // low's residue exceeds v's, so the slot difference is negative and
        // pays for the one extra period
        assert(wheel_slot(w, rv) < wheel_slot(w, rl));
        assert(dq * p <= v - low + p - 1);
        assert(dq <= (v - low + p - 1) / p) by {
            vstd::arithmetic::div_mod::lemma_div_multiples_vanish(dq, p);
            vstd::arithmetic::div_mod::lemma_div_is_ordered(dq * p, v - low + p - 1, p);
            vstd::arithmetic::mul::lemma_mul_is_commutative(dq, p);
        }
        assert((v - low + p - 1) / p <= (v - low) / p + 1) by {
            vstd::arithmetic::div_mod::lemma_hoist_over_denominator(v - low, 1, p as nat);
            vstd::arithmetic::div_mod::lemma_div_is_ordered(v - low + p - 1, v - low + p,
                p);
        }
        assert(dq * cpp <= ((v - low) / p + 1) * cpp) by {
            vstd::arithmetic::mul::lemma_mul_inequality(dq, (v - low) / p + 1, cpp);
        }
        assert(((v - low) / p + 1) * cpp == ((v - low) / p) * cpp + cpp) by {
            vstd::arithmetic::mul::lemma_mul_is_distributive_add_other_way(cpp, (v - low) / p, 1);
        }
        assert(((v - low) / p) * cpp <= ((high - low + 1) / p) * cpp) by {
            vstd::arithmetic::div_mod::lemma_div_is_ordered(v - low, high - low + 1, p);
            vstd::arithmetic::mul::lemma_mul_inequality((v - low) / p, (high - low + 1) / p, cpp);
        }
    }
}

} // verus!
