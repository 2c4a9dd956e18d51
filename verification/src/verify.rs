//! Deterministic Miller-Rabin primality testing for 64-bit integers, and
//! the record checks applied to a generated prime list.

use vstd::prelude::*;

use vstd::arithmetic::power::pow;
use vstd::arithmetic::power2::pow2;


verus! {

/// A report on one checked list of prime records.
#[derive(Debug, Clone, PartialEq, Eq)]
pub struct VerifyReport {
    /// How many records were checked.
    pub line_count: u64,
    /// How many of the trailing records went through Miller-Rabin.
    pub checked_tail: usize,
    /// The first value.
    pub min: u64,
    /// The last value.
    pub max: u64,
}

/// Why a list of prime records fails its check. Indices are 1-based record
/// numbers, as a reader would count lines.
#[derive(Debug, Clone, PartialEq, Eq)]
pub enum VerifyError {
    /// The list holds no records.
    Empty,
    /// The record at `index` does not exceed its predecessor.
    NonIncreasing { index: u64, prev: u64, current: u64 },
    /// The record at `index` is even and not 2.
    EvenComposite { index: u64, value: u64 },
    /// A record in the checked tail fails Miller-Rabin.
    CompositeTail { index: u64, value: u64 },
}

/// A well-formed record: above its predecessor, and not an even composite.
pub open spec fn record_ok(vs: Seq<u64>, i: int) -> bool {
    &&& (i == 0 || vs[i - 1] < vs[i])
    &&& (vs[i] == 2 || vs[i] % 2 == 1)
}

/// How many trailing records the sampler inspects.
pub open spec fn spec_tail_count(len: int, sample_tail: int) -> int {
    if sample_tail < len {
        sample_tail
    } else {
        len
    }
}

/// Checks a generated prime list: records must be strictly increasing with
/// no even value other than 2, and the last `sample_tail` records must pass
/// deterministic Miller-Rabin. The first offending record is reported.
pub fn check_prime_records(values: &Vec<u64>, sample_tail: usize) -> (r: Result<
    VerifyReport,
    VerifyError,
>)
    ensures
        (r == Err::<VerifyReport, VerifyError>(VerifyError::Empty)) <==> values@.len() == 0,
        r is Ok <==> (values@.len() > 0 && (forall|i: int|
            0 <= i < values@.len() ==> record_ok(values@, i)) && (forall|i: int|
            values@.len() - spec_tail_count(values@.len() as int, sample_tail as int) <= i
                < values@.len() ==> crate::verify::spec_probable_prime(
                #[trigger] values@[i] as int,
            ))),
        r matches Ok(rep) ==> {
            &&& rep.line_count == values@.len()
            &&& rep.min == values@[0]
            &&& rep.max == values@.last()
            &&& rep.checked_tail as int == spec_tail_count(values@.len() as int, sample_tail as int)
        },
        r matches Err(VerifyError::NonIncreasing { index, prev, current }) ==> {
            &&& 2 <= index <= values@.len()
            &&& prev == values@[index - 2]
            &&& current == values@[index - 1]
            &&& prev >= current
            &&& forall|j: int| 0 <= j < index - 1 ==> record_ok(values@, j)
        },
        r matches Err(VerifyError::EvenComposite { index, value }) ==> {
            &&& 1 <= index <= values@.len()
            &&& value == values@[index - 1]
            &&& value != 2 && value % 2 == 0
            &&& forall|j: int| 0 <= j < index - 1 ==> record_ok(values@, j)
        },
        r matches Err(VerifyError::CompositeTail { index, value }) ==> {
            &&& 1 <= index <= values@.len()
            &&& value == values@[index - 1]
            &&& !crate::verify::spec_probable_prime(value as int)
            &&& forall|j: int| 0 <= j < values@.len() ==> record_ok(values@, j)
        },
{
    let len = values.len();
    if len == 0 {
        return Err(VerifyError::Empty);
    }
    let mut i: usize = 0;
    while i < len
        invariant
            len == values@.len(),
            len >= 1,
            i <= len,
            forall|j: int| 0 <= j < i ==> record_ok(values@, j),
        decreases len - i,
    {
        let n = values[i];
        if i > 0 {
            let p = values[i - 1];
            if n <= p {
                proof {
                    assert(!record_ok(values@, i as int));
                }
                return Err(
                    VerifyError::NonIncreasing { index: i as u64 + 1, prev: p, current: n },
                );
            }
        }
        if n != 2 && n % 2 == 0 {
            proof {
                assert(!record_ok(values@, i as int));
            }
            return Err(VerifyError::EvenComposite { index: i as u64 + 1, value: n });
        }
        i = i + 1;
    }
    let tcount: usize = if sample_tail < len {
        sample_tail
    } else {
        len
    };
    let mut t: usize = len - tcount;
    while t < len
        invariant
            len == values@.len(),
            len >= 1,
            tcount as int == spec_tail_count(len as int, sample_tail as int),
            len - tcount <= t <= len,
            forall|j: int| 0 <= j < len ==> record_ok(values@, j),
            forall|j: int|
                len - tcount <= j < t ==> crate::verify::spec_probable_prime(
                    #[trigger] values@[j] as int,
                ),
        decreases len - t,
    {
        let n = values[t];
        if !is_probable_prime(n) {
            proof {
                assert(!crate::verify::spec_probable_prime(values@[t as int] as int));
            }
            return Err(VerifyError::CompositeTail { index: t as u64 + 1, value: n });
        }
        t = t + 1;
    }
    Ok(
        VerifyReport {
            line_count: len as u64,
            checked_tail: tcount,
            min: values[0],
            max: values[len - 1],
        },
    )
}

/// `(a * b) % m`.
pub fn mod_mul(a: u64, b: u64, m: u64) -> (r: u64)
    requires
        m >= 1,
    ensures
        r as int == (a as int * b as int) % (m as int),
{
    proof {
        assert(a as int * b as int <= u64::MAX as int * u64::MAX as int) by {
            vstd::arithmetic::mul::lemma_mul_upper_bound(a as int, u64::MAX as int, b as int,
                u64::MAX as int);
        }
    }
    ((a as u128 * b as u128) % m as u128) as u64
}

/// `pow(base, exp) % m`, by binary exponentiation.
pub fn mod_pow(base: u64, exp: u64, m: u64) -> (r: u64)
    requires
        m >= 2,
    ensures
        r as int == pow(base as int, exp as nat) % (m as int),
{
    let mut res: u64 = 1;
    let mut b = base % m;
    let mut e = exp;
    proof {
        vstd::arithmetic::power::lemma_pow_mod_noop(base as int, exp as nat, m as int);
    }
    while e > 0
        invariant
            m >= 2,
            res < m,
            b < m,
            (res as int * pow(b as int, e as nat)) % (m as int) == pow(base as int, exp as nat)
                % (m as int),
        decreases e,
    {
        let ghost res0 = res as int;
        let ghost b0 = b as int;
        let ghost e0 = e as int;
        let ghost mi = m as int;
        if e % 2 == 1 {
            res = mod_mul(res, b, m);
        }
        b = mod_mul(b, b, m);
        e = e / 2;
        proof {
            let q = e0 / 2;
            let bit = e0 % 2;
            vstd::arithmetic::div_mod::lemma_fundamental_div_mod(e0, 2);
            let r1 = if bit == 1 { (res0 * b0) % mi } else { res0 };
            assert(res as int == r1);
            // pow(b0, e0) splits into the bit and the halved exponent
            assert(pow(b0, e0 as nat) == pow(b0, (2 * q) as nat) * pow(b0, bit as nat)) by {
                vstd::arithmetic::power::lemma_pow_adds(b0, (2 * q) as nat, bit as nat);
            }
            assert(pow(b0, (2 * q) as nat) == pow(b0 * b0, q as nat)) by {
                vstd::arithmetic::power::lemma_pow_multiplies(b0, 2, q as nat);
                vstd::arithmetic::power::lemma_square_is_pow2(b0);
                assert(pow(b0, (2 * q) as nat) == pow(pow(b0, 2), q as nat));
            }
            // replacing the squared base by its reduction changes nothing
            assert(pow(b as int, e as nat) % mi == pow(b0 * b0, q as nat) % mi) by {
                vstd::arithmetic::power::lemma_pow_mod_noop(b0 * b0, q as nat, mi);
            }
            assert((r1 * pow(b as int, e as nat)) % mi == (r1 * pow(b0 * b0, q as nat)) % mi) by {
                vstd::arithmetic::div_mod::lemma_mul_mod_noop_right(r1, pow(b as int, e as nat),
                    mi);
                vstd::arithmetic::div_mod::lemma_mul_mod_noop_right(r1, pow(b0 * b0, q as nat),
                    mi);
            }
            if bit == 1 {
                assert(pow(b0, bit as nat) == b0) by {
                    vstd::arithmetic::power::lemma_pow1(b0);
                }
                assert((r1 * pow(b0 * b0, q as nat)) % mi == ((res0 * b0) * pow(b0 * b0, q as nat))
                    % mi) by {
                    vstd::arithmetic::div_mod::lemma_mul_mod_noop_left(res0 * b0,
                        pow(b0 * b0, q as nat), mi);
                }
                assert(res0 * b0 * pow(b0 * b0, q as nat) == res0 * pow(b0, e0 as nat)) by {
                    vstd::arithmetic::mul::lemma_mul_is_associative(res0, b0,
                        pow(b0 * b0, q as nat));
                    vstd::arithmetic::mul::lemma_mul_is_commutative(b0, pow(b0 * b0, q as nat));
                }
            } else {
                assert(pow(b0, bit as nat) == 1) by {
                    vstd::arithmetic::power::lemma_pow0(b0);
                }
                assert(res0 * pow(b0 * b0, q as nat) == res0 * pow(b0, e0 as nat));
            }
            assert((res as int * pow(b as int, e as nat)) % mi == (res0 * pow(b0, e0 as nat))
                % mi);
        }
    }
    proof {
        vstd::arithmetic::power::lemma_pow0(b as int);
        vstd::arithmetic::div_mod::lemma_small_mod(res as nat, m as nat);
    }
    res
}

/// The strong-probable-prime relation: base `a` fails to witness `n`
/// composite for the decomposition `n - 1 == d * 2^s`.
pub open spec fn strong_probable_prime(n: int, d: int, s: int, a: int) -> bool {
    ||| pow(a, d as nat) % n == 1
    ||| exists|k: int|
        0 <= k < s && #[trigger] pow(a, (d * pow2(k as nat)) as nat) % n == n - 1
}

/// One Miller-Rabin round for base `a`: squares `a^d` up to `s - 1` times
/// looking for a square root of 1 other than `±1`.
pub fn miller_rabin_round(n: u64, d: u64, s: u32, a: u64) -> (r: bool)
    requires
        n >= 3,
        d >= 1,
        s >= 1,
        1 <= a < n,
    ensures
        r == strong_probable_prime(n as int, d as int, s as int, a as int),
{
    let mut x = mod_pow(a, d, n);
    proof {
        vstd::arithmetic::power::lemma_pow0(2);
        assert(pow2(0) == 1);
        assert(d as int * pow2(0) == d as int);
    }
    if x == 1 {
        return true;
    }
    if x == n - 1 {
        proof {
            let ghost k0: int = 0;
            assert(pow(a as int, (d as int * pow2(k0 as nat)) as nat) % (n as int) == n as int
                - 1);
            assert(strong_probable_prime(n as int, d as int, s as int, a as int));
        }
        return true;
    }
    let mut i: u32 = 1;
    while i < s
        invariant
            n >= 3,
            d >= 1,
            s >= 1,
            1 <= i <= s,
            x < n,
            x as int == pow(a as int, (d as int * pow2((i - 1) as nat)) as nat) % (n as int),
            pow(a as int, d as nat) % (n as int) != 1,
            forall|k: int|
                0 <= k < i ==> #[trigger] pow(a as int, (d as int * pow2(k as nat)) as nat) % (
                n as int) != n as int - 1,
        decreases s - i,
    {
        let ghost x0 = x as int;
        let ghost ni = n as int;
        let ghost ee = (d as int * pow2((i - 1) as nat)) as nat;
        x = mod_mul(x, x, n);
        proof {
            assert((x0 * x0) % ni == (pow(a as int, ee) * pow(a as int, ee)) % ni) by {
                vstd::arithmetic::div_mod::lemma_mul_mod_noop_general(
                    pow(a as int, ee),
                    pow(a as int, ee),
                    ni,
                );
            }
            assert(pow(a as int, ee) * pow(a as int, ee) == pow(a as int, ee + ee)) by {
                vstd::arithmetic::power::lemma_pow_adds(a as int, ee, ee);
            }
            assert(d as int * pow2(i as nat) == ee + ee) by {
                vstd::arithmetic::power2::lemma_pow2_unfold(i as nat);
                assert(pow2(i as nat) == 2 * pow2((i - 1) as nat));
                assert(d as int * (2 * pow2((i - 1) as nat)) == 2 * (d as int * pow2(
                    (i - 1) as nat))) by (nonlinear_arith);
                assert(ee == d as int * pow2((i - 1) as nat));
            }
            let ki: int = i as int;
            assert(x as int == pow(a as int, (d as int * pow2(ki as nat)) as nat) % (n as int));
        }
        if x == n - 1 {
            proof {
                let ki: int = i as int;
                assert(pow(a as int, (d as int * pow2(ki as nat)) as nat) % (n as int)
                    == n as int - 1);
                assert(strong_probable_prime(n as int, d as int, s as int, a as int));
            }
            return true;
        }
        i = i + 1;
    }
    false
}

/// The odd factor of `m`: `m` with its trailing powers of two removed.
pub open spec fn odd_part(m: int) -> int
    decreases m,
{
    if m <= 0 {
        m
    } else if m % 2 == 1 {
        m
    } else {
        odd_part(m / 2)
    }
}

/// How many times two divides `m`.
pub open spec fn two_exponent(m: int) -> nat
    decreases m,
{
    if m <= 0 {
        0
    } else if m % 2 == 1 {
        0
    } else {
        1 + two_exponent(m / 2)
    }
}

/// The deterministic base set for 64-bit Miller-Rabin.
pub open spec fn mr_base(i: int) -> int {
    if i == 0 {
        2
    } else if i == 1 {
        325
    } else if i == 2 {
        9375
    } else if i == 3 {
        28178
    } else if i == 4 {
        450775
    } else if i == 5 {
        9780504
    } else {
        1795265022
    }
}

/// What `is_probable_prime` decides: trivial cases below 4, then evenness,
/// then Miller-Rabin over the fixed seven bases (bases divisible by `n` are
/// skipped). For 64-bit inputs this base set is known to make the test
/// exact, but what is verified here is agreement with this algorithm.
pub open spec fn spec_probable_prime(n: int) -> bool {
    if n < 2 {
        false
    } else if n == 2 || n == 3 {
        true
    } else if n % 2 == 0 {
        false
    } else {
        forall|i: int|
            0 <= i < 7 ==> (mr_base(i) % n == 0 || strong_probable_prime(
                n,
                odd_part(n - 1),
                two_exponent(n - 1) as int,
                #[trigger] mr_base(i) % n,
            ))
    }
}

fn mr_base_at(i: usize) -> (r: u64)
    requires
        i < 7,
    ensures
        r as int == mr_base(i as int),
{
    if i == 0 {
        2
    } else if i == 1 {
        325
    } else if i == 2 {
        9375
    } else if i == 3 {
        28178
    } else if i == 4 {
        450775
    } else if i == 5 {
        9780504
    } else {
        1795265022
    }
}

/// Deterministic Miller-Rabin over the fixed 64-bit base set.
pub fn is_probable_prime(n: u64) -> (r: bool)
    ensures
        r == spec_probable_prime(n as int),
{
    if n < 2 {
        return false;
    }
    if n == 2 || n == 3 {
        return true;
    }
    if n % 2 == 0 {
        return false;
    }
    // n - 1 == d * 2^s with d odd
    let mut d: u64 = n - 1;
    let mut s: u32 = 0;
    proof {
        vstd::arithmetic::power::lemma_pow0(2);
        assert(pow2(0) == 1);
    }
    while d % 2 == 0
        invariant
            d >= 1,
            odd_part(d as int) == odd_part(n as int - 1),
            two_exponent(d as int) + s == two_exponent(n as int - 1),
            pow2(s as nat) >= 1,
            n >= 5,
            d as int * pow2(s as nat) == n as int - 1,
        decreases d,
    {
        proof {
            vstd::arithmetic::power2::lemma_pow2_unfold((s + 1) as nat);
            vstd::arithmetic::div_mod::lemma_fundamental_div_mod(d as int, 2);
            assert((d as int / 2) * (pow2(s as nat) * 2) == d as int * pow2(s as nat)) by (
            nonlinear_arith)
                requires d as int % 2 == 0, d as int == 2 * (d as int / 2),
            {
            }
            assert(s < 64) by {
                if s >= 64 {
                    vstd::arithmetic::power2::lemma2_to64();
                    if s > 64 {
                        vstd::arithmetic::power2::lemma_pow2_strictly_increases(64, s as nat);
                    }
                    assert(pow2(s as nat) >= 0x10000000000000000);
                    assert(d as int * pow2(s as nat) >= pow2(s as nat)) by (nonlinear_arith)
                        requires d >= 1, pow2(s as nat) >= 0,
                    {
                    }
                    assert(false);
                }
            }
        }
        d = d / 2;
        s = s + 1;
    }
    proof {
        assert(odd_part(d as int) == d as int);
        assert(s as int == two_exponent(n as int - 1));
        assert(s >= 1) by {
            if s == 0 {
                assert(d == n - 1);
                assert((n as int - 1) % 2 == 0);
            }
        }
    }

    let mut i: usize = 0;
    while i < 7
        invariant
            i <= 7,
            n >= 5,
            n % 2 == 1,
            d >= 1,
            s >= 1,
            d as int == odd_part(n as int - 1),
            s as int == two_exponent(n as int - 1) as int,
            forall|t: int|
                0 <= t < i ==> (mr_base(t) % (n as int) == 0 || strong_probable_prime(
                    n as int,
                    d as int,
                    s as int,
                    #[trigger] mr_base(t) % (n as int),
                )),
        decreases 7 - i,
    {
        let a = mr_base_at(i);
        let am = a % n;
        if am != 0 {
            let pass = miller_rabin_round(n, d, s, am);
            if !pass {
                proof {
                    assert(mr_base(i as int) % (n as int) != 0);
                    assert(!strong_probable_prime(
                        n as int,
                        d as int,
                        s as int,
                        mr_base(i as int) % (n as int),
                    ));
                    assert(!spec_probable_prime(n as int));
                }
                return false;
            }
        }
        i = i + 1;
    }
    proof {
        assert forall|t: int|
            0 <= t < 7 implies (#[trigger] mr_base(t) % (n as int) == 0 || strong_probable_prime(
            n as int,
            odd_part(n as int - 1),
            two_exponent(n as int - 1) as int,
            mr_base(t) % (n as int),
        )) by {
            assert(mr_base(t) % (n as int) == 0 || strong_probable_prime(
                n as int,
                d as int,
                s as int,
                mr_base(t) % (n as int),
            ));
        }
    }
    true
}

} // verus!
