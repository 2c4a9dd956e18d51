//! The memory budgeting advisor: estimates per-segment footprint and sizes
//! segments so that the concurrent workers stay within a share of system
//! memory. Advisory only — it plans, it does not enforce.

use vstd::prelude::*;

use crate::config::WheelType;

verus! {

/// Relies on sysinfo: `System::new_all`, `System::refresh_memory` and
/// `System::total_memory`, which reports the machine's physical memory in
/// bytes. The value depends on the machine, so nothing is promised of it.
#[verifier::external_body]
pub fn get_total_memory() -> u64 {
    let mut sys = sysinfo::System::new_all();
    sys.refresh_memory();
    sys.total_memory()
}

/// The wheel's bit-array compression, in thousandths: how many bits a
/// candidate range of 1000 values needs.
pub open spec fn spec_compression_permille(w: WheelType) -> int {
    match w {
        WheelType::Odd => 500,
        WheelType::Mod6 => 333,
        WheelType::Mod30 => 267,
    }
}

/// The wheel's memory compression ratio, in thousandths (a wheel keeping
/// half of all numbers compresses to 500 per mille).
pub fn get_wheel_compression_ratio(wheel_type: WheelType) -> (r: u64)
    ensures
        r as int == spec_compression_permille(wheel_type),
{
    match wheel_type {
        WheelType::Odd => 500,
        WheelType::Mod6 => 333,
        WheelType::Mod30 => 267,
    }
}

/// What `estimate_segment_memory` computes: the bit array's bytes for one
/// segment, with a fifth of overhead for the surrounding allocations.
pub open spec fn spec_estimate_segment_memory(segment_size: u64, w: WheelType) -> int {
    let bits = segment_size as int * spec_compression_permille(w) / 1000;
    let bytes = if bits / 8 >= 1 {
        bits / 8
    } else {
        1
    };
    bytes * 12 / 10
}

/// Estimated bytes one segment of `segment_size` values costs under the
/// given wheel.
pub fn estimate_segment_memory(segment_size: u64, wheel_type: WheelType) -> (r: u64)
    ensures
        r as int == spec_estimate_segment_memory(segment_size, wheel_type),
{
    let compression = get_wheel_compression_ratio(wheel_type);
    proof {
        assert(segment_size as int * compression as int <= u64::MAX as int * 500) by {
            vstd::arithmetic::mul::lemma_mul_upper_bound(segment_size as int, u64::MAX as int,
                compression as int, 500);
        }
    }
    let bits: u128 = segment_size as u128 * compression as u128 / 1000;
    let bytes: u128 = if bits / 8 >= 1 {
        bits / 8
    } else {
        1
    };
    let result: u128 = bytes * 12 / 10;
    result as u64
}

/// What `calculate_optimal_segment_size` computes: clamp the memory share,
/// halve it for safety, split it across the workers, and invert the
/// per-segment estimate; the result is clamped to `[10^6, 10^8]`.
pub open spec fn spec_optimal_segment_size(
    total_memory: u64,
    memory_usage_percent: u64,
    num_threads: usize,
    w: WheelType,
) -> int {
    let percent = if memory_usage_percent < 10 {
        10int
    } else if memory_usage_percent > 90 {
        90int
    } else {
        memory_usage_percent as int
    };
    let allowed = total_memory as int * percent / 100;
    let threads = if num_threads as int >= 1 {
        num_threads as int
    } else {
        1int
    };
    let per_thread = allowed / threads;
    let safe = per_thread / 2;
    let size = safe * 8 * 10000 / (spec_compression_permille(w) * 12);
    if size < 1_000_000 {
        1_000_000int
    } else if size > 100_000_000 {
        100_000_000int
    } else {
        size
    }
}

/// The segment size whose estimated footprint keeps `num_threads` workers
/// within the clamped share of `total_memory` bytes, halved for headroom.
pub fn optimal_segment_size_for_memory(
    total_memory: u64,
    memory_usage_percent: u64,
    num_threads: usize,
    wheel_type: WheelType,
) -> (r: u64)
    ensures
        r as int == spec_optimal_segment_size(
            total_memory,
            memory_usage_percent,
            num_threads,
            wheel_type,
        ),
        1_000_000 <= r <= 100_000_000,
{
    let percent: u64 = if memory_usage_percent < 10 {
        10
    } else if memory_usage_percent > 90 {
        90
    } else {
        memory_usage_percent
    };
    proof {
        assert(total_memory as int * percent as int <= u64::MAX as int * 90) by {
            vstd::arithmetic::mul::lemma_mul_upper_bound(total_memory as int, u64::MAX as int,
                percent as int, 90);
        }
    }
    let allowed: u128 = total_memory as u128 * percent as u128 / 100;
    let threads: u128 = if num_threads >= 1 {
        num_threads as u128
    } else {
        1
    };
    let per_thread: u128 = allowed / threads;
    let safe: u128 = per_thread / 2;
    let compression = get_wheel_compression_ratio(wheel_type);
    proof {
        assert(allowed as int / threads as int <= allowed as int) by {
            vstd::arithmetic::div_mod::lemma_div_is_ordered_by_denominator(allowed as int, 1,
                threads as int);
        }
        assert(safe as int * 8 <= allowed as int * 8) by {
            vstd::arithmetic::mul::lemma_mul_inequality(safe as int, allowed as int, 8);
            vstd::arithmetic::mul::lemma_mul_is_commutative(safe as int, 8);
            vstd::arithmetic::mul::lemma_mul_is_commutative(allowed as int, 8);
        }
        assert(safe as int * 8 * 10000 <= allowed as int * 8 * 10000) by {
            vstd::arithmetic::mul::lemma_mul_inequality(safe as int * 8, allowed as int * 8,
                10000);
            vstd::arithmetic::mul::lemma_mul_is_commutative(safe as int * 8, 10000);
            vstd::arithmetic::mul::lemma_mul_is_commutative(allowed as int * 8, 10000);
        }
        assert(allowed as int * 8 * 10000 <= u64::MAX as int * 90 * 80000) by (nonlinear_arith)
            requires 0 <= allowed as int <= u64::MAX as int * 90,
        {
        }
    }
    let size: u128 = safe * 8 * 10000 / (compression as u128 * 12);
    let clamped: u128 = if size < 1_000_000 {
        1_000_000
    } else if size > 100_000_000 {
        100_000_000
    } else {
        size
    };
    clamped as u64
}

/// Memory-bounded segment sizing from the machine's own memory total. The
/// total is read through sysinfo; everything after that read is computed by
/// `optimal_segment_size_for_memory`, whose contract pins the result.
pub fn calculate_optimal_segment_size(
    memory_usage_percent: u64,
    num_threads: usize,
    wheel_type: WheelType,
) -> (r: u64)
    ensures
        1_000_000 <= r <= 100_000_000,
{
    let total_memory = get_total_memory();
    optimal_segment_size_for_memory(total_memory, memory_usage_percent, num_threads, wheel_type)
}

/// A summary of the advisor's plan, for display by the caller.
#[derive(Debug, Clone)]
pub struct MemoryInfo {
    /// The machine's physical memory, in bytes.
    pub total_memory: u64,
    /// Estimated bytes one segment costs.
    pub segment_memory: u64,
    /// Estimated bytes all concurrent workers cost together.
    pub estimated_total: u64,
    /// The estimated total as thousandths of system memory.
    pub usage_permille: u64,
}

/// The advisor's plan for the given sizing, against the machine's memory.
pub fn get_memory_info(segment_size: u64, num_threads: usize, wheel_type: WheelType) -> (r:
    MemoryInfo)
    ensures
        r.segment_memory as int == spec_estimate_segment_memory(segment_size, wheel_type),
        r.estimated_total as int == (if r.segment_memory as int * num_threads as int
            <= u64::MAX as int {
            r.segment_memory as int * num_threads as int
        } else {
            u64::MAX as int
        }),
{
    let total_memory = get_total_memory();
    let segment_memory = estimate_segment_memory(segment_size, wheel_type);
    proof {
        assert(segment_memory as int * num_threads as int <= u64::MAX as int * usize::MAX as int)
            by {
            vstd::arithmetic::mul::lemma_mul_upper_bound(segment_memory as int, u64::MAX as int,
                num_threads as int, usize::MAX as int);
        }
    }
    let est: u128 = segment_memory as u128 * num_threads as u128;
    let estimated_total: u64 = if est > u64::MAX as u128 {
        u64::MAX
    } else {
        est as u64
    };
    let usage_permille: u64 = if total_memory == 0 {
        0
    } else {
        let um: u128 = estimated_total as u128 * 1000 / total_memory as u128;
        proof {
            assert(estimated_total as int * 1000 <= u64::MAX as int * 1000) by {
                vstd::arithmetic::mul::lemma_mul_inequality(estimated_total as int,
                    u64::MAX as int, 1000);
                vstd::arithmetic::mul::lemma_mul_is_commutative(estimated_total as int, 1000);
                vstd::arithmetic::mul::lemma_mul_is_commutative(u64::MAX as int, 1000);
            }
            assert(estimated_total as int * 1000 / total_memory as int <= u64::MAX as int * 1000)
                by {
                vstd::arithmetic::div_mod::lemma_div_is_ordered_by_denominator(
                    estimated_total as int * 1000,
                    1,
                    total_memory as int,
                );
            }
        }
        if um > u64::MAX as u128 {
            u64::MAX
        } else {
            um as u64
        }
    };
    MemoryInfo { total_memory, segment_memory, estimated_total, usage_permille }
}

} // verus!
