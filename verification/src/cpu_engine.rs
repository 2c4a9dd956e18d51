//! The segmented parallel orchestrator: partitions the requested range into
//! wheel-aligned segments, sieves each batch of segments concurrently,
//! reassembles the results in increasing order, streams them to the sink,
//! and reports progress after every batch.

use vstd::prelude::*;

use rayon::iter::IntoParallelRefIterator;
use rayon::iter::ParallelIterator;

use crate::cancel::CancelFlag;
use crate::config::Config;
use crate::config::WheelType;
use crate::engine_types::compute_eta;
use crate::engine_types::Progress;
use crate::engine_types::ProgressSink;
use crate::engine_types::RunOutcome;
use crate::engine_types::SieveError;
use crate::memory::calculate_optimal_segment_size;
use crate::output::PrimeWriter;
use crate::primes::is_prime;
use crate::primes::lemma_primes_seq_contains;
use crate::primes::lemma_primes_seq_elements;
use crate::primes::lemma_primes_seq_increasing;
use crate::primes::lemma_primes_seq_no_primes_extend;
use crate::primes::lemma_small_primes;
use crate::primes::primes_seq;
use crate::segment::segment_inputs_ok;
use crate::segment::sieve_segment_collect;
use crate::sieve_math::integer_sqrt;
use crate::sieve_math::simple_sieve;
use crate::wheel::wheel_max_excluded;
use crate::wheel::wheel_max_excluded_prime;

verus! {

/// Relies on rayon's `current_num_threads`: the worker pool's size, which
/// depends on the machine and the pool's configuration.
#[verifier::external_body]
fn current_num_threads() -> usize {
    rayon::current_num_threads()
}

#[verifier::external_type_specification]
#[verifier::external_body]
pub struct ExInstant(std::time::Instant);

/// Relies on `std::time::Instant::now`; the value depends on the clock.
#[verifier::external_body]
fn monotonic_now() -> std::time::Instant {
    std::time::Instant::now()
}

/// Relies on `Instant::elapsed` and `Duration::as_millis`: the milliseconds
/// since `t`, saturated to 64 bits. The value depends on the clock.
#[verifier::external_body]
fn elapsed_millis_since(t: &std::time::Instant) -> u64 {
    u64::try_from(t.elapsed().as_millis()).unwrap_or(u64::MAX)
}

/// Relies on rayon's `par_iter`, `map` and `collect`: applies the verified
/// segment kernel to every pair of bounds concurrently, collecting the
/// per-segment results in input order. The closure only calls
/// `sieve_segment_collect`, whose contract the stated clauses repeat.
#[verifier::external_body]
fn sieve_batch_parallel(
    bounds: &Vec<(u64, u64)>,
    small_primes: &Vec<u64>,
    stop_flag: &CancelFlag,
    wheel_type: WheelType,
) -> (r: Vec<Option<Vec<u64>>>)
    requires
        forall|j: int|
            0 <= j < bounds@.len() ==> segment_inputs_ok(
                #[trigger] bounds@[j].0 as int,
                bounds@[j].1 as int,
                small_primes@,
                wheel_type,
            ),
    ensures
        r@.len() == bounds@.len(),
        forall|j: int|
            0 <= j < r@.len() ==> (#[trigger] r@[j] matches Some(v) ==> v@ == primes_seq(
                bounds@[j].0 as int,
                bounds@[j].1 as int,
            )),
{
    bounds.par_iter().map(
        |&(low, high)| sieve_segment_collect(low, high, small_primes, stop_flag, wheel_type),
    ).collect()
}

/// Streams one segment's primes to the sink in increasing order, advancing
/// the written prefix from just below the segment to its top.
fn write_segment_primes<W: PrimeWriter>(
    writer: &mut W,
    seg_primes: &Vec<u64>,
    Ghost(oldw): Ghost<Seq<u64>>,
    Ghost(min): Ghost<int>,
    Ghost(seg_lo): Ghost<int>,
    Ghost(seg_hi): Ghost<int>,
) -> (r: Result<(), String>)
    requires
        !old(writer).finished(),
        0 <= min <= seg_lo <= seg_hi <= u64::MAX,
        seg_primes@ == primes_seq(seg_lo, seg_hi),
        old(writer).written() == oldw + primes_seq(min, seg_lo - 1),
    ensures
        final(writer).finished() == old(writer).finished(),
        r is Ok ==> final(writer).written() == oldw + primes_seq(min, seg_hi),
        r is Err ==> exists|cut: int|
            seg_lo - 1 <= cut <= seg_hi && final(writer).written() == oldw + #[trigger] primes_seq(
                min,
                cut,
            ),
{
    proof {
        lemma_primes_seq_elements(seg_lo, seg_hi);
        lemma_primes_seq_increasing(seg_lo, seg_hi);
    }
    let ghost mut ecut: int = seg_lo - 1;
    let mut pi: usize = 0;
    while pi < seg_primes.len()
        invariant
            !writer.finished(),
            !old(writer).finished(),
            0 <= min <= seg_lo <= seg_hi <= u64::MAX,
            seg_primes@ == primes_seq(seg_lo, seg_hi),
            forall|t: int|
                0 <= t < seg_primes@.len() ==> {
                    let v = #[trigger] seg_primes@[t];
                    &&& is_prime(v as int)
                    &&& seg_lo <= v as int <= seg_hi
                },
            forall|t1: int, t2: int|
                0 <= t1 < t2 < seg_primes@.len() ==> #[trigger] seg_primes@[t1]
                    < #[trigger] seg_primes@[t2],
            pi <= seg_primes@.len(),
            ecut == (if pi == 0 {
                seg_lo - 1
            } else {
                seg_primes@[pi as int - 1] as int
            }),
            seg_lo - 1 <= ecut <= seg_hi,
            writer.written() == oldw + primes_seq(min, ecut),
        decreases seg_primes@.len() - pi,
    {
        let q = seg_primes[pi];
        proof {
            assert(is_prime(q as int));
            // no prime lies strictly between the cut and q
            assert forall|u: int| ecut < u < q as int implies !is_prime(u) by {
                if is_prime(u) && seg_lo <= u <= seg_hi {
                    lemma_primes_seq_contains(seg_lo, seg_hi, u as u64);
                    let t = choose|t: int|
                        0 <= t < seg_primes@.len() && seg_primes@[t] == u as u64;
                    if pi == 0 {
                        assert(seg_primes@[t] < seg_primes@[0] || t == 0);
                        assert(false);
                    } else {
                        assert(t < pi);
                        assert(t > pi - 1);
                        assert(false);
                    }
                }
            }
            lemma_primes_seq_no_primes_extend(min, ecut, q as int - 1);
            assert(primes_seq(min, q as int) == primes_seq(min, q as int - 1).push(q));
        }
        match writer.write_prime(q) {
            Ok(_) => {},
            Err(e) => {
                return Err(e);
            },
        }
        proof {
            assert(writer.written() =~= oldw + primes_seq(min, q as int));
            ecut = q as int;
        }
        pi = pi + 1;
    }
    proof {
        // the cut reaches the segment top: nothing prime remains above it
        assert forall|u: int| ecut < u <= seg_hi implies !is_prime(u) by {
            if is_prime(u) && seg_lo <= u {
                lemma_primes_seq_contains(seg_lo, seg_hi, u as u64);
                let t = choose|t: int| 0 <= t < seg_primes@.len() && seg_primes@[t] == u as u64;
                if seg_primes@.len() == 0 {
                    assert(false);
                } else {
                    assert(t <= seg_primes@.len() - 1);
                    assert(seg_primes@[t] <= seg_primes@[seg_primes@.len() - 1] || t
                        == seg_primes@.len() - 1);
                    assert(false);
                }
            }
        }
        lemma_primes_seq_no_primes_extend(min, ecut, seg_hi);
    }
    Ok(())
}

/// The prime stream a run leaves behind: the old contents extended by
/// exactly the primes of `[min, cut]` for some cut at most `max`.
pub open spec fn run_written_ok(oldw: Seq<u64>, neww: Seq<u64>, min: int, max: int) -> bool {
    exists|cut: int| cut <= max && neww == oldw + #[trigger] primes_seq(min, cut)
}

/// Progress reports a run appends: every report keeps the run's total,
/// never exceeds it, and `processed` never decreases from one report to the
/// next.
pub open spec fn progress_ok(olds: Seq<Progress>, news: Seq<Progress>, total: u64) -> bool {
    &&& olds.is_prefix_of(news)
    &&& forall|j: int| olds.len() <= j < news.len() ==> (#[trigger] news[j]).total == total
    &&& forall|j: int| olds.len() <= j < news.len() ==> (#[trigger] news[j]).processed <= total
    &&& forall|j: int|
        olds.len() <= j < news.len() - 1 ==> (#[trigger] news[j]).processed <= news[j
            + 1].processed
}

/// The stream any run leaves behind is strictly increasing: whatever the
/// batching or scheduling did, the values handed to `write_prime` grow
/// strictly from one call to the next.
pub proof fn lemma_run_output_increasing(oldw: Seq<u64>, neww: Seq<u64>, min: int, max: int)
    requires
        run_written_ok(oldw, neww, min, max),
        max <= u64::MAX,
    ensures
        forall|i: int, j: int|
            oldw.len() <= i < j < neww.len() ==> #[trigger] neww[i] < #[trigger] neww[j],
{
    let cut = choose|cut: int| cut <= max && neww == oldw + #[trigger] primes_seq(min, cut);
    lemma_primes_seq_increasing(min, cut);
    assert forall|i: int, j: int|
        oldw.len() <= i < j < neww.len() implies #[trigger] neww[i] < #[trigger] neww[j] by {
        assert(neww[i] == primes_seq(min, cut)[i - oldw.len()]);
        assert(neww[j] == primes_seq(min, cut)[j - oldw.len()]);
    }
}

/// Completeness with wheel pre-exclusion: a completed run's stream holds
/// every prime of the range — in particular each wheel-excluded prime that
/// falls inside it — exactly once.
pub proof fn lemma_prime_emitted_exactly_once(min: int, max: int, p: u64)
    requires
        max <= u64::MAX,
        is_prime(p as int),
        min <= p as int <= max,
    ensures
        primes_seq(min, max).contains(p),
        forall|i: int, j: int|
            0 <= i < j < primes_seq(min, max).len() ==> !(#[trigger] primes_seq(min, max)[i] == p
                && #[trigger] primes_seq(min, max)[j] == p),
{
    lemma_primes_seq_contains(min, max, p);
    lemma_primes_seq_increasing(min, max);
}

/// The segmented wheel engine agrees with the plain sieve: a completed run
/// over `[1, n]` writes exactly the list `simple_sieve(n)` returns, for any
/// wheel, since neither 0 nor 1 is prime.
pub proof fn lemma_full_range_matches_plain_sieve(n: int)
    requires
        1 <= n,
    ensures
        primes_seq(1, n) == primes_seq(2, n),
{
    crate::primes::lemma_primes_seq_concat(1, 1, n);
    crate::primes::lemma_primes_seq_empty(1, 1);
    assert(primes_seq(1, n) =~= primes_seq(2, n));
}

/// Generate all primes of `[cfg.prime_min, cfg.prime_max]` with the
/// segmented wheel sieve, streaming them to `writer` in strictly increasing
/// order and reporting progress after every batch of segments.
///
/// On `Ok(RunOutcome::Completed)` the sink received exactly the primes of
/// the requested range; on `Ok(RunOutcome::Cancelled)` — the flag was
/// observed set — it received exactly the primes of `[prime_min, cut]` for
/// some cut inside the range, and was finalized all the same. A sink
/// failure is handed back as `SieveError::Sink` without retrying; even then
/// the stream that was written is a clean prefix. The final report of a
/// completed run says `processed == total`.
#[verifier::rlimit(100)]
pub fn generate_primes_cpu<W: PrimeWriter, S: ProgressSink>(
    cfg: &Config,
    stop_flag: &CancelFlag,
    writer: &mut W,
    progress_cb: &mut S,
) -> (r: Result<RunOutcome, SieveError>)
    requires
        !old(writer).finished(),
        // machine limit: the small-prime table up to the range's square
        // root must be indexable even with 32-bit pointers
        cfg.prime_max < 0xFFFF_FFFC_0000_0000u64,
    ensures
        (cfg.prime_min > cfg.prime_max) <==> (r == Err::<RunOutcome, SieveError>(SieveError::InvalidRange)),
        r == Err::<RunOutcome, SieveError>(SieveError::InvalidRange) ==> *final(writer) == *old(writer)
            && final(progress_cb).reports() == old(progress_cb).reports(),
        r != Err::<RunOutcome, SieveError>(SieveError::InvalidRange) ==> run_written_ok(
            old(writer).written(),
            final(writer).written(),
            cfg.prime_min as int,
            cfg.prime_max as int,
        ),
        r is Ok ==> final(writer).finished(),
        r == Ok::<RunOutcome, SieveError>(RunOutcome::Completed) ==> final(writer).written() == old(writer).written()
            + primes_seq(cfg.prime_min as int, cfg.prime_max as int),
        cfg.prime_min <= cfg.prime_max ==> progress_ok(
            old(progress_cb).reports(),
            final(progress_cb).reports(),
            (cfg.prime_max - cfg.prime_min + 1) as u64,
        ),
        r == Ok::<RunOutcome, SieveError>(RunOutcome::Completed) ==> final(progress_cb).reports().len()
            > old(progress_cb).reports().len()
            && final(progress_cb).reports().last().processed == (cfg.prime_max
            - cfg.prime_min + 1) as u64,
{
    let prime_min = cfg.prime_min;
    let prime_max = cfg.prime_max;
    if prime_min > prime_max {
        return Err(SieveError::InvalidRange);
    }
    let ghost min = prime_min as int;
    let ghost max = prime_max as int;
    proof {
        assert(max < u64::MAX as int);
    }
    let ghost oldw = writer.written();
    let ghost olds = progress_cb.reports();
    proof {
        assert(olds.is_prefix_of(olds));
    }

    let start_time = monotonic_now();
    let total_range = prime_max - prime_min + 1;
    let wheel_type = cfg.wheel_type;

    if stop_flag.is_set() {
        match writer.finish() {
            Ok(_) => {},
            Err(e) => {
                proof {
                    assert(writer.written() == oldw + primes_seq(min, min - 1));
                }
                return Err(SieveError::Sink(e));
            },
        }
        proof {
            assert(writer.written() == oldw + primes_seq(min, min - 1));
        }
        return Ok(RunOutcome::Cancelled);
    }

    // segment sizing, bounded by the memory advisor
    let num_threads = current_num_threads();
    let optimal = calculate_optimal_segment_size(
        cfg.memory_usage_percent,
        num_threads,
        wheel_type,
    );
    let segment_size = if cfg.segment_size > 0 && cfg.segment_size < optimal {
        cfg.segment_size
    } else {
        optimal
    };

    // the shared small-prime table, up to the square root of the range top
    let root_base = integer_sqrt(prime_max);
    proof {
        assert(root_base <= 0xFFFF_FFFDu64) by (nonlinear_arith)
            requires
                root_base as int * root_base as int <= prime_max as int,
                prime_max < 0xFFFF_FFFC_0000_0000u64,
                root_base >= 0,
        {
        }
    }
    let root = root_base + 1;
    proof {
        assert(usize::MAX as int >= 0xFFFF_FFFFu64 as int);
        assert(root < usize::MAX as u64);
        assert(root as int * root as int > prime_max as int) by (nonlinear_arith)
            requires
                (root as int - 1 + 1) * (root as int - 1 + 1) > prime_max as int,
                root >= 1,
        {
        }
    }
    let small_primes = simple_sieve(root);

    // the wheel-excluded primes are emitted directly, in order
    let ghost mut ecut: int = min - 1;
    proof {
        lemma_small_primes();
        assert(writer.written() =~= oldw + primes_seq(min, ecut));
    }
    let wmax = wheel_max_excluded_prime(wheel_type);
    let mut ep: u64 = 2;
    while ep <= wmax
        invariant
            min == cfg.prime_min as int,
            max == cfg.prime_max as int,
            oldw == old(writer).written(),
            olds == old(progress_cb).reports(),
            2 <= ep <= 6,
            wmax as int == wheel_max_excluded(wheel_type),
            wmax <= 5,
            ep == 2 || ep == 3 || ep == 5 || ep == 6,
            min == prime_min as int,
            max == prime_max as int,
            min <= max,
            writer.written() == oldw + primes_seq(min, ecut),
            !writer.finished(),
            min - 1 <= ecut <= max,
            ecut == min - 1 || (min <= ecut && ecut < ep as int && ecut <= wheel_max_excluded(wheel_type)),
            forall|u: int| ecut < u < ep && min <= u <= max ==> !#[trigger] is_prime(u),
            progress_cb.reports() == olds,
        decreases 6 - ep,
    {
        proof {
            lemma_small_primes();
        }
        if prime_min <= ep && ep <= prime_max {
            let ghost prev = writer.written();
            match writer.write_prime(ep) {
                Ok(_) => {},
                Err(e) => {
                    return Err(SieveError::Sink(e));
                },
            }
            proof {
                lemma_primes_seq_no_primes_extend(min, ecut, ep as int - 1);
                assert(primes_seq(min, ep as int) == primes_seq(min, ep as int - 1).push(ep));
                assert(writer.written() =~= oldw + primes_seq(min, ep as int));
                ecut = ep as int;
            }
        } else {
            proof {
                assert((ep as int) < min || ep as int > max);
            }
        }
        ep = if ep == 2 {
            3
        } else if ep == 3 {
            5
        } else {
            6
        };
        proof {
            lemma_small_primes();
            assert forall|u: int| ecut < u < ep as int && min <= u <= max implies !#[trigger] is_prime(
                u,
            ) by {
                if is_prime(u) {
                    assert(u == 2 || u == 3 || u == 5);
                }
            }
        }
    }

    // the sieved part starts past the excluded primes
    let sieve_start = if wmax + 1 > prime_min {
        wmax + 1
    } else {
        prime_min
    };
    proof {
        lemma_small_primes();
        assert forall|u: int| ecut < u <= sieve_start as int - 1 && u <= max implies !is_prime(
            u,
        ) by {
            if is_prime(u) {
                assert(2 <= u <= 5);
                assert(min <= u);
            }
        }
    }

    if sieve_start > prime_max {
        proof {
            lemma_primes_seq_no_primes_extend(min, ecut, max);
            assert(writer.written() == oldw + primes_seq(min, max));
        }
        progress_cb.report(
            Progress { processed: total_range, total: total_range, eta_secs: Some(0) },
        );
        match writer.finish() {
            Ok(_) => {},
            Err(e) => {
                proof {
                    assert(progress_cb.reports() == olds.push(
                        Progress { processed: total_range, total: total_range, eta_secs: Some(0) },
                    ));
                }
                return Err(SieveError::Sink(e));
            },
        }
        return Ok(RunOutcome::Completed);
    }

    proof {
        lemma_primes_seq_no_primes_extend(min, ecut, sieve_start as int - 1);
        ecut = sieve_start as int - 1;
        assert(writer.written() == oldw + primes_seq(min, ecut));
    }

    let group_size = if num_threads >= 1 {
        num_threads
    } else {
        1
    };

    let mut seg_start = sieve_start;
    let mut processed: u64 = sieve_start - prime_min;

    while seg_start <= prime_max
        invariant
            min == cfg.prime_min as int,
            max == cfg.prime_max as int,
            oldw == old(writer).written(),
            olds == old(progress_cb).reports(),
            min == prime_min as int,
            max == prime_max as int,
            min <= max,
            max < u64::MAX,
            total_range as int == max - min + 1,
            wheel_max_excluded(wheel_type) < sieve_start as int,
            min <= sieve_start as int <= seg_start as int,
            ecut == seg_start as int - 1,
            ecut <= max,
            processed as int == seg_start as int - min,
            writer.written() == oldw + primes_seq(min, ecut),
            !writer.finished(),
            1 <= segment_size <= 100_000_000,
            group_size >= 1,
            small_primes@ == primes_seq(2, root as int),
            0 <= root as int <= u64::MAX,
            root as int * root as int > max,
            progress_ok(olds, progress_cb.reports(), total_range),
            (seg_start == sieve_start && progress_cb.reports() == olds) || (seg_start
                > sieve_start && progress_cb.reports().len() > olds.len()
                && progress_cb.reports().last().processed == processed),
            processed <= total_range,
        decreases max + 1 - seg_start as int,
    {
        if stop_flag.is_set() {
            match writer.finish() {
                Ok(_) => {},
                Err(e) => {
                    return Err(SieveError::Sink(e));
                },
            }
            return Ok(RunOutcome::Cancelled);
        }

        let ghost reports_mark = progress_cb.reports();

        // the batch's segment bounds: contiguous, truncated at the top
        let batch_from = seg_start;
        let mut group_bounds: Vec<(u64, u64)> = Vec::new();
        let mut gi: usize = 0;
        while gi < group_size && seg_start <= prime_max
            invariant
                min <= max,
                max < u64::MAX,
                min == prime_min as int,
                max == prime_max as int,
                wheel_max_excluded(wheel_type) < batch_from as int,
                batch_from <= seg_start,
                min <= batch_from as int,
                1 <= segment_size <= 100_000_000,
                gi <= group_size,
                seg_start as int <= max + 1,
                group_bounds@.len() == gi,
                gi > 0 ==> group_bounds@[0].0 == batch_from,
                gi > 0 ==> group_bounds@[gi as int - 1].1 as int == seg_start as int - 1,
                gi > 0 ==> seg_start > batch_from,
                gi == 0 ==> seg_start == batch_from,
                forall|j: int|
                    0 <= j < gi ==> batch_from <= (#[trigger] group_bounds@[j]).0,
                forall|j: int|
                    0 <= j < gi ==> (#[trigger] group_bounds@[j]).0 <= group_bounds@[j].1,
                forall|j: int| 0 <= j < gi ==> (#[trigger] group_bounds@[j]).1 as int <= max,
                forall|j: int|
                    0 <= j < gi ==> (#[trigger] group_bounds@[j]).1 as int
                        - group_bounds@[j].0 as int + 1 <= 1_000_000_000,
                forall|j: int|
                    0 <= j < gi ==> wheel_max_excluded(wheel_type) < (
                    #[trigger] group_bounds@[j]).0 as int,
                forall|j: int|
                    0 < j < gi ==> (#[trigger] group_bounds@[j]).0 as int == group_bounds@[j
                        - 1].1 as int + 1,
            decreases group_size - gi,
        {
            let seg_end = match seg_start.checked_add(segment_size - 1) {
                Some(e) => if e > prime_max {
                    prime_max
                } else {
                    e
                },
                None => prime_max,
            };
            group_bounds.push((seg_start, seg_end));
            seg_start = seg_end + 1;
            gi = gi + 1;
        }
        proof {
            assert(gi >= 1);
            assert(seg_start > batch_from);
        }

        let results = sieve_batch_parallel(&group_bounds, &small_primes, stop_flag, wheel_type);

        // write each segment's primes, in segment order
        let mut ri: usize = 0;
        while ri < results.len()
            invariant
                min == cfg.prime_min as int,
                max == cfg.prime_max as int,
                oldw == old(writer).written(),
                olds == old(progress_cb).reports(),
                min == prime_min as int,
                max == prime_max as int,
                min <= max,
                max < u64::MAX,
                total_range as int == max - min + 1,
                results@.len() == group_bounds@.len(),
                group_bounds@.len() > 0,
                group_bounds@[0].0 == batch_from,
                min <= batch_from as int,
                group_bounds@[group_bounds@.len() - 1].1 as int == seg_start as int - 1,
                forall|j: int|
                    0 <= j < group_bounds@.len() ==> batch_from <= (
                    #[trigger] group_bounds@[j]).0,
                forall|j: int|
                    0 <= j < group_bounds@.len() ==> (#[trigger] group_bounds@[j]).0
                        <= group_bounds@[j].1,
                forall|j: int|
                    0 <= j < group_bounds@.len() ==> (#[trigger] group_bounds@[j]).1 as int <= max,
                forall|j: int|
                    0 < j < group_bounds@.len() ==> (#[trigger] group_bounds@[j]).0 as int
                        == group_bounds@[j - 1].1 as int + 1,
                forall|j: int|
                    0 <= j < results@.len() ==> (#[trigger] results@[j] matches Some(v) ==> v@
                        == primes_seq(group_bounds@[j].0 as int, group_bounds@[j].1 as int)),
                ri <= results@.len(),
                ecut == (if ri == 0 {
                    batch_from as int - 1
                } else {
                    group_bounds@[ri as int - 1].1 as int
                }),
                ecut <= max,
                writer.written() == oldw + primes_seq(min, ecut),
                !writer.finished(),
                progress_cb.reports() == reports_mark,
                progress_ok(olds, reports_mark, total_range),
            decreases results@.len() - ri,
        {
            if stop_flag.is_set() {
                match writer.finish() {
                    Ok(_) => {},
                    Err(e) => {
                        return Err(SieveError::Sink(e));
                    },
                }
                return Ok(RunOutcome::Cancelled);
            }
            let ghost seg_lo = group_bounds@[ri as int].0 as int;
            let ghost seg_hi = group_bounds@[ri as int].1 as int;
            proof {
                assert(ecut == seg_lo - 1);
            }
            match &results[ri] {
                Some(seg_primes) => {
                    match write_segment_primes(
                        writer,
                        seg_primes,
                        Ghost(oldw),
                        Ghost(min),
                        Ghost(seg_lo),
                        Ghost(seg_hi),
                    ) {
                        Ok(_) => {},
                        Err(e) => {
                            proof {
                                let cut = choose|cut: int|
                                    seg_lo - 1 <= cut <= seg_hi && writer.written() == oldw
                                        + #[trigger] primes_seq(min, cut);
                                assert(cut <= max);
                            }
                            return Err(SieveError::Sink(e));
                        },
                    }
                    proof {
                        ecut = seg_hi;
                    }
                },
                None => {
                    // a worker observed the cancellation flag: its result
                    // is discarded and the run stops cleanly
                    match writer.finish() {
                        Ok(_) => {},
                        Err(e) => {
                            return Err(SieveError::Sink(e));
                        },
                    }
                    return Ok(RunOutcome::Cancelled);
                },
            }
            ri = ri + 1;
        }

        proof {
            assert(ecut == seg_start as int - 1);
        }
        let width = (seg_start - 1) - batch_from + 1;
        processed = processed + width;

        let elapsed = elapsed_millis_since(&start_time);
        let eta_secs = compute_eta(processed, total_range, elapsed);
        progress_cb.report(Progress { processed, total: total_range, eta_secs });
        proof {
            let news = progress_cb.reports();
            assert(news == reports_mark.push(
                Progress { processed, total: total_range, eta_secs },
            ));
            assert(olds.is_prefix_of(news)) by {
                assert(news.take(olds.len() as int) =~= olds);
            }
            assert forall|j: int| olds.len() <= j < news.len() - 1 implies (
            #[trigger] news[j]).processed <= news[j + 1].processed by {
                if j < reports_mark.len() - 1 {
                    assert(news[j] == reports_mark[j]);
                    assert(news[j + 1] == reports_mark[j + 1]);
                } else {
                    assert(j == reports_mark.len() - 1);
                    assert(news[j] == reports_mark.last());
                }
            }
        }
    }

    proof {
        assert(ecut == max);
        assert(writer.written() == oldw + primes_seq(min, max));
    }
    match writer.finish() {
        Ok(_) => {},
        Err(e) => {
            return Err(SieveError::Sink(e));
        },
    }
    Ok(RunOutcome::Completed)
}

} // verus!
