//! Types shared between the sieve engine and its callers: progress reports,
//! run outcomes, errors, and the ETA estimate.

use vstd::prelude::*;

verus! {

/// A progress report handed to the caller's progress sink.
///
/// Within one run, `processed` never decreases and never exceeds `total`.
#[derive(Debug, Clone, Copy)]
pub struct Progress {
    /// How many values of the requested range have been handled so far.
    pub processed: u64,
    /// How many values the requested range holds in all.
    pub total: u64,
    /// Estimated seconds remaining; `None` while it cannot be computed yet.
    pub eta_secs: Option<u64>,
}

/// How a sieve run ended when it did not fail.
#[derive(Debug, Clone, Copy, PartialEq, Eq, Structural)]
pub enum RunOutcome {
    /// The whole requested range was sieved and written.
    Completed,
    /// The cancellation flag was observed; the run stopped at a segment
    /// boundary after finalizing the sink.
    Cancelled,
}

/// The failures a sieve run can report.
#[derive(Debug, Clone, PartialEq, Eq)]
pub enum SieveError {
    /// The request had `prime_min > prime_max`.
    InvalidRange,
    /// The prime sink failed; the text is the sink's own description.
    Sink(String),
}

impl SieveError {
    /// A human-readable description of the error.
    pub fn message(&self) -> (r: String)
        ensures
            self is InvalidRange ==> r@ == "prime_min must be <= prime_max"@,
            self matches SieveError::Sink(m) ==> r@ == m@,
    {
        match self {
            SieveError::InvalidRange => String::from_str("prime_min must be <= prime_max"),
            SieveError::Sink(m) => m.clone(),
        }
    }
}

/// The callback surface progress reports flow through.
pub trait ProgressSink {
    /// The reports delivered so far, in call order.
    spec fn reports(&self) -> Seq<Progress>;

    /// Delivers one report.
    fn report(&mut self, p: Progress)
        ensures
            final(self).reports() == old(self).reports().push(p),
    ;
}

/// A sink that records every report it receives.
pub struct CollectingProgressSink {
    items: Vec<Progress>,
}

impl CollectingProgressSink {
    /// A fresh, empty sink.
    pub fn new() -> (r: CollectingProgressSink)
        ensures
            r.reports() == Seq::<Progress>::empty(),
    {
        CollectingProgressSink { items: Vec::new() }
    }

    /// The reports received so far, in delivery order.
    pub fn items(&self) -> (r: &Vec<Progress>)
        ensures
            r@ == self.reports(),
    {
        &self.items
    }
}

impl ProgressSink for CollectingProgressSink {
    closed spec fn reports(&self) -> Seq<Progress> {
        self.items@
    }

    fn report(&mut self, p: Progress) {
        self.items.push(p);
    }
}

/// What `compute_eta` returns: the remaining time extrapolated linearly from
/// the elapsed time and the completion fraction, rounded to whole seconds
/// and saturated at `u64::MAX`.
pub open spec fn spec_compute_eta(processed: u64, total: u64, elapsed_millis: u64) -> Option<
    u64,
> {
    if total == 0 || processed == 0 {
        None
    } else {
        let done = if processed > total {
            total as int
        } else {
            processed as int
        };
        let total_millis = elapsed_millis as int * total as int / done;
        let secs = (total_millis - elapsed_millis as int + 500) / 1000;
        if secs > u64::MAX {
            Some(u64::MAX)
        } else {
            Some(secs as u64)
        }
    }
}

/// Estimate the remaining seconds of a run that has handled `processed` of
/// `total` values in `elapsed_millis` milliseconds.
///
/// Returns `None` until any progress exists (`processed == 0`) or when the
/// range is empty (`total == 0`).
pub fn compute_eta(processed: u64, total: u64, elapsed_millis: u64) -> (r: Option<u64>)
    ensures
        r == spec_compute_eta(processed, total, elapsed_millis),
{
    if total == 0 || processed == 0 {
        return None;
    }
    let done: u64 = if processed > total {
        total
    } else {
        processed
    };
    proof {
        assert(elapsed_millis as int * total as int <= u64::MAX as int * u64::MAX as int) by {
            vstd::arithmetic::mul::lemma_mul_upper_bound(elapsed_millis as int, u64::MAX as int,
                total as int, u64::MAX as int);
        }
        assert(elapsed_millis as int * total as int >= elapsed_millis as int * done as int) by {
            vstd::arithmetic::mul::lemma_mul_inequality(done as int, total as int,
                elapsed_millis as int);
            vstd::arithmetic::mul::lemma_mul_is_commutative(elapsed_millis as int, done as int);
            vstd::arithmetic::mul::lemma_mul_is_commutative(elapsed_millis as int, total as int);
        }
        assert(elapsed_millis as int * total as int / done as int >= elapsed_millis as int) by {
            vstd::arithmetic::div_mod::lemma_div_multiples_vanish(elapsed_millis as int,
                done as int);
            vstd::arithmetic::div_mod::lemma_div_is_ordered(
                elapsed_millis as int * done as int,
                elapsed_millis as int * total as int,
                done as int,
            );
            vstd::arithmetic::mul::lemma_mul_is_commutative(elapsed_millis as int, done as int);
        }
    }
    let total_millis: u128 = elapsed_millis as u128 * total as u128 / done as u128;
    let remaining: u128 = total_millis - elapsed_millis as u128;
    let secs: u128 = (remaining + 500) / 1000;
    if secs > u64::MAX as u128 {
        Some(u64::MAX)
    } else {
        Some(secs as u64)
    }
}

} // verus!
