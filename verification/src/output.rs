//! The prime sink interface and the in-memory sinks the crate provides.
//!
//! File-backed sinks live with the surrounding application; the engine only
//! relies on the contract below.

use vstd::prelude::*;

verus! {

/// The sink a sieve run streams primes into.
///
/// `written` models the primes accepted so far, in call order; `finished`
/// models whether the sink was finalized. A run calls `finish` exactly once.
pub trait PrimeWriter {
    /// The primes this sink has accepted, in call order.
    spec fn written(&self) -> Seq<u64>;

    /// Whether `finish` has been called.
    spec fn finished(&self) -> bool;

    /// Accepts one prime; on failure the sink reports its own description
    /// and records nothing.
    fn write_prime(&mut self, p: u64) -> (r: Result<(), String>)
        requires
            !old(self).finished(),
        ensures
            r is Ok ==> final(self).written() == old(self).written().push(p),
            r is Err ==> final(self).written() == old(self).written(),
            final(self).finished() == old(self).finished(),
    ;

    /// Finalizes the sink. Called exactly once, at the end of a successful
    /// or cancelled run.
    fn finish(&mut self) -> (r: Result<(), String>)
        requires
            !old(self).finished(),
        ensures
            final(self).written() == old(self).written(),
            r is Ok ==> final(self).finished(),
    ;
}

/// A sink that keeps only the last prime seen and a count, for runs whose
/// output would be too large to keep.
pub struct LastPrimeWriter {
    last_prime: Option<u64>,
    total_count: u64,
    done: bool,
    history: Ghost<Seq<u64>>,
}

impl LastPrimeWriter {
    #[verifier::type_invariant]
    spec fn wf(self) -> bool {
        &&& self.total_count as int == (if self.history@.len() <= u64::MAX {
            self.history@.len() as int
        } else {
            u64::MAX as int
        })
        &&& (self.history@.len() == 0 <==> self.last_prime is None)
        &&& (self.history@.len() > 0 ==> self.last_prime == Some(self.history@.last()))
    }

    /// A fresh sink that has seen nothing.
    pub fn new() -> (r: LastPrimeWriter)
        ensures
            r.written() == Seq::<u64>::empty(),
            !r.finished(),
    {
        LastPrimeWriter { last_prime: None, total_count: 0, done: false, history: Ghost(Seq::empty()) }
    }

    /// The most recent prime, or `None` before the first write.
    pub fn get_last_prime(&self) -> (r: Option<u64>)
        ensures
            self.written().len() == 0 ==> r is None,
            self.written().len() > 0 ==> r == Some(self.written().last()),
    {
        proof {
            use_type_invariant(self);
        }
        self.last_prime
    }

    /// How many primes have been written, saturating at `u64::MAX`.
    pub fn total_primes_written(&self) -> (r: u64)
        ensures
            r as int == (if self.written().len() <= u64::MAX {
                self.written().len() as int
            } else {
                u64::MAX as int
            }),
    {
        proof {
            use_type_invariant(self);
        }
        self.total_count
    }
}

impl PrimeWriter for LastPrimeWriter {
    closed spec fn written(&self) -> Seq<u64> {
        self.history@
    }

    closed spec fn finished(&self) -> bool {
        self.done
    }

    fn write_prime(&mut self, p: u64) -> (r: Result<(), String>) {
        proof {
            use_type_invariant(&*self);
        }
        let new_count = if self.total_count < u64::MAX {
            self.total_count + 1
        } else {
            self.total_count
        };
        let ghost h = self.history@.push(p);
        *self = LastPrimeWriter {
            last_prime: Some(p),
            total_count: new_count,
            done: self.done,
            history: Ghost(h),
        };
        Ok(())
    }

    fn finish(&mut self) -> (r: Result<(), String>) {
        proof {
            use_type_invariant(&*self);
        }
        self.done = true;
        Ok(())
    }
}

/// A sink that records every prime, used where the caller wants the full
/// list in memory (tests use it to observe a run's exact output).
pub struct CollectingPrimeWriter {
    primes: Vec<u64>,
    done: bool,
}

impl CollectingPrimeWriter {
    /// A fresh, empty sink.
    pub fn new() -> (r: CollectingPrimeWriter)
        ensures
            r.written() == Seq::<u64>::empty(),
            !r.finished(),
    {
        CollectingPrimeWriter { primes: Vec::new(), done: false }
    }

    /// The primes recorded so far, in write order.
    pub fn primes(&self) -> (r: &Vec<u64>)
        ensures
            r@ == self.written(),
    {
        &self.primes
    }

    /// Whether the sink was finalized.
    pub fn is_finished(&self) -> (r: bool)
        ensures
            r == self.finished(),
    {
        self.done
    }
}

impl PrimeWriter for CollectingPrimeWriter {
    closed spec fn written(&self) -> Seq<u64> {
        self.primes@
    }

    closed spec fn finished(&self) -> bool {
        self.done
    }

    fn write_prime(&mut self, p: u64) -> (r: Result<(), String>) {
        self.primes.push(p);
        Ok(())
    }

    fn finish(&mut self) -> (r: Result<(), String>) {
        self.done = true;
        Ok(())
    }
}

/// A report describing one finished generation run, written beside the
/// output files by the surrounding application.
#[derive(Debug)]
pub struct OutputMetadata {
    pub range: (u64, u64),
    pub count: u64,
    pub pi_x_verified: bool,
    pub execution_time_ms: u64,
    pub generated_at: String,
    pub tool_version: String,
    /// Names of the files the run produced.
    pub output_files: Vec<String>,
    pub primecount_version: Option<String>,
    pub primecount_mode: Option<String>,
}

impl OutputMetadata {
    /// Bundles one run's facts. The caller supplies the timestamp text and
    /// tool version, since the library does not read the clock itself.
    pub fn new(
        range: (u64, u64),
        count: u64,
        pi_x_verified: bool,
        execution_time_ms: u64,
        output_files: Vec<String>,
        primecount_version: Option<String>,
        primecount_mode: Option<String>,
        generated_at: String,
        tool_version: String,
    ) -> (r: OutputMetadata)
        ensures
            r.range == range,
            r.count == count,
            r.pi_x_verified == pi_x_verified,
            r.execution_time_ms == execution_time_ms,
            r.output_files == output_files,
            r.generated_at == generated_at,
            r.tool_version == tool_version,
    {
        OutputMetadata {
            range,
            count,
            pi_x_verified,
            execution_time_ms,
            generated_at,
            tool_version,
            output_files,
            primecount_version,
            primecount_mode,
        }
    }
}

} // verus!
