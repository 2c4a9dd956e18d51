//! A memory-bounded, wheel-factorized, segmented prime sieve.
//!
//! The crate partitions a numeric range into wheel-aligned segments, sieves
//! each segment against a shared table of small primes, and streams the
//! primes it finds, in strictly increasing order, to a caller-supplied sink,
//! while reporting progress and honouring a cooperative cancellation flag.

pub mod bits;
pub mod cancel;
pub mod config;
pub mod cpu_engine;
pub mod engine_types;
pub mod memory;
pub mod output;
pub mod primes;
pub mod segment;
pub mod sieve_math;
pub mod verify;
pub mod wheel;
pub mod worker_message;
