//! Numeric parameters of a sieve run, as handed over by the caller.

use vstd::prelude::*;

verus! {

/// Serialization chosen for prime output files.
#[derive(Debug, Clone, Copy, PartialEq, Eq, Structural)]
pub enum OutputFormat {
    Text,
    CSV,
    JSON,
    Binary,
}

/// Which small primes the wheel pre-excludes, and hence which modular
/// residues count as candidates.
#[derive(Debug, Clone, Copy, PartialEq, Eq, Structural)]
pub enum WheelType {
    /// Excludes 2; candidates are the odd numbers.
    Odd,
    /// Excludes 2 and 3; candidates are 1 and 5 modulo 6.
    Mod6,
    /// Excludes 2, 3 and 5; candidates are the eight residues coprime to 30.
    Mod30,
}

/// One sieve run's configuration. Immutable for the duration of a run.
#[derive(Debug, Clone)]
pub struct Config {
    pub prime_min: u64,
    pub prime_max: u64,
    pub prime_pi_x: u64,
    /// Requested segment size; 0 asks the memory advisor to choose.
    pub segment_size: u64,
    pub writer_buffer_size: usize,
    pub output_format: OutputFormat,
    pub output_dir: String,
    pub split_count: u64,
    pub last_prime_only: bool,
    pub wheel_type: WheelType,
    /// Share of system memory the sieve may plan with, in whole percents.
    pub memory_usage_percent: u64,
    pub use_timestamp_prefix: bool,
    pub max_log_lines: usize,
    pub max_explore_points: usize,
    pub max_gap_events: usize,
    pub max_density_points: usize,
    pub max_spiral_cells: usize,
}

pub fn default_wheel_type() -> (r: WheelType)
    ensures
        r == WheelType::Mod30,
{
    WheelType::Mod30
}

pub fn default_prime_pi_x() -> (r: u64)
    ensures
        r == 1_000_000_000u64,
{
    1_000_000_000
}

pub fn default_use_timestamp_prefix() -> (r: bool)
    ensures
        r == true,
{
    true
}

pub fn default_max_log_lines() -> (r: usize)
    ensures
        r == 2000usize,
{
    2000
}

pub fn default_max_explore_points() -> (r: usize)
    ensures
        r == 10_000usize,
{
    10_000
}

pub fn default_max_gap_events() -> (r: usize)
    ensures
        r == 50_000usize,
{
    50_000
}

pub fn default_max_density_points() -> (r: usize)
    ensures
        r == 20_000usize,
{
    20_000
}

pub fn default_max_spiral_cells() -> (r: usize)
    ensures
        r == 400_000usize,
{
    400_000
}

pub fn default_memory_usage_percent() -> (r: u64)
    ensures
        r == 50u64,
{
    50
}

impl Default for Config {
    /// The configuration a fresh installation starts from.
    fn default() -> (r: Config)
        ensures
            r.prime_min == 1,
            r.prime_max == 1_000_000_000,
            r.segment_size == 10_000_000,
            r.wheel_type == WheelType::Mod30,
            r.output_format == OutputFormat::Binary,
            r.last_prime_only == true,
            r.split_count == 0,
            r.memory_usage_percent == 50,
    {
        Config {
            prime_min: 1,
            prime_max: 1_000_000_000,
            prime_pi_x: default_prime_pi_x(),
            segment_size: 10_000_000,
            writer_buffer_size: 8 * 1024 * 1024,
            output_format: OutputFormat::Binary,
            output_dir: String::from_str("."),
            split_count: 0,
            last_prime_only: true,
            wheel_type: default_wheel_type(),
            memory_usage_percent: default_memory_usage_percent(),
            use_timestamp_prefix: default_use_timestamp_prefix(),
            max_log_lines: default_max_log_lines(),
            max_explore_points: default_max_explore_points(),
            max_gap_events: default_max_gap_events(),
            max_density_points: default_max_density_points(),
            max_spiral_cells: default_max_spiral_cells(),
        }
    }
}

} // verus!
