use sosu_seisei::cancel::CancelFlag;
use sosu_seisei::segment::sieve_segment_collect;
use sosu_seisei::config::Config;
use sosu_seisei::config::WheelType;
use sosu_seisei::cpu_engine::generate_primes_cpu;
use sosu_seisei::engine_types::CollectingProgressSink;
use sosu_seisei::engine_types::RunOutcome;
use sosu_seisei::engine_types::SieveError;
use sosu_seisei::output::CollectingPrimeWriter;
use sosu_seisei::output::LastPrimeWriter;
use sosu_seisei::sieve_math::simple_sieve;

fn run_config(min: u64, max: u64, wheel: WheelType) -> Config {
    let mut cfg = Config::default();
    cfg.prime_min = min;
    cfg.prime_max = max;
    cfg.wheel_type = wheel;
    cfg.segment_size = 0;
    cfg
}

fn run_engine(min: u64, max: u64, wheel: WheelType) -> (Vec<u64>, Vec<sosu_seisei::engine_types::Progress>) {
    let cfg = run_config(min, max, wheel);
    let flag = CancelFlag::new();
    let mut writer = CollectingPrimeWriter::new();
    let mut progress = CollectingProgressSink::new();
    let outcome = generate_primes_cpu(&cfg, &flag, &mut writer, &mut progress)
        .expect("engine run failed");
    assert_eq!(outcome, RunOutcome::Completed);
    (writer.primes().clone(), progress.items().clone())
}

const PRIMES_TO_100: [u64; 25] = [
    2, 3, 5, 7, 11, 13, 17, 19, 23, 29, 31, 37, 41, 43, 47, 53, 59, 61, 67, 71, 73, 79, 83, 89,
    97,
];

#[test]
fn hundred_with_mod30_wheel() {
    let (primes, _) = run_engine(1, 100, WheelType::Mod30);
    assert_eq!(primes, PRIMES_TO_100.to_vec());
}

#[test]
fn hundred_with_odd_wheel_same_output() {
    let (odd, _) = run_engine(1, 100, WheelType::Odd);
    let (mod6, _) = run_engine(1, 100, WheelType::Mod6);
    let (mod30, _) = run_engine(1, 100, WheelType::Mod30);
    assert_eq!(odd, PRIMES_TO_100.to_vec());
    assert_eq!(mod6, PRIMES_TO_100.to_vec());
    assert_eq!(mod30, PRIMES_TO_100.to_vec());
}

#[test]
fn matches_plain_sieve_up_to_ten_thousand() {
    let expected = simple_sieve(10_000);
    for wheel in [WheelType::Odd, WheelType::Mod6, WheelType::Mod30] {
        let (primes, _) = run_engine(1, 10_000, wheel);
        assert_eq!(primes, expected);
    }
}

#[test]
fn matches_plain_sieve_up_to_one_million() {
    let expected = simple_sieve(1_000_000);
    assert_eq!(expected.len(), 78_498);
    for wheel in [WheelType::Odd, WheelType::Mod6, WheelType::Mod30] {
        let (primes, _) = run_engine(1, 1_000_000, wheel);
        assert_eq!(primes, expected);
    }
}

#[test]
fn output_strictly_increasing() {
    let (primes, _) = run_engine(1, 50_000, WheelType::Mod30);
    for w in primes.windows(2) {
        assert!(w[0] < w[1], "not increasing: {} then {}", w[0], w[1]);
    }
}

#[test]
fn wheel_excluded_primes_emitted_exactly_once() {
    for wheel in [WheelType::Odd, WheelType::Mod6, WheelType::Mod30] {
        let (primes, _) = run_engine(1, 100, wheel);
        for p in [2u64, 3, 5] {
            assert_eq!(primes.iter().filter(|&&v| v == p).count(), 1);
        }
    }
}

#[test]
fn partial_range_only_excluded_primes() {
    // a range that ends inside the wheel's own primes
    let (primes, progress) = run_engine(1, 4, WheelType::Mod30);
    assert_eq!(primes, vec![2, 3]);
    let last = progress.last().expect("no progress reported");
    assert_eq!(last.processed, last.total);
}

#[test]
fn range_not_starting_at_one() {
    let (primes, _) = run_engine(90, 130, WheelType::Mod30);
    assert_eq!(primes, vec![97, 101, 103, 107, 109, 113, 127]);
    let (primes2, _) = run_engine(4, 10, WheelType::Mod6);
    assert_eq!(primes2, vec![5, 7]);
}

#[test]
fn invalid_range_is_rejected() {
    let cfg = run_config(10, 5, WheelType::Mod30);
    let flag = CancelFlag::new();
    let mut writer = CollectingPrimeWriter::new();
    let mut progress = CollectingProgressSink::new();
    let r = generate_primes_cpu(&cfg, &flag, &mut writer, &mut progress);
    assert_eq!(r, Err(SieveError::InvalidRange));
    assert!(writer.primes().is_empty());
    assert!(progress.items().is_empty());
}

#[test]
fn progress_reports_well_formed() {
    let (_, reports) = run_engine(1, 300_000, WheelType::Mod6);
    assert!(!reports.is_empty());
    let total = 300_000;
    let mut prev = 0u64;
    for rep in &reports {
        assert_eq!(rep.total, total);
        assert!(rep.processed <= rep.total);
        assert!(rep.processed >= prev);
        prev = rep.processed;
    }
    assert_eq!(reports.last().unwrap().processed, total);
}

#[test]
fn cancellation_before_start_writes_nothing() {
    let cfg = run_config(1, 1_000_000, WheelType::Mod30);
    let flag = CancelFlag::new();
    flag.set();
    let mut writer = CollectingPrimeWriter::new();
    let mut progress = CollectingProgressSink::new();
    let outcome = generate_primes_cpu(&cfg, &flag, &mut writer, &mut progress)
        .expect("cancelled run still returns Ok");
    assert_eq!(outcome, RunOutcome::Cancelled);
    assert!(writer.primes().is_empty());
}

#[test]
fn cancelled_output_is_prefix_of_full_output() {
    let full = simple_sieve(1_000_000);
    let cfg = run_config(1, 1_000_000, WheelType::Mod30);
    let flag = CancelFlag::new();
    flag.set();
    let mut writer = CollectingPrimeWriter::new();
    let mut progress = CollectingProgressSink::new();
    let outcome = generate_primes_cpu(&cfg, &flag, &mut writer, &mut progress).unwrap();
    assert_eq!(outcome, RunOutcome::Cancelled);
    let written = writer.primes();
    assert!(written.len() <= full.len());
    assert_eq!(&full[..written.len()], &written[..]);
}

#[test]
fn last_prime_writer_keeps_count_and_last() {
    let cfg = run_config(1, 100, WheelType::Mod30);
    let flag = CancelFlag::new();
    let mut writer = LastPrimeWriter::new();
    let mut progress = CollectingProgressSink::new();
    let outcome = generate_primes_cpu(&cfg, &flag, &mut writer, &mut progress).unwrap();
    assert_eq!(outcome, RunOutcome::Completed);
    assert_eq!(writer.get_last_prime(), Some(97));
    assert_eq!(writer.total_primes_written(), 25);
}

#[test]
fn finish_called_on_both_outcomes() {
    // completed run
    let cfg = run_config(1, 1_000, WheelType::Odd);
    let flag = CancelFlag::new();
    let mut writer = CollectingPrimeWriter::new();
    let mut progress = CollectingProgressSink::new();
    let outcome = generate_primes_cpu(&cfg, &flag, &mut writer, &mut progress).unwrap();
    assert_eq!(outcome, RunOutcome::Completed);
    assert!(writer.is_finished());
    // cancelled run
    let flag2 = CancelFlag::new();
    flag2.set();
    let mut writer2 = CollectingPrimeWriter::new();
    let mut progress2 = CollectingProgressSink::new();
    let outcome2 = generate_primes_cpu(&cfg, &flag2, &mut writer2, &mut progress2).unwrap();
    assert_eq!(outcome2, RunOutcome::Cancelled);
    assert!(writer2.is_finished());
}

#[test]
fn segment_kernel_honours_cancellation() {
    let small_primes = sosu_seisei::sieve_math::simple_sieve(11);
    let flag = CancelFlag::new();
    let r = sieve_segment_collect(7, 100, &small_primes, &flag, WheelType::Mod30);
    assert_eq!(
        r,
        Some(vec![7, 11, 13, 17, 19, 23, 29, 31, 37, 41, 43, 47, 53, 59, 61, 67, 71, 73, 79,
            83, 89, 97])
    );
    flag.set();
    let r2 = sieve_segment_collect(7, 100, &small_primes, &flag, WheelType::Mod30);
    assert_eq!(r2, None);
}

#[test]
fn segment_size_hint_changes_nothing_in_output() {
    let mut cfg = run_config(1, 200_000, WheelType::Mod30);
    cfg.segment_size = 1_000;
    let flag = CancelFlag::new();
    let mut writer = CollectingPrimeWriter::new();
    let mut progress = CollectingProgressSink::new();
    let outcome = generate_primes_cpu(&cfg, &flag, &mut writer, &mut progress).unwrap();
    assert_eq!(outcome, RunOutcome::Completed);
    assert_eq!(writer.primes(), &simple_sieve(200_000));
}
