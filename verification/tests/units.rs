use sosu_seisei::config::WheelType;
use sosu_seisei::engine_types::compute_eta;
use sosu_seisei::memory::estimate_segment_memory;
use sosu_seisei::memory::get_wheel_compression_ratio;
use sosu_seisei::memory::optimal_segment_size_for_memory;
use sosu_seisei::sieve_math::integer_sqrt;
use sosu_seisei::sieve_math::simple_sieve;
use sosu_seisei::verify::check_prime_records;
use sosu_seisei::verify::is_probable_prime;
use sosu_seisei::verify::mod_pow;
use sosu_seisei::verify::VerifyError;
use sosu_seisei::wheel::adjust_low;
use sosu_seisei::wheel::calculate_bitvec_size;
use sosu_seisei::wheel::index_to_n;
use sosu_seisei::wheel::is_wheel_candidate;
use sosu_seisei::wheel::n_to_index;
use sosu_seisei::worker_message::format_eta;
use sosu_seisei::worker_message::u64_to_decimal;

#[test]
fn integer_sqrt_exact_and_floor() {
    assert_eq!(integer_sqrt(0), 0);
    assert_eq!(integer_sqrt(1), 1);
    assert_eq!(integer_sqrt(2), 1);
    assert_eq!(integer_sqrt(3), 1);
    assert_eq!(integer_sqrt(4), 2);
    assert_eq!(integer_sqrt(99), 9);
    assert_eq!(integer_sqrt(100), 10);
    assert_eq!(integer_sqrt(u64::MAX), 4_294_967_295);
}

#[test]
fn simple_sieve_small_cases() {
    assert_eq!(simple_sieve(0), Vec::<u64>::new());
    assert_eq!(simple_sieve(1), Vec::<u64>::new());
    assert_eq!(simple_sieve(2), vec![2]);
    assert_eq!(simple_sieve(30), vec![2, 3, 5, 7, 11, 13, 17, 19, 23, 29]);
    assert_eq!(simple_sieve(100).len(), 25);
    assert_eq!(simple_sieve(10_000).len(), 1_229);
}

#[test]
fn wheel_round_trip_on_a_segment() {
    for wheel in [WheelType::Odd, WheelType::Mod6, WheelType::Mod30] {
        let low = adjust_low(1_000, wheel).expect("no candidate found");
        for n in low..=1_500 {
            if is_wheel_candidate(n, wheel) {
                let idx = n_to_index(n, low, wheel).expect("candidate must have an index");
                assert_eq!(index_to_n(idx, low, wheel), n);
            } else {
                assert_eq!(n_to_index(n, low, wheel), None);
            }
        }
    }
}

#[test]
fn wheel_index_is_dense() {
    for wheel in [WheelType::Odd, WheelType::Mod6, WheelType::Mod30] {
        let low = adjust_low(101, wheel).expect("no candidate found");
        let mut expected = 0usize;
        for n in low..=400 {
            if is_wheel_candidate(n, wheel) {
                assert_eq!(n_to_index(n, low, wheel), Some(expected));
                expected += 1;
            }
        }
        let size = calculate_bitvec_size(low, 400, wheel);
        assert!(size >= expected);
    }
}

#[test]
fn adjust_low_finds_next_candidate() {
    assert_eq!(adjust_low(10, WheelType::Odd), Some(11));
    assert_eq!(adjust_low(11, WheelType::Odd), Some(11));
    assert_eq!(adjust_low(12, WheelType::Mod6), Some(13));
    assert_eq!(adjust_low(9, WheelType::Mod6), Some(11));
    assert_eq!(adjust_low(24, WheelType::Mod30), Some(29));
    assert_eq!(adjust_low(30, WheelType::Mod30), Some(31));
    assert_eq!(adjust_low(31, WheelType::Mod30), Some(31));
    assert_eq!(adjust_low(u64::MAX - 1, WheelType::Mod30), None);
}

#[test]
fn compute_eta_examples() {
    // halfway done in ten seconds leaves about ten seconds
    assert_eq!(compute_eta(50, 100, 10_000), Some(10));
    assert_eq!(compute_eta(0, 100, 5_000), None);
    assert_eq!(compute_eta(10, 0, 5_000), None);
    assert_eq!(compute_eta(100, 100, 8_000), Some(0));
    assert_eq!(compute_eta(25, 100, 10_000), Some(30));
}

#[test]
fn format_eta_examples() {
    assert_eq!(format_eta(None), "Calculating...");
    assert_eq!(format_eta(Some(45)), "45 sec");
    assert_eq!(format_eta(Some(125)), "2 min 5 sec");
    assert_eq!(format_eta(Some(120)), "2 min");
    assert_eq!(format_eta(Some(3670)), "1 h 1 min");
    assert_eq!(format_eta(Some(7200)), "2 h");
    assert_eq!(format_eta(Some(0)), "0 sec");
}

#[test]
fn decimal_rendering() {
    assert_eq!(u64_to_decimal(0), "0");
    assert_eq!(u64_to_decimal(7), "7");
    assert_eq!(u64_to_decimal(10), "10");
    assert_eq!(u64_to_decimal(90521), "90521");
    assert_eq!(u64_to_decimal(u64::MAX), "18446744073709551615");
}

#[test]
fn miller_rabin_known_values() {
    assert!(!is_probable_prime(0));
    assert!(!is_probable_prime(1));
    assert!(is_probable_prime(2));
    assert!(is_probable_prime(3));
    assert!(!is_probable_prime(4));
    assert!(is_probable_prime(5));
    assert!(!is_probable_prime(1_000_000));
    assert!(is_probable_prime(1_000_003));
    assert!(is_probable_prime(4_294_967_291));
    assert!(!is_probable_prime(4_294_967_297)); // 641 * 6700417
    assert!(is_probable_prime(18_446_744_073_709_551_557)); // largest 64-bit prime
    assert!(!is_probable_prime(3_215_031_751)); // strong pseudoprime to bases 2,3,5,7
    // all primes below 100 and nothing else
    let primes: Vec<u64> = (0..100).filter(|&n| is_probable_prime(n)).collect();
    assert_eq!(primes, simple_sieve(99));
}

#[test]
fn mod_pow_matches_naive() {
    assert_eq!(mod_pow(2, 10, 1_000), 24);
    assert_eq!(mod_pow(3, 0, 7), 1);
    assert_eq!(mod_pow(10, 5, 7), 100_000 % 7);
    assert_eq!(mod_pow(0, 5, 9), 0);
}

#[test]
fn record_checks_accept_good_lists() {
    let report = check_prime_records(&vec![2, 3, 5, 7, 11], 3).expect("good list rejected");
    assert_eq!(report.line_count, 5);
    assert_eq!(report.checked_tail, 3);
    assert_eq!(report.min, 2);
    assert_eq!(report.max, 11);
}

#[test]
fn record_checks_report_each_failure() {
    assert_eq!(check_prime_records(&vec![], 4), Err(VerifyError::Empty));
    assert_eq!(
        check_prime_records(&vec![2, 7, 5], 0),
        Err(VerifyError::NonIncreasing { index: 3, prev: 7, current: 5 })
    );
    assert_eq!(
        check_prime_records(&vec![2, 3, 8], 0),
        Err(VerifyError::EvenComposite { index: 3, value: 8 })
    );
    assert_eq!(
        check_prime_records(&vec![2, 3, 9], 3),
        Err(VerifyError::CompositeTail { index: 3, value: 9 })
    );
}

#[test]
fn compression_and_memory_estimates() {
    assert_eq!(get_wheel_compression_ratio(WheelType::Odd), 500);
    assert_eq!(get_wheel_compression_ratio(WheelType::Mod6), 333);
    assert_eq!(get_wheel_compression_ratio(WheelType::Mod30), 267);
    // 10^6 values at half compression: 500_000 bits, 62_500 bytes, 1.2x
    assert_eq!(estimate_segment_memory(1_000_000, WheelType::Odd), 75_000);
    // the advisor clamps into its fixed band
    let tiny = optimal_segment_size_for_memory(1, 50, 8, WheelType::Mod30);
    assert_eq!(tiny, 1_000_000);
    let huge = optimal_segment_size_for_memory(u64::MAX, 90, 1, WheelType::Odd);
    assert_eq!(huge, 100_000_000);
}
