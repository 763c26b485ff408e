use fortunate_primes::{
    BigNat, FortunateCalculator, FortunateError, MillerRabin, ParallelFortunateCalculator,
    PrimalityTest, PrimeBasedCalculator, SievedFortunateCalculator, WheelFortunateCalculator,
};

fn big(v: u64) -> BigNat {
    BigNat::from_u64(v)
}

#[test]
fn base_test_primorial() {
    let calc = PrimeBasedCalculator::new(vec![2, 3, 5, 7, 11, 13]);
    assert_eq!(calc.primorial(0).unwrap(), big(1));
    assert_eq!(calc.primorial(1).unwrap(), big(2));
    assert_eq!(calc.primorial(3).unwrap(), big(30));
    assert_eq!(calc.primorial(6).unwrap(), big(30030));
}

#[test]
fn base_test_primorial_single_prime() {
    let calc = PrimeBasedCalculator::new(vec![2, 3, 5]);
    assert_eq!(calc.primorial(1).unwrap(), big(2));
}

#[test]
fn base_test_primorial_growth() {
    let calc = PrimeBasedCalculator::new(vec![2, 3, 5, 7, 11]);
    let two = calc.primorial(2).unwrap();
    let three = calc.primorial(3).unwrap();
    // 3# / 2# = 5
    assert_eq!(two.mul(&big(5)), three);
}

#[test]
fn base_test_fortunate_numbers_early_values() {
    let mut calc = PrimeBasedCalculator::new(vec![2, 3, 5, 7, 11, 13, 17, 19, 23, 29, 31, 37, 41, 43, 47, 53, 59, 61, 67, 71, 73, 79, 83, 89, 97]);
    calc.set_max_candidate(10000);
    assert_eq!(calc.fortunate_number(1).unwrap(), 3);
    assert_eq!(calc.fortunate_number(2).unwrap(), 5);
    assert_eq!(calc.fortunate_number(3).unwrap(), 7);
    assert_eq!(calc.fortunate_number(4).unwrap(), 13);
    assert_eq!(calc.fortunate_number(5).unwrap(), 23);
}

#[test]
fn base_test_fortunate_prime_detection() {
    let mut calc = PrimeBasedCalculator::new(vec![2, 3, 5, 7, 11, 13, 17, 19, 23, 29, 31, 37, 41, 43, 47, 53, 59, 61, 67, 71, 73, 79, 83, 89, 97]);
    calc.set_max_candidate(10000);
    let tester = MillerRabin::with_default_rounds();
    for n in 1..=25 {
        let f = calc.fortunate_number(n).unwrap();
        let candidate = calc.primorial(n).unwrap().add_u64(f as u64);
        assert!(tester.is_prime(&candidate), "Fortunate number F({}) = {} should be prime", n, f);
    }
}

#[test]
fn lib_test_primorial() {
    let calc = PrimeBasedCalculator::new(vec![2, 3, 5, 7, 11]);
    assert_eq!(calc.primorial(1).unwrap(), big(2));
    assert_eq!(calc.primorial(2).unwrap(), big(6));
    assert_eq!(calc.primorial(3).unwrap(), big(30));
    assert_eq!(calc.primorial(4).unwrap(), big(210));
    assert_eq!(calc.primorial(5).unwrap(), big(2310));
}

#[test]
fn lib_test_primorial_single_prime() {
    let calc = PrimeBasedCalculator::new(vec![2]);
    assert_eq!(calc.primorial(1).unwrap(), big(2));
}

#[test]
fn lib_test_primorial_growth() {
    let calc = PrimeBasedCalculator::new(vec![2, 3, 5, 7, 11, 13, 17, 19, 23]);
    let one = calc.primorial(1).unwrap();
    let two = calc.primorial(2).unwrap();
    let three = calc.primorial(3).unwrap();
    assert!(one.less_than(&two));
    assert!(two.less_than(&three));
}

#[test]
fn test_fortunate_numbers_oeis() {
    let calc = PrimeBasedCalculator::new(vec![2, 3, 5, 7, 11, 13, 17, 19, 23, 29]);
    for (n, expected) in [(1, 3), (2, 5), (3, 7), (4, 13), (5, 23), (6, 17), (7, 19), (8, 23), (9, 37), (10, 61)] {
        assert_eq!(calc.fortunate_number(n).unwrap(), expected, "Fortunate number mismatch for n={}", n);
    }
}

#[test]
fn lib_test_fortunate_numbers_early_values() {
    let calc = PrimeBasedCalculator::new(vec![2, 3, 5, 7, 11, 13, 17, 19, 23, 29]);
    assert_eq!(calc.fortunate_number(1).unwrap(), 3);
    assert_eq!(calc.fortunate_number(5).unwrap(), 23);
}

#[test]
fn lib_test_fortunate_prime_detection() {
    let calc = PrimeBasedCalculator::new(vec![2, 3, 5, 7, 11, 13, 17, 19, 23, 29]);
    let tester = MillerRabin::with_default_rounds();
    for n in 1..=10 {
        let f = calc.fortunate_number(n).unwrap();
        assert!(tester.is_prime(&big(f as u64)), "Fortune's conjecture violated: Fortunate number {} is not prime", f);
    }
}

#[test]
fn test_fortunate_with_metrics() {
    let calc = PrimeBasedCalculator::new(vec![2, 3, 5, 7, 11, 13, 17, 19, 23, 29]);
    let (value, metrics) = calc.fortunate_number_with_metrics(5).unwrap();
    assert_eq!(value, 23);
    assert!(metrics.total_time.as_nanos() > 0);
    assert!(metrics.primality_test_count > 0);
    assert_eq!(metrics.candidate_found, 23);
    assert!(metrics.primality_tests_passed > 0);
    // offsets 2..=23 were tested in order
    assert_eq!(metrics.primality_test_count, 22);
}

#[test]
fn test_metrics_consistency() {
    let calc = PrimeBasedCalculator::new(vec![2, 3, 5, 7, 11, 13, 17, 19, 23, 29]);
    let (value1, metrics) = calc.fortunate_number_with_metrics(3).unwrap();
    let value2 = calc.fortunate_number(3).unwrap();
    assert_eq!(value1, value2);
    assert_eq!(metrics.candidate_found, value1);
}

#[test]
fn test_error_invalid_prime_index() {
    let calc = PrimeBasedCalculator::new(vec![2, 3, 5]);
    let err = calc.primorial(10).unwrap_err();
    assert_eq!(err, FortunateError::InvalidPrimeIndex { index: 10, max: 3 });
}

#[test]
fn test_error_index_zero() {
    let calc = PrimeBasedCalculator::new(vec![2, 3, 5]);
    let result = calc.primorial(0);
    assert_eq!(result.unwrap(), big(1));
}

#[test]
fn test_error_message_format() {
    let calc = PrimeBasedCalculator::new(vec![2, 3, 5]);
    let err = calc.primorial(5).unwrap_err();
    let message = err.message();
    assert!(message.contains("out of range"));
    assert!(message.contains("5"));
    assert!(message.contains("3"));
    assert_eq!(message, "Prime index 5 out of range (max: 3)");
}

#[test]
fn test_full_workflow_small() {
    let calc = PrimeBasedCalculator::new(vec![2, 3, 5, 7, 11, 13]);
    for n in 1..=6 {
        let (fortune, metrics) = calc.fortunate_number_with_metrics(n).unwrap();
        assert!(fortune > 0);
        assert!(fortune < 100, "Fortunate number {} seems too large for n={}", fortune, n);
        assert!(metrics.total_time.as_nanos() > 0);
        assert!(metrics.primality_test_count > 0);
    }
}

#[test]
fn test_calculator_with_custom_tester() {
    let calc = PrimeBasedCalculator::with_tester(vec![2, 3, 5, 7, 11, 13], MillerRabin::fast());
    assert_eq!(calc.fortunate_number(5).unwrap(), 23);
}

#[test]
fn test_different_tester_variants_consistency() {
    let primes: Vec<u32> = vec![2, 3, 5, 7, 11, 13, 17, 19, 23, 29];
    let calc_fast = PrimeBasedCalculator::with_tester(primes.clone(), MillerRabin::fast());
    let calc_standard = PrimeBasedCalculator::with_tester(primes.clone(), MillerRabin::with_default_rounds());
    let calc_thorough = PrimeBasedCalculator::with_tester(primes, MillerRabin::thorough());
    assert_eq!(calc_fast.fortunate_number(5).unwrap(), 23);
    assert_eq!(calc_standard.fortunate_number(5).unwrap(), 23);
    assert_eq!(calc_thorough.fortunate_number(5).unwrap(), 23);
}

#[test]
fn test_parallel_calculator_identical_results_small() {
    let primes: Vec<u32> = vec![2, 3, 5, 7, 11, 13, 17, 19, 23, 29];
    let seq_calc = PrimeBasedCalculator::new(primes.clone());
    let par_calc = ParallelFortunateCalculator::new(primes);
    for (n, expected) in [(1, 3), (2, 5), (3, 7), (4, 13), (5, 23), (6, 17), (7, 19), (8, 23), (9, 37), (10, 61)] {
        let s = seq_calc.fortunate_number(n).unwrap();
        let p = par_calc.fortunate_number(n).unwrap();
        assert_eq!(s, expected, "Sequential calculator: n={} produced {} but expected {}", n, s, expected);
        assert_eq!(p, expected, "Parallel calculator: n={} produced {} but expected {}", n, p, expected);
        assert_eq!(s, p, "Sequential and parallel results differ for n={}", n);
    }
}

#[test]
fn lib_test_parallel_vs_sequential_all_values() {
    let primes: Vec<u32> = vec![2, 3, 5, 7, 11, 13, 17, 19, 23, 29, 31, 37, 41, 43, 47];
    let seq_calc = PrimeBasedCalculator::new(primes.clone());
    let par_calc = ParallelFortunateCalculator::new(primes);
    for n in 1..=15 {
        let s = seq_calc.fortunate_number(n).unwrap();
        let p = par_calc.fortunate_number(n).unwrap();
        assert_eq!(s, p, "Results differ for n={}: sequential={}, parallel={}", n, s, p);
    }
}

#[test]
fn lib_test_parallel_fortunes_are_prime() {
    let par_calc = ParallelFortunateCalculator::new(vec![2, 3, 5, 7, 11, 13, 17, 19, 23, 29]);
    let tester = MillerRabin::with_default_rounds();
    for n in 1..=10 {
        let f = par_calc.fortunate_number(n).unwrap();
        assert!(tester.is_prime(&big(f as u64)));
    }
}

#[test]
fn lib_test_parallel_with_metrics() {
    let par_calc = ParallelFortunateCalculator::new(vec![2, 3, 5, 7, 11, 13, 17, 19, 23, 29]);
    let (value, metrics) = par_calc.fortunate_number_with_metrics(5).unwrap();
    assert_eq!(value, 23, "Parallel: incorrect Fortunate number");
    assert!(metrics.total_time.as_nanos() > 0, "Total time should be positive");
    assert_eq!(metrics.candidate_found, 23, "Metrics should record the found candidate");
}

#[test]
fn lib_test_parallel_custom_tester() {
    let par_calc = ParallelFortunateCalculator::with_tester(vec![2, 3, 5, 7, 11, 13], MillerRabin::fast());
    assert_eq!(par_calc.fortunate_number(5).unwrap(), 23, "Parallel calculator with fast tester");
}

#[test]
fn test_parallel_tester_variants_consistency() {
    let primes: Vec<u32> = vec![2, 3, 5, 7, 11, 13, 17, 19, 23, 29];
    let calc_fast = ParallelFortunateCalculator::with_tester(primes.clone(), MillerRabin::fast());
    let calc_standard = ParallelFortunateCalculator::with_tester(primes.clone(), MillerRabin::with_default_rounds());
    let calc_thorough = ParallelFortunateCalculator::with_tester(primes, MillerRabin::thorough());
    assert_eq!(calc_fast.fortunate_number(5).unwrap(), 23);
    assert_eq!(calc_standard.fortunate_number(5).unwrap(), 23);
    assert_eq!(calc_thorough.fortunate_number(5).unwrap(), 23);
}

#[test]
fn test_parallel_error_handling() {
    let par_calc = ParallelFortunateCalculator::new(vec![2, 3, 5]);
    let err = par_calc.fortunate_number(10).unwrap_err();
    assert_eq!(err, FortunateError::InvalidPrimeIndex { index: 10, max: 3 });
}

#[test]
fn lib_test_parallel_sequential_equivalence_property() {
    let primes: Vec<u32> = vec![2, 3, 5, 7, 11, 13, 17, 19, 23, 29, 31];
    let seq_calc = PrimeBasedCalculator::new(primes.clone());
    let par_calc = ParallelFortunateCalculator::new(primes);
    let tester = MillerRabin::with_default_rounds();
    for n in 1..=11 {
        let s = seq_calc.fortunate_number(n).expect("Sequential failed");
        let p = par_calc.fortunate_number(n).expect("Parallel failed");
        assert_eq!(s, p, "Equivalence violation at n={}: seq={}, par={}", n, s, p);
        assert!(tester.is_prime(&big(s as u64)));
        assert!(tester.is_prime(&big(p as u64)));
    }
}

#[test]
fn lib_test_parallel_correctness_with_rayon() {
    let primes: Vec<u32> = vec![2, 3, 5, 7, 11, 13, 17, 19, 23, 29];
    let seq_calc = PrimeBasedCalculator::new(primes.clone());
    let par_calc = ParallelFortunateCalculator::new(primes);
    for (n, expected) in [(1, 3), (2, 5), (3, 7), (4, 13), (5, 23), (6, 17), (7, 19), (8, 23), (9, 37), (10, 61)] {
        let p = par_calc.fortunate_number(n).unwrap();
        assert_eq!(p, expected, "Parallel with Rayon: n={} produced {} but OEIS expects {}", n, p, expected);
        assert_eq!(p, seq_calc.fortunate_number(n).unwrap(), "Parallel result differs from sequential for n={}", n);
    }
}

#[test]
fn lib_test_parallel_thread_safety() {
    let par_calc = ParallelFortunateCalculator::new(vec![2, 3, 5, 7, 11, 13, 17, 19, 23, 29, 31]);
    let results: Vec<u32> = (1..=11).map(|n| par_calc.fortunate_number(n).unwrap()).collect();
    let expected = vec![3, 5, 7, 13, 23, 17, 19, 23, 37, 61, 67];
    assert_eq!(results, expected, "Parallel thread safety violated");
}

#[test]
fn lib_test_wheel_fortunate_number_oeis() {
    let primes: Vec<u32> = vec![2, 3, 5, 7, 11, 13, 17, 19, 23, 29];
    let standard_calc = PrimeBasedCalculator::new(primes.clone());
    let wheel_calc = WheelFortunateCalculator::new(primes);
    for (n, expected) in [(1, 3), (2, 5), (3, 7), (4, 13), (5, 23), (6, 17), (7, 19), (8, 23), (9, 37), (10, 61)] {
        let s = standard_calc.fortunate_number(n).unwrap();
        let w = wheel_calc.fortunate_number(n).unwrap();
        assert_eq!(w, expected, "Wheel calculator: n={} produced {} but expected {}", n, w, expected);
        assert_eq!(s, w, "Standard vs wheel mismatch for n={}: standard={}, wheel={}", n, s, w);
    }
}

#[test]
fn lib_test_wheel_vs_standard_equivalence() {
    let primes: Vec<u32> = vec![2, 3, 5, 7, 11, 13, 17, 19, 23, 29, 31, 37];
    let standard_calc = PrimeBasedCalculator::new(primes.clone());
    let wheel_calc = WheelFortunateCalculator::new(primes);
    for n in 1..=12 {
        let s = standard_calc.fortunate_number(n).unwrap();
        let w = wheel_calc.fortunate_number(n).unwrap();
        assert_eq!(s, w, "Wheel and standard calculators differ at n={}: standard={}, wheel={}", n, s, w);
    }
}

#[test]
fn lib_test_wheel_fortune_conjecture() {
    let wheel_calc = WheelFortunateCalculator::new(vec![2, 3, 5, 7, 11, 13, 17, 19, 23, 29]);
    let tester = MillerRabin::with_default_rounds();
    for n in 1..=10 {
        let f = wheel_calc.fortunate_number(n).unwrap();
        assert!(tester.is_prime(&big(f as u64)), "Fortune's conjecture violated with wheel: n={} produced {} (not prime)", n, f);
    }
}

#[test]
fn lib_test_wheel_with_metrics() {
    let wheel_calc = WheelFortunateCalculator::new(vec![2, 3, 5, 7, 11, 13, 17, 19, 23, 29]);
    let (value, metrics) = wheel_calc.fortunate_number_with_metrics(5).unwrap();
    assert_eq!(value, 23);
    assert!(metrics.total_time.as_nanos() > 0);
    assert_eq!(metrics.candidate_found, 23);
    assert!(metrics.primality_test_count > 0);
    // the wheel tests 2, 3, 5, 7, 11, 13, 17, 19, 23
    assert_eq!(metrics.primality_test_count, 9);
}

#[test]
fn lib_test_sieved_calculator_correctness() {
    let primes: Vec<u32> = vec![2, 3, 5, 7, 11, 13, 17, 19, 23, 29];
    let sieved = SievedFortunateCalculator::new(primes);
    for (n, expected) in [(1, 3), (2, 5), (3, 7), (4, 13), (5, 23), (6, 17), (7, 19), (8, 23), (9, 37), (10, 61)] {
        assert_eq!(sieved.fortunate_number(n).unwrap(), expected);
    }
}

#[test]
fn lib_test_sieved_fortunes_are_prime() {
    let sieved = SievedFortunateCalculator::new(vec![2, 3, 5, 7, 11, 13, 17, 19, 23, 29]);
    let tester = MillerRabin::with_default_rounds();
    for n in 1..=10 {
        let f = sieved.fortunate_number(n).unwrap();
        let candidate = sieved.primorial(n).unwrap().add_u64(f as u64);
        assert!(tester.is_prime(&candidate));
    }
}

#[test]
fn sieved_test_sieved_reduces_miller_rabin_calls() {
    let mut calc = SievedFortunateCalculator::new(vec![2, 3, 5, 7, 11, 13, 17, 19, 23, 29, 31, 37, 41, 43, 47, 53, 59, 61, 67, 71, 73, 79, 83, 89, 97]);
    calc.set_max_candidate(10000);
    let (f, metrics) = calc.fortunate_number_with_metrics(10).unwrap();
    assert_eq!(f, 61);
    // only the sieve's survivors up to 61 are tested: 2, 3, 5, ..., 61
    assert_eq!(metrics.primality_test_count, 18);
}

#[test]
fn sieved_test_sieved_calculator_correctness() {
    let mut calc = SievedFortunateCalculator::new(vec![2, 3, 5, 7, 11, 13, 17, 19, 23, 29, 31, 37, 41, 43, 47, 53, 59, 61, 67, 71, 73, 79, 83, 89, 97]);
    calc.set_max_candidate(10000);
    assert_eq!(calc.fortunate_number(1).unwrap(), 3);
    assert_eq!(calc.fortunate_number(2).unwrap(), 5);
    assert_eq!(calc.fortunate_number(3).unwrap(), 7);
    assert_eq!(calc.fortunate_number(4).unwrap(), 13);
    assert_eq!(calc.fortunate_number(5).unwrap(), 23);
}

#[test]
fn sieved_test_sieved_fortunes_are_prime() {
    let mut calc = SievedFortunateCalculator::new(vec![2, 3, 5, 7, 11, 13, 17, 19, 23, 29, 31, 37, 41, 43, 47, 53, 59, 61, 67, 71, 73, 79, 83, 89, 97]);
    calc.set_max_candidate(10000);
    let tester = MillerRabin::with_default_rounds();
    for n in 1..=20 {
        let f = calc.fortunate_number(n).unwrap();
        let candidate = calc.primorial(n).unwrap().add_u64(f as u64);
        assert!(tester.is_prime(&candidate));
    }
}

#[test]
fn test_sieved_no_regression_small_n() {
    let mut calc = SievedFortunateCalculator::new(vec![2, 3, 5, 7, 11, 13, 17, 19, 23, 29, 31, 37, 41, 43, 47, 53, 59, 61, 67, 71, 73, 79, 83, 89, 97, 101, 103, 107, 109, 113, 127, 131, 137, 139, 149, 151, 157, 163, 167, 173, 179, 181, 191, 193, 197, 199]);
    calc.set_max_candidate(10000);
    for n in 1..=10 {
        let result = calc.fortunate_number(n);
        assert!(result.is_ok(), "Sieve should not fail for small n={}", n);
    }
    assert_eq!(calc.fortunate_number(1).unwrap(), 3);
    assert_eq!(calc.fortunate_number(5).unwrap(), 23);
}

#[test]
fn sieved_test_sieved_speedup_benchmark() {
    let mut calc = SievedFortunateCalculator::new(vec![2, 3, 5, 7, 11, 13, 17, 19, 23, 29, 31, 37, 41, 43, 47, 53, 59, 61, 67, 71, 73, 79, 83, 89, 97, 101, 103, 107, 109, 113, 127, 131, 137, 139, 149]);
    calc.set_max_candidate(10000);
    let (f, metrics) = calc.fortunate_number_with_metrics(25).unwrap();
    assert!(f >= 2);
    assert!(metrics.total_time.as_secs() < 5);
}

#[test]
fn parallel_test_parallel_with_metrics() {
    let mut calc = ParallelFortunateCalculator::new(vec![2, 3, 5, 7, 11, 13, 17, 19, 23, 29, 31, 37]);
    calc.set_max_candidate(10000);
    let (value, metrics) = calc.fortunate_number_with_metrics(5).unwrap();
    assert_eq!(value, 23);
    assert_eq!(metrics.candidate_found, 23);
    assert_eq!(metrics.primality_test_count, 22);
}

#[test]
fn parallel_test_parallel_correctness_with_rayon() {
    let mut calc = ParallelFortunateCalculator::new(vec![2, 3, 5, 7, 11, 13, 17, 19, 23, 29, 31, 37, 41, 43, 47, 53, 59, 61, 67, 71, 73, 79, 83, 89, 97]);
    calc.set_max_candidate(10000);
    assert_eq!(calc.fortunate_number(1).unwrap(), 3);
    assert_eq!(calc.fortunate_number(2).unwrap(), 5);
    assert_eq!(calc.fortunate_number(3).unwrap(), 7);
    assert_eq!(calc.fortunate_number(4).unwrap(), 13);
    assert_eq!(calc.fortunate_number(5).unwrap(), 23);
}

#[test]
fn parallel_test_parallel_fortunes_are_prime() {
    let mut calc = ParallelFortunateCalculator::new(vec![2, 3, 5, 7, 11, 13, 17, 19, 23, 29, 31, 37, 41, 43, 47, 53, 59, 61, 67, 71, 73, 79, 83, 89, 97]);
    calc.set_max_candidate(10000);
    let tester = MillerRabin::with_default_rounds();
    for n in 1..=20 {
        let f = calc.fortunate_number(n).unwrap();
        let candidate = calc.primorial(n).unwrap().add_u64(f as u64);
        assert!(tester.is_prime(&candidate));
    }
}

#[test]
fn parallel_test_parallel_sequential_equivalence_property() {
    let primes: Vec<u32> = vec![2, 3, 5, 7, 11, 13, 17, 19, 23, 29, 31, 37, 41, 43, 47, 53, 59, 61, 67, 71, 73, 79, 83, 89, 97];
    let mut seq_calc = PrimeBasedCalculator::new(primes.clone());
    let mut par_calc = ParallelFortunateCalculator::new(primes);
    seq_calc.set_max_candidate(10000);
    par_calc.set_max_candidate(10000);
    for n in 1..=15 {
        let s = seq_calc.fortunate_number(n).unwrap();
        let p = par_calc.fortunate_number(n).unwrap();
        assert_eq!(s, p, "Parallel and sequential results differ at n={}", n);
    }
}

#[test]
fn parallel_test_parallel_vs_sequential_all_values() {
    let primes: Vec<u32> = vec![2, 3, 5, 7, 11, 13, 17, 19, 23, 29, 31, 37, 41, 43, 47, 53, 59, 61, 67, 71, 73, 79, 83, 89, 97, 101, 103, 107, 109, 113, 127, 131, 137, 139, 149];
    let mut seq_calc = PrimeBasedCalculator::new(primes.clone());
    let mut par_calc = ParallelFortunateCalculator::new(primes);
    seq_calc.set_max_candidate(10000);
    par_calc.set_max_candidate(10000);
    assert_eq!(
        seq_calc.fortunate_number(25).unwrap(),
        par_calc.fortunate_number(25).unwrap(),
        "Parallel and sequential calculators disagree for n=25"
    );
}

#[test]
fn parallel_test_parallel_thread_safety() {
    let mut calc = ParallelFortunateCalculator::new(vec![2, 3, 5, 7, 11, 13, 17, 19, 23, 29, 31, 37, 41, 43, 47, 53, 59, 61, 67, 71, 73, 79, 83, 89, 97]);
    calc.set_max_candidate(10000);
    for n in 1..=10 {
        let _ = calc.fortunate_number(n).unwrap();
    }
}

#[test]
fn parallel_test_parallel_custom_tester() {
    let mut calc = ParallelFortunateCalculator::with_tester(vec![2, 3, 5, 7, 11, 13, 17, 19, 23, 29, 31, 37], MillerRabin::fast());
    calc.set_max_candidate(10000);
    assert_eq!(calc.fortunate_number(5).unwrap(), 23);
}

#[test]
fn wheel_test_wheel_fortunate_number_oeis() {
    let primes: Vec<u32> = vec![2, 3, 5, 7, 11, 13, 17, 19, 23, 29];
    let standard_calc = PrimeBasedCalculator::new(primes.clone());
    let wheel_calc = WheelFortunateCalculator::new(primes);
    for (n, expected) in [(1, 3), (2, 5), (3, 7), (4, 13), (5, 23), (6, 17), (7, 19), (8, 23), (9, 37), (10, 61)] {
        let s = standard_calc.fortunate_number(n).unwrap();
        let w = wheel_calc.fortunate_number(n).unwrap();
        assert_eq!(w, expected, "Wheel calculator: n={} produced {} but expected {}", n, w, expected);
        assert_eq!(s, w, "Standard vs wheel mismatch for n={}: standard={}, wheel={}", n, s, w);
    }
}

#[test]
fn wheel_test_wheel_vs_standard_equivalence() {
    let primes: Vec<u32> = vec![2, 3, 5, 7, 11, 13, 17, 19, 23, 29, 31, 37];
    let standard_calc = PrimeBasedCalculator::new(primes.clone());
    let wheel_calc = WheelFortunateCalculator::new(primes);
    for n in 1..=12 {
        let s = standard_calc.fortunate_number(n).unwrap();
        let w = wheel_calc.fortunate_number(n).unwrap();
        assert_eq!(s, w, "Wheel and standard calculators differ at n={}: standard={}, wheel={}", n, s, w);
    }
}

#[test]
fn wheel_test_wheel_fortune_conjecture() {
    let wheel_calc = WheelFortunateCalculator::new(vec![2, 3, 5, 7, 11, 13, 17, 19, 23, 29]);
    let tester = MillerRabin::with_default_rounds();
    for n in 1..=10 {
        let f = wheel_calc.fortunate_number(n).unwrap();
        assert!(tester.is_prime(&big(f as u64)), "Fortune's conjecture violated with wheel: n={} produced {} (not prime)", n, f);
    }
}

#[test]
fn wheel_test_wheel_with_metrics() {
    let wheel_calc = WheelFortunateCalculator::new(vec![2, 3, 5, 7, 11, 13, 17, 19, 23, 29]);
    let (value, metrics) = wheel_calc.fortunate_number_with_metrics(5).unwrap();
    assert_eq!(value, 23);
    assert!(metrics.total_time.as_nanos() > 0);
    assert_eq!(metrics.candidate_found, 23);
    assert!(metrics.primality_test_count > 0);
    // the wheel tests 2, 3, 5, 7, 11, 13, 17, 19, 23
    assert_eq!(metrics.primality_test_count, 9);
}

#[test]
fn calculators_agree_on_first_twenty_five() {
    let primes: Vec<u32> = vec![2, 3, 5, 7, 11, 13, 17, 19, 23, 29, 31, 37, 41, 43, 47, 53, 59, 61, 67, 71, 73, 79, 83, 89, 97];
    let linear = PrimeBasedCalculator::new(primes.clone());
    let wheel = WheelFortunateCalculator::new(primes.clone());
    let sieved = SievedFortunateCalculator::new(primes.clone());
    let parallel = ParallelFortunateCalculator::new(primes);
    for n in 1..=25 {
        let l = linear.fortunate_number(n).unwrap();
        assert_eq!(wheel.fortunate_number(n).unwrap(), l, "wheel at n={}", n);
        assert_eq!(sieved.fortunate_number(n).unwrap(), l, "sieve at n={}", n);
        assert_eq!(parallel.fortunate_number(n).unwrap(), l, "parallel at n={}", n);
    }
}

#[test]
fn fortunate_values_match_oeis_up_to_twenty_five() {
    let calc = PrimeBasedCalculator::new(vec![2, 3, 5, 7, 11, 13, 17, 19, 23, 29, 31, 37, 41, 43, 47, 53, 59, 61, 67, 71, 73, 79, 83, 89, 97]);
    let expected: [u32; 25] = [3, 5, 7, 13, 23, 17, 19, 23, 37, 61, 67, 61, 71, 47, 107, 59, 61, 109, 89, 103, 79, 151, 197, 101, 103];
    for n in 1..=25 {
        assert_eq!(calc.fortunate_number(n).unwrap(), expected[n - 1], "n={}", n);
    }
}

#[test]
fn fortunate_of_index_zero_is_two() {
    let calc = PrimeBasedCalculator::new(vec![2, 3, 5]);
    assert_eq!(calc.fortunate_number(0).unwrap(), 2);
    let empty = WheelFortunateCalculator::new(vec![]);
    assert_eq!(empty.fortunate_number(0).unwrap(), 2);
    assert_eq!(empty.prime_count(), 0);
}

#[test]
fn no_fortunate_found_below_small_ceiling() {
    let mut calc = PrimeBasedCalculator::new(vec![2, 3, 5, 7, 11, 13, 17, 19, 23, 29]);
    calc.set_max_candidate(20);
    let err = calc.fortunate_number(5).unwrap_err();
    assert_eq!(err, FortunateError::NoFortunateFound { n: 5, max_candidate: 20 });
    assert_eq!(err.message(), "No Fortunate number found for n=5 within range [2, 20]");
    let mut wheel = WheelFortunateCalculator::new(vec![2, 3, 5, 7, 11, 13, 17, 19, 23, 29]);
    wheel.set_max_candidate(20);
    assert_eq!(wheel.fortunate_number(5).unwrap_err(), err);
    let mut sieved = SievedFortunateCalculator::new(vec![2, 3, 5, 7, 11, 13, 17, 19, 23, 29]);
    sieved.set_max_candidate(20);
    assert_eq!(sieved.fortunate_number(5).unwrap_err(), err);
    let mut parallel = ParallelFortunateCalculator::new(vec![2, 3, 5, 7, 11, 13, 17, 19, 23, 29]);
    parallel.set_max_candidate(20);
    assert_eq!(parallel.fortunate_number_with_metrics(5).unwrap_err(), err);
    calc.set_max_candidate(23);
    assert_eq!(calc.fortunate_number(5).unwrap(), 23);
}

#[test]
fn end_to_end_first_ten_primes() {
    let mut calc = PrimeBasedCalculator::new(vec![2, 3, 5, 7, 11, 13, 17, 19, 23, 29]);
    calc.set_max_candidate(10000);
    assert_eq!(calc.fortunate_number(5).unwrap(), 23);
    let sum = calc.primorial(5).unwrap().add_u64(23);
    assert_eq!(sum, big(2333));
    assert!(MillerRabin::with_default_rounds().is_prime(&sum));
}

#[test]
fn primorial_strictly_increases() {
    let calc = PrimeBasedCalculator::new(vec![2, 3, 5, 7, 11, 13, 17, 19, 23, 29, 31, 37, 41, 43, 47, 53, 59, 61, 67, 71, 73, 79, 83, 89, 97]);
    assert_eq!(calc.primorial(0).unwrap(), big(1));
    let mut prev = calc.primorial(0).unwrap();
    for k in 1..=25 {
        let cur = calc.primorial(k).unwrap();
        assert!(prev.less_than(&cur), "primorial({}) should exceed primorial({})", k, k - 1);
        prev = cur;
    }
    assert_eq!(calc.prime_count(), 25);
    let err = calc.fortunate_number_with_metrics(26).unwrap_err();
    assert_eq!(err, FortunateError::InvalidPrimeIndex { index: 26, max: 25 });
}

#[test]
fn invalid_primorial_message() {
    let err = FortunateError::InvalidPrimorial { reason: "empty list".to_string() };
    assert_eq!(err.message(), "Invalid primorial: empty list");
}

#[test]
fn lib_test_sieved_speedup_benchmark() {
    let primes: Vec<u32> = vec![2, 3, 5, 7, 11, 13, 17, 19, 23, 29, 31, 37, 41, 43, 47];
    let par = ParallelFortunateCalculator::new(primes.clone());
    let sieved = SievedFortunateCalculator::new(primes);
    for n in 1..=15 {
        assert_eq!(par.fortunate_number(n).unwrap(), sieved.fortunate_number(n).unwrap());
    }
}

#[test]
fn lib_test_sieved_reduces_miller_rabin_calls() {
    let primes: Vec<u32> = vec![2, 3, 5, 7, 11, 13, 17, 19, 23, 29];
    let linear = PrimeBasedCalculator::new(primes.clone());
    let sieved = SievedFortunateCalculator::new(primes);
    let (_, lm) = linear.fortunate_number_with_metrics(10).unwrap();
    let (_, sm) = sieved.fortunate_number_with_metrics(10).unwrap();
    assert!(sm.primality_test_count < lm.primality_test_count);
}
