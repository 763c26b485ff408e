use fortunate_primes::{SegmentedSieve, WheelFactorization, WheelIterator};

fn collect(mut it: WheelIterator) -> Vec<u32> {
    let mut out = Vec::new();
    while let Some(c) = it.next() {
        out.push(c);
    }
    out
}

fn check_sieve_basic() {
    let sieve = SegmentedSieve::new(100);
    let primes = sieve.sieve_range(2, 100);
    assert_eq!(primes.len(), 25, "Should find 25 primes in range [2..100]");
    assert!(primes.contains(&2), "Should include 2");
    assert!(primes.contains(&97), "Should include 97");
    assert!(!primes.contains(&4), "Should not include 4 (composite)");
    assert!(!primes.contains(&100), "Should not include 100 (out of range)");
    let expected_primes = vec![
        2, 3, 5, 7, 11, 13, 17, 19, 23, 29, 31, 37, 41, 43, 47, 53, 59, 61, 67, 71, 73, 79, 83,
        89, 97,
    ];
    for p in expected_primes {
        assert!(primes.contains(&p), "Missing prime {}", p);
    }
}

#[test]
fn lib_test_segmented_sieve_basic() {
    check_sieve_basic();
}

#[test]
fn sieve_test_segmented_sieve_basic() {
    check_sieve_basic();
}

#[test]
fn sieve_range_keeps_large_prime_factors() {
    // the basis for 50 holds the primes up to 8, so 121 = 11 * 11 survives
    let sieve = SegmentedSieve::new(50);
    let kept = sieve.sieve_range(110, 130);
    assert_eq!(kept, vec![113, 121, 127]);
    assert!(sieve.sieve_range(10, 10).is_empty());
    assert!(sieve.sieve_range(20, 10).is_empty());
    assert_eq!(sieve.sieve_range(0, 4), vec![0, 1, 2, 3]);
}

fn check_wheel_skips() {
    let wheel = WheelFactorization::new();
    let candidates = collect(wheel.candidates_up_to(30));
    for &c in &candidates {
        if c > 2 {
            assert_ne!(c % 2, 0, "Wheel should skip even numbers > 2, but includes {}", c);
        }
        if c > 3 {
            assert_ne!(c % 3, 0, "Wheel should skip multiples of 3 > 3, but includes {}", c);
        }
        if c > 5 {
            assert_ne!(c % 5, 0, "Wheel should skip multiples of 5 > 5, but includes {}", c);
        }
    }
    for exp in [2, 3, 5, 7, 11, 13, 17, 19, 23, 29] {
        assert!(candidates.contains(&exp), "Wheel should include {}, got: {:?}", exp, candidates);
    }
}

#[test]
fn lib_test_wheel_iterator_skips_even() {
    check_wheel_skips();
}

#[test]
fn wheel_test_wheel_iterator_skips_even() {
    check_wheel_skips();
}

fn check_wheel_basic() {
    let wheel = WheelFactorization::new();
    let candidates = collect(wheel.candidates_up_to(30));
    for exp in [2, 3, 5, 7, 11, 13, 17, 19, 23, 29] {
        assert!(candidates.contains(&exp), "Wheel should include {}, but got: {:?}", exp, candidates);
    }
}

#[test]
fn lib_test_wheel_iterator_basic() {
    check_wheel_basic();
}

#[test]
fn wheel_test_wheel_iterator_basic() {
    check_wheel_basic();
}

fn check_wheel_reduction() {
    let wheel = WheelFactorization::new();
    let candidates = collect(wheel.candidates_up_to(100));
    let reduction_ratio = candidates.len() as f64 / 99.0;
    assert!(
        reduction_ratio < 0.5,
        "Wheel should reduce candidates by 50%, but got {} candidates ({:.1}%)",
        candidates.len(),
        reduction_ratio * 100.0
    );
}

#[test]
fn lib_test_wheel_with_primorial() {
    check_wheel_reduction();
}

#[test]
fn wheel_test_wheel_with_primorial() {
    check_wheel_reduction();
}

#[test]
fn wheel_lists_exactly_the_coprime_offsets() {
    let wheel = WheelFactorization::new();
    assert_eq!(
        collect(wheel.candidates_up_to(60)),
        vec![2, 3, 5, 7, 11, 13, 17, 19, 23, 29, 31, 37, 41, 43, 47, 49, 53, 59]
    );
    assert_eq!(collect(wheel.candidates_up_to(4)), vec![2, 3]);
    assert!(collect(wheel.candidates_up_to(1)).is_empty());
    let all = collect(wheel.candidates_up_to(3000));
    assert!(all.windows(2).all(|w| w[0] < w[1]));
    let expected: Vec<u32> = (2..=3000)
        .filter(|&x| x == 2 || x == 3 || x == 5 || (x % 2 != 0 && x % 3 != 0 && x % 5 != 0 && x > 1))
        .collect();
    assert_eq!(all, expected);
}

#[test]
fn wheel_iterator_stays_exhausted() {
    let wheel = WheelFactorization::new();
    let mut it = wheel.candidates_up_to(7);
    assert_eq!(it.next(), Some(2));
    assert_eq!(it.next(), Some(3));
    assert_eq!(it.next(), Some(5));
    assert_eq!(it.next(), Some(7));
    assert_eq!(it.next(), None);
    assert_eq!(it.next(), None);
}
