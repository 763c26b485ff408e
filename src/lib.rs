//! Fortunate numbers: for an index `n`, the smallest `m >= 2` such that the
//! product of the first `n` primes plus `m` is (probably) prime.
use crate::progress::{decimal, decimal_text};
use std::time::Duration;
use vstd::prelude::*;

pub mod arith;
pub mod bignat;
pub mod calculators;
pub mod primality;
pub mod progress;
pub mod range_search;
pub mod sieve;
pub mod wheel;
pub mod search;

pub use bignat::BigNat;
pub use calculators::{
    BatchedOffsets, Calculator, CandidateSource, EveryOffset, SievedOffsets, WheelOffsets,
    ParallelFortunateCalculator, PrimeBasedCalculator, SievedFortunateCalculator,
    WheelFortunateCalculator,
};
pub use primality::MillerRabin;
pub use progress::TimeFormatter;
pub use range_search::search_range;
pub use sieve::SegmentedSieve;
pub use wheel::{WheelFactorization, WheelIterator};

verus! {

/// What a Fortunate-number computation measured along the way.
#[derive(Debug)]
pub struct Metrics {
    pub primorial_time: Duration,
    /// How many candidates an in-order scan tests up to and including the
    /// hit: the sources' kept offsets in `[2, hit]`. The parallel sources
    /// may run more tests than this while they search.
    pub primality_test_count: usize,
    pub primality_tests_passed: usize,
    pub total_time: Duration,
    pub candidate_found: u32,
}

/// Why a Fortunate number could not be computed.
#[derive(Debug, Clone, PartialEq, Eq)]
pub enum FortunateError {
    /// `index` primes were asked for, but only `max` are known.
    InvalidPrimeIndex { index: usize, max: usize },
    /// No candidate in `[2, max_candidate]` passed the primality test.
    NoFortunateFound { n: usize, max_candidate: u32 },
    /// The primorial could not be formed.
    InvalidPrimorial { reason: String },
}

/// The text describing an error.
pub open spec fn error_text(e: FortunateError) -> Seq<char> {
    match e {
        FortunateError::InvalidPrimeIndex { index, max } => "Prime index "@ + decimal(index as nat)
            + " out of range (max: "@ + decimal(max as nat) + ")"@,
        FortunateError::NoFortunateFound { n, max_candidate } => "No Fortunate number found for n="@
            + decimal(n as nat) + " within range [2, "@ + decimal(max_candidate as nat) + "]"@,
        FortunateError::InvalidPrimorial { reason } => "Invalid primorial: "@ + reason@,
    }
}

impl FortunateError {
    /// A sentence describing the error.
    pub fn message(&self) -> (r: String)
        ensures
            r@ == error_text(*self),
    {
        match self {
            FortunateError::InvalidPrimeIndex { index, max } => {
                let mut out = String::from_str("Prime index ");
                out.append(decimal_text(*index as u128).as_str());
                out.append(" out of range (max: ");
                out.append(decimal_text(*max as u128).as_str());
                out.append(")");
                out
            },
            FortunateError::NoFortunateFound { n, max_candidate } => {
                let mut out = String::from_str("No Fortunate number found for n=");
                out.append(decimal_text(*n as u128).as_str());
                out.append(" within range [2, ");
                out.append(decimal_text(*max_candidate as u128).as_str());
                out.append("]");
                out
            },
            FortunateError::InvalidPrimorial { reason } => {
                let mut out = String::from_str("Invalid primorial: ");
                out.append(reason.as_str());
                out
            },
        }
    }
}

/// A primality oracle: decides whether a number is (probably) prime.
pub trait PrimalityTest {
    /// The oracle's verdict on `n`.
    fn is_prime(&self, n: &BigNat) -> bool;

    /// A short name of the oracle.
    fn name(&self) -> &'static str;
}

/// Computes primorials and Fortunate numbers from a list of primes.
pub trait FortunateCalculator {
    /// The product of the first `n` primes.
    fn primorial(&self, n: usize) -> Result<BigNat, FortunateError>;

    /// The smallest accepted offset `m >= 2` of the primorial.
    fn fortunate_number(&self, n: usize) -> Result<u32, FortunateError>;

    /// The Fortunate number together with what the search measured.
    fn fortunate_number_with_metrics(&self, n: usize) -> Result<(u32, Metrics), FortunateError>;
}

} // verus!
