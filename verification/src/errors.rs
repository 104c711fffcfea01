//! The error taxonomy of the library.

use vstd::prelude::*;

verus! {

/// Every failure a caller can see from this library's entry points.
///
/// Key-space violations are construction-time invariant violations; provider,
/// analyzer and gateway failures are recoverable and surfaced unchanged;
/// the remaining variants are caller-input errors or the bounded-loop guard
/// of the derivation orchestrator firing.
#[derive(Clone, Copy, Debug, PartialEq, Eq, Structural)]
pub enum CommonError {
    /// A value was asked to live in a key space its derivation index refutes.
    InvalidKeySpace,
    /// The external key-derivation provider failed or was cancelled.
    DerivationProviderFailure,
    /// An on-chain or profile analyzer (or the gateway behind it) failed;
    /// the scan is aborted rather than guessing that instances are free.
    AnalyzerFailure,
    /// No account with the given address exists in the profile.
    AccountNotFound,
    /// The factor source is already present.
    DuplicateFactorSource,
    /// An account with the same address is already present.
    DuplicateAccount,
    /// A security matrix demanded a threshold above its factor count.
    ThresholdExceedsFactorCount,
    /// A factor source in a security-matrix policy could not yield a
    /// securified instance.
    NoSecurifiedInstanceForFactorSource,
    /// The derive/check cycle exceeded its iteration bound.
    MaxIterationsExceeded,
}

impl CommonError {
    /// A short description, for callers that need to show the error.
    pub fn message(&self) -> &'static str {
        match self {
            CommonError::InvalidKeySpace => "value is not in the required key space",
            CommonError::DerivationProviderFailure => "key-derivation provider failed",
            CommonError::AnalyzerFailure => "analyzer or gateway failed",
            CommonError::AccountNotFound => "account not found",
            CommonError::DuplicateFactorSource => "factor source already present",
            CommonError::DuplicateAccount => "account with this address already present",
            CommonError::ThresholdExceedsFactorCount => "threshold exceeds threshold factor count",
            CommonError::NoSecurifiedInstanceForFactorSource => {
                "no securified instance available for a factor source"
            },
            CommonError::MaxIterationsExceeded => "derivation loop exceeded its iteration bound",
        }
    }
}

} // verus!
