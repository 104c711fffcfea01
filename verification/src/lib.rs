//! Derivation-request model, instance cache and derivation orchestrator for a
//! hierarchical-deterministic wallet: decides which derivation indices are
//! free, pools pre-derived key instances for reuse, and composes accounts and
//! multi-factor security matrices from the instances a scan has produced.

pub mod cache;
pub mod errors;
pub mod hashing;
pub mod new_types;
pub mod poly_derive;
pub mod sargon_types;
