//! A single-asset limit/market order matching engine with an optional
//! confidential mode, in which order prices and quantities are additionally
//! held as opaque ciphertexts and compared through an external homomorphic
//! encryption capability.
//!
//! The engine owns the matching algorithm: resting buy and sell orders are
//! matched in price priority, every match is recorded exactly once as an
//! immutable fill, and the book behaves the same way in plaintext and
//! confidential mode from the caller's point of view.

pub mod api_types;
pub mod fhe_operations;
pub mod orderbook;
pub mod orders;
