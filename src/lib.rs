//! Numeric and integrity-checking primitives for a navigation stack: an
//! orientation record, a xorshift pseudo-random generator and the Internet
//! checksum (RFC 1071) used to protect binary frames.
pub mod checksum;
pub mod euler;
pub mod rng;
