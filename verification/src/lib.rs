//! Shamir secret sharing over GF(2^8) with proactive share refresh.
//!
//! The crate splits a secret into shares (one polynomial of degree
//! `threshold - 1` per secret byte, evaluated at the share indices),
//! reconstructs it by Lagrange interpolation at zero, and periodically
//! refreshes the shares with zero-constant polynomials so that the share
//! material changes while the reconstructed secret stays the same.
//! A provider node stores shares keyed by an opaque string, guards them
//! behind an owner check, and exchanges them through a small tagged
//! request/response protocol with a deterministic binary encoding.

pub mod gf256;
pub mod poly;
pub mod protocol;
pub mod provider;
pub mod repository;
pub mod sss;
