//! A discrete Fourier transform engine for any transform length.
//!
//! The planner picks an algorithm per size (a hard-coded kernel, mixed-radix
//! Cooley-Tukey, Rader's algorithm for primes, or Bluestein's chirp-z
//! transform), builds its index and exponent tables, and caches one plan per
//! size. The executor runs a plan over strided, batched buffers of any
//! number type that provides the operations of `scalar::Scalar`.
pub mod bluestein;
pub mod exec;
pub mod factors;
pub mod kernels;
pub mod layout;
pub mod modular;
pub mod plan;
pub mod prime_cache;
pub mod rader;
pub mod radix;
pub mod scalar;
