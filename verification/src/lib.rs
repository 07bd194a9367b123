//! Facts about natural numbers, and the markup they are written in.
//!
//! The analyzers in [`nerds`] each look at one number and say what they find:
//! its parity, its prime factors, whether it is a prime, a perfect power, a
//! Fibonacci or a triangular number, and how it reads in other notations.
//! What they say is markup, which [`filters`] renders to HTML.
//!
//! Numbers are [`natural::Natural`]s of any size. What can be read off their
//! limbs is computed here; their arithmetic is done by GMP, behind the
//! contracts of [`gmp`]. The notions that the contracts speak of, and the
//! theorems about them, are in [`math`].

pub mod biguint;
pub mod filters;
pub mod gmp;
pub mod math;
pub mod natural;
pub mod nerds;
pub mod text;
