//! Exact hypergeometric probabilities for card draws.
//!
//! Given a deck of known size holding a known number of cards of one type
//! ("lands"), this library computes the exact probability, as an unreduced
//! fraction of machine integers, that a hand of a given size drawn without
//! replacement contains exactly a given count of that type.
//!
//! Precision policy: every result is an exact, unreduced [`math::Fraction`].
//! All fractions produced for one deck and hand size share the same
//! denominator, so a caller combining several splits ("2 or 3 lands") can
//! sum the exact numerators over that common denominator and divide once;
//! the lossy conversion to floating point is left to the caller and happens
//! at most once per reported statistic.

pub mod combinatorics;
pub mod math;
