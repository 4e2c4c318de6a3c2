//! A small feedforward-network trainer built on forward-mode automatic
//! differentiation.  Scalars are exact rationals, so every arithmetic
//! contract — dual-number chain rules, layer forward and backward passes,
//! weight updates and the training loop — is stated and proved exactly.

pub mod dual_number;
pub mod feed_forward;
pub mod rational;
pub mod training;
