//! A tableau-based primal simplex engine over exact rational arithmetic.
//!
//! The solver maximizes `c . x` subject to `A x <= b`, `x >= 0`, where the
//! caller supplies the constraint matrix in augmented form: slack columns are
//! already present as an identity sub-block, so the origin is an immediately
//! available basic feasible solution (no phase-1 handling).
//!
//! All numbers are exact rationals on machine integers ([`rational::Rat`]),
//! so every contract below speaks of exact quantities; operations whose
//! intermediate values do not fit the machine range report that explicitly
//! instead of silently losing precision.

pub mod rational;
pub mod tableau;
pub mod solver;
