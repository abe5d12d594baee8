//! Verified core of a Monte Carlo and Black-Scholes pricer for European
//! options under geometric Brownian motion.
//!
//! Everything here works on integers: parameter records carry each real
//! number as its IEEE 754 binary64 bit pattern, and the numerical kernels that
//! turn those patterns into prices live outside this crate. What is proved is
//! the part that decides: which inputs are admitted, which selector a name
//! stands for, and at which trial counts a tracked run records its estimate.
//! Those counts are spaced on a logarithmic scale and computed exactly, in
//! whole numbers of any size.

pub mod args;
pub mod binary64;
pub mod candidates;
pub mod convergence;
pub mod error;
pub mod model;
pub mod natural;
pub mod schedule;
pub mod selector;

pub use binary64::Binary64;
pub use convergence::TrackedRun;
pub use error::PricingError;
pub use model::GBM;
pub use schedule::Segment;
pub use selector::{Mode, OptionType};
