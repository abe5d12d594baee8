use crate::binary64::Binary64;
use crate::error::PricingError;
use crate::selector::Mode;
use vstd::prelude::*;

verus! {

/// The parameters of a geometric Brownian motion, fixed once and passed by
/// reference to every operation.
#[derive(Clone, Copy, Debug, PartialEq, Eq, Structural)]
pub struct GBM {
    /// Price of the asset today; must be positive.
    pub spot: Binary64,
    /// Risk-free rate; any finite number.
    pub risk_free_rate: Binary64,
    /// Volatility; must be positive.
    pub volatility: Binary64,
    /// Time to maturity; must be positive.
    pub time_to_maturity: Binary64,
    /// Number of prices on a simulated path; at least one.
    pub steps: usize,
}

/// A trial or batch count is usable when it is at least one.
pub open spec fn count_admissible(count: usize) -> bool {
    count >= 1
}

/// A strike is usable when it is finite and not below zero.
pub open spec fn strike_admissible(strike: Binary64) -> bool {
    strike.is_non_negative()
}

impl GBM {
    /// Every parameter lies in its domain: spot, volatility and time to
    /// maturity are finite and above zero, the rate is finite, and a path has
    /// at least one price.
    pub open spec fn well_formed(&self) -> bool {
        &&& self.spot.is_positive()
        &&& self.risk_free_rate.is_finite()
        &&& self.volatility.is_positive()
        &&& self.time_to_maturity.is_positive()
        &&& self.steps >= 1
    }

    /// Accepts the parameters exactly when they are well formed.
    pub fn validate(&self) -> (r: Result<(), PricingError>)
        ensures
            r is Ok <==> self.well_formed(),
            r is Err ==> r == Err::<(), PricingError>(PricingError::InvalidParameter),
    {
        if self.spot.is_positive() && self.risk_free_rate.is_finite()
            && self.volatility.is_positive() && self.time_to_maturity.is_positive() && self.steps
            >= 1 {
            Ok(())
        } else {
            Err(PricingError::InvalidParameter)
        }
    }

    /// Gate in front of every simulation that needs no strike: the parameters
    /// must be well formed and `paths` at least one.
    pub fn admit_batch(&self, paths: usize) -> (r: Result<(), PricingError>)
        ensures
            r is Ok <==> self.well_formed() && count_admissible(paths),
            r is Err ==> r == Err::<(), PricingError>(PricingError::InvalidParameter),
    {
        match self.validate() {
            Err(e) => Err(e),
            Ok(()) => check_count(paths),
        }
    }

    /// Gate in front of every simulated price: the parameters must be well
    /// formed, `trials` at least one, and the strike finite and not negative.
    pub fn admit_simulation(&self, trials: usize, strike: Binary64) -> (r: Result<
        (),
        PricingError,
    >)
        ensures
            r is Ok <==> self.well_formed() && count_admissible(trials) && strike_admissible(
                strike,
            ),
            r is Err ==> r == Err::<(), PricingError>(PricingError::InvalidParameter),
    {
        match self.admit_batch(trials) {
            Err(e) => Err(e),
            Ok(()) => check_strike(strike),
        }
    }

    /// Gate in front of a run in `mode`: the parameters must be well formed and
    /// the strike finite and not negative; `trials` must be at least one where
    /// the mode simulates, and is not looked at where it does not.
    pub fn admit_request(&self, mode: Mode, trials: usize, strike: Binary64) -> (r: Result<
        (),
        PricingError,
    >)
        ensures
            r is Ok <==> self.well_formed() && strike_admissible(strike) && (mode.simulates()
                ==> count_admissible(trials)),
            r is Err ==> r == Err::<(), PricingError>(PricingError::InvalidParameter),
    {
        if mode.simulates() {
            self.admit_simulation(trials, strike)
        } else {
            self.admit_analytic(strike)
        }
    }

    /// Gate in front of the closed-form price and its sensitivities: the
    /// parameters must be well formed and the strike finite and not negative.
    pub fn admit_analytic(&self, strike: Binary64) -> (r: Result<(), PricingError>)
        ensures
            r is Ok <==> self.well_formed() && strike_admissible(strike),
            r is Err ==> r == Err::<(), PricingError>(PricingError::InvalidParameter),
    {
        match self.validate() {
            Err(e) => Err(e),
            Ok(()) => check_strike(strike),
        }
    }
}

/// Accepts a trial or batch count of at least one.
pub fn check_count(count: usize) -> (r: Result<(), PricingError>)
    ensures
        r is Ok <==> count_admissible(count),
        r is Err ==> r == Err::<(), PricingError>(PricingError::InvalidParameter),
{
    if count >= 1 {
        Ok(())
    } else {
        Err(PricingError::InvalidParameter)
    }
}

/// Accepts a strike that is finite and not below zero.
pub fn check_strike(strike: Binary64) -> (r: Result<(), PricingError>)
    ensures
        r is Ok <==> strike_admissible(strike),
        r is Err ==> r == Err::<(), PricingError>(PricingError::InvalidParameter),
{
    if strike.is_non_negative() {
        Ok(())
    } else {
        Err(PricingError::InvalidParameter)
    }
}

} // verus!
