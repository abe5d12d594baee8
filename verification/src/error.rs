use vstd::prelude::*;

verus! {

/// Why a request was turned down. Every failure is reported at once; nothing
/// is retried and no partial result accompanies an error.
#[derive(Clone, Copy, Debug, PartialEq, Eq, Structural)]
pub enum PricingError {
    /// A model parameter, a strike, or a trial count lies outside its domain.
    InvalidParameter,
    /// The requested mode is not one the engine offers.
    UnsupportedMode,
    /// The requested option type is neither a call nor a put.
    UnsupportedOptionType,
}

} // verus!
