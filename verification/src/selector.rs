use crate::error::PricingError;
use vstd::prelude::*;

verus! {

/// The two standard payoffs.
#[derive(Clone, Copy, Debug, PartialEq, Eq, Structural)]
pub enum OptionType {
    /// Pays what the terminal price exceeds the strike by, or nothing.
    Call,
    /// Pays what the strike exceeds the terminal price by, or nothing.
    Put,
}

/// What a run is asked to produce.
#[derive(Clone, Copy, Debug, PartialEq, Eq, Structural)]
pub enum Mode {
    /// The closed-form price next to a tracked simulation.
    Full,
    /// The closed-form price alone.
    AnalyticOnly,
    /// The discounted payoff sum of one batch, not divided by its size.
    Batch,
}

/// Whether two texts hold the same characters.
fn same_text(a: &str, b: &str) -> (r: bool)
    ensures
        r == (a@ == b@),
{
    a.to_owned() == b.to_owned()
}

impl OptionType {
    /// The option type that `name` stands for, if any.
    pub open spec fn named(name: Seq<char>) -> Option<OptionType> {
        if name == "call"@ {
            Some(OptionType::Call)
        } else if name == "put"@ {
            Some(OptionType::Put)
        } else {
            None
        }
    }

    /// Reads an option type from its name: `call` or `put`, in lower case.
    /// Any other name is refused as an unsupported option type.
    pub fn from_name(name: &str) -> (r: Result<OptionType, PricingError>)
        ensures
            r == match OptionType::named(name@) {
                Some(kind) => Ok::<OptionType, PricingError>(kind),
                None => Err::<OptionType, PricingError>(PricingError::UnsupportedOptionType),
            },
    {
        if same_text(name, "call") {
            Ok(OptionType::Call)
        } else if same_text(name, "put") {
            Ok(OptionType::Put)
        } else {
            Err(PricingError::UnsupportedOptionType)
        }
    }
}

impl Mode {
    /// The mode that `name` stands for, if any.
    pub open spec fn named(name: Seq<char>) -> Option<Mode> {
        if name == "full"@ {
            Some(Mode::Full)
        } else if name == "bs_only"@ {
            Some(Mode::AnalyticOnly)
        } else if name == "batch"@ {
            Some(Mode::Batch)
        } else {
            None
        }
    }

    /// Reads a mode from its name: `full`, `bs_only` or `batch`. Any other
    /// name is refused as an unsupported mode.
    pub fn from_name(name: &str) -> (r: Result<Mode, PricingError>)
        ensures
            r == match Mode::named(name@) {
                Some(mode) => Ok::<Mode, PricingError>(mode),
                None => Err::<Mode, PricingError>(PricingError::UnsupportedMode),
            },
    {
        if same_text(name, "full") {
            Ok(Mode::Full)
        } else if same_text(name, "bs_only") {
            Ok(Mode::AnalyticOnly)
        } else if same_text(name, "batch") {
            Ok(Mode::Batch)
        } else {
            Err(PricingError::UnsupportedMode)
        }
    }

    /// Every mode but the analytic one simulates paths.
    pub open spec fn spec_simulates(self) -> bool {
        self != Mode::AnalyticOnly
    }

    /// Whether the mode simulates paths, and so needs a trial count.
    #[verifier::when_used_as_spec(spec_simulates)]
    pub fn simulates(self) -> (r: bool)
        ensures
            r == self.spec_simulates(),
    {
        match self {
            Mode::AnalyticOnly => false,
            _ => true,
        }
    }
}

} // verus!
