use vstd::prelude::*;

verus! {

/// Bit 63: the sign.
pub const SIGN_MASK: u64 = 0x8000_0000_0000_0000;

/// Bits 52 to 62: the biased exponent.
pub const EXPONENT_MASK: u64 = 0x7FF0_0000_0000_0000;

/// Bits 0 to 51: the fraction.
pub const FRACTION_MASK: u64 = 0x000F_FFFF_FFFF_FFFF;

/// A real number carried as its IEEE 754 binary64 bit pattern.
///
/// The crate never does arithmetic on such a value. It only reads the three
/// fields of the encoding to tell whether the number is finite and on which
/// side of zero it lies.
#[derive(Clone, Copy, Debug, PartialEq, Eq, Structural)]
pub struct Binary64 {
    pub bits: u64,
}

impl Binary64 {
    /// The sign field is set.
    pub open spec fn sign_bit(self) -> bool {
        self.bits & SIGN_MASK != 0
    }

    /// The exponent field, still in place (not shifted down).
    pub open spec fn exponent_field(self) -> u64 {
        self.bits & EXPONENT_MASK
    }

    /// The fraction field.
    pub open spec fn fraction_field(self) -> u64 {
        self.bits & FRACTION_MASK
    }

    /// Neither an infinity nor a NaN: the exponent field is not all ones.
    pub open spec fn spec_is_finite(self) -> bool {
        self.exponent_field() != EXPONENT_MASK
    }

    /// Plus or minus zero: exponent and fraction are both zero.
    pub open spec fn spec_is_zero(self) -> bool {
        self.exponent_field() == 0 && self.fraction_field() == 0
    }

    /// A finite number strictly greater than zero.
    pub open spec fn spec_is_positive(self) -> bool {
        self.spec_is_finite() && !self.spec_is_zero() && !self.sign_bit()
    }

    /// A finite number greater than or equal to zero; minus zero counts.
    pub open spec fn spec_is_non_negative(self) -> bool {
        self.spec_is_finite() && (self.spec_is_zero() || !self.sign_bit())
    }

    /// Wraps a bit pattern.
    pub fn from_bits(bits: u64) -> (r: Self)
        ensures
            r.bits == bits,
    {
        Binary64 { bits }
    }

    /// The bit pattern.
    pub fn to_bits(self) -> (r: u64)
        ensures
            r == self.bits,
    {
        self.bits
    }

    /// Whether the number is neither an infinity nor a NaN.
    #[verifier::when_used_as_spec(spec_is_finite)]
    pub fn is_finite(self) -> (r: bool)
        ensures
            r == self.spec_is_finite(),
    {
        self.bits & EXPONENT_MASK != EXPONENT_MASK
    }

    /// Whether the number is plus or minus zero.
    #[verifier::when_used_as_spec(spec_is_zero)]
    pub fn is_zero(self) -> (r: bool)
        ensures
            r == self.spec_is_zero(),
    {
        self.bits & EXPONENT_MASK == 0 && self.bits & FRACTION_MASK == 0
    }

    /// Whether the number is finite and strictly greater than zero.
    #[verifier::when_used_as_spec(spec_is_positive)]
    pub fn is_positive(self) -> (r: bool)
        ensures
            r == self.spec_is_positive(),
    {
        self.is_finite() && !self.is_zero() && self.bits & SIGN_MASK == 0
    }

    /// Whether the number is finite and not below zero.
    #[verifier::when_used_as_spec(spec_is_non_negative)]
    pub fn is_non_negative(self) -> (r: bool)
        ensures
            r == self.spec_is_non_negative(),
    {
        self.is_finite() && (self.is_zero() || self.bits & SIGN_MASK == 0)
    }
}

} // verus!
