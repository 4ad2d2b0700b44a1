//! The gamma used when high-dynamic-range samples are mapped to 8 bits.
//!
//! A gamma is held as the bit pattern of an IEEE 754 single-precision number
//! (what `f32::to_bits` returns), so that its validity is a statement about
//! integers.

use vstd::prelude::*;
use crate::error::Error;

verus! {

/// The bit pattern of the single-precision number nearest to 2.2.
pub const DEFAULT_GAMMA_BITS: u32 = 0x400c_cccd;

/// The sign field of a single-precision bit pattern.
pub open spec fn sign_field(bits: u32) -> int {
    bits as int / 0x8000_0000
}

/// The biased exponent field of a single-precision bit pattern.
pub open spec fn exponent_field(bits: u32) -> int {
    (bits as int / 0x80_0000) % 0x100
}

/// The fraction field of a single-precision bit pattern.
pub open spec fn fraction_field(bits: u32) -> int {
    bits as int % 0x80_0000
}

/// Whether `bits` encodes a number greater than zero: the sign is clear, the
/// number is neither zero nor a NaN. Positive infinity counts as positive.
pub open spec fn is_positive_gamma(bits: u32) -> bool {
    &&& sign_field(bits) == 0
    &&& !(exponent_field(bits) == 0 && fraction_field(bits) == 0)
    &&& !(exponent_field(bits) == 0xff && fraction_field(bits) != 0)
}

/// The gamma that decoders of high-dynamic-range formats read.
#[derive(Clone, Copy, Debug)]
pub struct GammaState {
    bits: u32,
}

impl GammaState {
    /// The bit pattern of the stored gamma.
    pub closed spec fn view(&self) -> u32 {
        self.bits
    }

    /// A stored gamma is always positive.
    pub open spec fn wf(&self) -> bool {
        is_positive_gamma(self@)
    }

    /// The state with the default gamma of 2.2.
    pub fn new() -> (state: GammaState)
        ensures
            state@ == DEFAULT_GAMMA_BITS,
            state.wf(),
    {
        GammaState { bits: DEFAULT_GAMMA_BITS }
    }

    /// The bit pattern of the stored gamma.
    pub fn bits(&self) -> (bits: u32)
        ensures
            bits == self@,
    {
        self.bits
    }
}

/// Stores the gamma with bit pattern `gamma_bits` if it is positive, and
/// otherwise leaves the state as it was and reports `InvalidArgument`.
pub fn hdr_to_ldr_gamma(state: &mut GammaState, gamma_bits: u32) -> (result: Result<(), Error>)
    ensures
        is_positive_gamma(gamma_bits) ==> result is Ok && final(state)@ == gamma_bits,
        !is_positive_gamma(gamma_bits) ==> result == Err::<(), Error>(Error::InvalidArgument)
            && *final(state) == *old(state),
        old(state).wf() ==> final(state).wf(),
{
    if 0 < gamma_bits && gamma_bits <= 0x7f80_0000 {
        state.bits = gamma_bits;
        Ok(())
    } else {
        Err(Error::InvalidArgument)
    }
}

} // verus!
