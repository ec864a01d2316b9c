//! Physical-layer parameters of a single 1seg segment received alone
//! (Mode 3 carriers, 1/8 of the full-band sample rate).

use vstd::prelude::*;

verus! {

/// Useful symbol length (FFT size): 1/8 of the full-band Mode 3 size 8192.
pub const FFT_LEN: usize = 1024;

/// Numerator of the OFDM sample rate in Hz: (512e6 / 63) / 8 = 64e6 / 63.
pub const SAMPLE_RATE_NUM_HZ: u64 = 64_000_000;

/// Denominator of the OFDM sample rate (the rate is `SAMPLE_RATE_NUM_HZ / SAMPLE_RATE_DEN`).
pub const SAMPLE_RATE_DEN: u64 = 63;

/// Guard-interval ratio, one of 1/4, 1/8, 1/16, 1/32 (signalled by TMCC).
#[derive(Clone, Copy, Debug, PartialEq, Eq, Structural)]
pub enum GuardInterval {
    G1_4,
    G1_8,
    G1_16,
    G1_32,
}

impl GuardInterval {
    /// The divisor of the guard ratio: 4, 8, 16 or 32.
    pub open spec fn divisor(self) -> nat {
        match self {
            GuardInterval::G1_4 => 4,
            GuardInterval::G1_8 => 8,
            GuardInterval::G1_16 => 16,
            GuardInterval::G1_32 => 32,
        }
    }

    /// Cyclic-prefix length in samples for a useful symbol of `fft_len` samples.
    pub fn cp_len(self, fft_len: usize) -> (r: usize)
        ensures
            r == fft_len as nat / self.divisor(),
    {
        match self {
            GuardInterval::G1_4 => fft_len / 4,
            GuardInterval::G1_8 => fft_len / 8,
            GuardInterval::G1_16 => fft_len / 16,
            GuardInterval::G1_32 => fft_len / 32,
        }
    }

    /// Whole OFDM symbol length: useful part plus cyclic prefix.
    pub fn symbol_len(self, fft_len: usize) -> (r: usize)
        requires
            fft_len + fft_len as nat / self.divisor() <= usize::MAX,
        ensures
            r == fft_len + fft_len as nat / self.divisor(),
    {
        fft_len + self.cp_len(fft_len)
    }

    /// All guard-interval candidates, for a search over an unknown guard interval.
    pub fn all() -> (r: [GuardInterval; 4])
        ensures
            r@ == seq![GuardInterval::G1_4, GuardInterval::G1_8, GuardInterval::G1_16, GuardInterval::G1_32],
    {
        [GuardInterval::G1_4, GuardInterval::G1_8, GuardInterval::G1_16, GuardInterval::G1_32]
    }
}

} // verus!
