//! Integer core of a one-segment ISDB-T (1seg) receiver.
//!
//! The library holds the parts of the receive chain that work on bits, bytes and carrier
//! indices: physical-layer parameters, pilot and carrier layouts, the frequency, time and bit
//! deinterleavers, the K=7 convolutional encoder and its puncturing, the TMCC control-word
//! decoder, the TS byte deinterleaver and energy-dispersal PRBS, the RS(204,188) outer code
//! over GF(256), and the byte-level back end of the streaming decoder.

pub mod params;
pub mod gf;
pub mod rs;
pub mod rs_distance;
pub mod rs_correct;
pub mod pilots;
pub mod tmcc;
pub mod ts;
pub mod viterbi;
pub mod deinterleave;
pub mod demap;
pub mod stream;

pub use deinterleave::{
    data_carrier_indices, freq_deinterleave, TimeDeinterleaver, AC_LOCAL_CARRIERS, DATA_CARRIERS,
    FREQ_PERM_MODE3,
};
pub use demap::BitDeinterleaverQpsk;
pub use params::{GuardInterval, FFT_LEN, SAMPLE_RATE_DEN, SAMPLE_RATE_NUM_HZ};
pub use pilots::{
    prbs_pilot_bits, sp_carriers, CENTER_SEGMENT_OFFSET, SEGMENT_BIN_OFFSET, SEGMENT_CARRIERS,
};
pub use stream::TsAssembler;
pub use tmcc::{
    coding_rate_str, find_frame_sync, interleaving_mode3, majority_frame, parse_tmcc, FrameSync,
    LayerInfo, Modulation, TmccInfo, SYMBOLS_PER_FRAME, TMCC_LOCAL_CARRIERS,
};
pub use viterbi::{conv_encode, conv_encode_terminated, depuncture, puncture};
