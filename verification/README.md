# isdbt-dsp

Receive chain of a one-segment ISDB-T (1seg) broadcast, from 8-bit IQ samples to
188-byte MPEG-2 transport-stream packets.

The crate is split in two:

- `src/` is the verified library (Verus). It holds the parts of the chain that work on
  bits, bytes and carrier indices: physical-layer parameters, the pilot PRBS and carrier
  layout, the frequency, time and bit deinterleavers, the K=7 convolutional encoder and its
  puncturing, the TMCC control-word decoder, the TS byte interleaver/deinterleaver and the
  energy-dispersal PRBS, GF(256) arithmetic and the RS(204,188) outer code, and the
  byte-level back end of the streaming decoder. Every public function carries a contract,
  and the laws of the chain are proved: interleaver round trips, depuncturing after
  puncturing, the minimum distance of the RS code and the correction of every block within
  8 byte errors (Berlekamp-Massey, Chien search and Forney's formula), the period of the
  pilot PRBS, the termination of the convolutional code, and more.
- `app/` is ordinary Rust around it: the floating-point front end (OFDM demodulation with
  `rustfft`, synchronisation, channel estimation and equalisation, soft demapping and the
  soft-decision Viterbi decoder), the streaming driver, and the `wasm-bindgen` interface.

`tests/` exercises the library on concrete values.
