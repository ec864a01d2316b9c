use isdbt_dsp::demap::{BitDeinterleaverQpsk, QPSK_MAX_DELAY};
use std::collections::VecDeque;

#[test]
fn bit_deinterleave_constant_latency_identity() {
    // TX interleaving (bit0 delayed 120, bit1 not) followed by RX deinterleaving
    // (bit0 not delayed, bit1 delayed 120): every bit sees the constant delay 120.
    let n = QPSK_MAX_DELAY + 60;
    let mut tx_lsb: VecDeque<f32> = VecDeque::from(vec![0.0; QPSK_MAX_DELAY]);
    let mut rx = BitDeinterleaverQpsk::new();

    let val = |t: usize, b: usize| (t * 10 + b + 1) as f32;
    let mut inputs: Vec<[f32; 2]> = Vec::new();
    for t in 0..n {
        let sym = [val(t, 0), val(t, 1)];
        inputs.push(sym);
        tx_lsb.push_front(sym[0]);
        let tx_out = [*tx_lsb.back().unwrap(), sym[1]];
        tx_lsb.pop_back();
        let out = rx.push(tx_out);
        if t >= QPSK_MAX_DELAY {
            assert_eq!(out, inputs[t - QPSK_MAX_DELAY], "t={t}: identity broken");
        }
    }
}

#[test]
fn msb_is_default_until_filled() {
    let mut rx: BitDeinterleaverQpsk<i32> = BitDeinterleaverQpsk::default();
    assert_eq!(rx.latency(), 120);
    for t in 0..120 {
        assert_eq!(rx.push([t, 1000 + t]), [t, 0]);
    }
    assert_eq!(rx.push([7, 8]), [7, 1000]);
}
