use isdbt_dsp::ts::{
    pack_bits_msb, sync_hits_at, ByteDeinterleaver, ByteInterleaver, EnergyPrbs, BI_I, BI_M,
};
use std::collections::VecDeque;

#[test]
fn pack_bits_msb_basic() {
    let bits = [0, 1, 0, 0, 0, 1, 1, 1]; // 0x47
    assert_eq!(pack_bits_msb(&bits, 0), vec![0x47]);
}

#[test]
fn pack_bits_msb_offset_and_tail() {
    let bits = [1, 1, 0, 1, 0, 0, 0, 1, 1, 1, 3];
    // offset 1: 1,0,1,0,0,0,1,1 = 0xa3; the two trailing bits are dropped
    assert_eq!(pack_bits_msb(&bits, 1), vec![0xa3]);
    assert_eq!(pack_bits_msb(&bits, 100), Vec::<u8>::new());
}

#[test]
fn byte_interleave_deinterleave_roundtrip() {
    // transmitter (branch k delays M*k) followed by the deinterleaver (M*(11-k)):
    // constant delay M*I*(I-1) = 2244 bytes (= 11 TSP)
    let total = BI_M * BI_I * (BI_I - 1);
    let mut tx: Vec<VecDeque<u8>> = (0..BI_I)
        .map(|k| VecDeque::from(vec![0u8; BI_M * k]))
        .collect();
    let mut rx = ByteDeinterleaver::new();
    let n = total + 500;
    let data: Vec<u8> = (0..n).map(|i| (i * 7 + 3) as u8).collect();
    for (i, &d) in data.iter().enumerate() {
        let k = i % BI_I;
        tx[k].push_back(d);
        let t = tx[k].pop_front().unwrap_or(d);
        let out = rx.push(t);
        if i >= total {
            assert_eq!(out, data[i - total], "i={i}: byte identity broken");
        }
    }
}

#[test]
fn byte_interleaver_pairs_with_deinterleaver() {
    let mut tx = ByteInterleaver::new();
    let mut rx = ByteDeinterleaver::default();
    for i in 0..3000usize {
        let out = rx.push(tx.push((i % 251) as u8));
        if i >= 2244 {
            assert_eq!(out, ((i - 2244) % 251) as u8);
        } else {
            assert_eq!(out, 0);
        }
    }
}

#[test]
fn reversed_deinterleaver_delays_branch_k_by_17k() {
    let mut rx = ByteDeinterleaver::with_rev(true);
    // branch 0 has no delay: the first byte comes straight out
    assert_eq!(rx.push(9), 9);
    // branch 1 delays by 17 of its own bytes
    assert_eq!(rx.push(8), 0);
}

#[test]
fn prbs_is_deterministic_and_periodic() {
    let mut a = EnergyPrbs::new();
    let first: Vec<u32> = (0..10).map(|_| a.clock(8)).collect();
    let mut b = EnergyPrbs::new();
    let again: Vec<u32> = (0..10).map(|_| b.clock(8)).collect();
    assert_eq!(first, again); // deterministic
    assert_ne!(first[0], 0); // the first byte is not trivial
}

#[test]
fn prbs_reset_restarts_sequence() {
    let mut a = EnergyPrbs::new();
    let x = a.clock(16);
    a.reset();
    assert_eq!(a.clock(16), x);
    let mut b = EnergyPrbs::with_init(0x80a9); // bit 15 is dropped
    assert_eq!(b.clock(16), x);
    b.reset_to(0xa9);
    assert_eq!(b.clock(16), x);
}

#[test]
fn prbs_first_bits() {
    // register 0xa9 = bits 0,3,5,7: bits 13 and 14 are zero for the first clocks
    let mut a = EnergyPrbs::new();
    assert_eq!(a.clock(6), 0);
}

#[test]
fn sync_hits_count_every_204th_byte() {
    let mut bytes = vec![0u8; 204 * 3 + 10];
    bytes[5] = 0x47;
    bytes[5 + 204] = 0xb8;
    bytes[5 + 408] = 0x11;
    assert_eq!(sync_hits_at(&bytes, 5), (2, 4));
    assert_eq!(sync_hits_at(&bytes, 10), (0, 3));
    assert_eq!(sync_hits_at(&bytes, 700), (0, 0));
}
