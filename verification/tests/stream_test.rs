use isdbt_dsp::rs::{encode, K, N};
use isdbt_dsp::stream::{deinterleave_aligned, descramble_block, rs_trial, TsAssembler, BYTE_LATENCY};
use isdbt_dsp::rs::Checker;
use isdbt_dsp::ts::{ByteInterleaver, EnergyPrbs};

fn lcg(s: &mut u32) -> u8 {
    *s = s.wrapping_mul(1664525).wrapping_add(1013904223);
    (*s >> 16) as u8
}

/// RS-encodes and scrambles `n` packets as a transmitter does (PRBS restarted on block 0).
fn scrambled_blocks(n: usize, seed: u32) -> (Vec<Vec<u8>>, Vec<u8>) {
    let mut s = seed;
    let mut prbs = EnergyPrbs::new();
    let mut packets = Vec::new();
    let mut stream = Vec::new();
    for _ in 0..n {
        let mut msg: Vec<u8> = (0..K).map(|_| lcg(&mut s)).collect();
        msg[0] = 0x47;
        let cw = encode(&msg);
        // scrambling is its own inverse
        let sc = descramble_block(&mut prbs, &cw);
        packets.push(msg);
        stream.extend_from_slice(&sc);
    }
    (packets, stream)
}

#[test]
fn descramble_twice_is_identity() {
    let blk: Vec<u8> = (0..N).map(|i| (i * 13) as u8).collect();
    let mut a = EnergyPrbs::new();
    let once = descramble_block(&mut a, &blk);
    assert_eq!(once[0], blk[0]);
    assert_ne!(once, blk);
    let mut b = EnergyPrbs::new();
    assert_eq!(descramble_block(&mut b, &once), blk);
}

#[test]
fn rs_trial_finds_the_restart_offset() {
    let (_, stream) = scrambled_blocks(4, 77);
    let checker = Checker::new();
    assert_eq!(rs_trial(&checker, &stream, 0, 0), (4, 4));
    let (ok, tot) = rs_trial(&checker, &stream, 0, 1);
    assert_eq!(tot, 4);
    assert!(ok <= 1);
    assert_eq!(rs_trial(&checker, &stream, stream.len(), 0), (0, 0));
}

#[test]
fn deinterleave_aligned_undoes_interleaving() {
    let data: Vec<u8> = (0..3000usize).map(|i| (i % 200) as u8).collect();
    let mut tx = ByteInterleaver::new();
    let sent: Vec<u8> = data.iter().map(|&b| tx.push(b)).collect();
    let aligned = deinterleave_aligned(&sent, 0);
    assert_eq!(aligned.len(), data.len() - BYTE_LATENCY);
    assert_eq!(&aligned[..], &data[..data.len() - BYTE_LATENCY]);
}

#[test]
fn assembler_recovers_packets_from_bits() {
    let (packets, stream) = scrambled_blocks(3, 5);
    // byte interleave, then serialize MSB first
    let mut tx = ByteInterleaver::new();
    let mut padded = stream.clone();
    padded.extend(std::iter::repeat(0u8).take(BYTE_LATENCY));
    let bytes: Vec<u8> = padded.iter().map(|&b| tx.push(b)).collect();
    let mut assembler = TsAssembler::new(0, 0, 0);
    let mut out = Vec::new();
    for &b in &bytes {
        for j in (0..8).rev() {
            assembler.push_bit((b >> j) & 1, &mut out);
        }
    }
    let expected: Vec<u8> = packets.concat();
    assert_eq!(out, expected);
    assert_eq!(assembler.stats(), (3, 3));
}

#[test]
fn rs_trial_counts_blocks_within_8_errors() {
    let (_, mut stream) = scrambled_blocks(4, 91);
    // eight byte errors in block 1, three in block 3
    for k in 0..8 {
        stream[N + 10 + 20 * k] ^= 0x33;
    }
    for k in 0..3 {
        stream[3 * N + 5 + 50 * k] ^= 0x81;
    }
    let checker = Checker::new();
    assert_eq!(rs_trial(&checker, &stream, 0, 0), (4, 4));
}

#[test]
fn transmission_round_trip_gives_back_the_codewords() {
    let (packets, stream) = scrambled_blocks(15, 123);
    let mut tx = ByteInterleaver::new();
    let sent: Vec<u8> = stream.iter().map(|&b| tx.push(b)).collect();
    let aligned = deinterleave_aligned(&sent, 0);
    assert_eq!(aligned.len(), 15 * N - BYTE_LATENCY);
    let checker = Checker::new();
    assert_eq!(rs_trial(&checker, &aligned, 0, 0), (4, 4));
    let mut prbs = EnergyPrbs::new();
    for k in 0..4 {
        let blk = descramble_block(&mut prbs, &aligned[k * N..(k + 1) * N]);
        assert_eq!(&blk[..K], &packets[k][..]);
        assert_eq!(blk, encode(&packets[k]));
    }
}

#[test]
fn rs_trial_past_the_end_tries_nothing() {
    let (_, stream) = scrambled_blocks(2, 5);
    let checker = Checker::new();
    assert_eq!(rs_trial(&checker, &stream, stream.len() + 1, 0), (0, 0));
    assert_eq!(rs_trial(&checker, &stream, usize::MAX, 3), (0, 0));
}
