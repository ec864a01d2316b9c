use isdbt_dsp::tmcc::{
    coding_rate_str, find_frame_sync, interleaving_mode3, majority_frame, parse_tmcc, Modulation,
    SYMBOLS_PER_FRAME, SYNC_EVEN, SYNC_ODD, SYNC_SIZE, TMCC_LOCAL_CARRIERS,
};

#[test]
fn tmcc_local_carriers_are_in_segment() {
    assert_eq!(TMCC_LOCAL_CARRIERS, [101, 131, 286, 349]);
    for c in TMCC_LOCAL_CARRIERS {
        assert!(c < 432);
    }
}

#[test]
fn sync_odd_is_complement_of_even() {
    for i in 0..SYNC_SIZE {
        assert_eq!(SYNC_EVEN[i] ^ SYNC_ODD[i], 1);
    }
}

/// A known TMCC frame: even sync, partial reception, Layer A = QPSK / 2/3 / I=4 / 1 segment.
fn known_frame() -> Vec<u8> {
    let mut frame = vec![0u8; SYMBOLS_PER_FRAME];
    frame[1..1 + SYNC_SIZE].copy_from_slice(&SYNC_EVEN);
    frame[27] = 1;
    let la = [
        (28, 0), (29, 0), (30, 1), (31, 0), (32, 0), (33, 1), (34, 0), (35, 1), (36, 1),
        (37, 0), (38, 0), (39, 0), (40, 1),
    ];
    for (i, v) in la {
        frame[i] = v;
    }
    frame
}

#[test]
fn frame_sync_and_parse_roundtrip() {
    let frame = known_frame();
    let mut stream: Vec<u8> = vec![0u8; 37];
    for f in 0..3 {
        let mut fr = frame.clone();
        if f % 2 == 1 {
            fr[1..1 + SYNC_SIZE].copy_from_slice(&SYNC_ODD);
        }
        stream.extend_from_slice(&fr);
    }
    let fs = find_frame_sync(&stream).expect("no sync");
    assert_eq!(fs.phase, 37);
    assert_eq!(fs.matched, fs.total);
    assert_eq!(fs.n_frames, 3);
    assert_eq!(fs.parity_per_frame, vec![false, true, false]);
    assert!(fs.alternates);
    let mf = majority_frame(&stream, fs.phase);
    let info = parse_tmcc(&mf);
    assert_eq!(info.partial_reception, 1);
    assert_eq!(info.layer_a.modulation, Modulation::Qpsk);
    assert_eq!(coding_rate_str(info.layer_a.coding_rate), "2/3");
    assert_eq!(interleaving_mode3(info.layer_a.interleaving), Some(4));
    assert_eq!(info.layer_a.n_segments, 1);
}

#[test]
fn short_stream_has_no_frame_sync() {
    assert!(find_frame_sync(&vec![0u8; 203]).is_none());
    assert!(find_frame_sync(&vec![0u8; 204]).is_some());
}

#[test]
fn majority_breaks_ties_towards_one_and_empty_gives_zero() {
    // two frames: bit 5 is 1 in one and 0 in the other -> tie -> 1
    let mut bits = vec![0u8; 2 * SYMBOLS_PER_FRAME];
    bits[5] = 1;
    let f = majority_frame(&bits, 0);
    assert_eq!(f[5], 1);
    assert_eq!(f[6], 0);
    // phase beyond the stream: no frame covers any position
    let f = majority_frame(&bits, 1000);
    assert_eq!(f, vec![0u8; SYMBOLS_PER_FRAME]);
}

#[test]
fn modulation_and_rate_tables() {
    assert_eq!(Modulation::from_bits(0), Modulation::Dqpsk);
    assert_eq!(Modulation::from_bits(3), Modulation::Qam64);
    assert_eq!(Modulation::from_bits(7), Modulation::Unused);
    assert_eq!(Modulation::from_bits(5), Modulation::Reserved(5));
    assert_eq!(coding_rate_str(0), "1/2");
    assert_eq!(coding_rate_str(4), "7/8");
    assert_eq!(coding_rate_str(7), "未使用");
    assert_eq!(coding_rate_str(5), "予約");
    assert_eq!(interleaving_mode3(0), Some(0));
    assert_eq!(interleaving_mode3(2), Some(2));
    assert_eq!(interleaving_mode3(4), None);
}

#[test]
fn parse_reads_big_endian_fields() {
    let mut frame = vec![0u8; SYMBOLS_PER_FRAME];
    frame[20] = 1; // system id = 0b10
    frame[22] = 1;
    frame[25] = 1; // switching = 0b1001
    frame[26] = 3; // only the low bit counts
    frame[54] = 1;
    frame[55] = 1;
    frame[56] = 1; // layer C modulation = 7
    frame[63] = 1;
    frame[64] = 1;
    frame[65] = 1;
    frame[66] = 1; // layer C segments = 15
    let t = parse_tmcc(&frame);
    assert_eq!(t.system_id, 2);
    assert_eq!(t.switching_indicator, 9);
    assert_eq!(t.emergency_flag, 1);
    assert_eq!(t.partial_reception, 0);
    assert_eq!(t.layer_c.modulation, Modulation::Unused);
    assert_eq!(t.layer_c.n_segments, 15);
    assert_eq!(t.layer_b.modulation, Modulation::Dqpsk);
}

#[test]
fn repeated_frames_merge_back_into_the_frame() {
    let frame: Vec<u8> = (0..SYMBOLS_PER_FRAME).map(|i| ((i * 7 + 3) % 5 % 2) as u8).collect();
    let mut bits: Vec<u8> = vec![1, 0, 1];
    for _ in 0..3 {
        bits.extend_from_slice(&frame);
    }
    assert_eq!(majority_frame(&bits, 3), frame);
    // a phase far beyond the stream is accepted and finds no frame
    assert_eq!(majority_frame(&bits, usize::MAX - 300), vec![0u8; SYMBOLS_PER_FRAME]);
}
