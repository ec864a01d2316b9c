use isdbt_dsp::viterbi::{
    conv_encode, conv_encode_terminated, depuncture, depuncture_push, parity, puncture,
    PUNCTURE_2_3, PUNCTURE_3_4,
};

#[test]
fn parity_basic() {
    assert_eq!(parity(0b0), 0);
    assert_eq!(parity(0b1), 1);
    assert_eq!(parity(0b11), 0);
    assert_eq!(parity(0o171), 1); // 1111001 -> 5 ones -> odd
}

#[test]
fn impulse_response_is_the_generators() {
    // a single 1 followed by zeros produces the generator taps, newest first:
    // X: 0o171 = 1111001, Y: 0o133 = 1011011 (bit 6 first)
    let (out, s) = conv_encode(&[1, 0, 0, 0, 0, 0, 0], 0);
    let x: Vec<u8> = out.iter().step_by(2).copied().collect();
    let y: Vec<u8> = out.iter().skip(1).step_by(2).copied().collect();
    assert_eq!(x, vec![1, 1, 1, 1, 0, 0, 1]);
    assert_eq!(y, vec![1, 0, 1, 1, 0, 1, 1]);
    assert_eq!(s, 0);
}

#[test]
fn terminated_encoding_is_continuous_encoding_with_tail() {
    let info: Vec<u8> = (0..50).map(|i| ((i * 7 + 1) % 3 == 0) as u8).collect();
    let term = conv_encode_terminated(&info);
    let mut padded = info.clone();
    padded.extend_from_slice(&[0; 6]);
    let (cont, s) = conv_encode(&padded, 0);
    assert_eq!(term, cont);
    assert_eq!(s, 0);
    assert_eq!(term.len(), 2 * 56);
}

#[test]
fn encoding_continues_across_calls() {
    let a: Vec<u8> = (0..30).map(|i| (i % 5 == 1) as u8).collect();
    let b: Vec<u8> = (0..20).map(|i| (i % 3 == 0) as u8).collect();
    let (oa, sa) = conv_encode(&a, 17);
    let (ob, sb) = conv_encode(&b, sa);
    let mut ab = a.clone();
    ab.extend_from_slice(&b);
    let (oab, sab) = conv_encode(&ab, 17);
    let mut joined = oa.clone();
    joined.extend_from_slice(&ob);
    assert_eq!(oab, joined);
    assert_eq!(sab, sb);
}

#[test]
fn only_low_bit_of_inputs_and_state_matters() {
    let (o1, s1) = conv_encode(&[3, 2, 5], 64 + 5);
    let (o2, s2) = conv_encode(&[1, 0, 1], 5);
    assert_eq!(o1, o2);
    assert_eq!(s1, s2);
}

#[test]
fn puncture_2_3_drops_every_third_of_four() {
    let mother: Vec<u8> = (0..8).collect();
    assert_eq!(puncture(&mother, &PUNCTURE_2_3), vec![0, 1, 3, 4, 5, 7]);
    assert_eq!(puncture(&[], &[]), Vec::<u8>::new());
}

#[test]
fn depuncture_restores_kept_positions_with_erasures() {
    let mother: Vec<u8> = (0..12u8).map(|i| (i * 7 + 3) % 2).collect();
    let sent = puncture(&mother, &PUNCTURE_2_3);
    assert_eq!(sent.len(), 9);
    let back = depuncture(&sent, &PUNCTURE_2_3, 9u8);
    assert_eq!(back.len(), 12);
    for (i, &b) in back.iter().enumerate() {
        if PUNCTURE_2_3[i % 4] == 1 {
            assert_eq!(b, mother[i]);
        } else {
            assert_eq!(b, 9);
        }
    }
    // values beyond whole periods are dropped
    let soft: Vec<i16> = vec![10, -20, 30, 40];
    assert_eq!(depuncture(&soft, &PUNCTURE_2_3, 0), vec![10, -20, 0, 30]);
}

#[test]
fn streaming_depuncture_matches_batch() {
    let rx: Vec<i32> = (1..=18).collect();
    for pattern in [&PUNCTURE_2_3[..], &PUNCTURE_3_4[..]] {
        let batch = depuncture(&rx, pattern, 0);
        let mut pos = 0usize;
        let mut mother: Vec<i32> = Vec::new();
        for &v in &rx {
            depuncture_push(&mut pos, pattern, v, 0, &mut mother);
        }
        assert_eq!(pos, mother.len());
        assert_eq!(&mother[..batch.len()], &batch[..]);
    }
    // a value lands after the erasures that precede the next kept position
    let mut pos = 2usize;
    let mut mother: Vec<i32> = vec![7, 8];
    depuncture_push(&mut pos, &PUNCTURE_2_3, 5, -1, &mut mother);
    assert_eq!(pos, 4);
    assert_eq!(mother, vec![7, 8, -1, 5]);
}
