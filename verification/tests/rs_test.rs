use isdbt_dsp::rs::{decode, encode, is_codeword, nonzero_syndromes_fcr, syndromes, Checker, K, N};

fn lcg(s: &mut u32) -> u8 {
    *s = s.wrapping_mul(1664525).wrapping_add(1013904223);
    (*s >> 16) as u8
}

#[test]
fn encode_is_codeword() {
    let mut s = 1u32;
    let msg: Vec<u8> = (0..K).map(|_| lcg(&mut s)).collect();
    let cw = encode(&msg);
    assert_eq!(cw.len(), N);
    assert!(is_codeword(&cw), "encoded block is not a valid codeword");
}

#[test]
fn corrects_up_to_8_errors() {
    let mut s = 42u32;
    let msg: Vec<u8> = (0..K).map(|_| lcg(&mut s)).collect();
    let cw = encode(&msg);
    let mut rx = cw.clone();
    // nonzero errors at 8 distinct positions (correction capability t = 8)
    let positions = [3usize, 20, 55, 88, 120, 150, 180, 200];
    for (i, &pos) in positions.iter().enumerate() {
        rx[pos] ^= (i as u8) + 1;
    }
    let dec = decode(&rx).expect("cannot correct");
    assert_eq!(&dec[..K], &msg[..], "message differs after correction");
}

#[test]
fn corrects_single_error() {
    let mut s = 7u32;
    let msg: Vec<u8> = (0..K).map(|_| lcg(&mut s)).collect();
    let cw = encode(&msg);
    let mut rx = cw.clone();
    rx[42] ^= 0x9d;
    let dec = decode(&rx).expect("cannot correct a single error");
    assert_eq!(&dec[..], &cw[..], "corrected block differs from the codeword");
}

#[test]
fn encode_keeps_message_as_prefix() {
    let msg: Vec<u8> = (0..K).map(|i| (i * 3) as u8).collect();
    let cw = encode(&msg);
    assert_eq!(&cw[..K], &msg[..]);
}

#[test]
fn all_zero_block_is_codeword_with_zero_syndromes() {
    let z = vec![0u8; N];
    assert_eq!(syndromes(&z), [0u8; 16]);
    assert!(is_codeword(&z));
    assert_eq!(encode(&vec![0u8; K]), z);
}

#[test]
fn single_byte_syndromes_are_powers_of_alpha() {
    // block = x^0 coefficient 1 only (last byte): every syndrome is 1
    let mut b = vec![0u8; N];
    b[N - 1] = 1;
    assert_eq!(syndromes(&b), [1u8; 16]);
    // coefficient of x^1 (second to last byte): syndrome j is alpha^j
    let mut b = vec![0u8; N];
    b[N - 2] = 1;
    let s = syndromes(&b);
    assert_eq!(&s[..9], &[1, 2, 4, 8, 16, 32, 64, 128, 0x1d]);
}

#[test]
fn codeword_decodes_to_itself() {
    let mut s = 99u32;
    let msg: Vec<u8> = (0..K).map(|_| lcg(&mut s)).collect();
    let cw = encode(&msg);
    assert_eq!(decode(&cw), Some(cw.clone()));
}

#[test]
fn nine_errors_are_not_miscorrected_into_the_sent_codeword() {
    let mut s = 5u32;
    let msg: Vec<u8> = (0..K).map(|_| lcg(&mut s)).collect();
    let cw = encode(&msg);
    let mut rx = cw.clone();
    for (i, pos) in [1usize, 10, 30, 50, 70, 90, 110, 130, 170].iter().enumerate() {
        rx[*pos] ^= (i as u8) + 1;
    }
    match decode(&rx) {
        None => {}
        Some(v) => {
            assert!(is_codeword(&v));
            assert_ne!(v, cw);
            let d = v.iter().zip(&rx).filter(|(a, b)| a != b).count();
            assert!(d <= 8);
        }
    }
}

#[test]
fn checker_agrees_with_is_codeword() {
    let c = Checker::new();
    let mut s = 3u32;
    let msg: Vec<u8> = (0..K).map(|_| lcg(&mut s)).collect();
    let mut cw = encode(&msg);
    assert!(c.is_codeword(&cw));
    cw[100] ^= 1;
    assert!(!c.is_codeword(&cw));
    assert!(!is_codeword(&cw));
}

#[test]
fn nonzero_syndrome_count_depends_on_first_root() {
    let mut s = 11u32;
    let msg: Vec<u8> = (0..K).map(|_| lcg(&mut s)).collect();
    let cw = encode(&msg);
    assert_eq!(nonzero_syndromes_fcr(&cw, 0), 0);
    // with the roots shifted by one, only alpha^16 is not a root of the generator
    assert_eq!(nonzero_syndromes_fcr(&cw, 1) <= 1, true);
    assert_eq!(nonzero_syndromes_fcr(&vec![0u8; N], 5), 0);
}

#[test]
fn distinct_codewords_differ_in_at_least_17_bytes() {
    let mut s = 7u32;
    let msg: Vec<u8> = (0..K).map(|_| lcg(&mut s)).collect();
    let a = encode(&msg);
    for pos in [0usize, 93, K - 1] {
        let mut other = msg.clone();
        other[pos] ^= 0x5a;
        let b = encode(&other);
        let d = a.iter().zip(b.iter()).filter(|(x, y)| x != y).count();
        assert!(d >= 17, "codewords differ in only {d} bytes");
    }
}

#[test]
fn eight_errors_decode_to_the_unique_nearby_codeword() {
    let mut s = 99u32;
    let msg: Vec<u8> = (0..K).map(|_| lcg(&mut s)).collect();
    let cw = encode(&msg);
    let mut bad = cw.clone();
    for (k, pos) in [3usize, 20, 41, 77, 110, 150, 188, 203].iter().enumerate() {
        bad[*pos] ^= (k as u8) + 1;
    }
    assert_eq!(decode(&bad), Some(cw));
}
