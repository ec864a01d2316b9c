use isdbt_dsp::deinterleave::{
    data_carrier_indices, freq_deinterleave, TimeDeinterleaver, AC_LOCAL_CARRIERS,
    DATA_CARRIERS, DATA_CARRIERS_MODE1, FREQ_PERM_MODE3,
};
use isdbt_dsp::pilots::sp_carriers;
use isdbt_dsp::tmcc::TMCC_LOCAL_CARRIERS;
use num_complex::Complex32;
use std::collections::VecDeque;

#[test]
fn freq_perm_is_a_bijection() {
    let mut seen = [false; DATA_CARRIERS];
    for &p in &FREQ_PERM_MODE3 {
        assert!((p as usize) < DATA_CARRIERS);
        assert!(!seen[p as usize], "duplicate: {p}");
        seen[p as usize] = true;
    }
    assert!(seen.iter().all(|&x| x));
}

#[test]
fn freq_deinterleave_roundtrips_with_inverse() {
    let x: Vec<Complex32> = (0..DATA_CARRIERS)
        .map(|i| Complex32::new(i as f32, -(i as f32)))
        .collect();
    // interleave: rand[perm[i]] = x[i]
    let mut interleaved = vec![Complex32::new(0.0, 0.0); DATA_CARRIERS];
    for (i, &p) in FREQ_PERM_MODE3.iter().enumerate() {
        interleaved[p as usize] = x[i];
    }
    let recovered = freq_deinterleave(&interleaved);
    assert_eq!(recovered, x);
}

#[test]
fn data_carrier_count_and_disjoint() {
    for phase in 0..4 {
        let d = data_carrier_indices(phase);
        assert_eq!(d.len(), DATA_CARRIERS, "phase{phase}: not 384 carriers");
        // ascending and unique
        assert!(d.windows(2).all(|w| w[0] < w[1]));
        // disjoint from SP/TMCC/AC
        let sp: std::collections::HashSet<usize> = sp_carriers(phase).into_iter().collect();
        for &c in &d {
            assert!(!sp.contains(&c));
            assert!(!TMCC_LOCAL_CARRIERS.contains(&c));
            assert!(!AC_LOCAL_CARRIERS.contains(&c));
        }
    }
}

#[test]
fn time_interleave_deinterleave_is_constant_latency_identity() {
    // TX interleaving (delay I*mi) followed by RX deinterleaving (delay I*(95-mi)):
    // every carrier comes back after the constant delay I*95.
    let i = 4usize;
    let total_latency = i * (DATA_CARRIERS_MODE1 - 1); // 4*95 = 380
    let zero = Complex32::new(0.0, 0.0);

    let mut tx: Vec<VecDeque<Complex32>> = (0..DATA_CARRIERS)
        .map(|c| {
            let mi = (5 * c) % DATA_CARRIERS_MODE1;
            VecDeque::from(vec![zero; i * mi])
        })
        .collect();
    let mut rx = TimeDeinterleaver::new(i);

    let nsym = total_latency + 50;
    let val = |t: usize, c: usize| Complex32::new((t * 1000 + c) as f32, 0.0);
    let mut inputs: Vec<Vec<Complex32>> = Vec::new();
    for t in 0..nsym {
        let sym: Vec<Complex32> = (0..DATA_CARRIERS).map(|c| val(t, c)).collect();
        inputs.push(sym.clone());
        let mut txout = vec![zero; DATA_CARRIERS];
        for c in 0..DATA_CARRIERS {
            tx[c].push_back(sym[c]);
            txout[c] = tx[c].pop_front().unwrap();
        }
        let out = rx.push_symbol(&txout);
        if t >= total_latency {
            let want = &inputs[t - total_latency];
            assert_eq!(out, *want, "t={t}: constant-latency identity broken");
        }
    }
    assert_eq!(rx.latency(), total_latency);
}

#[test]
fn time_deinterleaver_without_interleaving_length_is_transparent() {
    let mut rx: TimeDeinterleaver<u32> = TimeDeinterleaver::new(0);
    assert_eq!(rx.latency(), 0);
    let sym: Vec<u32> = (0..DATA_CARRIERS as u32).collect();
    assert_eq!(rx.push_symbol(&sym), sym);
}

#[test]
fn time_deinterleaver_delays_carrier_zero_most() {
    let mut rx: TimeDeinterleaver<u32> = TimeDeinterleaver::new(1);
    let ones = vec![1u32; DATA_CARRIERS];
    let out = rx.push_symbol(&ones);
    // carrier 0 (mi = 0) waits 95 symbols; carrier 19 (mi = 95) is not delayed
    assert_eq!(out[0], 0);
    assert_eq!(out[19], 1);
}

#[test]
fn data_carriers_exclude_phase_pilots() {
    let d0 = data_carrier_indices(0);
    assert!(!d0.contains(&0));
    assert!(d0.contains(&3));
    let d1 = data_carrier_indices(5); // same as phase 1
    assert_eq!(d1, data_carrier_indices(1));
    assert!(!d1.contains(&3));
    assert!(!d1.contains(&7)); // AC
    assert!(!d1.contains(&101)); // TMCC
}
