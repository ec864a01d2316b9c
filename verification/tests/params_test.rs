use isdbt_dsp::params::{GuardInterval, FFT_LEN, SAMPLE_RATE_DEN, SAMPLE_RATE_NUM_HZ};

#[test]
fn cp_lengths() {
    assert_eq!(GuardInterval::G1_4.cp_len(1024), 256);
    assert_eq!(GuardInterval::G1_8.cp_len(1024), 128);
    assert_eq!(GuardInterval::G1_16.cp_len(1024), 64);
    assert_eq!(GuardInterval::G1_32.cp_len(1024), 32);
    assert_eq!(GuardInterval::G1_8.symbol_len(1024), 1152);
}

#[test]
fn carrier_spacing_is_about_992hz() {
    // Mode 3 carrier spacing is about 0.992 kHz
    let carrier_spacing_hz = SAMPLE_RATE_NUM_HZ as f64 / SAMPLE_RATE_DEN as f64 / FFT_LEN as f64;
    assert!((carrier_spacing_hz - 992.0).abs() < 5.0);
}

#[test]
fn symbol_lengths_of_all_guard_intervals() {
    let lens: Vec<usize> = GuardInterval::all().iter().map(|g| g.symbol_len(FFT_LEN)).collect();
    assert_eq!(lens, vec![1280, 1152, 1088, 1056]);
}

#[test]
fn cp_len_rounds_down() {
    assert_eq!(GuardInterval::G1_32.cp_len(63), 1);
    assert_eq!(GuardInterval::G1_4.cp_len(3), 0);
    assert_eq!(GuardInterval::G1_16.symbol_len(0), 0);
}
