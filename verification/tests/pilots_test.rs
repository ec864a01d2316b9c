use isdbt_dsp::pilots::{
    prbs_pilot_bits, sp_carriers, CENTER_SEGMENT_OFFSET, SEGMENT_BIN_OFFSET, SEGMENT_CARRIERS,
    SP_SPACING,
};

#[test]
fn center_segment_offset_is_multiple_of_12() {
    assert_eq!(CENTER_SEGMENT_OFFSET % SP_SPACING, 0);
    assert_eq!(CENTER_SEGMENT_OFFSET, 2592);
}

#[test]
fn segment_bin_offset_is_296() {
    assert_eq!(SEGMENT_BIN_OFFSET, 296);
}

#[test]
fn prbs_starts_with_eleven_ones_then_zero() {
    // w0..w10 = 1 (pilot -4/3), w11 = 0 (pilot +4/3)
    let w = prbs_pilot_bits(16);
    for k in 0..11 {
        assert_eq!(w[k], 1, "w{k} should be 1");
    }
    assert_eq!(w[11], 0, "w11 should be 0");
}

#[test]
fn prbs_is_periodic_with_period_2047() {
    // the maximal-length 11-stage LFSR has period 2^11 - 1 = 2047
    let w = prbs_pilot_bits(2047 + 32);
    for k in 0..32 {
        assert_eq!(w[k], w[k + 2047], "PRBS should repeat every 2047 at k={k}");
    }
}

#[test]
fn prbs_bits_are_binary() {
    assert!(prbs_pilot_bits(500).iter().all(|&b| b <= 1));
    assert!(prbs_pilot_bits(0).is_empty());
}

#[test]
fn sp_carriers_layout_indices() {
    let sp0 = sp_carriers(0);
    assert_eq!(sp0.first(), Some(&0));
    assert_eq!(sp0.len(), 36);
    assert_eq!(*sp0.last().unwrap(), 420);
    let sp3 = sp_carriers(3);
    assert_eq!(sp3.first(), Some(&9));
    assert_eq!(*sp3.last().unwrap(), 429);
    assert!(sp3.iter().all(|&l| l < SEGMENT_CARRIERS));
    assert_eq!(sp_carriers(6), sp_carriers(2));
}

#[test]
fn pilot_prbs_repeats_after_2047_bits_over_several_periods() {
    let w = isdbt_dsp::pilots::prbs_pilot_bits(3 * 2047);
    for k in 0..2 * 2047 {
        assert_eq!(w[k], w[k + 2047]);
    }
    let ones = w[..2047].iter().filter(|&&b| b == 1).count();
    assert_eq!(ones, 1024);
}
