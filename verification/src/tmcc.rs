//! TMCC (Transmission and Multiplexing Configuration Control) decoding.
//!
//! TMCC carries the transmission parameters of each hierarchical layer. Its carriers are
//! DBPSK-modulated and repeat the same word; one frame is 204 OFDM symbols = 204 bits:
//! `B0` is the differential reference, `B1..B16` the sync word (inverted every other frame),
//! `B20..` the BCH-protected information. The one-segment service is Layer A; inside the
//! centre segment the TMCC carriers are local 101/131/286/349 (absolute 2693/2723/2878/2941).

use vstd::prelude::*;
use crate::pilots::CENTER_SEGMENT_OFFSET;

verus! {

/// TMCC carriers of the centre segment (local index).
pub const TMCC_LOCAL_CARRIERS: [usize; 4] = [
    2693 - CENTER_SEGMENT_OFFSET,
    2723 - CENTER_SEGMENT_OFFSET,
    2878 - CENTER_SEGMENT_OFFSET,
    2941 - CENTER_SEGMENT_OFFSET,
];

/// OFDM symbols (= TMCC bits) per frame.
pub const SYMBOLS_PER_FRAME: usize = 204;

/// Sync-word length in bits.
pub const SYNC_SIZE: usize = 16;

/// Sync word `B1..B16` of even frames.
pub const SYNC_EVEN: [u8; 16] = [0, 0, 1, 1, 0, 1, 0, 1, 1, 1, 1, 0, 1, 1, 1, 0];

/// Sync word of odd frames (bitwise complement of the even one).
pub const SYNC_ODD: [u8; 16] = [1, 1, 0, 0, 1, 0, 1, 0, 0, 0, 0, 1, 0, 0, 0, 1];

/// Carrier modulation (3 TMCC bits).
#[derive(Clone, Copy, Debug, PartialEq, Eq, Structural)]
pub enum Modulation {
    Dqpsk,
    Qpsk,
    Qam16,
    Qam64,
    Unused,
    Reserved(u8),
}

impl Modulation {
    pub open spec fn spec_from_bits(v: u8) -> Modulation {
        if v == 0 {
            Modulation::Dqpsk
        } else if v == 1 {
            Modulation::Qpsk
        } else if v == 2 {
            Modulation::Qam16
        } else if v == 3 {
            Modulation::Qam64
        } else if v == 7 {
            Modulation::Unused
        } else {
            Modulation::Reserved(v)
        }
    }

    /// The modulation named by the 3-bit TMCC field `v`.
    pub fn from_bits(v: u8) -> (m: Self)
        ensures
            m == Self::spec_from_bits(v),
            v == 0 ==> m == Modulation::Dqpsk,
            v == 1 ==> m == Modulation::Qpsk,
            v == 2 ==> m == Modulation::Qam16,
            v == 3 ==> m == Modulation::Qam64,
            v == 7 ==> m == Modulation::Unused,
            (4 <= v <= 6 || v > 7) ==> m == Modulation::Reserved(v),
    {
        match v {
            0 => Self::Dqpsk,
            1 => Self::Qpsk,
            2 => Self::Qam16,
            3 => Self::Qam64,
            7 => Self::Unused,
            x => Self::Reserved(x),
        }
    }
}

/// The TMCC modulation field: 0 is DQPSK, 1 QPSK, 2 16QAM, 3 64QAM, 7 unused, and only
/// 4, 5 and 6 (or a value that does not fit in three bits) are reserved, each kept as it came.
pub proof fn lemma_modulation_table(v: u8)
    ensures
        (v == 0) <==> Modulation::spec_from_bits(v) == Modulation::Dqpsk,
        (v == 1) <==> Modulation::spec_from_bits(v) == Modulation::Qpsk,
        (v == 2) <==> Modulation::spec_from_bits(v) == Modulation::Qam16,
        (v == 3) <==> Modulation::spec_from_bits(v) == Modulation::Qam64,
        (v == 7) <==> Modulation::spec_from_bits(v) == Modulation::Unused,
        (4 <= v <= 6 || v > 7) <==> Modulation::spec_from_bits(v) == Modulation::Reserved(v),
        Modulation::spec_from_bits(v) is Reserved ==> v >= 4 && v != 7,
{
}

/// The convolutional coding rate named by the 3-bit TMCC field `v`.
pub open spec fn coding_rate_text(v: u8) -> Seq<char> {
    if v == 0 {
        "1/2"@
    } else if v == 1 {
        "2/3"@
    } else if v == 2 {
        "3/4"@
    } else if v == 3 {
        "5/6"@
    } else if v == 4 {
        "7/8"@
    } else if v == 7 {
        "未使用"@
    } else {
        "予約"@
    }
}

/// The coding rate as text such as "1/2".
pub fn coding_rate_str(v: u8) -> (s: &'static str)
    ensures
        s@ == coding_rate_text(v),
        v == 0 ==> s@ == "1/2"@,
        v == 1 ==> s@ == "2/3"@,
        v == 2 ==> s@ == "3/4"@,
        v == 3 ==> s@ == "5/6"@,
        v == 4 ==> s@ == "7/8"@,
        v == 7 ==> s@ == "未使用"@,
        (v == 5 || v == 6 || v > 7) ==> s@ == "予約"@,
{
    match v {
        0 => "1/2",
        1 => "2/3",
        2 => "3/4",
        3 => "5/6",
        4 => "7/8",
        7 => "未使用",
        _ => "予約",
    }
}

/// Time-interleaving length I in Mode 3 for the 3-bit TMCC field `v`; `None` when unused.
pub fn interleaving_mode3(v: u8) -> (r: Option<u8>)
    ensures
        r == if v == 0 {
            Some(0u8)
        } else if v == 1 {
            Some(1u8)
        } else if v == 2 {
            Some(2u8)
        } else if v == 3 {
            Some(4u8)
        } else {
            None::<u8>
        },
{
    match v {
        0 => Some(0),
        1 => Some(1),
        2 => Some(2),
        3 => Some(4),
        _ => None,
    }
}

/// TMCC parameters of one hierarchical layer.
#[derive(Clone, Copy, Debug)]
pub struct LayerInfo {
    pub modulation: Modulation,
    /// Raw 3-bit coding rate (text via [`coding_rate_str`]).
    pub coding_rate: u8,
    /// Raw 3-bit time interleaving (Mode 3 value via [`interleaving_mode3`]).
    pub interleaving: u8,
    /// Number of segments (1..13, 15 = unused).
    pub n_segments: u8,
}

/// The main fields of a parsed TMCC information word.
#[derive(Clone, Copy, Debug)]
pub struct TmccInfo {
    /// B20..21
    pub system_id: u8,
    /// B22..25
    pub switching_indicator: u8,
    /// B26
    pub emergency_flag: u8,
    /// B27 (1 = partial reception present)
    pub partial_reception: u8,
    /// B28..40 (the one-segment layer)
    pub layer_a: LayerInfo,
    /// B41..53
    pub layer_b: LayerInfo,
    /// B54..66
    pub layer_c: LayerInfo,
}

/// The big-endian value of the low bits of `frame[start .. start + n]`.
pub open spec fn bits_value(frame: Seq<u8>, start: int, n: nat) -> nat
    decreases n,
{
    if n == 0 {
        0
    } else {
        2 * bits_value(frame, start, (n - 1) as nat) + (frame[start + n - 1] % 2) as nat
    }
}

proof fn lemma_shift_in(v: u8, b: u8)
    by (bit_vector)
    requires
        v < 128,
    ensures
        (v << 1u8) | (b & 1u8) == 2 * v + b % 2,
        2 * v + b % 2 < 256,
{
}

proof fn lemma_bits_value_bound(frame: Seq<u8>, start: int, n: nat)
    ensures
        bits_value(frame, start, n) < pow2_nat(n),
    decreases n,
{
    if n > 0 {
        lemma_bits_value_bound(frame, start, (n - 1) as nat);
    }
}

/// 2^n.
pub open spec fn pow2_nat(n: nat) -> nat
    decreases n,
{
    if n == 0 {
        1
    } else {
        2 * pow2_nat((n - 1) as nat)
    }
}

/// A field is read most significant bit first: its first bit weighs `2^(n-1)` and the
/// remaining `n - 1` bits form the rest of the value.
pub proof fn lemma_bits_value_msb_first(frame: Seq<u8>, start: int, n: nat)
    requires
        n >= 1,
    ensures
        bits_value(frame, start, n) == pow2_nat((n - 1) as nat) * ((frame[start] % 2) as nat)
            + bits_value(frame, start + 1, (n - 1) as nat),
    decreases n,
{
    if n > 1 {
        let m = (n - 1) as nat;
        lemma_bits_value_msb_first(frame, start, m);
        let p = pow2_nat((m - 1) as nat);
        let b = (frame[start] % 2) as nat;
        assert(pow2_nat(m) == 2 * p);
        assert(2 * (p * b) == (2 * p) * b) by (nonlinear_arith);
        assert(start + 1 + m - 1 == start + n - 1);
        assert(bits_value(frame, start + 1, m) == 2 * bits_value(frame, start + 1, (m - 1) as nat)
            + (frame[start + n - 1] % 2) as nat);
        assert(bits_value(frame, start, n) == 2 * bits_value(frame, start, m) + (frame[start + n
            - 1] % 2) as nat);
    } else {
        assert(pow2_nat(0) == 1);
        assert(bits_value(frame, start, 1) == 2 * bits_value(frame, start, 0) + (frame[start] % 2) as nat);
        assert(bits_value(frame, start + 1, 0) == 0);
    }
}

fn bits_be(frame: &[u8], start: usize, n: usize) -> (v: u8)
    requires
        n <= 7,
        start + n <= frame.len(),
    ensures
        v as nat == bits_value(frame@, start as int, n as nat),
{
    let mut v: u8 = 0;
    let mut i: usize = 0;
    while i < n
        invariant
            i <= n <= 7,
            start + n <= frame.len(),
            v as nat == bits_value(frame@, start as int, i as nat),
        decreases n - i,
    {
        proof {
            lemma_bits_value_bound(frame@, start as int, i as nat);
            assert(pow2_nat(i as nat) <= 64) by {
                assert(pow2_nat(0) == 1);
                assert(pow2_nat(1) == 2);
                assert(pow2_nat(2) == 4);
                assert(pow2_nat(3) == 8);
                assert(pow2_nat(4) == 16);
                assert(pow2_nat(5) == 32);
                assert(pow2_nat(6) == 64);
            }
            lemma_shift_in(v, frame@[start + i]);
        }
        v = (v << 1) | (frame[start + i] & 1);
        i = i + 1;
    }
    v
}

/// The layer parameters whose 13 bits start at `base`.
pub open spec fn layer_spec(frame: Seq<u8>, base: int) -> LayerInfo {
    LayerInfo {
        modulation: Modulation::spec_from_bits(bits_value(frame, base, 3) as u8),
        coding_rate: bits_value(frame, base + 3, 3) as u8,
        interleaving: bits_value(frame, base + 6, 3) as u8,
        n_segments: bits_value(frame, base + 9, 4) as u8,
    }
}

fn layer_at(frame: &[u8], base: usize) -> (li: LayerInfo)
    requires
        base + 13 <= frame.len(),
    ensures
        li == layer_spec(frame@, base as int),
{
    LayerInfo {
        modulation: Modulation::from_bits(bits_be(frame, base, 3)),
        coding_rate: bits_be(frame, base + 3, 3),
        interleaving: bits_be(frame, base + 6, 3),
        n_segments: bits_be(frame, base + 9, 4),
    }
}

/// Parses the TMCC information of a 204-bit frame (`frame[0]` = B0).
pub fn parse_tmcc(frame: &[u8]) -> (t: TmccInfo)
    requires
        frame@.len() >= 67,
    ensures
        t.system_id as nat == bits_value(frame@, 20, 2),
        t.switching_indicator as nat == bits_value(frame@, 22, 4),
        t.emergency_flag == frame@[26] & 1,
        t.partial_reception == frame@[27] & 1,
        t.layer_a == layer_spec(frame@, 28),
        t.layer_b == layer_spec(frame@, 41),
        t.layer_c == layer_spec(frame@, 54),
{
    TmccInfo {
        system_id: bits_be(frame, 20, 2),
        switching_indicator: bits_be(frame, 22, 4),
        emergency_flag: frame[26] & 1,
        partial_reception: frame[27] & 1,
        layer_a: layer_at(frame, 28),
        layer_b: layer_at(frame, 41),
        layer_c: layer_at(frame, 54),
    }
}

/// Result of the frame-sync search.
#[derive(Clone, Debug)]
pub struct FrameSync {
    /// Position of `B0` in the bit stream; frames start at `phase + 204 * f`.
    pub phase: usize,
    /// Number of frames that could be scored.
    pub n_frames: usize,
    /// Sync-word bits that matched, over all frames.
    pub matched: usize,
    /// Sync-word bits scored, over all frames.
    pub total: usize,
    /// Per frame: whether the odd (true) or the even (false) sync word matched better.
    pub parity_per_frame: Vec<bool>,
    /// Whether even and odd alternated from frame to frame (a strong consistency check).
    pub alternates: bool,
}

/// Number of positions `i < n` with `w[i] == pat[i]`.
pub open spec fn count_equal(w: Seq<u8>, pat: Seq<u8>, n: nat) -> nat
    decreases n,
{
    if n == 0 {
        0
    } else {
        count_equal(w, pat, (n - 1) as nat) + if w[n - 1] == pat[n - 1] {
            1nat
        } else {
            0nat
        }
    }
}

fn match_count(w: &[u8], pat: &[u8; 16]) -> (c: usize)
    requires
        w@.len() == 16,
    ensures
        c == count_equal(w@, pat@, 16),
{
    let mut c: usize = 0;
    let mut i: usize = 0;
    while i < 16
        invariant
            w@.len() == 16,
            i <= 16,
            c == count_equal(w@, pat@, i as nat),
            c <= i,
        decreases 16 - i,
    {
        if w[i] == pat[i] {
            c = c + 1;
        }
        i = i + 1;
    }
    c
}

/// Number of frames at `phase` whose sync word lies inside a stream of `len` bits.
pub open spec fn frames_at(len: nat, phase: nat) -> nat {
    if phase + 17 > len {
        0
    } else {
        ((len - phase - 17) as nat / 204 + 1) as nat
    }
}

pub(crate) proof fn lemma_count_below_quotient(f: int, l: int)
    requires
        f >= 0,
        l >= 0,
    ensures
        f < l / 204 + 1 <==> 204 * f <= l,
{
    let q = l / 204;
    let r = l % 204;
    assert(l == 204 * q + r && 0 <= r < 204) by (nonlinear_arith)
        requires
            q == l / 204,
            r == l % 204,
            l >= 0,
    ;
    assert(f < q + 1 <==> 204 * f <= l) by (nonlinear_arith)
        requires
            l == 204 * q + r,
            0 <= r < 204,
            f >= 0,
    ;
}

/// Frame `f` at `phase` is counted exactly when its sync word `B1..B16` lies inside the
/// stream, and bit `pos` of frame `f` is covered exactly when it lies inside the stream.
pub proof fn lemma_frame_counts(len: nat, phase: nat, pos: nat, f: nat)
    ensures
        f < frames_at(len, phase) <==> phase + 204 * f + 17 <= len,
        f < frames_covering(len, phase, pos) <==> phase + 204 * f + pos < len,
{
    if phase + 17 <= len {
        lemma_count_below_quotient(f as int, len - phase - 17);
    }
    if phase + pos < len {
        lemma_count_below_quotient(f as int, len - phase - pos - 1);
    }
}

/// Sync-word matches of the frame starting at `start` against `pat`.
pub open spec fn sync_matches(bits: Seq<u8>, start: int, pat: Seq<u8>) -> nat {
    count_equal(bits.subrange(start + 1, start + 17), pat, 16)
}

/// Whether frame `f` at `phase` is closer to the odd sync word (ties go to even).
pub open spec fn frame_is_odd(bits: Seq<u8>, phase: nat, f: nat) -> bool {
    let start = (phase + 204 * f) as int;
    !(sync_matches(bits, start, SYNC_EVEN@) >= sync_matches(bits, start, SYNC_ODD@))
}

/// Matched sync bits of frame `f` at `phase` (against the closer word).
pub open spec fn frame_matched(bits: Seq<u8>, phase: nat, f: nat) -> nat {
    let start = (phase + 204 * f) as int;
    if frame_is_odd(bits, phase, f) {
        sync_matches(bits, start, SYNC_ODD@)
    } else {
        sync_matches(bits, start, SYNC_EVEN@)
    }
}

/// Each frame is scored against the sync word it is closer to: its score is at least its
/// matches against either word, and it is taken as odd only when the odd word matches
/// strictly more bits.
pub proof fn lemma_frame_matched_closer_word(bits: Seq<u8>, phase: nat, f: nat)
    ensures
        ({
            let start = (phase + 204 * f) as int;
            &&& frame_matched(bits, phase, f) >= sync_matches(bits, start, SYNC_EVEN@)
            &&& frame_matched(bits, phase, f) >= sync_matches(bits, start, SYNC_ODD@)
            &&& (frame_matched(bits, phase, f) == sync_matches(bits, start, SYNC_EVEN@)
                || frame_matched(bits, phase, f) == sync_matches(bits, start, SYNC_ODD@))
            &&& frame_is_odd(bits, phase, f) <==> sync_matches(bits, start, SYNC_ODD@)
                > sync_matches(bits, start, SYNC_EVEN@)
        }),
{
}

/// Matched sync bits over the first `n` frames at `phase`.
pub open spec fn matched_sum(bits: Seq<u8>, phase: nat, n: nat) -> nat
    decreases n,
{
    if n == 0 {
        0
    } else {
        matched_sum(bits, phase, (n - 1) as nat) + frame_matched(bits, phase, (n - 1) as nat)
    }
}

/// Total matched sync bits at `phase`.
pub open spec fn phase_matched(bits: Seq<u8>, phase: nat) -> nat {
    matched_sum(bits, phase, frames_at(bits.len(), phase))
}

/// Total scored sync bits at `phase`.
pub open spec fn phase_total(bits: Seq<u8>, phase: nat) -> nat {
    16 * frames_at(bits.len(), phase)
}

/// Per-frame odd/even decisions at `phase`.
pub open spec fn phase_parity(bits: Seq<u8>, phase: nat) -> Seq<bool> {
    Seq::new(frames_at(bits.len(), phase), |f: int| frame_is_odd(bits, phase, f as nat))
}

/// At least two frames, each of the other parity than the one before.
pub open spec fn alternating(p: Seq<bool>) -> bool {
    p.len() >= 2 && forall|i: int| 0 <= i < p.len() - 1 ==> #[trigger] p[i] != p[i + 1]
}

/// The first phase below `q` with the highest match ratio (among phases that score any frame).
pub open spec fn best_phase(bits: Seq<u8>, q: nat) -> Option<nat>
    decreases q,
{
    if q == 0 {
        None
    } else {
        let p = (q - 1) as nat;
        let prev = best_phase(bits, p);
        if frames_at(bits.len(), p) == 0 {
            prev
        } else {
            match prev {
                None => Some(p),
                Some(b) => if phase_matched(bits, p) * phase_total(bits, b) > phase_matched(
                    bits,
                    b,
                ) * phase_total(bits, p) {
                    Some(p)
                } else {
                    prev
                },
            }
        }
    }
}

proof fn lemma_count_equal_bound(w: Seq<u8>, pat: Seq<u8>, n: nat)
    ensures
        count_equal(w, pat, n) <= n,
    decreases n,
{
    if n > 0 {
        lemma_count_equal_bound(w, pat, (n - 1) as nat);
    }
}

proof fn lemma_matched_sum_bound(bits: Seq<u8>, phase: nat, n: nat)
    ensures
        matched_sum(bits, phase, n) <= 16 * n,
    decreases n,
{
    if n > 0 {
        lemma_matched_sum_bound(bits, phase, (n - 1) as nat);
        let start = phase + 204 * (n - 1);
        lemma_count_equal_bound(bits.subrange(start + 1, start + 17), SYNC_EVEN@, 16);
        lemma_count_equal_bound(bits.subrange(start + 1, start + 17), SYNC_ODD@, 16);
    }
}

proof fn lemma_best_phase_scores(bits: Seq<u8>, q: nat)
    ensures
        best_phase(bits, q) matches Some(b) ==> b < q && frames_at(bits.len(), b) > 0,
    decreases q,
{
    if q > 0 {
        lemma_best_phase_scores(bits, (q - 1) as nat);
    }
}

proof fn lemma_ratio_trans(a: nat, ta: nat, b: nat, tb: nat, c: nat, tc: nat)
    requires
        ta > 0,
        tb > 0,
        tc > 0,
        a * tb <= b * ta,
        b * tc < c * tb,
    ensures
        a * tc < c * ta,
{
    assert(a * tb * tc <= b * ta * tc) by (nonlinear_arith)
        requires
            a * tb <= b * ta,
    ;
    assert(b * tc * ta < c * tb * ta) by (nonlinear_arith)
        requires
            b * tc < c * tb,
            ta > 0,
    ;
    assert(a * tc < c * ta) by (nonlinear_arith)
        requires
            a * tb * tc <= b * ta * tc,
            b * tc * ta < c * tb * ta,
            tb > 0,
    ;
}

/// The phase that frame synchronisation settles on among the phases below `q`: there is
/// one exactly when some phase scores a frame; it scores a frame itself; no phase that
/// scores a frame has a strictly higher match ratio `matched / total`; and every phase
/// before it that scores a frame has a strictly lower one (the first best is kept).
pub proof fn lemma_best_phase_maximal(bits: Seq<u8>, q: nat)
    ensures
        best_phase(bits, q) is None <==> forall|p: nat| p < q ==> #[trigger] phase_total(bits, p) == 0,
        best_phase(bits, q) matches Some(b) ==> {
            &&& b < q
            &&& phase_total(bits, b) > 0
            &&& forall|p: nat|
                p < q && #[trigger] phase_total(bits, p) > 0 ==> phase_matched(bits, p) * phase_total(
                    bits,
                    b,
                ) <= phase_matched(bits, b) * phase_total(bits, p)
            &&& forall|p: nat|
                p < b && #[trigger] phase_total(bits, p) > 0 ==> phase_matched(bits, p) * phase_total(
                    bits,
                    b,
                ) < phase_matched(bits, b) * phase_total(bits, p)
        },
    decreases q,
{
    if q > 0 {
        let p = (q - 1) as nat;
        lemma_best_phase_maximal(bits, p);
        let prev = best_phase(bits, p);
        if frames_at(bits.len(), p) == 0 {
            assert(phase_total(bits, p) == 0);
        } else {
            assert(phase_total(bits, p) > 0);
            match prev {
                None => {
                    assert(phase_matched(bits, p) * phase_total(bits, p) <= phase_matched(bits, p)
                        * phase_total(bits, p));
                },
                Some(b) => {
                    let mp = phase_matched(bits, p);
                    let tp = phase_total(bits, p);
                    let mb = phase_matched(bits, b);
                    let tb = phase_total(bits, b);
                    if mp * tb > mb * tp {
                        assert forall|r: nat| r < p && #[trigger] phase_total(bits, r) > 0 implies
                            phase_matched(bits, r) * tp < mp * phase_total(bits, r) by {
                            lemma_ratio_trans(phase_matched(bits, r), phase_total(bits, r), mb, tb, mp, tp);
                        }
                        assert(mp * tp <= mp * tp);
                    }
                },
            }
        }
    }
}

proof fn lemma_wide_product(x: usize, y: usize)
    ensures
        (x as u128) * (y as u128) <= u128::MAX,
{
    assert((x as u128) * (y as u128) <= u128::MAX) by (nonlinear_arith)
        requires
            x <= 0xffff_ffff_ffff_ffffu128,
            y <= 0xffff_ffff_ffff_ffffu128,
    ;
}

fn is_alternating(p: &Vec<bool>) -> (r: bool)
    ensures
        r == alternating(p@),
{
    if p.len() < 2 {
        return false;
    }
    let mut i: usize = 0;
    while i + 1 < p.len()
        invariant
            p@.len() >= 2,
            i + 1 <= p@.len(),
            forall|k: int| 0 <= k < i ==> #[trigger] p@[k] != p@[k + 1],
        decreases p.len() - i,
    {
        if p[i] == p[i + 1] {
            return false;
        }
        i = i + 1;
    }
    true
}

/// Tries all 204 frame phases and returns the one whose sync words match best.
///
/// `None` when the stream is shorter than one frame.
pub fn find_frame_sync(bits: &[u8]) -> (r: Option<FrameSync>)
    requires
        bits.len() + 204 <= usize::MAX,
    ensures
        r is Some <==> bits@.len() >= SYMBOLS_PER_FRAME,
        r matches Some(fs) ==> {
            &&& best_phase(bits@, 204) == Some(fs.phase as nat)
            &&& fs.n_frames == frames_at(bits@.len(), fs.phase as nat)
            &&& fs.matched == phase_matched(bits@, fs.phase as nat)
            &&& fs.total == phase_total(bits@, fs.phase as nat)
            &&& fs.parity_per_frame@ == phase_parity(bits@, fs.phase as nat)
            &&& fs.alternates == alternating(phase_parity(bits@, fs.phase as nat))
            &&& fs.phase < SYMBOLS_PER_FRAME
            &&& fs.total > 0
            &&& forall|p: nat|
                p < 204 && #[trigger] phase_total(bits@, p) > 0 ==> phase_matched(bits@, p) * fs.total
                    <= fs.matched * phase_total(bits@, p)
            &&& forall|p: nat|
                p < fs.phase && #[trigger] phase_total(bits@, p) > 0 ==> phase_matched(bits@, p)
                    * fs.total < fs.matched * phase_total(bits@, p)
        },
{
    if bits.len() < SYMBOLS_PER_FRAME {
        return None;
    }
    let mut best: Option<FrameSync> = None;
    let mut phase: usize = 0;
    while phase < SYMBOLS_PER_FRAME
        invariant
            204 <= bits.len(),
            bits.len() + 204 <= usize::MAX,
            phase <= 204,
            best matches Some(b) ==> {
                &&& best_phase(bits@, phase as nat) == Some(b.phase as nat)
                &&& b.n_frames == frames_at(bits@.len(), b.phase as nat)
                &&& b.matched == phase_matched(bits@, b.phase as nat)
                &&& b.total == phase_total(bits@, b.phase as nat)
                &&& b.parity_per_frame@ == phase_parity(bits@, b.phase as nat)
                &&& b.alternates == alternating(phase_parity(bits@, b.phase as nat))
            },
            best is None ==> best_phase(bits@, phase as nat) is None,
            phase > 0 ==> best is Some,
        decreases 204 - phase,
    {
        let mut matched: usize = 0;
        let mut total: usize = 0;
        let mut parity: Vec<bool> = Vec::new();
        let mut f: usize = 0;
        while phase + f * SYMBOLS_PER_FRAME + 1 + SYNC_SIZE <= bits.len()
            invariant
                204 <= bits.len(),
                bits.len() + 204 <= usize::MAX,
                phase < 204,
                f <= frames_at(bits@.len(), phase as nat),
                phase + 204 * f <= bits@.len() + 204,
                matched == matched_sum(bits@, phase as nat, f as nat),
                matched <= 16 * f,
                total == 16 * f,
                parity@ == Seq::new(f as nat, |k: int| frame_is_odd(bits@, phase as nat, k as nat)),
            decreases bits@.len() + 204 - (phase + 204 * f),
        {
            let start = phase + f * SYMBOLS_PER_FRAME;
            let w = &bits[start + 1..start + 1 + SYNC_SIZE];
            let me = match_count(w, &SYNC_EVEN);
            let mo = match_count(w, &SYNC_ODD);
            proof {
                assert(w@ == bits@.subrange(start + 1, start + 17));
                lemma_count_equal_bound(w@, SYNC_EVEN@, 16);
                lemma_count_equal_bound(w@, SYNC_ODD@, 16);
            }
            if me >= mo {
                matched = matched + me;
                parity.push(false);
            } else {
                matched = matched + mo;
                parity.push(true);
            }
            total = total + SYNC_SIZE;
            proof {
                assert(parity@ =~= Seq::new(
                    (f + 1) as nat,
                    |k: int| frame_is_odd(bits@, phase as nat, k as nat),
                ));
            }
            f = f + 1;
        }
        proof {
            assert(f == frames_at(bits@.len(), phase as nat));
            assert(parity@ =~= phase_parity(bits@, phase as nat));
        }
        if total == 0 {
            phase = phase + 1;
            continue;
        }
        let alternates = is_alternating(&parity);
        let cand = FrameSync { phase, n_frames: f, matched, total, parity_per_frame: parity, alternates };
        let better = match &best {
            None => true,
            Some(b) => {
                proof {
                    lemma_wide_product(cand.matched, b.total);
                    lemma_wide_product(b.matched, cand.total);
                }
                (cand.matched as u128) * (b.total as u128) > (b.matched as u128) * (cand.total as u128)
            },
        };
        if better {
            best = Some(cand);
        }
        phase = phase + 1;
    }
    proof {
        lemma_best_phase_maximal(bits@, 204);
    }
    best
}

/// Number of frames at `phase` that contain bit position `pos` within `len` bits.
pub open spec fn frames_covering(len: nat, phase: nat, pos: nat) -> nat {
    if phase + pos >= len {
        0
    } else {
        ((len - phase - pos - 1) as nat / 204 + 1) as nat
    }
}

/// Number of frames `f < n` in which bit `pos` (at `phase`) is 1.
pub open spec fn ones_count(bits: Seq<u8>, phase: nat, pos: nat, n: nat) -> nat
    decreases n,
{
    if n == 0 {
        0
    } else {
        ones_count(bits, phase, pos, (n - 1) as nat) + if bits[phase + 204 * (n - 1) + pos] == 1 {
            1nat
        } else {
            0nat
        }
    }
}

/// The majority value of bit `pos` over all frames at `phase` (ties give 1, no frame gives 0).
pub open spec fn majority_bit(bits: Seq<u8>, phase: nat, pos: nat) -> u8 {
    let n = frames_covering(bits.len(), phase, pos);
    if n > 0 && 2 * ones_count(bits, phase, pos, n) >= n {
        1
    } else {
        0
    }
}

/// Number of frames `f < n` in which bit `pos` (at `phase`) equals `v`.
pub open spec fn value_count(bits: Seq<u8>, phase: nat, pos: nat, n: nat, v: u8) -> nat
    decreases n,
{
    if n == 0 {
        0
    } else {
        value_count(bits, phase, pos, (n - 1) as nat, v) + if bits[phase + 204 * (n - 1) + pos]
            == v {
            1nat
        } else {
            0nat
        }
    }
}

proof fn lemma_value_counts(bits: Seq<u8>, phase: nat, pos: nat, n: nat)
    ensures
        value_count(bits, phase, pos, n, 1) == ones_count(bits, phase, pos, n),
        value_count(bits, phase, pos, n, 0) + value_count(bits, phase, pos, n, 1) <= n,
    decreases n,
{
    if n > 0 {
        lemma_value_counts(bits, phase, pos, (n - 1) as nat);
    }
}

/// Majority vote over the frames that cover bit `pos`: a value (0 or 1) that more than half
/// of them carry wins, whatever the others hold; a tie between ones and the rest gives 1;
/// a position where fewer than half of them carry 1 gives 0, and so does a position that
/// no frame covers.
pub proof fn lemma_majority_vote(bits: Seq<u8>, phase: nat, pos: nat, v: u8)
    requires
        v == 0 || v == 1,
    ensures
        ({
            let n = frames_covering(bits.len(), phase, pos);
            &&& 2 * value_count(bits, phase, pos, n, v) > n ==> majority_bit(bits, phase, pos) == v
            &&& n > 0 && 2 * value_count(bits, phase, pos, n, 1) == n ==> majority_bit(
                bits,
                phase,
                pos,
            ) == 1
            &&& 2 * value_count(bits, phase, pos, n, 1) < n ==> majority_bit(bits, phase, pos) == 0
            &&& n == 0 ==> majority_bit(bits, phase, pos) == 0
        }),
{
    let n = frames_covering(bits.len(), phase, pos);
    lemma_value_counts(bits, phase, pos, n);
}

proof fn lemma_ones_bound(bits: Seq<u8>, phase: nat, pos: nat, n: nat)
    ensures
        ones_count(bits, phase, pos, n) <= n,
    decreases n,
{
    if n > 0 {
        lemma_ones_bound(bits, phase, pos, (n - 1) as nat);
    }
}

/// Aligns on `phase` and merges all frames into one 204-bit frame by per-position majority.
pub fn majority_frame(bits: &[u8], phase: usize) -> (frame: Vec<u8>)
    requires
        bits.len() + 204 <= usize::MAX,
        phase + 204 <= usize::MAX,
    ensures
        frame@.len() == SYMBOLS_PER_FRAME,
        forall|pos: int| 0 <= pos < 204 ==> #[trigger] frame@[pos] == majority_bit(bits@, phase as nat, pos as nat),
        forall|pos: int, v: u8|
            0 <= pos < 204 && (v == 0 || v == 1) && 2 * #[trigger] value_count(
                bits@,
                phase as nat,
                pos as nat,
                frames_covering(bits@.len(), phase as nat, pos as nat),
                v,
            ) > frames_covering(bits@.len(), phase as nat, pos as nat) ==> frame@[pos] == v,
        forall|pos: int|
            0 <= pos < 204 && frames_covering(bits@.len(), phase as nat, pos as nat) > 0 && 2
                * #[trigger] value_count(
                bits@,
                phase as nat,
                pos as nat,
                frames_covering(bits@.len(), phase as nat, pos as nat),
                1,
            ) == frames_covering(bits@.len(), phase as nat, pos as nat) ==> frame@[pos] == 1,
{
    let mut frame: Vec<u8> = vec![0u8; SYMBOLS_PER_FRAME];
    let mut pos: usize = 0;
    while pos < SYMBOLS_PER_FRAME
        invariant
            bits.len() + 204 <= usize::MAX,
            phase + 204 <= usize::MAX,
            pos <= 204,
            frame@.len() == 204,
            forall|q: int| 0 <= q < pos ==> #[trigger] frame@[q] == majority_bit(bits@, phase as nat, q as nat),
        decreases 204 - pos,
    {
        let mut ones: usize = 0;
        let mut n: usize = 0;
        let mut f: usize = 0;
        while phase + f * SYMBOLS_PER_FRAME + pos < bits.len()
            invariant
                bits.len() + 204 <= usize::MAX,
                phase + 204 <= usize::MAX,
                pos < 204,
                f <= frames_covering(bits@.len(), phase as nat, pos as nat),
                f > 0 ==> phase + 204 * (f - 1) + pos < bits@.len(),
                n == f,
                ones <= f,
                ones == ones_count(bits@, phase as nat, pos as nat, f as nat),
            decreases bits@.len() + 204 - (phase + 204 * f + pos),
        {
            let idx = phase + f * SYMBOLS_PER_FRAME + pos;
            if bits[idx] == 1 {
                ones = ones + 1;
            }
            proof {
                lemma_ones_bound(bits@, phase as nat, pos as nat, f as nat);
            }
            n = n + 1;
            f = f + 1;
        }
        proof {
            assert(f == frames_covering(bits@.len(), phase as nat, pos as nat));
            lemma_ones_bound(bits@, phase as nat, pos as nat, f as nat);
        }
        let v: u8 = if n > 0 && ones * 2 >= n { 1 } else { 0 };
        frame.set(pos, v);
        pos = pos + 1;
    }
    proof {
        assert forall|q: int, v: u8|
            0 <= q < 204 && (v == 0 || v == 1) && 2 * #[trigger] value_count(
                bits@,
                phase as nat,
                q as nat,
                frames_covering(bits@.len(), phase as nat, q as nat),
                v,
            ) > frames_covering(bits@.len(), phase as nat, q as nat) implies frame@[q] == v by {
            lemma_majority_vote(bits@, phase as nat, q as nat, v);
        }
        assert forall|q: int|
            0 <= q < 204 && frames_covering(bits@.len(), phase as nat, q as nat) > 0 && 2
                * #[trigger] value_count(
                bits@,
                phase as nat,
                q as nat,
                frames_covering(bits@.len(), phase as nat, q as nat),
                1,
            ) == frames_covering(bits@.len(), phase as nat, q as nat) implies frame@[q] == 1 by {
            lemma_majority_vote(bits@, phase as nat, q as nat, 1);
        }
    }
    frame
}

/// `k` copies of a 204-bit frame, one after the other.
pub open spec fn repeated_frame(frame: Seq<u8>, k: nat) -> Seq<u8> {
    Seq::new(204 * k, |i: int| frame[i % 204])
}

/// Frames that all carry the same 204 bits, aligned at `phase`, merge back into that frame.
pub proof fn lemma_majority_of_repeated_frame(lead: Seq<u8>, frame: Seq<u8>, k: nat)
    requires
        frame.len() == 204,
        forall|i: int| 0 <= i < 204 ==> #[trigger] frame[i] == 0 || frame[i] == 1,
        k >= 1,
    ensures
        forall|pos: int|
            0 <= pos < 204 ==> #[trigger] majority_bit(
                lead + repeated_frame(frame, k),
                lead.len(),
                pos as nat,
            ) == frame[pos],
{
    let bits = lead + repeated_frame(frame, k);
    let phase = lead.len();
    assert forall|pos: int| 0 <= pos < 204 implies #[trigger] majority_bit(bits, phase, pos as nat)
        == frame[pos] by {
        assert(frames_covering(bits.len(), phase, pos as nat) == k) by {
            assert((204 * k - pos - 1) / 204 == k - 1) by (nonlinear_arith)
                requires
                    k >= 1,
                    0 <= pos < 204,
            ;
        }
        lemma_ones_of_repeated(lead, frame, k, pos as nat, k);
    }
}

proof fn lemma_ones_of_repeated(lead: Seq<u8>, frame: Seq<u8>, k: nat, pos: nat, n: nat)
    requires
        frame.len() == 204,
        pos < 204,
        n <= k,
    ensures
        ones_count(lead + repeated_frame(frame, k), lead.len(), pos, n) == if frame[pos as int] == 1 {
            n
        } else {
            0
        },
    decreases n,
{
    if n > 0 {
        lemma_ones_of_repeated(lead, frame, k, pos, (n - 1) as nat);
        let i = 204 * (n - 1) + pos;
        assert(i < 204 * k) by (nonlinear_arith)
            requires
                n <= k,
                pos < 204,
                i == 204 * (n - 1) + pos,
        ;
        assert(i % 204 == pos) by (nonlinear_arith)
            requires
                i == 204 * (n - 1) + pos,
                pos < 204,
        ;
        assert((lead + repeated_frame(frame, k))[lead.len() + i] == frame[pos as int]);
    }
}

} // verus!
