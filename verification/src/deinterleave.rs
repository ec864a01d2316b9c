//! Deinterleaving in the carrier domain (two stages) for the one-segment service.
//!
//! Receive order: equalization, TMCC, frequency deinterleaving, time deinterleaving,
//! demapping. For the centre segment alone the frequency deinterleaver reduces to the
//! random permutation [`FREQ_PERM_MODE3`] of the 384 data carriers; the time deinterleaver
//! delays data carrier `c` by `I * (95 - (5c mod 96))` symbols, so that together with the
//! transmitter's `I * (5c mod 96)` every carrier sees the same `I * 95`.

use vstd::prelude::*;
use std::collections::VecDeque;
use crate::pilots::{sp_carriers, is_sp_carrier, SEGMENT_CARRIERS};
use crate::tmcc::TMCC_LOCAL_CARRIERS;

verus! {

/// Data carriers per segment (Mode 3) = 96 * 2^(3-1).
pub const DATA_CARRIERS: usize = 384;

/// Data carriers of Mode 1, the modulus of the time-interleaving index `(5c) mod 96`.
pub const DATA_CARRIERS_MODE1: usize = 96;

/// Auxiliary-channel carriers of the centre segment (local index),
/// absolute 2599/2681/2798/2801/2818/2836/2969/2999.
pub const AC_LOCAL_CARRIERS: [usize; 8] = [7, 89, 206, 209, 226, 244, 377, 407];

/// Mode 3 random permutation of the frequency deinterleaver: `out[i] = in[FREQ_PERM_MODE3[i]]`.
pub const FREQ_PERM_MODE3: [u16; DATA_CARRIERS] = [
    62, 13, 371, 11, 285, 336, 365, 220, 226, 92, 56, 46, 120, 175, 298, 352,
    172, 235, 53, 164, 368, 187, 125, 82, 5, 45, 173, 258, 135, 182, 141, 273,
    126, 264, 286, 88, 233, 61, 249, 367, 310, 179, 155, 57, 123, 208, 14, 227,
    100, 311, 205, 79, 184, 185, 328, 77, 115, 277, 112, 20, 199, 178, 143, 152,
    215, 204, 139, 234, 358, 192, 309, 183, 81, 129, 256, 314, 101, 43, 97, 324,
    142, 157, 90, 214, 102, 29, 303, 363, 261, 31, 22, 52, 305, 301, 293, 177,
    116, 296, 85, 196, 191, 114, 58, 198, 16, 167, 145, 119, 245, 113, 295, 193,
    232, 17, 108, 283, 246, 64, 237, 189, 128, 373, 302, 320, 239, 335, 356, 39,
    347, 351, 73, 158, 276, 243, 99, 38, 287, 3, 330, 153, 315, 117, 289, 213,
    210, 149, 383, 337, 339, 151, 241, 321, 217, 30, 334, 161, 322, 49, 176, 359,
    12, 346, 60, 28, 229, 265, 288, 225, 382, 59, 181, 170, 319, 341, 86, 251,
    133, 344, 361, 109, 44, 369, 268, 257, 323, 55, 317, 381, 121, 360, 260, 275,
    190, 19, 63, 18, 248, 9, 240, 211, 150, 230, 332, 231, 71, 255, 350, 355,
    83, 87, 154, 218, 138, 269, 348, 130, 160, 278, 377, 216, 236, 308, 223, 254,
    25, 98, 300, 201, 137, 219, 36, 325, 124, 66, 353, 169, 21, 35, 107, 50,
    106, 333, 326, 262, 252, 271, 263, 372, 136, 0, 366, 206, 159, 122, 188, 6,
    284, 96, 26, 200, 197, 186, 345, 340, 349, 103, 84, 228, 212, 2, 67, 318,
    1, 74, 342, 166, 194, 33, 68, 267, 111, 118, 140, 195, 105, 202, 291, 259,
    23, 171, 65, 281, 24, 165, 8, 94, 222, 331, 34, 238, 364, 376, 266, 89,
    80, 253, 163, 280, 247, 4, 362, 379, 290, 279, 54, 78, 180, 72, 316, 282,
    131, 207, 343, 370, 306, 221, 132, 7, 148, 299, 168, 224, 48, 47, 357, 313,
    75, 104, 70, 147, 40, 110, 374, 69, 146, 37, 375, 354, 174, 41, 32, 304,
    307, 312, 15, 272, 134, 242, 203, 209, 380, 162, 297, 327, 10, 93, 42, 250,
    156, 338, 292, 144, 378, 294, 329, 127, 270, 76, 95, 91, 244, 274, 27, 51,
];

/// The inverse permutation of [`FREQ_PERM_MODE3`].
pub open spec fn freq_perm_inverse() -> Seq<u16> {
    seq![
        249, 272, 269, 137, 309, 24, 255, 327, 294, 197, 364, 3, 160, 1, 46, 354,
        104, 113, 195, 193, 59, 236, 90, 288, 292, 224, 258, 382, 163, 85, 153, 89,
        350, 277, 298, 237, 230, 345, 135, 127, 340, 349, 366, 77, 180, 25, 11, 333,
        332, 157, 239, 383, 91, 18, 314, 185, 10, 43, 102, 169, 162, 37, 0, 194,
        117, 290, 233, 270, 278, 343, 338, 204, 317, 130, 273, 336, 377, 55, 315, 51,
        304, 72, 23, 208, 266, 98, 174, 209, 35, 303, 82, 379, 9, 365, 295, 378,
        257, 78, 225, 134, 48, 76, 84, 265, 337, 284, 240, 238, 114, 179, 341, 280,
        58, 109, 101, 56, 96, 141, 281, 107, 12, 188, 253, 44, 232, 22, 32, 375,
        120, 73, 215, 320, 326, 176, 356, 28, 248, 228, 212, 66, 282, 30, 80, 62,
        371, 106, 344, 339, 328, 145, 200, 149, 63, 139, 210, 42, 368, 81, 131, 252,
        216, 155, 361, 306, 19, 293, 275, 105, 330, 235, 171, 289, 16, 26, 348, 13,
        158, 95, 61, 41, 316, 170, 29, 71, 52, 53, 261, 21, 254, 119, 192, 100,
        69, 111, 276, 283, 99, 260, 103, 60, 259, 227, 285, 358, 65, 50, 251, 321,
        45, 359, 144, 199, 268, 143, 83, 64, 219, 152, 211, 229, 7, 325, 296, 222,
        331, 167, 8, 47, 267, 164, 201, 203, 112, 36, 67, 17, 220, 118, 299, 124,
        198, 150, 357, 133, 380, 108, 116, 308, 196, 38, 367, 175, 244, 305, 223, 205,
        74, 183, 27, 287, 190, 88, 243, 246, 33, 165, 302, 279, 182, 213, 376, 245,
        355, 31, 381, 191, 132, 57, 217, 313, 307, 291, 319, 115, 256, 4, 34, 136,
        166, 142, 312, 286, 370, 94, 373, 110, 97, 362, 14, 329, 226, 93, 122, 86,
        351, 92, 324, 352, 221, 70, 40, 49, 353, 335, 75, 140, 318, 186, 271, 172,
        123, 151, 156, 184, 79, 231, 242, 363, 54, 374, 138, 297, 202, 241, 154, 125,
        5, 147, 369, 148, 263, 173, 274, 322, 177, 262, 161, 128, 214, 264, 206, 129,
        15, 234, 347, 207, 126, 334, 68, 159, 189, 178, 310, 87, 300, 6, 250, 39,
        20, 181, 323, 2, 247, 121, 342, 346, 301, 218, 372, 311, 360, 187, 168, 146,
    ]
}

/// [`FREQ_PERM_MODE3`] is a permutation of 0..384: every entry is a carrier, and
/// [`freq_perm_inverse`] undoes it on both sides.
pub proof fn lemma_freq_perm_is_bijection()
    ensures
        forall|i: int| 0 <= i < 384 ==> #[trigger] FREQ_PERM_MODE3@[i] < 384,
        forall|i: int| 0 <= i < 384 ==> #[trigger] freq_perm_inverse()[i] < 384,
        forall|i: int|
            0 <= i < 384 ==> #[trigger] freq_perm_inverse()[FREQ_PERM_MODE3@[i] as int] == i,
        forall|k: int|
            0 <= k < 384 ==> #[trigger] FREQ_PERM_MODE3@[freq_perm_inverse()[k] as int] == k,
{
}

/// Whether local carrier `l` carries data in a symbol with `symbol % 4 == symbol_mod4`:
/// neither a scattered pilot nor a TMCC nor an AC carrier.
pub open spec fn is_data_carrier(symbol_mod4: nat, l: int) -> bool {
    &&& 0 <= l < SEGMENT_CARRIERS
    &&& !is_sp_carrier(symbol_mod4, l)
    &&& !TMCC_LOCAL_CARRIERS@.contains(l as usize)
    &&& !AC_LOCAL_CARRIERS@.contains(l as usize)
}

/// The TMCC and AC carriers of the centre segment.
pub open spec fn is_control_carrier(x: int) -> bool {
    x == 7 || x == 89 || x == 101 || x == 131 || x == 206 || x == 209 || x == 226 || x == 244
        || x == 286 || x == 349 || x == 377 || x == 407
}

proof fn lemma_control_carriers(x: int)
    requires
        0 <= x < 432,
    ensures
        (TMCC_LOCAL_CARRIERS@.contains(x as usize) || AC_LOCAL_CARRIERS@.contains(x as usize))
            <==> is_control_carrier(x),
{
    assert((x as usize) as int == x);
    if TMCC_LOCAL_CARRIERS@.contains(x as usize) {
        let i = choose|i: int| 0 <= i < 4 && TMCC_LOCAL_CARRIERS@[i] == x as usize;
        assert(i == 0 || i == 1 || i == 2 || i == 3);
    }
    if AC_LOCAL_CARRIERS@.contains(x as usize) {
        let i = choose|i: int| 0 <= i < 8 && AC_LOCAL_CARRIERS@[i] == x as usize;
        assert(i == 0 || i == 1 || i == 2 || i == 3 || i == 4 || i == 5 || i == 6 || i == 7);
    }
    if x == 101 { assert(TMCC_LOCAL_CARRIERS@[0] == 101); }
    if x == 131 { assert(TMCC_LOCAL_CARRIERS@[1] == 131); }
    if x == 286 { assert(TMCC_LOCAL_CARRIERS@[2] == 286); }
    if x == 349 { assert(TMCC_LOCAL_CARRIERS@[3] == 349); }
    if x == 7 { assert(AC_LOCAL_CARRIERS@[0] == 7); }
    if x == 89 { assert(AC_LOCAL_CARRIERS@[1] == 89); }
    if x == 206 { assert(AC_LOCAL_CARRIERS@[2] == 206); }
    if x == 209 { assert(AC_LOCAL_CARRIERS@[3] == 209); }
    if x == 226 { assert(AC_LOCAL_CARRIERS@[4] == 226); }
    if x == 244 { assert(AC_LOCAL_CARRIERS@[5] == 244); }
    if x == 377 { assert(AC_LOCAL_CARRIERS@[6] == 377); }
    if x == 407 { assert(AC_LOCAL_CARRIERS@[7] == 407); }
}

/// Number of data carriers below `n`.
pub open spec fn data_count(symbol_mod4: nat, n: nat) -> nat
    decreases n,
{
    if n == 0 {
        0
    } else {
        data_count(symbol_mod4, (n - 1) as nat) + if is_data_carrier(symbol_mod4, n - 1) {
            1nat
        } else {
            0nat
        }
    }
}

/// Number of TMCC/AC carriers below `n`.
pub open spec fn control_count(n: nat) -> nat
    decreases n,
{
    if n == 0 {
        0
    } else {
        control_count((n - 1) as nat) + if is_control_carrier(n - 1) {
            1nat
        } else {
            0nat
        }
    }
}

/// Number of scattered pilots below `n` (`r = 3 * (symbol_mod4 % 4)`).
pub open spec fn sp_count(r: int, n: nat) -> int {
    if n <= r {
        0
    } else {
        (n - r - 1) / 12 + 1
    }
}

proof fn lemma_data_count_split(symbol_mod4: nat, n: nat)
    requires
        n <= 432,
    ensures
        data_count(symbol_mod4, n) == n - sp_count((3 * (symbol_mod4 % 4)) as int, n) - control_count(n),
    decreases n,
{
    if n > 0 {
        lemma_data_count_split(symbol_mod4, (n - 1) as nat);
        let x = n - 1;
        lemma_control_carriers(x);
        let r = (3 * (symbol_mod4 % 4)) as int;
        assert(r == 0 || r == 3 || r == 6 || r == 9);
    }
}

proof fn lemma_control_count_flat(a: nat, b: nat)
    requires
        a <= b,
        forall|x: int| a <= x < b ==> !is_control_carrier(x),
    ensures
        control_count(b) == control_count(a),
    decreases b - a,
{
    if b > a {
        lemma_control_count_flat(a, (b - 1) as nat);
    }
}

proof fn lemma_control_count_total()
    ensures
        control_count(432) == 12,
{
    lemma_control_count_flat(0, 7);
    assert(control_count(8) == 1);
    lemma_control_count_flat(8, 89);
    assert(control_count(90) == 2);
    lemma_control_count_flat(90, 101);
    assert(control_count(102) == 3);
    lemma_control_count_flat(102, 131);
    assert(control_count(132) == 4);
    lemma_control_count_flat(132, 206);
    assert(control_count(207) == 5);
    lemma_control_count_flat(207, 209);
    assert(control_count(210) == 6);
    lemma_control_count_flat(210, 226);
    assert(control_count(227) == 7);
    lemma_control_count_flat(227, 244);
    assert(control_count(245) == 8);
    lemma_control_count_flat(245, 286);
    assert(control_count(287) == 9);
    lemma_control_count_flat(287, 349);
    assert(control_count(350) == 10);
    lemma_control_count_flat(350, 377);
    assert(control_count(378) == 11);
    lemma_control_count_flat(378, 407);
    assert(control_count(408) == 12);
    lemma_control_count_flat(408, 432);
}

/// Every symbol phase has exactly 384 data carriers: 432 carriers minus 36 scattered pilots
/// minus 4 TMCC and 8 AC carriers, which never coincide with a pilot.
pub proof fn lemma_data_carrier_count(symbol_mod4: nat)
    ensures
        data_count(symbol_mod4, 432) == DATA_CARRIERS,
{
    lemma_data_count_split(symbol_mod4, 432);
    lemma_control_count_total();
    let r = (3 * (symbol_mod4 % 4)) as int;
    assert(r == 0 || r == 3 || r == 6 || r == 9);
}

/// The data carriers (local index) of a symbol with `symbol % 4 == symbol_mod4`, ascending:
/// all carriers except the scattered pilots of that phase, TMCC and AC.
pub fn data_carrier_indices(symbol_mod4: usize) -> (r: Vec<usize>)
    ensures
        forall|i: int, j: int| 0 <= i < j < r@.len() ==> r@[i] < r@[j],
        forall|l: usize| is_data_carrier(symbol_mod4 as nat, l as int) <==> r@.contains(l),
        r@.len() == DATA_CARRIERS,
{
    let mut excluded = [false; 432];
    let sp = sp_carriers(symbol_mod4);
    let mut q: usize = 0;
    while q < sp.len()
        invariant
            sp@.len() == 36,
            forall|k: int| 0 <= k < 36 ==> #[trigger] sp@[k] == 3 * (symbol_mod4 % 4) + 12 * k,
            q <= 36,
            forall|l: int|
                0 <= l < 432 ==> (#[trigger] excluded@[l] <==> exists|k: int|
                    0 <= k < q && sp@[k] == l),
        decreases 36 - q,
    {
        let l = sp[q];
        excluded[l] = true;
        q = q + 1;
    }
    let mut q: usize = 0;
    while q < 4
        invariant
            sp@.len() == 36,
            forall|k: int| 0 <= k < 36 ==> #[trigger] sp@[k] == 3 * (symbol_mod4 % 4) + 12 * k,
            q <= 4,
            forall|l: int|
                0 <= l < 432 ==> (#[trigger] excluded@[l] <==> (exists|k: int|
                    0 <= k < 36 && sp@[k] == l) || exists|k: int|
                    0 <= k < q && TMCC_LOCAL_CARRIERS@[k] == l),
        decreases 4 - q,
    {
        let l = TMCC_LOCAL_CARRIERS[q];
        excluded[l] = true;
        q = q + 1;
    }
    let mut q: usize = 0;
    while q < 8
        invariant
            sp@.len() == 36,
            forall|k: int| 0 <= k < 36 ==> #[trigger] sp@[k] == 3 * (symbol_mod4 % 4) + 12 * k,
            q <= 8,
            forall|l: int|
                0 <= l < 432 ==> (#[trigger] excluded@[l] <==> (exists|k: int|
                    0 <= k < 36 && sp@[k] == l) || (exists|k: int|
                    0 <= k < 4 && TMCC_LOCAL_CARRIERS@[k] == l) || exists|k: int|
                    0 <= k < q && AC_LOCAL_CARRIERS@[k] == l),
        decreases 8 - q,
    {
        let l = AC_LOCAL_CARRIERS[q];
        excluded[l] = true;
        q = q + 1;
    }
    proof {
        assert forall|l: int| 0 <= l < 432 implies (#[trigger] excluded@[l] <==> !is_data_carrier(
            symbol_mod4 as nat,
            l,
        )) by {
            if is_sp_carrier(symbol_mod4 as nat, l) {
                let k = l / 12;
                assert(sp@[k] == l);
            }
            if (exists|k: int| 0 <= k < 36 && sp@[k] == l) {
                let k = choose|k: int| 0 <= k < 36 && sp@[k] == l;
                assert(is_sp_carrier(symbol_mod4 as nat, l));
            }
            if TMCC_LOCAL_CARRIERS@.contains(l as usize) {
                let k = choose|k: int| 0 <= k < 4 && TMCC_LOCAL_CARRIERS@[k] == l as usize;
            }
            if AC_LOCAL_CARRIERS@.contains(l as usize) {
                let k = choose|k: int| 0 <= k < 8 && AC_LOCAL_CARRIERS@[k] == l as usize;
            }
        }
    }
    let mut out: Vec<usize> = Vec::new();
    let mut l: usize = 0;
    while l < SEGMENT_CARRIERS
        invariant
            l <= 432,
            forall|x: int| 0 <= x < 432 ==> (#[trigger] excluded@[x] <==> !is_data_carrier(
                symbol_mod4 as nat,
                x,
            )),
            forall|i: int, j: int| 0 <= i < j < out@.len() ==> out@[i] < out@[j],
            forall|i: int| 0 <= i < out@.len() ==> #[trigger] out@[i] < l,
            forall|x: usize| x < l ==> (is_data_carrier(symbol_mod4 as nat, x as int) <==> out@.contains(x)),
            forall|i: int| 0 <= i < out@.len() ==> is_data_carrier(symbol_mod4 as nat, #[trigger] out@[i] as int),
            out@.len() == data_count(symbol_mod4 as nat, l as nat),
        decreases 432 - l,
    {
        let ghost old_out = out@;
        if !excluded[l] {
            out.push(l);
        }
        proof {
            assert forall|x: usize| x < l + 1 implies (is_data_carrier(symbol_mod4 as nat, x as int)
                <==> out@.contains(x)) by {
                if x < l {
                    if old_out.contains(x) {
                        let i = choose|i: int| 0 <= i < old_out.len() && old_out[i] == x;
                        assert(out@[i] == x);
                    }
                    if out@.contains(x) {
                        let i = choose|i: int| 0 <= i < out@.len() && out@[i] == x;
                        if i < old_out.len() {
                            assert(old_out[i] == x);
                        }
                    }
                } else {
                    if is_data_carrier(symbol_mod4 as nat, x as int) {
                        assert(out@[out@.len() - 1] == l);
                    }
                    if out@.contains(x) {
                        let i = choose|i: int| 0 <= i < out@.len() && out@[i] == x;
                        if i < old_out.len() {
                            assert(old_out[i] < l);
                        }
                    }
                }
            }
        }
        l = l + 1;
    }
    proof {
        lemma_data_carrier_count(symbol_mod4 as nat);
        assert forall|x: usize| is_data_carrier(symbol_mod4 as nat, x as int) <==> out@.contains(x) by {
            if out@.contains(x) {
                let i = choose|i: int| 0 <= i < out@.len() && out@[i] == x;
            }
        }
    }
    out
}

/// `x[FREQ_PERM_MODE3[i]]` for each `i`: the frequency deinterleaver on the 384 data carriers.
pub open spec fn freq_deinterleaved<T>(x: Seq<T>) -> Seq<T> {
    Seq::new(384, |i: int| x[FREQ_PERM_MODE3@[i] as int])
}

/// The transmitter's frequency interleaver: carrier `FREQ_PERM_MODE3[i]` receives `x[i]`.
pub open spec fn freq_interleaved<T>(x: Seq<T>) -> Seq<T> {
    Seq::new(384, |k: int| x[freq_perm_inverse()[k] as int])
}

/// Frequency deinterleaving (one segment): `out[i] = data[FREQ_PERM_MODE3[i]]`.
pub fn freq_deinterleave<T: Copy>(data: &[T]) -> (out: Vec<T>)
    requires
        data@.len() == DATA_CARRIERS,
    ensures
        out@ == freq_deinterleaved(data@),
{
    proof {
        lemma_freq_perm_is_bijection();
    }
    let mut out: Vec<T> = Vec::with_capacity(DATA_CARRIERS);
    let mut i: usize = 0;
    while i < DATA_CARRIERS
        invariant
            data@.len() == 384,
            forall|j: int| 0 <= j < 384 ==> #[trigger] FREQ_PERM_MODE3@[j] < 384,
            i <= 384,
            out@.len() == i,
            forall|j: int| 0 <= j < i ==> #[trigger] out@[j] == data@[FREQ_PERM_MODE3@[j] as int],
        decreases 384 - i,
    {
        let p = FREQ_PERM_MODE3[i];
        out.push(data[p as usize]);
        i = i + 1;
    }
    proof {
        assert(out@ =~= freq_deinterleaved(data@));
    }
    out
}

/// Frequency deinterleaving undoes the transmitter's interleaving and vice versa.
pub proof fn lemma_freq_interleave_roundtrip<T>(x: Seq<T>)
    requires
        x.len() == 384,
    ensures
        freq_deinterleaved(freq_interleaved(x)) == x,
        freq_interleaved(freq_deinterleaved(x)) == x,
{
    lemma_freq_perm_is_bijection();
    assert(freq_deinterleaved(freq_interleaved(x)) =~= x);
    assert(freq_interleaved(freq_deinterleaved(x)) =~= x);
}

/// The time-interleaving index `(5c) mod 96` of data carrier `c`.
pub open spec fn time_index(c: int) -> int {
    (5 * c) % 96
}

/// Delay (symbols) of carrier `c` in the time deinterleaver with interleaving length `i`.
pub open spec fn time_deinterleave_delay(i: nat, c: int) -> int {
    i * (95 - time_index(c))
}

/// Delay (symbols) of carrier `c` in the transmitter's time interleaver.
pub open spec fn time_interleave_delay(i: nat, c: int) -> int {
    i * time_index(c)
}

/// Carrier `c` of symbol `m` of a symbol stream, or `fill` outside the stream.
pub open spec fn symbol_input<T>(hist: Seq<Seq<T>>, c: int, m: int, fill: T) -> T {
    if 0 <= m < hist.len() {
        hist[m][c]
    } else {
        fill
    }
}

/// Time deinterleaver: one FIFO delay line per data carrier.
///
/// Carrier `c` is delayed by `I * (95 - (5c mod 96))`; the delays sum with the transmitter's
/// to the constant `I * 95`, after which the time order before interleaving is restored.
pub struct TimeDeinterleaver<T> {
    bufs: Vec<VecDeque<T>>,
    /// Delay of each carrier (symbols) = `I * (95 - mi)`.
    delays: Vec<usize>,
    len: Ghost<nat>,
    hist: Ghost<Seq<Seq<T>>>,
    fill: Ghost<T>,
}

impl<T: Copy + Default> TimeDeinterleaver<T> {
    /// Consistency of the delay lines with the symbols pushed so far.
    pub closed spec fn wf(&self) -> bool {
        &&& self.bufs@.len() == 384
        &&& self.delays@.len() == 384
        &&& forall|c: int| 0 <= c < 384 ==> #[trigger] self.delays@[c] == time_deinterleave_delay(self.len@, c)
        &&& forall|c: int|
            0 <= c < 384 ==> #[trigger] self.bufs@[c]@ == Seq::new(
                time_deinterleave_delay(self.len@, c) as nat,
                |q: int| symbol_input(
                    self.hist@,
                    c,
                    self.hist@.len() - time_deinterleave_delay(self.len@, c) + q,
                    self.fill@,
                ),
            )
    }

    /// The interleaving length I.
    pub closed spec fn length(&self) -> nat {
        self.len@
    }

    /// The symbols (384 carriers each) pushed so far.
    pub closed spec fn history(&self) -> Seq<Seq<T>> {
        self.hist@
    }

    /// The value delivered before a carrier's delay line has filled (`T::default()`).
    pub closed spec fn fill(&self) -> T {
        self.fill@
    }

    /// Creates the deinterleaver for interleaving length `i` (4 for the usual one-segment
    /// Layer A); the delay lines start filled with `T::default()`.
    pub fn new(i: usize) -> (d: Self)
        requires
            i * 95 <= usize::MAX,
        ensures
            d.wf(),
            d.length() == i,
            d.history() == Seq::<Seq<T>>::empty(),
            call_ensures(T::default, (), d.fill()),
    {
        let zero = T::default();
        let mut bufs: Vec<VecDeque<T>> = Vec::with_capacity(DATA_CARRIERS);
        let mut delays: Vec<usize> = Vec::with_capacity(DATA_CARRIERS);
        let mut c: usize = 0;
        while c < DATA_CARRIERS
            invariant
                i * 95 <= usize::MAX,
                c <= 384,
                bufs@.len() == c,
                delays@.len() == c,
                forall|k: int| 0 <= k < c ==> #[trigger] delays@[k] == time_deinterleave_delay(i as nat, k),
                forall|k: int|
                    0 <= k < c ==> #[trigger] bufs@[k]@ == Seq::new(
                        time_deinterleave_delay(i as nat, k) as nat,
                        |q: int| zero,
                    ),
            decreases 384 - c,
        {
            let mi = (5 * c) % DATA_CARRIERS_MODE1;
            assert(i * (95 - mi) <= i * 95) by (nonlinear_arith)
                requires
                    mi <= 95,
            ;
            let delay = i * (DATA_CARRIERS_MODE1 - 1 - mi);
            let mut f: VecDeque<T> = VecDeque::new();
            let mut q: usize = 0;
            while q < delay
                invariant
                    q <= delay,
                    f@ == Seq::new(q as nat, |x: int| zero),
                decreases delay - q,
            {
                f.push_back(zero);
                q = q + 1;
                proof {
                    assert(f@ =~= Seq::new(q as nat, |x: int| zero));
                }
            }
            bufs.push(f);
            delays.push(delay);
            c = c + 1;
        }
        let d = TimeDeinterleaver {
            bufs,
            delays,
            len: Ghost(i as nat),
            hist: Ghost(Seq::empty()),
            fill: Ghost(zero),
        };
        proof {
            assert forall|k: int| 0 <= k < 384 implies #[trigger] d.bufs@[k]@ == Seq::new(
                time_deinterleave_delay(i as nat, k) as nat,
                |q: int| symbol_input(
                    Seq::<Seq<T>>::empty(),
                    k,
                    0 - time_deinterleave_delay(i as nat, k) + q,
                    zero,
                ),
            ) by {
                assert(d.bufs@[k]@ =~= Seq::new(
                    time_deinterleave_delay(i as nat, k) as nat,
                    |q: int| symbol_input(
                        Seq::<Seq<T>>::empty(),
                        k,
                        0 - time_deinterleave_delay(i as nat, k) + q,
                        zero,
                    ),
                ));
            }
        }
        d
    }

    /// The total latency `I * 95` (the largest carrier delay), after which outputs are valid.
    pub fn latency(&self) -> (r: usize)
        requires
            self.wf(),
        ensures
            r == 95 * self.length(),
    {
        let mut m: usize = 0;
        let mut c: usize = 0;
        while c < self.delays.len()
            invariant
                self.wf(),
                c <= 384,
                c == 0 ==> m == 0,
                c > 0 ==> m == 95 * self.length(),
            decreases self.delays.len() - c,
        {
            proof {
                let mi = time_index(c as int);
                assert(self.len@ * (95 - mi) <= self.len@ * 95) by (nonlinear_arith)
                    requires
                        0 <= mi <= 95,
                ;
            }
            if self.delays[c] > m || c == 0 {
                m = self.delays[c];
            }
            c = c + 1;
        }
        m
    }

    /// Pushes one symbol (384 carriers) and returns the head of every carrier's delay line:
    /// carrier `c` of the symbol `I * (95 - (5c mod 96))` pushes earlier.
    pub fn push_symbol(&mut self, data: &[T]) -> (out: Vec<T>)
        requires
            old(self).wf(),
            data@.len() == DATA_CARRIERS,
        ensures
            final(self).wf(),
            final(self).length() == old(self).length(),
            final(self).fill() == old(self).fill(),
            final(self).history() == old(self).history().push(data@),
            out@.len() == DATA_CARRIERS,
            forall|c: int|
                0 <= c < 384 ==> #[trigger] out@[c] == symbol_input(
                    final(self).history(),
                    c,
                    old(self).history().len() - time_deinterleave_delay(old(self).length(), c),
                    old(self).fill(),
                ),
    {
        let ghost h0 = self.hist@;
        let ghost h1 = h0.push(data@);
        let mut out: Vec<T> = Vec::with_capacity(DATA_CARRIERS);
        let mut c: usize = 0;
        while c < DATA_CARRIERS
            invariant
                data@.len() == 384,
                self.hist@ == h0,
                self.len@ == old(self).len@,
                self.fill@ == old(self).fill@,
                h0 == old(self).hist@,
                h1 == h0.push(data@),
                self.bufs@.len() == 384,
                self.delays@.len() == 384,
                forall|k: int| 0 <= k < 384 ==> #[trigger] self.delays@[k] == time_deinterleave_delay(self.len@, k),
                c <= 384,
                out@.len() == c,
                forall|k: int|
                    c <= k < 384 ==> #[trigger] self.bufs@[k]@ == Seq::new(
                        time_deinterleave_delay(self.len@, k) as nat,
                        |q: int| symbol_input(h0, k, h0.len() - time_deinterleave_delay(self.len@, k) + q, self.fill@),
                    ),
                forall|k: int|
                    0 <= k < c ==> #[trigger] self.bufs@[k]@ == Seq::new(
                        time_deinterleave_delay(self.len@, k) as nat,
                        |q: int| symbol_input(h1, k, h1.len() - time_deinterleave_delay(self.len@, k) + q, self.fill@),
                    ),
                forall|k: int|
                    0 <= k < c ==> #[trigger] out@[k] == symbol_input(
                        h1,
                        k,
                        h0.len() - time_deinterleave_delay(self.len@, k),
                        self.fill@,
                    ),
            decreases 384 - c,
        {
            let ghost before = self.bufs@[c as int]@;
            self.bufs[c].push_back(data[c]);
            let v = match self.bufs[c].pop_front() {
                Some(x) => x,
                None => data[c],
            };
            out.push(v);
            proof {
                let d = time_deinterleave_delay(self.len@, c as int);
                assert(h1[h0.len() as int] == data@);
                assert(d >= 0) by (nonlinear_arith)
                    requires
                        d == self.len@ * (95 - time_index(c as int)),
                        0 <= time_index(c as int) < 96,
                ;
                assert forall|m: int| 0 <= m < h0.len() implies #[trigger] h1[m] == h0[m] by {}
                assert(self.bufs@[c as int]@ =~= Seq::new(
                    d as nat,
                    |q: int| symbol_input(h1, c as int, h1.len() - d + q, self.fill@),
                ));
                assert(v == symbol_input(h1, c as int, h0.len() - d, self.fill@));
            }
            c = c + 1;
        }
        self.hist = Ghost(h1);
        out
    }
}

/// The symbol stream the transmitter's time interleaver emits for `x` (length `i`).
pub open spec fn time_interleaved<T>(x: Seq<Seq<T>>, i: nat, fill: T) -> Seq<Seq<T>> {
    Seq::new(
        x.len(),
        |t: int| Seq::new(384, |c: int| symbol_input(x, c, t - time_interleave_delay(i, c), fill)),
    )
}

/// The symbol stream a [`TimeDeinterleaver`] (length `i`) emits for `y`.
pub open spec fn time_deinterleaved<T>(y: Seq<Seq<T>>, i: nat, fill: T) -> Seq<Seq<T>> {
    Seq::new(
        y.len(),
        |t: int| Seq::new(384, |c: int| symbol_input(y, c, t - time_deinterleave_delay(i, c), fill)),
    )
}

/// Time interleaving followed by time deinterleaving is the identity delayed by the
/// constant `I * 95` symbols on every carrier.
pub proof fn lemma_time_interleave_roundtrip<T>(x: Seq<Seq<T>>, i: nat, fill: T, t: int)
    requires
        95 * i <= t < x.len(),
        forall|m: int| 0 <= m < x.len() ==> #[trigger] x[m].len() == 384,
    ensures
        time_deinterleaved(time_interleaved(x, i, fill), i, fill)[t] == x[t - 95 * i],
{
    let y = time_interleaved(x, i, fill);
    let z = time_deinterleaved(y, i, fill);
    assert forall|c: int| 0 <= c < 384 implies #[trigger] z[t][c] == x[t - 95 * i][c] by {
        let mi = time_index(c);
        assert(0 <= mi < 96);
        assert(i * (95 - mi) + i * mi == 95 * i) by (nonlinear_arith);
        assert(0 <= i * mi) by (nonlinear_arith)
            requires
                0 <= mi,
        ;
        assert(0 <= i * (95 - mi)) by (nonlinear_arith)
            requires
                mi <= 95,
        ;
    }
    assert(z[t] =~= x[t - 95 * i]);
}

} // verus!
