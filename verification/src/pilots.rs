//! Pilot layout of the centre segment (logical segment 0, the one-segment service).
//!
//! Of the 5617 active carriers of full-band Mode 3, the centre segment occupies
//! absolute indices 2592..3023 (`2592 = 6 * 432`). Because 2592 is a multiple of 12,
//! the scattered-pilot condition `i mod 12 == 3 * (symbol mod 4)` holds unchanged for
//! the segment-local index `l`.
//!
//! Scattered pilots are BPSK-modulated by the PRBS `w_i` of the generator
//! G(x) = x^11 + x^2 + 1 (11-stage LFSR, all-ones start, output the low bit).

use vstd::prelude::*;
use crate::params::FFT_LEN;

verus! {

/// Number of active carriers of full-band Mode 3 (`13 * 432 + 1`).
pub const ACTIVE_CARRIERS_8K: usize = 5617;

/// Carriers per segment (Mode 3).
pub const SEGMENT_CARRIERS: usize = 432;

/// First absolute active-carrier index of the centre segment (`6 * 432`).
pub const CENTER_SEGMENT_OFFSET: usize = 2592;

/// First bin of the centre segment's 432 carriers in an fftshifted 1024-point spectrum:
/// `(1024 - 432) / 2 = 296` (DC at bin 512 = local carrier 216).
pub const SEGMENT_BIN_OFFSET: usize = (FFT_LEN - SEGMENT_CARRIERS) / 2;

/// Scattered-pilot spacing (every 12th carrier).
pub const SP_SPACING: usize = 12;

/// One step of the pilot PRBS register: shift right, feeding back bit2 xor bit0 into bit10.
pub open spec fn pilot_lfsr_step(reg: u32) -> u32 {
    (reg >> 1u32) | ((((reg >> 2u32) ^ reg) & 1u32) << 10u32)
}

/// The pilot PRBS register after `n` steps from the all-ones start.
pub open spec fn pilot_lfsr_state(n: nat) -> u32
    decreases n,
{
    if n == 0 {
        0x7ffu32
    } else {
        pilot_lfsr_step(pilot_lfsr_state((n - 1) as nat))
    }
}

/// The pilot PRBS bit `w_n`.
pub open spec fn pilot_prbs_bit(n: nat) -> u8 {
    (pilot_lfsr_state(n) & 1u32) as u8
}

proof fn lemma_pilot_step_bounds(reg: u32)
    by (bit_vector)
    requires
        reg < 0x800,
    ensures
        pilot_lfsr_step(reg) < 0x800,
        (reg & 1u32) < 2,
{
}

proof fn lemma_pilot_state_bound(n: nat)
    ensures
        pilot_lfsr_state(n) < 0x800,
    decreases n,
{
    if n > 0 {
        lemma_pilot_state_bound((n - 1) as nat);
        lemma_pilot_step_bounds(pilot_lfsr_state((n - 1) as nat));
    }
}

/// The first `active` bits `w_0 .. w_(active-1)` of the pilot PRBS (a pilot carries
/// +4/3 for `w = 0` and -4/3 for `w = 1`).
pub fn prbs_pilot_bits(active: usize) -> (w: Vec<u8>)
    ensures
        w@.len() == active,
        forall|k: int| 0 <= k < active ==> #[trigger] w@[k] == pilot_prbs_bit(k as nat),
{
    let mut reg: u32 = 0x7ff;
    let mut out: Vec<u8> = Vec::new();
    let mut k: usize = 0;
    assert(reg == pilot_lfsr_state(0));
    while k < active
        invariant
            k <= active,
            out@.len() == k,
            reg == pilot_lfsr_state(k as nat),
            forall|q: int| 0 <= q < k ==> #[trigger] out@[q] == pilot_prbs_bit(q as nat),
        decreases active - k,
    {
        proof {
            lemma_pilot_state_bound(k as nat);
            lemma_pilot_step_bounds(reg);
        }
        let w = (reg & 0x1) as u8;
        let new_bit = ((reg >> 2) ^ reg) & 0x1;
        reg = (reg >> 1) | (new_bit << 10);
        out.push(w);
        k = k + 1;
    }
    out
}

/// Whether local carrier `l` carries a scattered pilot in a symbol with `symbol % 4 == symbol_mod4`.
pub open spec fn is_sp_carrier(symbol_mod4: nat, l: int) -> bool {
    0 <= l < SEGMENT_CARRIERS && l % 12 == 3 * (symbol_mod4 % 4)
}

/// Local indices of the scattered pilots in a symbol with `symbol % 4 == symbol_mod4`,
/// ascending: `3 * (symbol_mod4 % 4) + 12 * q` for `q < 36`.
pub fn sp_carriers(symbol_mod4: usize) -> (r: Vec<usize>)
    ensures
        r@.len() == 36,
        forall|q: int| 0 <= q < 36 ==> #[trigger] r@[q] == 3 * (symbol_mod4 % 4) + 12 * q,
{
    let start = 3 * (symbol_mod4 % 4);
    let mut out: Vec<usize> = Vec::new();
    let mut l = start;
    while l < SEGMENT_CARRIERS
        invariant
            start == 3 * (symbol_mod4 % 4),
            start <= l <= SEGMENT_CARRIERS + 11,
            (l - start) % 12 == 0,
            out@.len() == (l - start) / 12,
            forall|q: int| 0 <= q < out@.len() ==> #[trigger] out@[q] == start + 12 * q,
        decreases SEGMENT_CARRIERS + 12 - l,
    {
        out.push(l);
        l = l + SP_SPACING;
    }
    out
}

/// The pilot register after `n` steps from `x`.
pub open spec fn pilot_lfsr_iter(n: nat, x: u32) -> u32
    decreases n,
{
    if n == 0 {
        x
    } else {
        pilot_lfsr_step(pilot_lfsr_iter((n - 1) as nat, x))
    }
}

/// The GF(2)-linear map on 11-bit registers whose columns (images of bits 0..10) are
/// `c0 .. c10`, applied to `x`.
pub open spec fn pilot_linear_map(
    c0: u32, c1: u32, c2: u32, c3: u32, c4: u32, c5: u32, c6: u32, c7: u32, c8: u32, c9: u32,
    c10: u32, x: u32,
) -> u32 {
    (if x & 1u32 != 0u32 { c0 } else { 0u32 })
        ^ (if x & 2u32 != 0u32 { c1 } else { 0u32 })
        ^ (if x & 4u32 != 0u32 { c2 } else { 0u32 })
        ^ (if x & 8u32 != 0u32 { c3 } else { 0u32 })
        ^ (if x & 16u32 != 0u32 { c4 } else { 0u32 })
        ^ (if x & 32u32 != 0u32 { c5 } else { 0u32 })
        ^ (if x & 64u32 != 0u32 { c6 } else { 0u32 })
        ^ (if x & 128u32 != 0u32 { c7 } else { 0u32 })
        ^ (if x & 256u32 != 0u32 { c8 } else { 0u32 })
        ^ (if x & 512u32 != 0u32 { c9 } else { 0u32 })
        ^ (if x & 1024u32 != 0u32 { c10 } else { 0u32 })
}

proof fn lemma_pilot_step_linear(x: u32, y: u32)
    by (bit_vector)
    requires
        x < 0x800,
        y < 0x800,
    ensures
        pilot_lfsr_step(x ^ y) == pilot_lfsr_step(x) ^ pilot_lfsr_step(y),
        x ^ y < 0x800,
        pilot_lfsr_step(0) == 0,
{
}

proof fn lemma_pilot_iter_compose(a: nat, b: nat, x: u32)
    ensures
        pilot_lfsr_iter(a + b, x) == pilot_lfsr_iter(a, pilot_lfsr_iter(b, x)),
    decreases a,
{
    if a > 0 {
        lemma_pilot_iter_compose((a - 1) as nat, b, x);
        assert((a + b - 1) as nat == (a - 1) as nat + b);
    }
}

/// Stepping the register is linear over xor.
proof fn lemma_pilot_iter_linear(n: nat, x: u32, y: u32)
    requires
        x < 0x800,
        y < 0x800,
    ensures
        pilot_lfsr_iter(n, x ^ y) == pilot_lfsr_iter(n, x) ^ pilot_lfsr_iter(n, y),
        x ^ y < 0x800,
        pilot_lfsr_iter(n, x) < 0x800,
        pilot_lfsr_iter(n, y) < 0x800,
        pilot_lfsr_iter(n, 0) == 0,
    decreases n,
{
    lemma_pilot_step_linear(x, y);
    if n > 0 {
        let n1 = (n - 1) as nat;
        lemma_pilot_iter_linear(n1, x, y);
        lemma_pilot_step_linear(pilot_lfsr_iter(n1, x), pilot_lfsr_iter(n1, y));
        lemma_pilot_step_linear(0, 0);
        lemma_pilot_step_bounds(pilot_lfsr_iter(n1, x));
        lemma_pilot_step_bounds(pilot_lfsr_iter(n1, y));
    }
}

proof fn lemma_pilot_bits(x: u32)
    by (bit_vector)
    requires
        x < 0x800,
    ensures
        x == (((((((((((x & 1u32) ^ (x & 2u32)) ^ (x & 4u32)) ^ (x & 8u32)) ^ (x & 16u32)) ^ (x & 32u32)) ^ (x & 64u32)) ^ (x & 128u32)) ^ (x & 256u32)) ^ (x & 512u32)) ^ (x & 1024u32)),
        (x & 1u32) == 0u32 || (x & 1u32) == 1u32,
        (x & 1u32) < 0x800,
        (x & 2u32) == 0u32 || (x & 2u32) == 2u32,
        (x & 2u32) < 0x800,
        (x & 4u32) == 0u32 || (x & 4u32) == 4u32,
        (x & 4u32) < 0x800,
        (x & 8u32) == 0u32 || (x & 8u32) == 8u32,
        (x & 8u32) < 0x800,
        (x & 16u32) == 0u32 || (x & 16u32) == 16u32,
        (x & 16u32) < 0x800,
        (x & 32u32) == 0u32 || (x & 32u32) == 32u32,
        (x & 32u32) < 0x800,
        (x & 64u32) == 0u32 || (x & 64u32) == 64u32,
        (x & 64u32) < 0x800,
        (x & 128u32) == 0u32 || (x & 128u32) == 128u32,
        (x & 128u32) < 0x800,
        (x & 256u32) == 0u32 || (x & 256u32) == 256u32,
        (x & 256u32) < 0x800,
        (x & 512u32) == 0u32 || (x & 512u32) == 512u32,
        (x & 512u32) < 0x800,
        (x & 1024u32) == 0u32 || (x & 1024u32) == 1024u32,
        (x & 1024u32) < 0x800,
{
}

/// Once the images of the 11 unit registers after `n` steps are known, every register's
/// image after `n` steps is the linear map with those columns.
proof fn lemma_pilot_iter_columns(
    n: nat, c0: u32, c1: u32, c2: u32, c3: u32, c4: u32, c5: u32, c6: u32, c7: u32, c8: u32,
    c9: u32, c10: u32,
)
    requires
        pilot_lfsr_iter(n, 1u32) == c0,
        pilot_lfsr_iter(n, 2u32) == c1,
        pilot_lfsr_iter(n, 4u32) == c2,
        pilot_lfsr_iter(n, 8u32) == c3,
        pilot_lfsr_iter(n, 16u32) == c4,
        pilot_lfsr_iter(n, 32u32) == c5,
        pilot_lfsr_iter(n, 64u32) == c6,
        pilot_lfsr_iter(n, 128u32) == c7,
        pilot_lfsr_iter(n, 256u32) == c8,
        pilot_lfsr_iter(n, 512u32) == c9,
        pilot_lfsr_iter(n, 1024u32) == c10,
    ensures
        forall|x: u32|
            x < 0x800 ==> #[trigger] pilot_lfsr_iter(n, x) == pilot_linear_map(
                c0, c1, c2, c3, c4, c5, c6, c7, c8, c9, c10,
                x,
            ),
{
    assert forall|x: u32| x < 0x800 implies #[trigger] pilot_lfsr_iter(n, x) == pilot_linear_map(
        c0, c1, c2, c3, c4, c5, c6, c7, c8, c9, c10,
        x,
    ) by {
        lemma_pilot_bits(x);
        lemma_pilot_iter_linear(n, 0, 0);
        lemma_pilot_iter_linear(n, (x & 1u32), x & 2u32);
        lemma_pilot_iter_linear(n, ((x & 1u32) ^ (x & 2u32)), x & 4u32);
        lemma_pilot_iter_linear(n, (((x & 1u32) ^ (x & 2u32)) ^ (x & 4u32)), x & 8u32);
        lemma_pilot_iter_linear(n, ((((x & 1u32) ^ (x & 2u32)) ^ (x & 4u32)) ^ (x & 8u32)), x & 16u32);
        lemma_pilot_iter_linear(n, (((((x & 1u32) ^ (x & 2u32)) ^ (x & 4u32)) ^ (x & 8u32)) ^ (x & 16u32)), x & 32u32);
        lemma_pilot_iter_linear(n, ((((((x & 1u32) ^ (x & 2u32)) ^ (x & 4u32)) ^ (x & 8u32)) ^ (x & 16u32)) ^ (x & 32u32)), x & 64u32);
        lemma_pilot_iter_linear(n, (((((((x & 1u32) ^ (x & 2u32)) ^ (x & 4u32)) ^ (x & 8u32)) ^ (x & 16u32)) ^ (x & 32u32)) ^ (x & 64u32)), x & 128u32);
        lemma_pilot_iter_linear(n, ((((((((x & 1u32) ^ (x & 2u32)) ^ (x & 4u32)) ^ (x & 8u32)) ^ (x & 16u32)) ^ (x & 32u32)) ^ (x & 64u32)) ^ (x & 128u32)), x & 256u32);
        lemma_pilot_iter_linear(n, (((((((((x & 1u32) ^ (x & 2u32)) ^ (x & 4u32)) ^ (x & 8u32)) ^ (x & 16u32)) ^ (x & 32u32)) ^ (x & 64u32)) ^ (x & 128u32)) ^ (x & 256u32)), x & 512u32);
        lemma_pilot_iter_linear(n, ((((((((((x & 1u32) ^ (x & 2u32)) ^ (x & 4u32)) ^ (x & 8u32)) ^ (x & 16u32)) ^ (x & 32u32)) ^ (x & 64u32)) ^ (x & 128u32)) ^ (x & 256u32)) ^ (x & 512u32)), x & 1024u32);
    }
}

/// Doubling: from the columns after `a` steps and their images, the columns after `2a` steps.
proof fn lemma_pilot_double(
    a: nat, c0: u32, c1: u32, c2: u32, c3: u32, c4: u32, c5: u32, c6: u32, c7: u32, c8: u32,
    c9: u32, c10: u32, d0: u32, d1: u32, d2: u32, d3: u32, d4: u32, d5: u32, d6: u32, d7: u32, d8: u32, d9: u32, d10: u32,
)
    requires
        pilot_lfsr_iter(a, 1u32) == c0,
        c0 < 0x800,
        pilot_linear_map(c0, c1, c2, c3, c4, c5, c6, c7, c8, c9, c10, c0) == d0,
        pilot_lfsr_iter(a, 2u32) == c1,
        c1 < 0x800,
        pilot_linear_map(c0, c1, c2, c3, c4, c5, c6, c7, c8, c9, c10, c1) == d1,
        pilot_lfsr_iter(a, 4u32) == c2,
        c2 < 0x800,
        pilot_linear_map(c0, c1, c2, c3, c4, c5, c6, c7, c8, c9, c10, c2) == d2,
        pilot_lfsr_iter(a, 8u32) == c3,
        c3 < 0x800,
        pilot_linear_map(c0, c1, c2, c3, c4, c5, c6, c7, c8, c9, c10, c3) == d3,
        pilot_lfsr_iter(a, 16u32) == c4,
        c4 < 0x800,
        pilot_linear_map(c0, c1, c2, c3, c4, c5, c6, c7, c8, c9, c10, c4) == d4,
        pilot_lfsr_iter(a, 32u32) == c5,
        c5 < 0x800,
        pilot_linear_map(c0, c1, c2, c3, c4, c5, c6, c7, c8, c9, c10, c5) == d5,
        pilot_lfsr_iter(a, 64u32) == c6,
        c6 < 0x800,
        pilot_linear_map(c0, c1, c2, c3, c4, c5, c6, c7, c8, c9, c10, c6) == d6,
        pilot_lfsr_iter(a, 128u32) == c7,
        c7 < 0x800,
        pilot_linear_map(c0, c1, c2, c3, c4, c5, c6, c7, c8, c9, c10, c7) == d7,
        pilot_lfsr_iter(a, 256u32) == c8,
        c8 < 0x800,
        pilot_linear_map(c0, c1, c2, c3, c4, c5, c6, c7, c8, c9, c10, c8) == d8,
        pilot_lfsr_iter(a, 512u32) == c9,
        c9 < 0x800,
        pilot_linear_map(c0, c1, c2, c3, c4, c5, c6, c7, c8, c9, c10, c9) == d9,
        pilot_lfsr_iter(a, 1024u32) == c10,
        c10 < 0x800,
        pilot_linear_map(c0, c1, c2, c3, c4, c5, c6, c7, c8, c9, c10, c10) == d10,
    ensures
        pilot_lfsr_iter(a + a, 1u32) == d0,
        pilot_lfsr_iter(a + a, 2u32) == d1,
        pilot_lfsr_iter(a + a, 4u32) == d2,
        pilot_lfsr_iter(a + a, 8u32) == d3,
        pilot_lfsr_iter(a + a, 16u32) == d4,
        pilot_lfsr_iter(a + a, 32u32) == d5,
        pilot_lfsr_iter(a + a, 64u32) == d6,
        pilot_lfsr_iter(a + a, 128u32) == d7,
        pilot_lfsr_iter(a + a, 256u32) == d8,
        pilot_lfsr_iter(a + a, 512u32) == d9,
        pilot_lfsr_iter(a + a, 1024u32) == d10,
{
    lemma_pilot_iter_columns(a, c0, c1, c2, c3, c4, c5, c6, c7, c8, c9, c10);
    lemma_pilot_iter_compose(a, a, 1u32);
    lemma_pilot_iter_compose(a, a, 2u32);
    lemma_pilot_iter_compose(a, a, 4u32);
    lemma_pilot_iter_compose(a, a, 8u32);
    lemma_pilot_iter_compose(a, a, 16u32);
    lemma_pilot_iter_compose(a, a, 32u32);
    lemma_pilot_iter_compose(a, a, 64u32);
    lemma_pilot_iter_compose(a, a, 128u32);
    lemma_pilot_iter_compose(a, a, 256u32);
    lemma_pilot_iter_compose(a, a, 512u32);
    lemma_pilot_iter_compose(a, a, 1024u32);
}

proof fn lemma_pilot_concrete()
    by (bit_vector)
    ensures
        pilot_lfsr_step(0x001u32) == 0x400u32,
        pilot_lfsr_step(0x002u32) == 0x001u32,
        pilot_lfsr_step(0x004u32) == 0x402u32,
        pilot_lfsr_step(0x008u32) == 0x004u32,
        pilot_lfsr_step(0x010u32) == 0x008u32,
        pilot_lfsr_step(0x020u32) == 0x010u32,
        pilot_lfsr_step(0x040u32) == 0x020u32,
        pilot_lfsr_step(0x080u32) == 0x040u32,
        pilot_lfsr_step(0x100u32) == 0x080u32,
        pilot_lfsr_step(0x200u32) == 0x100u32,
        pilot_lfsr_step(0x400u32) == 0x200u32,
        pilot_linear_map(0x400u32, 0x001u32, 0x402u32, 0x004u32, 0x008u32, 0x010u32, 0x020u32, 0x040u32, 0x080u32, 0x100u32, 0x200u32, 0x400u32) == 0x200u32,
        pilot_linear_map(0x400u32, 0x001u32, 0x402u32, 0x004u32, 0x008u32, 0x010u32, 0x020u32, 0x040u32, 0x080u32, 0x100u32, 0x200u32, 0x001u32) == 0x400u32,
        pilot_linear_map(0x400u32, 0x001u32, 0x402u32, 0x004u32, 0x008u32, 0x010u32, 0x020u32, 0x040u32, 0x080u32, 0x100u32, 0x200u32, 0x402u32) == 0x201u32,
        pilot_linear_map(0x400u32, 0x001u32, 0x402u32, 0x004u32, 0x008u32, 0x010u32, 0x020u32, 0x040u32, 0x080u32, 0x100u32, 0x200u32, 0x004u32) == 0x402u32,
        pilot_linear_map(0x400u32, 0x001u32, 0x402u32, 0x004u32, 0x008u32, 0x010u32, 0x020u32, 0x040u32, 0x080u32, 0x100u32, 0x200u32, 0x008u32) == 0x004u32,
        pilot_linear_map(0x400u32, 0x001u32, 0x402u32, 0x004u32, 0x008u32, 0x010u32, 0x020u32, 0x040u32, 0x080u32, 0x100u32, 0x200u32, 0x010u32) == 0x008u32,
        pilot_linear_map(0x400u32, 0x001u32, 0x402u32, 0x004u32, 0x008u32, 0x010u32, 0x020u32, 0x040u32, 0x080u32, 0x100u32, 0x200u32, 0x020u32) == 0x010u32,
        pilot_linear_map(0x400u32, 0x001u32, 0x402u32, 0x004u32, 0x008u32, 0x010u32, 0x020u32, 0x040u32, 0x080u32, 0x100u32, 0x200u32, 0x040u32) == 0x020u32,
        pilot_linear_map(0x400u32, 0x001u32, 0x402u32, 0x004u32, 0x008u32, 0x010u32, 0x020u32, 0x040u32, 0x080u32, 0x100u32, 0x200u32, 0x080u32) == 0x040u32,
        pilot_linear_map(0x400u32, 0x001u32, 0x402u32, 0x004u32, 0x008u32, 0x010u32, 0x020u32, 0x040u32, 0x080u32, 0x100u32, 0x200u32, 0x100u32) == 0x080u32,
        pilot_linear_map(0x400u32, 0x001u32, 0x402u32, 0x004u32, 0x008u32, 0x010u32, 0x020u32, 0x040u32, 0x080u32, 0x100u32, 0x200u32, 0x200u32) == 0x100u32,
        pilot_linear_map(0x200u32, 0x400u32, 0x201u32, 0x402u32, 0x004u32, 0x008u32, 0x010u32, 0x020u32, 0x040u32, 0x080u32, 0x100u32, 0x200u32) == 0x080u32,
        pilot_linear_map(0x200u32, 0x400u32, 0x201u32, 0x402u32, 0x004u32, 0x008u32, 0x010u32, 0x020u32, 0x040u32, 0x080u32, 0x100u32, 0x400u32) == 0x100u32,
        pilot_linear_map(0x200u32, 0x400u32, 0x201u32, 0x402u32, 0x004u32, 0x008u32, 0x010u32, 0x020u32, 0x040u32, 0x080u32, 0x100u32, 0x201u32) == 0x280u32,
        pilot_linear_map(0x200u32, 0x400u32, 0x201u32, 0x402u32, 0x004u32, 0x008u32, 0x010u32, 0x020u32, 0x040u32, 0x080u32, 0x100u32, 0x402u32) == 0x500u32,
        pilot_linear_map(0x200u32, 0x400u32, 0x201u32, 0x402u32, 0x004u32, 0x008u32, 0x010u32, 0x020u32, 0x040u32, 0x080u32, 0x100u32, 0x004u32) == 0x201u32,
        pilot_linear_map(0x200u32, 0x400u32, 0x201u32, 0x402u32, 0x004u32, 0x008u32, 0x010u32, 0x020u32, 0x040u32, 0x080u32, 0x100u32, 0x008u32) == 0x402u32,
        pilot_linear_map(0x200u32, 0x400u32, 0x201u32, 0x402u32, 0x004u32, 0x008u32, 0x010u32, 0x020u32, 0x040u32, 0x080u32, 0x100u32, 0x010u32) == 0x004u32,
        pilot_linear_map(0x200u32, 0x400u32, 0x201u32, 0x402u32, 0x004u32, 0x008u32, 0x010u32, 0x020u32, 0x040u32, 0x080u32, 0x100u32, 0x020u32) == 0x008u32,
        pilot_linear_map(0x200u32, 0x400u32, 0x201u32, 0x402u32, 0x004u32, 0x008u32, 0x010u32, 0x020u32, 0x040u32, 0x080u32, 0x100u32, 0x040u32) == 0x010u32,
        pilot_linear_map(0x200u32, 0x400u32, 0x201u32, 0x402u32, 0x004u32, 0x008u32, 0x010u32, 0x020u32, 0x040u32, 0x080u32, 0x100u32, 0x080u32) == 0x020u32,
        pilot_linear_map(0x200u32, 0x400u32, 0x201u32, 0x402u32, 0x004u32, 0x008u32, 0x010u32, 0x020u32, 0x040u32, 0x080u32, 0x100u32, 0x100u32) == 0x040u32,
        pilot_linear_map(0x080u32, 0x100u32, 0x280u32, 0x500u32, 0x201u32, 0x402u32, 0x004u32, 0x008u32, 0x010u32, 0x020u32, 0x040u32, 0x080u32) == 0x008u32,
        pilot_linear_map(0x080u32, 0x100u32, 0x280u32, 0x500u32, 0x201u32, 0x402u32, 0x004u32, 0x008u32, 0x010u32, 0x020u32, 0x040u32, 0x100u32) == 0x010u32,
        pilot_linear_map(0x080u32, 0x100u32, 0x280u32, 0x500u32, 0x201u32, 0x402u32, 0x004u32, 0x008u32, 0x010u32, 0x020u32, 0x040u32, 0x280u32) == 0x028u32,
        pilot_linear_map(0x080u32, 0x100u32, 0x280u32, 0x500u32, 0x201u32, 0x402u32, 0x004u32, 0x008u32, 0x010u32, 0x020u32, 0x040u32, 0x500u32) == 0x050u32,
        pilot_linear_map(0x080u32, 0x100u32, 0x280u32, 0x500u32, 0x201u32, 0x402u32, 0x004u32, 0x008u32, 0x010u32, 0x020u32, 0x040u32, 0x201u32) == 0x0a0u32,
        pilot_linear_map(0x080u32, 0x100u32, 0x280u32, 0x500u32, 0x201u32, 0x402u32, 0x004u32, 0x008u32, 0x010u32, 0x020u32, 0x040u32, 0x402u32) == 0x140u32,
        pilot_linear_map(0x080u32, 0x100u32, 0x280u32, 0x500u32, 0x201u32, 0x402u32, 0x004u32, 0x008u32, 0x010u32, 0x020u32, 0x040u32, 0x004u32) == 0x280u32,
        pilot_linear_map(0x080u32, 0x100u32, 0x280u32, 0x500u32, 0x201u32, 0x402u32, 0x004u32, 0x008u32, 0x010u32, 0x020u32, 0x040u32, 0x008u32) == 0x500u32,
        pilot_linear_map(0x080u32, 0x100u32, 0x280u32, 0x500u32, 0x201u32, 0x402u32, 0x004u32, 0x008u32, 0x010u32, 0x020u32, 0x040u32, 0x010u32) == 0x201u32,
        pilot_linear_map(0x080u32, 0x100u32, 0x280u32, 0x500u32, 0x201u32, 0x402u32, 0x004u32, 0x008u32, 0x010u32, 0x020u32, 0x040u32, 0x020u32) == 0x402u32,
        pilot_linear_map(0x080u32, 0x100u32, 0x280u32, 0x500u32, 0x201u32, 0x402u32, 0x004u32, 0x008u32, 0x010u32, 0x020u32, 0x040u32, 0x040u32) == 0x004u32,
        pilot_linear_map(0x008u32, 0x010u32, 0x028u32, 0x050u32, 0x0a0u32, 0x140u32, 0x280u32, 0x500u32, 0x201u32, 0x402u32, 0x004u32, 0x008u32) == 0x050u32,
        pilot_linear_map(0x008u32, 0x010u32, 0x028u32, 0x050u32, 0x0a0u32, 0x140u32, 0x280u32, 0x500u32, 0x201u32, 0x402u32, 0x004u32, 0x010u32) == 0x0a0u32,
        pilot_linear_map(0x008u32, 0x010u32, 0x028u32, 0x050u32, 0x0a0u32, 0x140u32, 0x280u32, 0x500u32, 0x201u32, 0x402u32, 0x004u32, 0x028u32) == 0x110u32,
        pilot_linear_map(0x008u32, 0x010u32, 0x028u32, 0x050u32, 0x0a0u32, 0x140u32, 0x280u32, 0x500u32, 0x201u32, 0x402u32, 0x004u32, 0x050u32) == 0x220u32,
        pilot_linear_map(0x008u32, 0x010u32, 0x028u32, 0x050u32, 0x0a0u32, 0x140u32, 0x280u32, 0x500u32, 0x201u32, 0x402u32, 0x004u32, 0x0a0u32) == 0x440u32,
        pilot_linear_map(0x008u32, 0x010u32, 0x028u32, 0x050u32, 0x0a0u32, 0x140u32, 0x280u32, 0x500u32, 0x201u32, 0x402u32, 0x004u32, 0x140u32) == 0x081u32,
        pilot_linear_map(0x008u32, 0x010u32, 0x028u32, 0x050u32, 0x0a0u32, 0x140u32, 0x280u32, 0x500u32, 0x201u32, 0x402u32, 0x004u32, 0x280u32) == 0x102u32,
        pilot_linear_map(0x008u32, 0x010u32, 0x028u32, 0x050u32, 0x0a0u32, 0x140u32, 0x280u32, 0x500u32, 0x201u32, 0x402u32, 0x004u32, 0x500u32) == 0x205u32,
        pilot_linear_map(0x008u32, 0x010u32, 0x028u32, 0x050u32, 0x0a0u32, 0x140u32, 0x280u32, 0x500u32, 0x201u32, 0x402u32, 0x004u32, 0x201u32) == 0x40au32,
        pilot_linear_map(0x008u32, 0x010u32, 0x028u32, 0x050u32, 0x0a0u32, 0x140u32, 0x280u32, 0x500u32, 0x201u32, 0x402u32, 0x004u32, 0x402u32) == 0x014u32,
        pilot_linear_map(0x008u32, 0x010u32, 0x028u32, 0x050u32, 0x0a0u32, 0x140u32, 0x280u32, 0x500u32, 0x201u32, 0x402u32, 0x004u32, 0x004u32) == 0x028u32,
        pilot_linear_map(0x050u32, 0x0a0u32, 0x110u32, 0x220u32, 0x440u32, 0x081u32, 0x102u32, 0x205u32, 0x40au32, 0x014u32, 0x028u32, 0x050u32) == 0x542u32,
        pilot_linear_map(0x050u32, 0x0a0u32, 0x110u32, 0x220u32, 0x440u32, 0x081u32, 0x102u32, 0x205u32, 0x40au32, 0x014u32, 0x028u32, 0x0a0u32) == 0x284u32,
        pilot_linear_map(0x050u32, 0x0a0u32, 0x110u32, 0x220u32, 0x440u32, 0x081u32, 0x102u32, 0x205u32, 0x40au32, 0x014u32, 0x028u32, 0x110u32) == 0x04au32,
        pilot_linear_map(0x050u32, 0x0a0u32, 0x110u32, 0x220u32, 0x440u32, 0x081u32, 0x102u32, 0x205u32, 0x40au32, 0x014u32, 0x028u32, 0x220u32) == 0x095u32,
        pilot_linear_map(0x050u32, 0x0a0u32, 0x110u32, 0x220u32, 0x440u32, 0x081u32, 0x102u32, 0x205u32, 0x40au32, 0x014u32, 0x028u32, 0x440u32) == 0x12au32,
        pilot_linear_map(0x050u32, 0x0a0u32, 0x110u32, 0x220u32, 0x440u32, 0x081u32, 0x102u32, 0x205u32, 0x40au32, 0x014u32, 0x028u32, 0x081u32) == 0x255u32,
        pilot_linear_map(0x050u32, 0x0a0u32, 0x110u32, 0x220u32, 0x440u32, 0x081u32, 0x102u32, 0x205u32, 0x40au32, 0x014u32, 0x028u32, 0x102u32) == 0x4aau32,
        pilot_linear_map(0x050u32, 0x0a0u32, 0x110u32, 0x220u32, 0x440u32, 0x081u32, 0x102u32, 0x205u32, 0x40au32, 0x014u32, 0x028u32, 0x205u32) == 0x154u32,
        pilot_linear_map(0x050u32, 0x0a0u32, 0x110u32, 0x220u32, 0x440u32, 0x081u32, 0x102u32, 0x205u32, 0x40au32, 0x014u32, 0x028u32, 0x40au32) == 0x2a8u32,
        pilot_linear_map(0x050u32, 0x0a0u32, 0x110u32, 0x220u32, 0x440u32, 0x081u32, 0x102u32, 0x205u32, 0x40au32, 0x014u32, 0x028u32, 0x014u32) == 0x550u32,
        pilot_linear_map(0x050u32, 0x0a0u32, 0x110u32, 0x220u32, 0x440u32, 0x081u32, 0x102u32, 0x205u32, 0x40au32, 0x014u32, 0x028u32, 0x028u32) == 0x2a1u32,
        pilot_linear_map(0x542u32, 0x284u32, 0x04au32, 0x095u32, 0x12au32, 0x255u32, 0x4aau32, 0x154u32, 0x2a8u32, 0x550u32, 0x2a1u32, 0x542u32) == 0x627u32,
        pilot_linear_map(0x542u32, 0x284u32, 0x04au32, 0x095u32, 0x12au32, 0x255u32, 0x4aau32, 0x154u32, 0x2a8u32, 0x550u32, 0x2a1u32, 0x284u32) == 0x44eu32,
        pilot_linear_map(0x542u32, 0x284u32, 0x04au32, 0x095u32, 0x12au32, 0x255u32, 0x4aau32, 0x154u32, 0x2a8u32, 0x550u32, 0x2a1u32, 0x04au32) == 0x6bbu32,
        pilot_linear_map(0x542u32, 0x284u32, 0x04au32, 0x095u32, 0x12au32, 0x255u32, 0x4aau32, 0x154u32, 0x2a8u32, 0x550u32, 0x2a1u32, 0x095u32) == 0x576u32,
        pilot_linear_map(0x542u32, 0x284u32, 0x04au32, 0x095u32, 0x12au32, 0x255u32, 0x4aau32, 0x154u32, 0x2a8u32, 0x550u32, 0x2a1u32, 0x12au32) == 0x2ecu32,
        pilot_linear_map(0x542u32, 0x284u32, 0x04au32, 0x095u32, 0x12au32, 0x255u32, 0x4aau32, 0x154u32, 0x2a8u32, 0x550u32, 0x2a1u32, 0x255u32) == 0x5d8u32,
        pilot_linear_map(0x542u32, 0x284u32, 0x04au32, 0x095u32, 0x12au32, 0x255u32, 0x4aau32, 0x154u32, 0x2a8u32, 0x550u32, 0x2a1u32, 0x4aau32) == 0x3b1u32,
        pilot_linear_map(0x542u32, 0x284u32, 0x04au32, 0x095u32, 0x12au32, 0x255u32, 0x4aau32, 0x154u32, 0x2a8u32, 0x550u32, 0x2a1u32, 0x154u32) == 0x762u32,
        pilot_linear_map(0x542u32, 0x284u32, 0x04au32, 0x095u32, 0x12au32, 0x255u32, 0x4aau32, 0x154u32, 0x2a8u32, 0x550u32, 0x2a1u32, 0x2a8u32) == 0x6c4u32,
        pilot_linear_map(0x542u32, 0x284u32, 0x04au32, 0x095u32, 0x12au32, 0x255u32, 0x4aau32, 0x154u32, 0x2a8u32, 0x550u32, 0x2a1u32, 0x550u32) == 0x589u32,
        pilot_linear_map(0x542u32, 0x284u32, 0x04au32, 0x095u32, 0x12au32, 0x255u32, 0x4aau32, 0x154u32, 0x2a8u32, 0x550u32, 0x2a1u32, 0x2a1u32) == 0x313u32,
        pilot_linear_map(0x627u32, 0x44eu32, 0x6bbu32, 0x576u32, 0x2ecu32, 0x5d8u32, 0x3b1u32, 0x762u32, 0x6c4u32, 0x589u32, 0x313u32, 0x627u32) == 0x790u32,
        pilot_linear_map(0x627u32, 0x44eu32, 0x6bbu32, 0x576u32, 0x2ecu32, 0x5d8u32, 0x3b1u32, 0x762u32, 0x6c4u32, 0x589u32, 0x313u32, 0x44eu32) == 0x721u32,
        pilot_linear_map(0x627u32, 0x44eu32, 0x6bbu32, 0x576u32, 0x2ecu32, 0x5d8u32, 0x3b1u32, 0x762u32, 0x6c4u32, 0x589u32, 0x313u32, 0x6bbu32) == 0x1d3u32,
        pilot_linear_map(0x627u32, 0x44eu32, 0x6bbu32, 0x576u32, 0x2ecu32, 0x5d8u32, 0x3b1u32, 0x762u32, 0x6c4u32, 0x589u32, 0x313u32, 0x576u32) == 0x3a7u32,
        pilot_linear_map(0x627u32, 0x44eu32, 0x6bbu32, 0x576u32, 0x2ecu32, 0x5d8u32, 0x3b1u32, 0x762u32, 0x6c4u32, 0x589u32, 0x313u32, 0x2ecu32) == 0x74fu32,
        pilot_linear_map(0x627u32, 0x44eu32, 0x6bbu32, 0x576u32, 0x2ecu32, 0x5d8u32, 0x3b1u32, 0x762u32, 0x6c4u32, 0x589u32, 0x313u32, 0x5d8u32) == 0x69eu32,
        pilot_linear_map(0x627u32, 0x44eu32, 0x6bbu32, 0x576u32, 0x2ecu32, 0x5d8u32, 0x3b1u32, 0x762u32, 0x6c4u32, 0x589u32, 0x313u32, 0x3b1u32) == 0x53cu32,
        pilot_linear_map(0x627u32, 0x44eu32, 0x6bbu32, 0x576u32, 0x2ecu32, 0x5d8u32, 0x3b1u32, 0x762u32, 0x6c4u32, 0x589u32, 0x313u32, 0x762u32) == 0x279u32,
        pilot_linear_map(0x627u32, 0x44eu32, 0x6bbu32, 0x576u32, 0x2ecu32, 0x5d8u32, 0x3b1u32, 0x762u32, 0x6c4u32, 0x589u32, 0x313u32, 0x6c4u32) == 0x4f2u32,
        pilot_linear_map(0x627u32, 0x44eu32, 0x6bbu32, 0x576u32, 0x2ecu32, 0x5d8u32, 0x3b1u32, 0x762u32, 0x6c4u32, 0x589u32, 0x313u32, 0x589u32) == 0x1e4u32,
        pilot_linear_map(0x627u32, 0x44eu32, 0x6bbu32, 0x576u32, 0x2ecu32, 0x5d8u32, 0x3b1u32, 0x762u32, 0x6c4u32, 0x589u32, 0x313u32, 0x313u32) == 0x3c8u32,
        pilot_linear_map(0x790u32, 0x721u32, 0x1d3u32, 0x3a7u32, 0x74fu32, 0x69eu32, 0x53cu32, 0x279u32, 0x4f2u32, 0x1e4u32, 0x3c8u32, 0x790u32) == 0x3e8u32,
        pilot_linear_map(0x790u32, 0x721u32, 0x1d3u32, 0x3a7u32, 0x74fu32, 0x69eu32, 0x53cu32, 0x279u32, 0x4f2u32, 0x1e4u32, 0x3c8u32, 0x721u32) == 0x7d0u32,
        pilot_linear_map(0x790u32, 0x721u32, 0x1d3u32, 0x3a7u32, 0x74fu32, 0x69eu32, 0x53cu32, 0x279u32, 0x4f2u32, 0x1e4u32, 0x3c8u32, 0x1d3u32) == 0x449u32,
        pilot_linear_map(0x790u32, 0x721u32, 0x1d3u32, 0x3a7u32, 0x74fu32, 0x69eu32, 0x53cu32, 0x279u32, 0x4f2u32, 0x1e4u32, 0x3c8u32, 0x3a7u32) == 0x093u32,
        pilot_linear_map(0x790u32, 0x721u32, 0x1d3u32, 0x3a7u32, 0x74fu32, 0x69eu32, 0x53cu32, 0x279u32, 0x4f2u32, 0x1e4u32, 0x3c8u32, 0x74fu32) == 0x127u32,
        pilot_linear_map(0x790u32, 0x721u32, 0x1d3u32, 0x3a7u32, 0x74fu32, 0x69eu32, 0x53cu32, 0x279u32, 0x4f2u32, 0x1e4u32, 0x3c8u32, 0x69eu32) == 0x24fu32,
        pilot_linear_map(0x790u32, 0x721u32, 0x1d3u32, 0x3a7u32, 0x74fu32, 0x69eu32, 0x53cu32, 0x279u32, 0x4f2u32, 0x1e4u32, 0x3c8u32, 0x53cu32) == 0x49fu32,
        pilot_linear_map(0x790u32, 0x721u32, 0x1d3u32, 0x3a7u32, 0x74fu32, 0x69eu32, 0x53cu32, 0x279u32, 0x4f2u32, 0x1e4u32, 0x3c8u32, 0x279u32) == 0x13eu32,
        pilot_linear_map(0x790u32, 0x721u32, 0x1d3u32, 0x3a7u32, 0x74fu32, 0x69eu32, 0x53cu32, 0x279u32, 0x4f2u32, 0x1e4u32, 0x3c8u32, 0x4f2u32) == 0x27du32,
        pilot_linear_map(0x790u32, 0x721u32, 0x1d3u32, 0x3a7u32, 0x74fu32, 0x69eu32, 0x53cu32, 0x279u32, 0x4f2u32, 0x1e4u32, 0x3c8u32, 0x1e4u32) == 0x4fau32,
        pilot_linear_map(0x790u32, 0x721u32, 0x1d3u32, 0x3a7u32, 0x74fu32, 0x69eu32, 0x53cu32, 0x279u32, 0x4f2u32, 0x1e4u32, 0x3c8u32, 0x3c8u32) == 0x1f4u32,
        pilot_linear_map(0x3e8u32, 0x7d0u32, 0x449u32, 0x093u32, 0x127u32, 0x24fu32, 0x49fu32, 0x13eu32, 0x27du32, 0x4fau32, 0x1f4u32, 0x3e8u32) == 0x1fau32,
        pilot_linear_map(0x3e8u32, 0x7d0u32, 0x449u32, 0x093u32, 0x127u32, 0x24fu32, 0x49fu32, 0x13eu32, 0x27du32, 0x4fau32, 0x1f4u32, 0x7d0u32) == 0x3f5u32,
        pilot_linear_map(0x3e8u32, 0x7d0u32, 0x449u32, 0x093u32, 0x127u32, 0x24fu32, 0x49fu32, 0x13eu32, 0x27du32, 0x4fau32, 0x1f4u32, 0x449u32) == 0x610u32,
        pilot_linear_map(0x3e8u32, 0x7d0u32, 0x449u32, 0x093u32, 0x127u32, 0x24fu32, 0x49fu32, 0x13eu32, 0x27du32, 0x4fau32, 0x1f4u32, 0x093u32) == 0x421u32,
        pilot_linear_map(0x3e8u32, 0x7d0u32, 0x449u32, 0x093u32, 0x127u32, 0x24fu32, 0x49fu32, 0x13eu32, 0x27du32, 0x4fau32, 0x1f4u32, 0x127u32) == 0x043u32,
        pilot_linear_map(0x3e8u32, 0x7d0u32, 0x449u32, 0x093u32, 0x127u32, 0x24fu32, 0x49fu32, 0x13eu32, 0x27du32, 0x4fau32, 0x1f4u32, 0x24fu32) == 0x087u32,
        pilot_linear_map(0x3e8u32, 0x7d0u32, 0x449u32, 0x093u32, 0x127u32, 0x24fu32, 0x49fu32, 0x13eu32, 0x27du32, 0x4fau32, 0x1f4u32, 0x49fu32) == 0x10fu32,
        pilot_linear_map(0x3e8u32, 0x7d0u32, 0x449u32, 0x093u32, 0x127u32, 0x24fu32, 0x49fu32, 0x13eu32, 0x27du32, 0x4fau32, 0x1f4u32, 0x13eu32) == 0x21fu32,
        pilot_linear_map(0x3e8u32, 0x7d0u32, 0x449u32, 0x093u32, 0x127u32, 0x24fu32, 0x49fu32, 0x13eu32, 0x27du32, 0x4fau32, 0x1f4u32, 0x27du32) == 0x43fu32,
        pilot_linear_map(0x3e8u32, 0x7d0u32, 0x449u32, 0x093u32, 0x127u32, 0x24fu32, 0x49fu32, 0x13eu32, 0x27du32, 0x4fau32, 0x1f4u32, 0x4fau32) == 0x07eu32,
        pilot_linear_map(0x3e8u32, 0x7d0u32, 0x449u32, 0x093u32, 0x127u32, 0x24fu32, 0x49fu32, 0x13eu32, 0x27du32, 0x4fau32, 0x1f4u32, 0x1f4u32) == 0x0fdu32,
        pilot_linear_map(0x1fau32, 0x3f5u32, 0x610u32, 0x421u32, 0x043u32, 0x087u32, 0x10fu32, 0x21fu32, 0x43fu32, 0x07eu32, 0x0fdu32, 0x1fau32) == 0x03fu32,
        pilot_linear_map(0x1fau32, 0x3f5u32, 0x610u32, 0x421u32, 0x043u32, 0x087u32, 0x10fu32, 0x21fu32, 0x43fu32, 0x07eu32, 0x0fdu32, 0x3f5u32) == 0x07fu32,
        pilot_linear_map(0x1fau32, 0x3f5u32, 0x610u32, 0x421u32, 0x043u32, 0x087u32, 0x10fu32, 0x21fu32, 0x43fu32, 0x07eu32, 0x0fdu32, 0x610u32) == 0x0c0u32,
        pilot_linear_map(0x1fau32, 0x3f5u32, 0x610u32, 0x421u32, 0x043u32, 0x087u32, 0x10fu32, 0x21fu32, 0x43fu32, 0x07eu32, 0x0fdu32, 0x421u32) == 0x180u32,
        pilot_linear_map(0x1fau32, 0x3f5u32, 0x610u32, 0x421u32, 0x043u32, 0x087u32, 0x10fu32, 0x21fu32, 0x43fu32, 0x07eu32, 0x0fdu32, 0x043u32) == 0x300u32,
        pilot_linear_map(0x1fau32, 0x3f5u32, 0x610u32, 0x421u32, 0x043u32, 0x087u32, 0x10fu32, 0x21fu32, 0x43fu32, 0x07eu32, 0x0fdu32, 0x087u32) == 0x600u32,
        pilot_linear_map(0x1fau32, 0x3f5u32, 0x610u32, 0x421u32, 0x043u32, 0x087u32, 0x10fu32, 0x21fu32, 0x43fu32, 0x07eu32, 0x0fdu32, 0x10fu32) == 0x401u32,
        pilot_linear_map(0x1fau32, 0x3f5u32, 0x610u32, 0x421u32, 0x043u32, 0x087u32, 0x10fu32, 0x21fu32, 0x43fu32, 0x07eu32, 0x0fdu32, 0x21fu32) == 0x003u32,
        pilot_linear_map(0x1fau32, 0x3f5u32, 0x610u32, 0x421u32, 0x043u32, 0x087u32, 0x10fu32, 0x21fu32, 0x43fu32, 0x07eu32, 0x0fdu32, 0x43fu32) == 0x007u32,
        pilot_linear_map(0x1fau32, 0x3f5u32, 0x610u32, 0x421u32, 0x043u32, 0x087u32, 0x10fu32, 0x21fu32, 0x43fu32, 0x07eu32, 0x0fdu32, 0x07eu32) == 0x00fu32,
        pilot_linear_map(0x1fau32, 0x3f5u32, 0x610u32, 0x421u32, 0x043u32, 0x087u32, 0x10fu32, 0x21fu32, 0x43fu32, 0x07eu32, 0x0fdu32, 0x0fdu32) == 0x01fu32,
        pilot_linear_map(0x400u32, 0x001u32, 0x402u32, 0x004u32, 0x008u32, 0x010u32, 0x020u32, 0x040u32, 0x080u32, 0x100u32, 0x200u32, 0x7ffu32) == 0x3ffu32,
        pilot_linear_map(0x200u32, 0x400u32, 0x201u32, 0x402u32, 0x004u32, 0x008u32, 0x010u32, 0x020u32, 0x040u32, 0x080u32, 0x100u32, 0x3ffu32) == 0x0ffu32,
        pilot_linear_map(0x080u32, 0x100u32, 0x280u32, 0x500u32, 0x201u32, 0x402u32, 0x004u32, 0x008u32, 0x010u32, 0x020u32, 0x040u32, 0x0ffu32) == 0x00fu32,
        pilot_linear_map(0x008u32, 0x010u32, 0x028u32, 0x050u32, 0x0a0u32, 0x140u32, 0x280u32, 0x500u32, 0x201u32, 0x402u32, 0x004u32, 0x00fu32) == 0x060u32,
        pilot_linear_map(0x050u32, 0x0a0u32, 0x110u32, 0x220u32, 0x440u32, 0x081u32, 0x102u32, 0x205u32, 0x40au32, 0x014u32, 0x028u32, 0x060u32) == 0x183u32,
        pilot_linear_map(0x542u32, 0x284u32, 0x04au32, 0x095u32, 0x12au32, 0x255u32, 0x4aau32, 0x154u32, 0x2a8u32, 0x550u32, 0x2a1u32, 0x183u32) == 0x43au32,
        pilot_linear_map(0x627u32, 0x44eu32, 0x6bbu32, 0x576u32, 0x2ecu32, 0x5d8u32, 0x3b1u32, 0x762u32, 0x6c4u32, 0x589u32, 0x313u32, 0x43au32) == 0x51fu32,
        pilot_linear_map(0x790u32, 0x721u32, 0x1d3u32, 0x3a7u32, 0x74fu32, 0x69eu32, 0x53cu32, 0x279u32, 0x4f2u32, 0x1e4u32, 0x3c8u32, 0x51fu32) == 0x2b0u32,
        pilot_linear_map(0x3e8u32, 0x7d0u32, 0x449u32, 0x093u32, 0x127u32, 0x24fu32, 0x49fu32, 0x13eu32, 0x27du32, 0x4fau32, 0x1f4u32, 0x2b0u32) == 0x6acu32,
        pilot_linear_map(0x1fau32, 0x3f5u32, 0x610u32, 0x421u32, 0x043u32, 0x087u32, 0x10fu32, 0x21fu32, 0x43fu32, 0x07eu32, 0x0fdu32, 0x6acu32) == 0x02au32,
        pilot_linear_map(0x03fu32, 0x07fu32, 0x0c0u32, 0x180u32, 0x300u32, 0x600u32, 0x401u32, 0x003u32, 0x007u32, 0x00fu32, 0x01fu32, 0x02au32) == 0x7ffu32,
{
}

/// 2047 steps bring the all-ones register back to itself.
proof fn lemma_pilot_cycle()
    ensures
        pilot_lfsr_iter(2047, 0x7ffu32) == 0x7ffu32,
{
    lemma_pilot_concrete();
    assert(pilot_lfsr_iter(0, 0x001u32) == 0x001u32);
    assert(pilot_lfsr_iter(1, 0x001u32) == pilot_lfsr_step(0x001u32));
    assert(pilot_lfsr_iter(0, 0x002u32) == 0x002u32);
    assert(pilot_lfsr_iter(1, 0x002u32) == pilot_lfsr_step(0x002u32));
    assert(pilot_lfsr_iter(0, 0x004u32) == 0x004u32);
    assert(pilot_lfsr_iter(1, 0x004u32) == pilot_lfsr_step(0x004u32));
    assert(pilot_lfsr_iter(0, 0x008u32) == 0x008u32);
    assert(pilot_lfsr_iter(1, 0x008u32) == pilot_lfsr_step(0x008u32));
    assert(pilot_lfsr_iter(0, 0x010u32) == 0x010u32);
    assert(pilot_lfsr_iter(1, 0x010u32) == pilot_lfsr_step(0x010u32));
    assert(pilot_lfsr_iter(0, 0x020u32) == 0x020u32);
    assert(pilot_lfsr_iter(1, 0x020u32) == pilot_lfsr_step(0x020u32));
    assert(pilot_lfsr_iter(0, 0x040u32) == 0x040u32);
    assert(pilot_lfsr_iter(1, 0x040u32) == pilot_lfsr_step(0x040u32));
    assert(pilot_lfsr_iter(0, 0x080u32) == 0x080u32);
    assert(pilot_lfsr_iter(1, 0x080u32) == pilot_lfsr_step(0x080u32));
    assert(pilot_lfsr_iter(0, 0x100u32) == 0x100u32);
    assert(pilot_lfsr_iter(1, 0x100u32) == pilot_lfsr_step(0x100u32));
    assert(pilot_lfsr_iter(0, 0x200u32) == 0x200u32);
    assert(pilot_lfsr_iter(1, 0x200u32) == pilot_lfsr_step(0x200u32));
    assert(pilot_lfsr_iter(0, 0x400u32) == 0x400u32);
    assert(pilot_lfsr_iter(1, 0x400u32) == pilot_lfsr_step(0x400u32));
    lemma_pilot_double(
        1,
        0x400u32, 0x001u32, 0x402u32, 0x004u32, 0x008u32, 0x010u32, 0x020u32, 0x040u32, 0x080u32, 0x100u32, 0x200u32,
        0x200u32, 0x400u32, 0x201u32, 0x402u32, 0x004u32, 0x008u32, 0x010u32, 0x020u32, 0x040u32, 0x080u32, 0x100u32,
    );
    lemma_pilot_double(
        2,
        0x200u32, 0x400u32, 0x201u32, 0x402u32, 0x004u32, 0x008u32, 0x010u32, 0x020u32, 0x040u32, 0x080u32, 0x100u32,
        0x080u32, 0x100u32, 0x280u32, 0x500u32, 0x201u32, 0x402u32, 0x004u32, 0x008u32, 0x010u32, 0x020u32, 0x040u32,
    );
    lemma_pilot_double(
        4,
        0x080u32, 0x100u32, 0x280u32, 0x500u32, 0x201u32, 0x402u32, 0x004u32, 0x008u32, 0x010u32, 0x020u32, 0x040u32,
        0x008u32, 0x010u32, 0x028u32, 0x050u32, 0x0a0u32, 0x140u32, 0x280u32, 0x500u32, 0x201u32, 0x402u32, 0x004u32,
    );
    lemma_pilot_double(
        8,
        0x008u32, 0x010u32, 0x028u32, 0x050u32, 0x0a0u32, 0x140u32, 0x280u32, 0x500u32, 0x201u32, 0x402u32, 0x004u32,
        0x050u32, 0x0a0u32, 0x110u32, 0x220u32, 0x440u32, 0x081u32, 0x102u32, 0x205u32, 0x40au32, 0x014u32, 0x028u32,
    );
    lemma_pilot_double(
        16,
        0x050u32, 0x0a0u32, 0x110u32, 0x220u32, 0x440u32, 0x081u32, 0x102u32, 0x205u32, 0x40au32, 0x014u32, 0x028u32,
        0x542u32, 0x284u32, 0x04au32, 0x095u32, 0x12au32, 0x255u32, 0x4aau32, 0x154u32, 0x2a8u32, 0x550u32, 0x2a1u32,
    );
    lemma_pilot_double(
        32,
        0x542u32, 0x284u32, 0x04au32, 0x095u32, 0x12au32, 0x255u32, 0x4aau32, 0x154u32, 0x2a8u32, 0x550u32, 0x2a1u32,
        0x627u32, 0x44eu32, 0x6bbu32, 0x576u32, 0x2ecu32, 0x5d8u32, 0x3b1u32, 0x762u32, 0x6c4u32, 0x589u32, 0x313u32,
    );
    lemma_pilot_double(
        64,
        0x627u32, 0x44eu32, 0x6bbu32, 0x576u32, 0x2ecu32, 0x5d8u32, 0x3b1u32, 0x762u32, 0x6c4u32, 0x589u32, 0x313u32,
        0x790u32, 0x721u32, 0x1d3u32, 0x3a7u32, 0x74fu32, 0x69eu32, 0x53cu32, 0x279u32, 0x4f2u32, 0x1e4u32, 0x3c8u32,
    );
    lemma_pilot_double(
        128,
        0x790u32, 0x721u32, 0x1d3u32, 0x3a7u32, 0x74fu32, 0x69eu32, 0x53cu32, 0x279u32, 0x4f2u32, 0x1e4u32, 0x3c8u32,
        0x3e8u32, 0x7d0u32, 0x449u32, 0x093u32, 0x127u32, 0x24fu32, 0x49fu32, 0x13eu32, 0x27du32, 0x4fau32, 0x1f4u32,
    );
    lemma_pilot_double(
        256,
        0x3e8u32, 0x7d0u32, 0x449u32, 0x093u32, 0x127u32, 0x24fu32, 0x49fu32, 0x13eu32, 0x27du32, 0x4fau32, 0x1f4u32,
        0x1fau32, 0x3f5u32, 0x610u32, 0x421u32, 0x043u32, 0x087u32, 0x10fu32, 0x21fu32, 0x43fu32, 0x07eu32, 0x0fdu32,
    );
    lemma_pilot_double(
        512,
        0x1fau32, 0x3f5u32, 0x610u32, 0x421u32, 0x043u32, 0x087u32, 0x10fu32, 0x21fu32, 0x43fu32, 0x07eu32, 0x0fdu32,
        0x03fu32, 0x07fu32, 0x0c0u32, 0x180u32, 0x300u32, 0x600u32, 0x401u32, 0x003u32, 0x007u32, 0x00fu32, 0x01fu32,
    );
    assert(pilot_lfsr_iter(0, 0x7ffu32) == 0x7ffu32);
    lemma_pilot_iter_columns(1, 0x400u32, 0x001u32, 0x402u32, 0x004u32, 0x008u32, 0x010u32, 0x020u32, 0x040u32, 0x080u32, 0x100u32, 0x200u32);
    lemma_pilot_iter_compose(1, 0, 0x7ffu32);
    assert(pilot_lfsr_iter(1, 0x7ffu32) == 0x3ffu32);
    lemma_pilot_iter_columns(2, 0x200u32, 0x400u32, 0x201u32, 0x402u32, 0x004u32, 0x008u32, 0x010u32, 0x020u32, 0x040u32, 0x080u32, 0x100u32);
    lemma_pilot_iter_compose(2, 1, 0x7ffu32);
    assert(pilot_lfsr_iter(2, 0x3ffu32) == 0x0ffu32);
    lemma_pilot_iter_columns(4, 0x080u32, 0x100u32, 0x280u32, 0x500u32, 0x201u32, 0x402u32, 0x004u32, 0x008u32, 0x010u32, 0x020u32, 0x040u32);
    lemma_pilot_iter_compose(4, 3, 0x7ffu32);
    assert(pilot_lfsr_iter(4, 0x0ffu32) == 0x00fu32);
    lemma_pilot_iter_columns(8, 0x008u32, 0x010u32, 0x028u32, 0x050u32, 0x0a0u32, 0x140u32, 0x280u32, 0x500u32, 0x201u32, 0x402u32, 0x004u32);
    lemma_pilot_iter_compose(8, 7, 0x7ffu32);
    assert(pilot_lfsr_iter(8, 0x00fu32) == 0x060u32);
    lemma_pilot_iter_columns(16, 0x050u32, 0x0a0u32, 0x110u32, 0x220u32, 0x440u32, 0x081u32, 0x102u32, 0x205u32, 0x40au32, 0x014u32, 0x028u32);
    lemma_pilot_iter_compose(16, 15, 0x7ffu32);
    assert(pilot_lfsr_iter(16, 0x060u32) == 0x183u32);
    lemma_pilot_iter_columns(32, 0x542u32, 0x284u32, 0x04au32, 0x095u32, 0x12au32, 0x255u32, 0x4aau32, 0x154u32, 0x2a8u32, 0x550u32, 0x2a1u32);
    lemma_pilot_iter_compose(32, 31, 0x7ffu32);
    assert(pilot_lfsr_iter(32, 0x183u32) == 0x43au32);
    lemma_pilot_iter_columns(64, 0x627u32, 0x44eu32, 0x6bbu32, 0x576u32, 0x2ecu32, 0x5d8u32, 0x3b1u32, 0x762u32, 0x6c4u32, 0x589u32, 0x313u32);
    lemma_pilot_iter_compose(64, 63, 0x7ffu32);
    assert(pilot_lfsr_iter(64, 0x43au32) == 0x51fu32);
    lemma_pilot_iter_columns(128, 0x790u32, 0x721u32, 0x1d3u32, 0x3a7u32, 0x74fu32, 0x69eu32, 0x53cu32, 0x279u32, 0x4f2u32, 0x1e4u32, 0x3c8u32);
    lemma_pilot_iter_compose(128, 127, 0x7ffu32);
    assert(pilot_lfsr_iter(128, 0x51fu32) == 0x2b0u32);
    lemma_pilot_iter_columns(256, 0x3e8u32, 0x7d0u32, 0x449u32, 0x093u32, 0x127u32, 0x24fu32, 0x49fu32, 0x13eu32, 0x27du32, 0x4fau32, 0x1f4u32);
    lemma_pilot_iter_compose(256, 255, 0x7ffu32);
    assert(pilot_lfsr_iter(256, 0x2b0u32) == 0x6acu32);
    lemma_pilot_iter_columns(512, 0x1fau32, 0x3f5u32, 0x610u32, 0x421u32, 0x043u32, 0x087u32, 0x10fu32, 0x21fu32, 0x43fu32, 0x07eu32, 0x0fdu32);
    lemma_pilot_iter_compose(512, 511, 0x7ffu32);
    assert(pilot_lfsr_iter(512, 0x6acu32) == 0x02au32);
    lemma_pilot_iter_columns(1024, 0x03fu32, 0x07fu32, 0x0c0u32, 0x180u32, 0x300u32, 0x600u32, 0x401u32, 0x003u32, 0x007u32, 0x00fu32, 0x01fu32);
    lemma_pilot_iter_compose(1024, 1023, 0x7ffu32);
    assert(pilot_lfsr_iter(1024, 0x02au32) == 0x7ffu32);
}

/// The pilot register after `n` steps from the all-ones start.
proof fn lemma_pilot_state_iter(n: nat)
    ensures
        pilot_lfsr_state(n) == pilot_lfsr_iter(n, 0x7ffu32),
    decreases n,
{
    if n > 0 {
        lemma_pilot_state_iter((n - 1) as nat);
    }
}

/// The pilot PRBS repeats with period 2047 (= 2^11 - 1, a maximal-length sequence).
pub proof fn lemma_pilot_prbs_period(n: nat)
    ensures
        pilot_prbs_bit(n + 2047) == pilot_prbs_bit(n),
{
    lemma_pilot_cycle();
    lemma_pilot_state_iter(n);
    lemma_pilot_state_iter(n + 2047);
    lemma_pilot_iter_compose(n, 2047, 0x7ffu32);
}

} // verus!
