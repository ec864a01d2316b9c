//! Inner code: the K=7, rate-1/2 convolutional code of ISDB-T/DVB-T
//! (generators G1 = 0o171 for output X and G2 = 0o133 for output Y) and its puncturing.
//!
//! The encoder state holds the last six input bits, the newest in bit 5.

use vstd::prelude::*;
use vstd::arithmetic::div_mod::{lemma_fundamental_div_mod, lemma_fundamental_div_mod_converse};

verus! {

/// Constraint length K.
pub const K: usize = 7;
/// Number of encoder states, 2^(K-1).
pub const N_STATES: usize = 64;
/// Generator G1 = 0o171 (output X).
pub const G1: u16 = 0o171;
/// Generator G2 = 0o133 (output Y).
pub const G2: u16 = 0o133;

/// Rate 2/3 puncturing pattern over X0,Y0,X1,Y1 (drops X1).
pub const PUNCTURE_2_3: [u8; 4] = [1, 1, 0, 1];
/// Rate 3/4 puncturing pattern.
pub const PUNCTURE_3_4: [u8; 6] = [1, 1, 0, 1, 1, 0];
/// Rate 1/2 (no puncturing).
pub const PUNCTURE_1_2: [u8; 2] = [1, 1];

/// The xor of all 16 bits of `x`.
pub open spec fn parity_spec(x: u16) -> u8 {
    ((x ^ (x >> 1u16) ^ (x >> 2u16) ^ (x >> 3u16) ^ (x >> 4u16) ^ (x >> 5u16) ^ (x >> 6u16) ^ (x
        >> 7u16) ^ (x >> 8u16) ^ (x >> 9u16) ^ (x >> 10u16) ^ (x >> 11u16) ^ (x >> 12u16) ^ (x
        >> 13u16) ^ (x >> 14u16) ^ (x >> 15u16)) & 1u16) as u8
}

proof fn lemma_parity_fold(x: u16)
    by (bit_vector)
    ensures
        ({
            let a = x ^ (x >> 8u16);
            let b = a ^ (a >> 4u16);
            let c = b ^ (b >> 2u16);
            let d = c ^ (c >> 1u16);
            (d & 1u16) as u8 == parity_spec(x)
        }),
{
}

/// Parity (xor of all bits) of `x`.
pub fn parity(x: u16) -> (p: u8)
    ensures
        p == parity_spec(x),
        p < 2,
{
    proof {
        lemma_parity_fold(x);
        assert(parity_spec(x) < 2) by (bit_vector);
    }
    let mut x = x;
    x ^= x >> 8;
    x ^= x >> 4;
    x ^= x >> 2;
    x ^= x >> 1;
    (x & 1) as u8
}

/// The 7-bit shift register when input `u` enters state `s`: `u` in bit 6, `s` in bits 5..0.
pub open spec fn enc_register(s: nat, u: nat) -> u16 {
    (64 * u + s) as u16
}

/// Output X for input `u` in state `s`.
pub open spec fn enc_x(s: nat, u: nat) -> u8 {
    parity_spec(enc_register(s, u) & G1)
}

/// Output Y for input `u` in state `s`.
pub open spec fn enc_y(s: nat, u: nat) -> u8 {
    parity_spec(enc_register(s, u) & G2)
}

/// The state after input `u` in state `s`: the oldest bit drops out, `u` becomes bit 5.
pub open spec fn enc_next(s: nat, u: nat) -> nat {
    s / 2 + 32 * u
}

proof fn lemma_step_register(s: u16, u: u16)
    by (bit_vector)
    requires
        s < 64,
        u < 2,
    ensures
        (u << 6u16) | s == 64 * u + s,
        (((u << 6u16) | s) >> 1u16) & 0x3fu16 == s / 2 + 32 * u,
{
}

/// (output X, output Y, next state) for input `u` in state `s`.
fn step(s: usize, u: u8) -> (r: (u8, u8, usize))
    requires
        s < 64,
        u < 2,
    ensures
        r.0 == enc_x(s as nat, u as nat),
        r.1 == enc_y(s as nat, u as nat),
        r.2 == enc_next(s as nat, u as nat),
        r.0 < 2,
        r.1 < 2,
        r.2 < 64,
{
    proof {
        lemma_step_register(s as u16, u as u16);
    }
    let reg = ((u as u16) << 6) | (s as u16);
    let x = parity(reg & G1);
    let y = parity(reg & G2);
    let ns = ((reg >> 1) & 0x3F) as usize;
    (x, y, ns)
}

/// The encoder state after the first `n` inputs of `bits` (low bit of each) from state `s0`.
pub open spec fn enc_state(bits: Seq<u8>, s0: nat, n: nat) -> nat
    decreases n,
{
    if n == 0 {
        s0
    } else {
        enc_next(enc_state(bits, s0, (n - 1) as nat), (bits[n - 1] % 2) as nat)
    }
}

/// The mother-code bits X0,Y0,X1,Y1,... for the inputs `bits` from state `s0`.
pub open spec fn enc_output(bits: Seq<u8>, s0: nat) -> Seq<u8> {
    Seq::new(
        2 * bits.len(),
        |i: int|
            {
                let t = i / 2;
                let st = enc_state(bits, s0, t as nat);
                let u = (bits[t] % 2) as nat;
                if i % 2 == 0 {
                    enc_x(st, u)
                } else {
                    enc_y(st, u)
                }
            },
    )
}

proof fn lemma_enc_state_bound(bits: Seq<u8>, s0: nat, n: nat)
    requires
        s0 < 64,
    ensures
        enc_state(bits, s0, n) < 64,
    decreases n,
{
    if n > 0 {
        lemma_enc_state_bound(bits, s0, (n - 1) as nat);
    }
}

proof fn lemma_low_bit(u: u8)
    by (bit_vector)
    ensures
        u & 1u8 == u % 2,
        u & 1u8 < 2,
{
}

/// Rate-1/2 encoding from state 0 with six zero tail bits, ending in state 0.
/// Two output bits (X, Y) per input.
pub fn conv_encode_terminated(info: &[u8]) -> (out: Vec<u8>)
    requires
        info@.len() + 6 <= usize::MAX / 2,
    ensures
        out@ == enc_output(info@ + seq![0u8, 0u8, 0u8, 0u8, 0u8, 0u8], 0),
        out@.len() == 2 * (info@.len() + 6),
{
    let ghost bits = info@ + seq![0u8, 0u8, 0u8, 0u8, 0u8, 0u8];
    let mut s: usize = 0;
    let mut out: Vec<u8> = Vec::with_capacity((info.len() + K - 1) * 2);
    let total = info.len() + K - 1;
    let mut t: usize = 0;
    while t < total
        invariant
            total == info@.len() + 6,
            bits == info@ + seq![0u8, 0u8, 0u8, 0u8, 0u8, 0u8],
            t <= total,
            s < 64,
            s == enc_state(bits, 0, t as nat),
            out@.len() == 2 * t,
            forall|i: int| 0 <= i < 2 * t ==> #[trigger] out@[i] == enc_output(bits, 0)[i],
        decreases total - t,
    {
        let u: u8 = if t < info.len() { info[t] } else { 0 };
        proof {
            lemma_low_bit(u);
            assert(bits[t as int] == u);
        }
        let (x, y, ns) = step(s, u & 1);
        out.push(x);
        out.push(y);
        s = ns;
        t = t + 1;
    }
    proof {
        assert(out@ =~= enc_output(bits, 0));
    }
    out
}

/// Rate-1/2 encoding without termination, from state `s0 & 0x3f`; returns the code bits
/// and the final state (so that consecutive calls continue one stream).
pub fn conv_encode(info: &[u8], s0: usize) -> (r: (Vec<u8>, usize))
    requires
        info@.len() <= usize::MAX / 2,
    ensures
        r.0@ == enc_output(info@, s0 as nat % 64),
        r.1 == enc_state(info@, s0 as nat % 64, info@.len()),
        r.1 < 64,
{
    proof {
        assert(s0 & 0x3F == s0 % 64) by (bit_vector);
    }
    let mut s = s0 & 0x3F;
    let mut out: Vec<u8> = Vec::with_capacity(info.len() * 2);
    let mut t: usize = 0;
    while t < info.len()
        invariant
            info@.len() <= usize::MAX / 2,
            t <= info@.len(),
            s < 64,
            s == enc_state(info@, s0 as nat % 64, t as nat),
            out@.len() == 2 * t,
            forall|i: int| 0 <= i < 2 * t ==> #[trigger] out@[i] == enc_output(info@, s0 as nat % 64)[i],
        decreases info.len() - t,
    {
        let u = info[t];
        proof {
            lemma_low_bit(u);
        }
        let (x, y, ns) = step(s, u & 1);
        out.push(x);
        out.push(y);
        s = ns;
        t = t + 1;
    }
    proof {
        assert(out@ =~= enc_output(info@, s0 as nat % 64));
    }
    (out, s)
}

/// Position-wise xor of two sequences (over the length of the first).
pub open spec fn xor_seq(a: Seq<u8>, b: Seq<u8>) -> Seq<u8> {
    Seq::new(a.len(), |i: int| a[i] ^ b[i])
}

/// Xor of two encoder states.
pub open spec fn xor_state(s: nat, t: nat) -> nat {
    ((s as u16) ^ (t as u16)) as nat
}

proof fn lemma_parity_linear(x: u16, y: u16, g: u16)
    by (bit_vector)
    ensures
        parity_spec((x ^ y) & g) == parity_spec(x & g) ^ parity_spec(y & g),
{
}

proof fn lemma_input_linear(x: u8, y: u8)
    by (bit_vector)
    ensures
        (x ^ y) % 2 == (x % 2) ^ (y % 2),
        x % 2 < 2,
{
}

proof fn lemma_register_linear(sa: u16, ua: u16, sb: u16, ub: u16)
    by (bit_vector)
    requires
        sa < 64,
        sb < 64,
        ua < 2,
        ub < 2,
    ensures
        (64 * (ua ^ ub) + (sa ^ sb)) as u16 == ((64 * ua + sa) as u16) ^ ((64 * ub + sb) as u16),
        ((sa ^ sb) / 2 + 32 * (ua ^ ub)) as u16 == ((sa / 2 + 32 * ua) as u16) ^ ((sb / 2 + 32
            * ub) as u16),
        sa ^ sb < 64,
        ua ^ ub < 2,
        0u16 ^ 0u16 == 0u16,
{
}

/// One encoder step on xored states and inputs gives the xor of the two steps.
proof fn lemma_step_linear(sa: nat, ua: nat, sb: nat, ub: nat)
    requires
        sa < 64,
        sb < 64,
        ua < 2,
        ub < 2,
    ensures
        enc_x(xor_state(sa, sb), xor_state(ua, ub)) == enc_x(sa, ua) ^ enc_x(sb, ub),
        enc_y(xor_state(sa, sb), xor_state(ua, ub)) == enc_y(sa, ua) ^ enc_y(sb, ub),
        enc_next(xor_state(sa, sb), xor_state(ua, ub)) == xor_state(enc_next(sa, ua), enc_next(sb, ub)),
        xor_state(sa, sb) < 64,
{
    lemma_register_linear(sa as u16, ua as u16, sb as u16, ub as u16);
    let ra = enc_register(sa, ua);
    let rb = enc_register(sb, ub);
    assert(enc_register(xor_state(sa, sb), xor_state(ua, ub)) == ra ^ rb);
    lemma_parity_linear(ra, rb, G1);
    lemma_parity_linear(ra, rb, G2);
}

proof fn lemma_enc_state_linear(a: Seq<u8>, b: Seq<u8>, sa: nat, sb: nat, n: nat)
    requires
        a.len() == b.len(),
        n <= a.len(),
        sa < 64,
        sb < 64,
    ensures
        enc_state(xor_seq(a, b), xor_state(sa, sb), n) == xor_state(
            enc_state(a, sa, n),
            enc_state(b, sb, n),
        ),
    decreases n,
{
    if n > 0 {
        let m = (n - 1) as nat;
        lemma_enc_state_linear(a, b, sa, sb, m);
        lemma_enc_state_bound(a, sa, m);
        lemma_enc_state_bound(b, sb, m);
        lemma_input_linear(a[m as int], b[m as int]);
        lemma_input_linear(b[m as int], a[m as int]);
        assert(xor_seq(a, b)[m as int] == a[m as int] ^ b[m as int]);
        let ua = (a[m as int] % 2) as nat;
        let ub = (b[m as int] % 2) as nat;
        assert(((a[m as int] ^ b[m as int]) % 2) as nat == xor_state(ua, ub));
        lemma_step_linear(enc_state(a, sa, m), ua, enc_state(b, sb, m), ub);
    }
}

/// The encoder is linear over GF(2): each output bit is a xor (parity) of register bits
/// under the generator taps, so encoding the position-wise xor of two input streams, from
/// the xor of their start states, gives the xor of their encodings and of their final
/// states. From state 0: the code of `a ^ b` is the code of `a` xor the code of `b`.
pub proof fn lemma_encoder_linear(a: Seq<u8>, b: Seq<u8>, sa: nat, sb: nat)
    requires
        a.len() == b.len(),
        sa < 64,
        sb < 64,
    ensures
        enc_output(xor_seq(a, b), xor_state(sa, sb)) == xor_seq(enc_output(a, sa), enc_output(b, sb)),
        enc_state(xor_seq(a, b), xor_state(sa, sb), a.len()) == xor_state(
            enc_state(a, sa, a.len()),
            enc_state(b, sb, b.len()),
        ),
        xor_state(0, 0) == 0,
{
    let c = xor_seq(a, b);
    let s = xor_state(sa, sb);
    let lhs = enc_output(c, s);
    let rhs = xor_seq(enc_output(a, sa), enc_output(b, sb));
    assert forall|i: int| 0 <= i < lhs.len() implies #[trigger] lhs[i] == rhs[i] by {
        let t = i / 2;
        lemma_enc_state_linear(a, b, sa, sb, t as nat);
        lemma_enc_state_bound(a, sa, t as nat);
        lemma_enc_state_bound(b, sb, t as nat);
        lemma_input_linear(a[t], b[t]);
        lemma_input_linear(b[t], a[t]);
        let ua = (a[t] % 2) as nat;
        let ub = (b[t] % 2) as nat;
        assert(((a[t] ^ b[t]) % 2) as nat == xor_state(ua, ub));
        lemma_step_linear(enc_state(a, sa, t as nat), ua, enc_state(b, sb, t as nat), ub);
    }
    assert(lhs =~= rhs);
    lemma_enc_state_linear(a, b, sa, sb, a.len());
    lemma_register_linear(0, 0, 0, 0);
}

/// Bit `6 - j` of the generator `g`: its tap on the input `j` steps back.
pub open spec fn tap(g: u16, j: int) -> u8 {
    ((g >> ((6 - j) as u16)) & 1u16) as u8
}

/// A single 1 after `k` zeros, then six zeros.
pub open spec fn impulse(k: nat) -> Seq<u8> {
    Seq::new(k + 7, |i: int| if i == k { 1u8 } else { 0u8 })
}

proof fn lemma_zeros_keep_state(k: nat, t: nat)
    requires
        t <= k,
    ensures
        enc_state(impulse(k), 0, t) == 0,
    decreases t,
{
    if t > 0 {
        lemma_zeros_keep_state(k, (t - 1) as nat);
    }
}

proof fn lemma_tap_values()
    by (bit_vector)
    ensures
        parity_spec(64u16 & G1) == 1u8 && parity_spec(64u16 & G2) == 1u8,
        parity_spec(32u16 & G1) == 1u8 && parity_spec(32u16 & G2) == 0u8,
        parity_spec(16u16 & G1) == 1u8 && parity_spec(16u16 & G2) == 1u8,
        parity_spec(8u16 & G1) == 1u8 && parity_spec(8u16 & G2) == 1u8,
        parity_spec(4u16 & G1) == 0u8 && parity_spec(4u16 & G2) == 0u8,
        parity_spec(2u16 & G1) == 0u8 && parity_spec(2u16 & G2) == 1u8,
        parity_spec(1u16 & G1) == 1u8 && parity_spec(1u16 & G2) == 1u8,
        ((G1 >> 6u16) & 1u16) as u8 == 1u8 && ((G2 >> 6u16) & 1u16) as u8 == 1u8,
        ((G1 >> 5u16) & 1u16) as u8 == 1u8 && ((G2 >> 5u16) & 1u16) as u8 == 0u8,
        ((G1 >> 4u16) & 1u16) as u8 == 1u8 && ((G2 >> 4u16) & 1u16) as u8 == 1u8,
        ((G1 >> 3u16) & 1u16) as u8 == 1u8 && ((G2 >> 3u16) & 1u16) as u8 == 1u8,
        ((G1 >> 2u16) & 1u16) as u8 == 0u8 && ((G2 >> 2u16) & 1u16) as u8 == 0u8,
        ((G1 >> 1u16) & 1u16) as u8 == 0u8 && ((G2 >> 1u16) & 1u16) as u8 == 1u8,
        ((G1 >> 0u16) & 1u16) as u8 == 1u8 && ((G2 >> 0u16) & 1u16) as u8 == 1u8,
{
}

/// Impulse response: a single 1 after any run of zeros, from state 0, produces over its
/// seven steps the generator taps from the newest input back to the oldest, X the bits of
/// G1 and Y those of G2. With linearity and the stream property this fixes every output.
pub proof fn lemma_encoder_impulse(k: nat)
    ensures
        forall|j: int|
            0 <= j < 7 ==> enc_output(impulse(k), 0)[2 * (k + j)] == #[trigger] tap(G1, j)
                && enc_output(impulse(k), 0)[2 * (k + j) + 1] == tap(G2, j),
{
    let bits = impulse(k);
    let out = enc_output(bits, 0);
    lemma_zeros_keep_state(k, k);
    lemma_tap_values();
    assert(enc_state(bits, 0, k + 1) == 32);
    assert(enc_state(bits, 0, k + 2) == 16);
    assert(enc_state(bits, 0, k + 3) == 8);
    assert(enc_state(bits, 0, k + 4) == 4);
    assert(enc_state(bits, 0, k + 5) == 2);
    assert(enc_state(bits, 0, k + 6) == 1);
    assert forall|j: int| 0 <= j < 7 implies out[2 * (k + j)] == #[trigger] tap(G1, j) && out[2
        * (k + j) + 1] == tap(G2, j) by {
        let t = k + j;
        assert((2 * t) / 2 == t && (2 * t) % 2 == 0);
        assert((2 * t + 1) / 2 == t && (2 * t + 1) % 2 == 1);
        if j == 0 {
            assert(enc_register(0, 1) == 64u16);
        } else if j == 1 {
            assert(enc_register(32, 0) == 32u16);
        } else if j == 2 {
            assert(enc_register(16, 0) == 16u16);
        } else if j == 3 {
            assert(enc_register(8, 0) == 8u16);
        } else if j == 4 {
            assert(enc_register(4, 0) == 4u16);
        } else if j == 5 {
            assert(enc_register(2, 0) == 2u16);
        } else {
            assert(enc_register(1, 0) == 1u16);
        }
    }
}

/// The bits of `mother` at positions where the repeating `pattern` holds 1, among the
/// first `n` positions.
pub open spec fn punctured(mother: Seq<u8>, pattern: Seq<u8>, n: nat) -> Seq<u8>
    decreases n,
{
    if n == 0 {
        Seq::empty()
    } else {
        let prev = punctured(mother, pattern, (n - 1) as nat);
        if pattern[(n - 1) % pattern.len() as int] == 1 {
            prev.push(mother[n - 1])
        } else {
            prev
        }
    }
}

/// Puncturing: keeps the mother-code bits where the repeating pattern holds 1.
pub fn puncture(mother: &[u8], pattern: &[u8]) -> (out: Vec<u8>)
    requires
        pattern@.len() > 0 || mother@.len() == 0,
    ensures
        out@ == punctured(mother@, pattern@, mother@.len()),
{
    let mut out: Vec<u8> = Vec::new();
    let mut i: usize = 0;
    while i < mother.len()
        invariant
            pattern@.len() > 0 || mother@.len() == 0,
            i <= mother@.len(),
            out@ == punctured(mother@, pattern@, i as nat),
        decreases mother.len() - i,
    {
        if pattern[i % pattern.len()] == 1 {
            out.push(mother[i]);
        }
        i = i + 1;
    }
    out
}

/// After six zero inputs the encoder is back in state 0, whatever state it was in:
/// the terminated encoding always ends in state 0.
pub proof fn lemma_termination_returns_to_zero(info: Seq<u8>, s0: nat)
    requires
        s0 < 64,
    ensures
        enc_state(info + seq![0u8, 0u8, 0u8, 0u8, 0u8, 0u8], s0, info.len() + 6) == 0,
{
    let bits = info + seq![0u8, 0u8, 0u8, 0u8, 0u8, 0u8];
    let n = info.len();
    assert(enc_state(bits, s0, n) == enc_state(info, s0, n)) by {
        lemma_enc_state_prefix(info, bits, s0, n);
    }
    lemma_enc_state_bound(info, s0, n);
    let s = enc_state(info, s0, n);
    assert(enc_state(bits, s0, n + 1) == s / 2);
    assert(enc_state(bits, s0, n + 2) == s / 2 / 2);
    assert(enc_state(bits, s0, n + 3) == s / 2 / 2 / 2);
    assert(enc_state(bits, s0, n + 4) == s / 2 / 2 / 2 / 2);
    assert(enc_state(bits, s0, n + 5) == s / 2 / 2 / 2 / 2 / 2);
    assert(enc_state(bits, s0, n + 6) == s / 2 / 2 / 2 / 2 / 2 / 2);
}

/// The state after `n` inputs only depends on the first `n` inputs.
proof fn lemma_enc_state_prefix(a: Seq<u8>, b: Seq<u8>, s0: nat, n: nat)
    requires
        n <= a.len(),
        n <= b.len(),
        forall|i: int| 0 <= i < n ==> a[i] == b[i],
    ensures
        enc_state(a, s0, n) == enc_state(b, s0, n),
    decreases n,
{
    if n > 0 {
        lemma_enc_state_prefix(a, b, s0, (n - 1) as nat);
    }
}

proof fn lemma_enc_state_concat(a: Seq<u8>, b: Seq<u8>, s0: nat, n: nat)
    requires
        n <= b.len(),
    ensures
        enc_state(a + b, s0, a.len() + n) == enc_state(b, enc_state(a, s0, a.len()), n),
    decreases n,
{
    if n == 0 {
        lemma_enc_state_prefix(a + b, a, s0, a.len());
    } else {
        lemma_enc_state_concat(a, b, s0, (n - 1) as nat);
        assert((a + b)[a.len() + n - 1] == b[n - 1]);
    }
}

/// Encoding is a stream operation: encoding `a` then `b` (continuing from the state `a`
/// left) gives the same bits and final state as encoding `a + b` at once.
pub proof fn lemma_encode_concat(a: Seq<u8>, b: Seq<u8>, s0: nat)
    ensures
        enc_output(a + b, s0) == enc_output(a, s0) + enc_output(b, enc_state(a, s0, a.len())),
        enc_state(a + b, s0, a.len() + b.len()) == enc_state(b, enc_state(a, s0, a.len()), b.len()),
{
    let s1 = enc_state(a, s0, a.len());
    let lhs = enc_output(a + b, s0);
    let rhs = enc_output(a, s0) + enc_output(b, s1);
    assert forall|i: int| 0 <= i < lhs.len() implies #[trigger] lhs[i] == rhs[i] by {
        let t = i / 2;
        if t < a.len() {
            lemma_enc_state_prefix(a + b, a, s0, t as nat);
        } else {
            let tb = t - a.len();
            lemma_enc_state_concat(a, b, s0, tb as nat);
            assert(i - 2 * a.len() == 2 * tb + i % 2);
            assert((i - 2 * a.len()) / 2 == tb);
            assert((i - 2 * a.len()) % 2 == i % 2);
        }
    }
    assert(lhs =~= rhs);
    lemma_enc_state_concat(a, b, s0, b.len());
}

/// Number of ones among the first `n` entries of a puncturing pattern.
pub open spec fn ones_before(pattern: Seq<u8>, n: nat) -> nat
    decreases n,
{
    if n == 0 {
        0
    } else {
        ones_before(pattern, (n - 1) as nat) + if pattern[n - 1] == 1 {
            1nat
        } else {
            0nat
        }
    }
}

/// Number of kept (pattern 1) positions among the first `i` mother-code positions: the
/// index at which mother-code position `i` appears in the punctured stream when it is kept.
pub open spec fn kept_index(pattern: Seq<u8>, i: int) -> int {
    (i / pattern.len() as int) * ones_before(pattern, pattern.len()) + ones_before(
        pattern,
        (i % pattern.len() as int) as nat,
    )
}

/// Mother-code position `i` after depuncturing `rx`: its received value when the pattern
/// keeps it, `erasure` otherwise.
pub open spec fn depunct_at<T>(rx: Seq<T>, pattern: Seq<u8>, erasure: T, i: int) -> T {
    if pattern[i % pattern.len() as int] == 1 {
        rx[kept_index(pattern, i)]
    } else {
        erasure
    }
}

/// The depunctured stream: whole pattern periods filled from `rx`, `erasure` at the
/// punctured positions.
pub open spec fn depunctured<T>(rx: Seq<T>, pattern: Seq<u8>, erasure: T) -> Seq<T> {
    Seq::new(
        ((rx.len() / ones_before(pattern, pattern.len())) * pattern.len()) as nat,
        |i: int| depunct_at(rx, pattern, erasure, i),
    )
}

proof fn lemma_ones_before_mono(pattern: Seq<u8>, a: nat, b: nat)
    requires
        a <= b,
    ensures
        ones_before(pattern, a) <= ones_before(pattern, b),
        ones_before(pattern, b) <= ones_before(pattern, a) + (b - a),
    decreases b,
{
    if b > a {
        lemma_ones_before_mono(pattern, a, (b - 1) as nat);
    }
}

/// Depuncturing: puts the received values back at the mother-code positions where the
/// repeating pattern holds 1 and `erasure` at the punctured positions, for as many whole
/// pattern periods as the received values fill.
pub fn depuncture<T: Copy>(rx: &[T], pattern: &[u8], erasure: T) -> (out: Vec<T>)
    requires
        ones_before(pattern@, pattern@.len()) > 0,
        (rx@.len() / ones_before(pattern@, pattern@.len())) * pattern@.len() <= usize::MAX,
    ensures
        out@ == depunctured(rx@, pattern@, erasure),
{
    let plen = pattern.len();
    let mut kept: usize = 0;
    let mut j: usize = 0;
    while j < plen
        invariant
            plen == pattern@.len(),
            j <= plen,
            kept == ones_before(pattern@, j as nat),
            kept <= j,
        decreases plen - j,
    {
        if pattern[j] == 1 {
            kept = kept + 1;
        }
        j = j + 1;
    }
    let groups = rx.len() / kept;
    let ghost total = ones_before(pattern@, plen as nat);
    proof {
        assert(groups * kept <= rx.len()) by (nonlinear_arith)
            requires
                groups == rx.len() / kept,
                kept > 0,
        ;
    }
    let mut out: Vec<T> = Vec::new();
    let mut pos: usize = 0;
    let mut g: usize = 0;
    while g < groups
        invariant
            plen == pattern@.len(),
            kept == total,
            total == ones_before(pattern@, plen as nat),
            kept > 0,
            groups == rx@.len() / (kept as nat),
            groups * kept <= rx@.len(),
            groups * plen <= usize::MAX,
            g <= groups,
            out@.len() == g * plen,
            pos == g * kept,
            forall|i: int|
                0 <= i < out@.len() ==> #[trigger] out@[i] == depunctured(rx@, pattern@, erasure)[i],
        decreases groups - g,
    {
        let mut j: usize = 0;
        proof {
            assert((g + 1) * plen <= groups * plen) by (nonlinear_arith)
                requires
                    g < groups,
            ;
            assert((g + 1) * kept <= groups * kept) by (nonlinear_arith)
                requires
                    g < groups,
            ;
            assert((g + 1) * plen == g * plen + plen) by (nonlinear_arith);
            assert((g + 1) * kept == g * kept + kept) by (nonlinear_arith);
        }
        while j < plen
            invariant
                plen == pattern@.len(),
                kept == total,
                total == ones_before(pattern@, plen as nat),
                kept > 0,
                groups == rx@.len() / (kept as nat),
                g < groups,
                (g + 1) * plen <= groups * plen,
                groups * plen <= usize::MAX,
                (g + 1) * kept <= rx@.len(),
                (g + 1) * plen == g * plen + plen,
                (g + 1) * kept == g * kept + kept,
                j <= plen,
                out@.len() == g * plen + j,
                pos == g * kept + ones_before(pattern@, j as nat),
                forall|i: int|
                    0 <= i < out@.len() ==> #[trigger] out@[i] == depunctured(rx@, pattern@, erasure)[i],
            decreases plen - j,
        {
            let ghost i = (g * plen + j) as int;
            proof {
                lemma_fundamental_div_mod_converse(i, plen as int, g as int, j as int);
                lemma_ones_before_mono(pattern@, (j + 1) as nat, plen as nat);
                assert(i < groups * plen);
            }
            if pattern[j] == 1 {
                out.push(rx[pos]);
                pos = pos + 1;
            } else {
                out.push(erasure);
            }
            j = j + 1;
        }
        g = g + 1;
    }
    proof {
        assert(out@ =~= depunctured(rx@, pattern@, erasure));
    }
    out
}

proof fn lemma_kept_index_step(pattern: Seq<u8>, n: int)
    requires
        pattern.len() > 0,
        n >= 0,
    ensures
        kept_index(pattern, n + 1) == kept_index(pattern, n) + if pattern[n % pattern.len() as int]
            == 1 {
            1int
        } else {
            0int
        },
{
    let p = pattern.len() as int;
    let q = n / p;
    let r = n % p;
    lemma_fundamental_div_mod(n, p);
    assert(n == q * p + r) by (nonlinear_arith)
        requires
            n == p * q + r,
    ;
    assert(0 <= r < p);
    if r + 1 < p {
        lemma_fundamental_div_mod_converse(n + 1, p, q, r + 1);
    } else {
        assert(n + 1 == (q + 1) * p + 0) by (nonlinear_arith)
            requires
                n == q * p + r,
                r + 1 == p,
        ;
        lemma_fundamental_div_mod_converse(n + 1, p, q + 1, 0);
        assert((q + 1) * ones_before(pattern, pattern.len()) == q * ones_before(pattern, pattern.len())
            + ones_before(pattern, pattern.len())) by (nonlinear_arith);
    }
}

/// The punctured stream holds `kept_index(n)` values, mother-code value `i` at `kept_index(i)`.
proof fn lemma_punctured_index(mother: Seq<u8>, pattern: Seq<u8>, n: nat)
    requires
        pattern.len() > 0,
        n <= mother.len(),
    ensures
        punctured(mother, pattern, n).len() == kept_index(pattern, n as int),
        forall|i: int|
            0 <= i < n && pattern[i % pattern.len() as int] == 1 ==> #[trigger] kept_index(
                pattern,
                i,
            ) < kept_index(pattern, n as int),
        forall|i: int|
            0 <= i < n && pattern[i % pattern.len() as int] == 1 ==> #[trigger] punctured(
                mother,
                pattern,
                n,
            )[kept_index(pattern, i)] == mother[i],
    decreases n,
{
    if n == 0 {
        assert(kept_index(pattern, 0) == 0) by {
            lemma_fundamental_div_mod_converse(0, pattern.len() as int, 0, 0);
            assert(ones_before(pattern, 0) == 0);
            assert(0 * ones_before(pattern, pattern.len()) == 0);
        }
    } else {
        let n1 = (n - 1) as nat;
        lemma_punctured_index(mother, pattern, n1);
        lemma_kept_index_step(pattern, n1 as int);
    }
}

/// Depuncturing undoes puncturing: every kept mother-code value comes back at its position,
/// and the punctured positions hold the erasure value.
pub proof fn lemma_depuncture_puncture(mother: Seq<u8>, pattern: Seq<u8>, erasure: u8)
    requires
        ones_before(pattern, pattern.len()) > 0,
        (mother.len() as int) % (pattern.len() as int) == 0,
    ensures
        depunctured(punctured(mother, pattern, mother.len()), pattern, erasure) == Seq::new(
            mother.len(),
            |i: int|
                if pattern[i % pattern.len() as int] == 1 {
                    mother[i]
                } else {
                    erasure
                },
        ),
{
    let p = pattern.len() as int;
    let k = ones_before(pattern, pattern.len()) as int;
    lemma_ones_before_mono(pattern, 0, pattern.len());
    lemma_punctured_index(mother, pattern, mother.len());
    let g = (mother.len() as int) / p;
    lemma_fundamental_div_mod(mother.len() as int, p);
    assert(mother.len() == g * p + 0) by (nonlinear_arith)
        requires
            mother.len() == p * g + 0,
    ;
    lemma_fundamental_div_mod_converse(mother.len() as int, p, g, 0);
    assert(kept_index(pattern, mother.len() as int) == g * k) by {
        assert(ones_before(pattern, 0) == 0);
    }
    assert(g >= 0) by (nonlinear_arith)
        requires
            mother.len() == g * p,
            p > 0,
    ;
    assert(g * k == g * k + 0);
    lemma_fundamental_div_mod_converse(g * k, k, g, 0);
    let rx = punctured(mother, pattern, mother.len());
    assert((rx.len() as int) / k == g);
    assert((g * p) as nat == mother.len());
}

/// Depuncturing undoes puncturing whatever values stand for the kept bits: with each kept
/// bit `b` received as `soft(b)` (a soft value), every kept position comes back as the soft
/// value of its bit and every punctured position as the erasure value.
pub proof fn lemma_depuncture_puncture_soft<T>(
    mother: Seq<u8>,
    pattern: Seq<u8>,
    soft: spec_fn(u8) -> T,
    erasure: T,
)
    requires
        ones_before(pattern, pattern.len()) > 0,
        (mother.len() as int) % (pattern.len() as int) == 0,
    ensures
        depunctured(
            punctured(mother, pattern, mother.len()).map_values(soft),
            pattern,
            erasure,
        ) == Seq::new(
            mother.len(),
            |i: int|
                if pattern[i % pattern.len() as int] == 1 {
                    soft(mother[i])
                } else {
                    erasure
                },
        ),
{
    let rx = punctured(mother, pattern, mother.len());
    lemma_depuncture_puncture(mother, pattern, 0u8);
    lemma_punctured_index(mother, pattern, mother.len());
    let lhs = depunctured(rx.map_values(soft), pattern, erasure);
    let rhs = Seq::new(
        mother.len(),
        |i: int|
            if pattern[i % pattern.len() as int] == 1 {
                soft(mother[i])
            } else {
                erasure
            },
    );
    assert(depunctured(rx, pattern, 0u8).len() == mother.len());
    assert forall|i: int| 0 <= i < mother.len() implies lhs[i] == rhs[i] by {
        if pattern[i % pattern.len() as int] == 1 {
            assert(depunctured(rx, pattern, 0u8)[i] == mother[i]);
        }
    }
    assert(lhs =~= rhs);
}

/// The pattern entry for mother-code position `q` (the pattern repeats).
pub open spec fn pat_at(pattern: Seq<u8>, q: int) -> u8 {
    pattern[q % pattern.len() as int]
}

/// The first mother-code position at or after `pos` that the pattern keeps, looking at most
/// `fuel` positions ahead.
pub open spec fn next_kept(pattern: Seq<u8>, pos: nat, fuel: nat) -> nat
    decreases fuel,
{
    if fuel == 0 || pat_at(pattern, pos as int) == 1 {
        pos
    } else {
        next_kept(pattern, pos + 1, (fuel - 1) as nat)
    }
}

/// Some kept position lies within one period of any position.
proof fn lemma_next_kept(pattern: Seq<u8>, pos: nat, fuel: nat)
    requires
        pattern.len() > 0,
        ones_before(pattern, pattern.len()) > 0,
        fuel <= pattern.len(),
        pos >= pattern.len() - fuel,
        forall|d: int|
            0 <= d < pattern.len() - fuel ==> #[trigger] pat_at(
                pattern,
                pos - (pattern.len() - fuel) + d,
            ) != 1,
    ensures
        pos <= next_kept(pattern, pos, fuel) < pos + fuel,
        pat_at(pattern, next_kept(pattern, pos, fuel) as int) == 1,
        forall|q: int| pos <= q < next_kept(pattern, pos, fuel) ==> #[trigger] pat_at(pattern, q) != 1,
    decreases fuel,
{
    let p = pattern.len() as int;
    let start = pos - (p - fuel);
    if fuel == 0 {
        // the whole period from `start` would hold no 1, against the count
        lemma_one_in_period(pattern, start);
        let d = choose|d: int| 0 <= d < p && #[trigger] pat_at(pattern, start + d) == 1;
        assert(pat_at(pattern, pos - (p - fuel) + d) != 1);
    } else if pat_at(pattern, pos as int) != 1 {
        assert forall|d: int| 0 <= d < p - (fuel - 1) implies #[trigger] pat_at(
            pattern,
            (pos + 1) - (p - (fuel - 1)) + d,
        ) != 1 by {
            if d < p - fuel {
                assert(pat_at(pattern, pos - (p - fuel) + d) != 1);
            } else {
                assert((pos + 1) - (p - (fuel - 1)) + d == pos);
            }
        }
        lemma_next_kept(pattern, pos + 1, (fuel - 1) as nat);
    }
}

/// A full period always holds a 1.
proof fn lemma_one_in_period(pattern: Seq<u8>, start: int)
    requires
        pattern.len() > 0,
        ones_before(pattern, pattern.len()) > 0,
        start >= 0,
    ensures
        exists|d: int| 0 <= d < pattern.len() && #[trigger] pat_at(pattern, start + d) == 1,
{
    let p = pattern.len() as int;
    if forall|d: int| 0 <= d < p ==> #[trigger] pat_at(pattern, start + d) != 1 {
        assert forall|j: nat| j < p implies #[trigger] pattern[j as int] != 1 by {
            lemma_fundamental_div_mod(start, p);
            let q = start / p;
            let r = start % p;
            let d = if j >= r { j - r } else { j + p - r };
            assert(0 <= d < p);
            assert(start + d == (q + 1) * p + j || start + d == q * p + j) by (nonlinear_arith)
                requires
                    start == p * q + r,
                    d == if j >= r { j - r } else { j + p - r },
                    0 <= r < p,
            ;
            if start + d == (q + 1) * p + j {
                lemma_fundamental_div_mod_converse(start + d, p, q + 1, j as int);
            } else {
                lemma_fundamental_div_mod_converse(start + d, p, q, j as int);
            }
            assert(pat_at(pattern, start + d) != 1);
        }
        lemma_zero_ones(pattern, pattern.len());
    }
}

proof fn lemma_zero_ones(pattern: Seq<u8>, n: nat)
    requires
        n <= pattern.len(),
        forall|j: nat| j < n ==> #[trigger] pattern[j as int] != 1,
    ensures
        ones_before(pattern, n) == 0,
    decreases n,
{
    if n > 0 {
        lemma_zero_ones(pattern, (n - 1) as nat);
        assert(pattern[(n - 1) as int] != 1);
    }
}

/// Streaming depuncturing of one received value: `erasure` for each punctured position from
/// `pos` on, then `value` at the next kept position; `pos` moves past it.
pub fn depuncture_push<T: Copy>(
    pos: &mut usize,
    pattern: &[u8],
    value: T,
    erasure: T,
    mother: &mut Vec<T>,
)
    requires
        ones_before(pattern@, pattern@.len()) > 0,
        *old(pos) + pattern@.len() <= usize::MAX,
    ensures
        *final(pos) == next_kept(pattern@, *old(pos) as nat, pattern@.len()) + 1,
        final(mother)@ == old(mother)@ + Seq::new(
            (*final(pos) - *old(pos)) as nat,
            |i: int| if i == *final(pos) - *old(pos) - 1 { value } else { erasure },
        ),
{
    let ghost p0 = *pos;
    let ghost m0 = mother@;
    let plen = pattern.len();
    proof {
        lemma_ones_before_mono(pattern@, 0, pattern@.len());
        lemma_next_kept(pattern@, p0 as nat, pattern@.len());
    }
    let ghost target = next_kept(pattern@, p0 as nat, pattern@.len());
    loop
        invariant_except_break
            p0 <= *pos <= target,
            mother@ == m0 + Seq::new((*pos - p0) as nat, |i: int| erasure),
        invariant
            plen == pattern@.len(),
            plen > 0,
            target < p0 + plen,
            p0 + plen <= usize::MAX,
            pat_at(pattern@, target as int) == 1,
            forall|q: int| p0 <= q < target ==> #[trigger] pat_at(pattern@, q) != 1,
        ensures
            *pos == target + 1,
            mother@ == m0 + Seq::new(
                (*pos - p0) as nat,
                |i: int| if i == *pos - p0 - 1 { value } else { erasure },
            ),
        decreases target - *pos,
    {
        let q = *pos;
        let pat = pattern[q % plen];
        assert(pat == pat_at(pattern@, q as int));
        *pos = q + 1;
        if pat == 1 {
            assert(q == target);
            mother.push(value);
            proof {
                assert(mother@ =~= m0 + Seq::new(
                    (*pos - p0) as nat,
                    |i: int| if i == *pos - p0 - 1 { value } else { erasure },
                ));
            }
            break;
        } else {
            assert(q != target);
            mother.push(erasure);
            proof {
                assert(mother@ =~= m0 + Seq::new((*pos - p0) as nat, |i: int| erasure));
            }
        }
    }
}

/// Streaming depuncturing agrees with the batch form: if the stream so far is the
/// depuncturing of `rx` up to `pos`, pushing `v` extends it to the depuncturing of `rx + [v]`.
pub proof fn lemma_depuncture_stream<T>(rx: Seq<T>, pattern: Seq<u8>, erasure: T, pos: nat, v: T)
    requires
        ones_before(pattern, pattern.len()) > 0,
        kept_index(pattern, pos as int) == rx.len(),
    ensures
        ({
            let p = next_kept(pattern, pos, pattern.len());
            &&& kept_index(pattern, (p + 1) as int) == rx.len() + 1
            &&& Seq::new(pos, |i: int| depunct_at(rx, pattern, erasure, i)) + Seq::new(
                (p + 1 - pos) as nat,
                |i: int| if i == p - pos { v } else { erasure },
            ) == Seq::new(p + 1, |i: int| depunct_at(rx.push(v), pattern, erasure, i))
        }),
{
    let plen = pattern.len();
    lemma_ones_before_mono(pattern, 0, plen);
    lemma_next_kept(pattern, pos, plen);
    let p = next_kept(pattern, pos, plen);
    // kept_index does not move across the punctured positions pos .. p
    assert forall|q: nat| pos <= q <= p implies #[trigger] kept_index(pattern, q as int) == rx.len()
        by {
        lemma_kept_index_range(pattern, pos, q);
    }
    lemma_kept_index_step(pattern, p as int);
    let lhs = Seq::new(pos, |i: int| depunct_at(rx, pattern, erasure, i)) + Seq::new(
        (p + 1 - pos) as nat,
        |i: int| if i == p - pos { v } else { erasure },
    );
    let rhs = Seq::new(p + 1, |i: int| depunct_at(rx.push(v), pattern, erasure, i));
    assert forall|i: int| 0 <= i < p + 1 implies lhs[i] == rhs[i] by {
        if i < pos {
            if pattern[i % plen as int] == 1 {
                lemma_kept_index_below(pattern, i, pos);
            }
        } else if i < p {
            assert(pat_at(pattern, i) != 1);
        } else {
            assert(kept_index(pattern, p as int) == rx.len());
        }
    }
    assert(lhs =~= rhs);
}

/// Between `pos` and a position `q` with no kept position in between, the kept count stays.
proof fn lemma_kept_index_range(pattern: Seq<u8>, pos: nat, q: nat)
    requires
        pattern.len() > 0,
        pos <= q,
        forall|r: int| pos <= r < q ==> #[trigger] pat_at(pattern, r) != 1,
    ensures
        kept_index(pattern, q as int) == kept_index(pattern, pos as int),
    decreases q - pos,
{
    if q > pos {
        lemma_kept_index_range(pattern, pos, (q - 1) as nat);
        lemma_kept_index_step(pattern, q - 1);
        assert(pat_at(pattern, q - 1) != 1);
    }
}

/// A kept position below `pos` has a kept index below that of `pos`.
proof fn lemma_kept_index_below(pattern: Seq<u8>, i: int, pos: nat)
    requires
        pattern.len() > 0,
        0 <= i < pos,
        pattern[i % pattern.len() as int] == 1,
    ensures
        kept_index(pattern, i) < kept_index(pattern, pos as int),
    decreases pos - i,
{
    lemma_kept_index_step(pattern, pos - 1);
    if i < pos - 1 {
        lemma_kept_index_below(pattern, i, (pos - 1) as nat);
    }
}

} // verus!
