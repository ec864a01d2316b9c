//! Transport-stream stage: bit packing, Forney byte deinterleaving (I=12, M=17), TS sync
//! detection and the energy-dispersal PRBS.
//!
//! Viterbi output bits are packed into bytes, byte-deinterleaved into 204-byte RS blocks
//! (sync byte 0x47 first, or its inversion 0xB8 at the start of every 8-packet group),
//! RS-decoded and de-scrambled into 188-byte MPEG-TS packets.

use vstd::prelude::*;
use std::collections::VecDeque;
use crate::tmcc::{pow2_nat, lemma_count_below_quotient};

verus! {

/// RS block (TS packet with parity) length.
pub const TSP: usize = 204;
/// Branches of the byte interleaver.
pub const BI_I: usize = 12;
/// Unit delay of the byte interleaver in bytes (204 / 12).
pub const BI_M: usize = 17;
/// TS sync byte.
pub const SYNC: u8 = 0x47;
/// Inverted sync byte (start of each 8-packet group).
pub const SYNC_INV: u8 = 0xb8;

/// The big-endian value of the low bits of the 8 entries `b[start .. start + 8]`.
pub open spec fn byte_from_bits(b: Seq<u8>, start: int, n: nat) -> nat
    decreases n,
{
    if n == 0 {
        0
    } else {
        2 * byte_from_bits(b, start, (n - 1) as nat) + (b[start + n - 1] % 2) as nat
    }
}

proof fn lemma_shift_in(v: u8, b: u8)
    by (bit_vector)
    requires
        v < 128,
    ensures
        (v << 1u8) | (b & 1u8) == 2 * v + b % 2,
{
}

proof fn lemma_byte_from_bits_bound(b: Seq<u8>, start: int, n: nat)
    requires
        n <= 7,
    ensures
        byte_from_bits(b, start, n) < 128,
    decreases n,
{
    if n > 0 {
        lemma_byte_from_bits_bound(b, start, (n - 1) as nat);
        assert(byte_from_bits(b, start, (n - 1) as nat) < 64) by {
            lemma_byte_from_bits_small(b, start, (n - 1) as nat);
        }
    }
}

proof fn lemma_byte_from_bits_small(b: Seq<u8>, start: int, n: nat)
    requires
        n <= 6,
    ensures
        byte_from_bits(b, start, n) < 64,
        n <= 5 ==> byte_from_bits(b, start, n) < 32,
        n <= 4 ==> byte_from_bits(b, start, n) < 16,
        n <= 3 ==> byte_from_bits(b, start, n) < 8,
        n <= 2 ==> byte_from_bits(b, start, n) < 4,
        n <= 1 ==> byte_from_bits(b, start, n) < 2,
    decreases n,
{
    if n > 0 {
        lemma_byte_from_bits_small(b, start, (n - 1) as nat);
    }
}

/// Bits are packed most significant first: the first of `n` bits weighs `2^(n-1)` and the
/// remaining `n - 1` bits form the rest of the value.
pub proof fn lemma_byte_from_bits_msb_first(b: Seq<u8>, start: int, n: nat)
    requires
        n >= 1,
    ensures
        byte_from_bits(b, start, n) == pow2_nat((n - 1) as nat) * ((b[start] % 2) as nat)
            + byte_from_bits(b, start + 1, (n - 1) as nat),
    decreases n,
{
    if n > 1 {
        let m = (n - 1) as nat;
        lemma_byte_from_bits_msb_first(b, start, m);
        let p = pow2_nat((m - 1) as nat);
        let x = (b[start] % 2) as nat;
        assert(pow2_nat(m) == 2 * p);
        assert(2 * (p * x) == (2 * p) * x) by (nonlinear_arith);
        assert(start + 1 + m - 1 == start + n - 1);
        assert(byte_from_bits(b, start + 1, m) == 2 * byte_from_bits(b, start + 1, (m - 1) as nat)
            + (b[start + n - 1] % 2) as nat);
        assert(byte_from_bits(b, start, n) == 2 * byte_from_bits(b, start, m) + (b[start + n - 1]
            % 2) as nat);
        assert(byte_from_bits(b, start, m) == p * x + byte_from_bits(b, start + 1, (m - 1) as nat));
        assert(byte_from_bits(b, start, n) == (2 * p) * x + byte_from_bits(b, start + 1, m));
        assert(byte_from_bits(b, start, n) == pow2_nat((n - 1) as nat) * ((b[start] % 2) as nat)
            + byte_from_bits(b, start + 1, (n - 1) as nat));
    } else {
        assert(pow2_nat(0) == 1);
        assert(byte_from_bits(b, start, 1) == 2 * byte_from_bits(b, start, 0) + (b[start] % 2) as nat);
        assert(byte_from_bits(b, start + 1, 0) == 0);
        assert(byte_from_bits(b, start, 0) == 0);
        assert(byte_from_bits(b, start, n) == pow2_nat((n - 1) as nat) * ((b[start] % 2) as nat)
            + byte_from_bits(b, start + 1, (n - 1) as nat));
    }
}

/// Packs bits into bytes, most significant bit first, starting at `bit_offset`
/// (clamped to the length); a trailing incomplete byte is dropped.
pub fn pack_bits_msb(bits: &[u8], bit_offset: usize) -> (out: Vec<u8>)
    ensures
        ({
            let off = if bit_offset <= bits@.len() { bit_offset as int } else { bits@.len() as int };
            &&& out@.len() == (bits@.len() - off) / 8
            &&& forall|i: int|
                0 <= i < out@.len() ==> #[trigger] out@[i] as nat == byte_from_bits(
                    bits@,
                    off + 8 * i,
                    8,
                )
        }),
{
    let off = if bit_offset <= bits.len() { bit_offset } else { bits.len() };
    let n = (bits.len() - off) / 8;
    let mut out: Vec<u8> = Vec::new();
    let mut i: usize = 0;
    while i < n
        invariant
            off <= bits.len(),
            n == (bits.len() - off) / 8,
            i <= n,
            out@.len() == i,
            forall|q: int|
                0 <= q < i ==> #[trigger] out@[q] as nat == byte_from_bits(bits@, off + 8 * q, 8),
        decreases n - i,
    {
        let mut v: u8 = 0;
        let mut j: usize = 0;
        while j < 8
            invariant
                off <= bits.len(),
                i < n,
                n == (bits.len() - off) / 8,
                j <= 8,
                v as nat == byte_from_bits(bits@, off + 8 * i, j as nat),
            decreases 8 - j,
        {
            proof {
                lemma_byte_from_bits_bound(bits@, off + 8 * i, j as nat);
                lemma_shift_in(v, bits@[off + i * 8 + j]);
            }
            v = (v << 1) | (bits[off + i * 8 + j] & 1);
            j = j + 1;
        }
        out.push(v);
        i = i + 1;
    }
    out
}

/// Delay in bytes of branch `k` of the byte deinterleaver (`rev` selects the mirrored order).
pub open spec fn deinterleave_delay(rev: bool, k: int) -> int {
    17 * (if rev { k } else { 11 - k })
}

/// Delay in bytes of branch `k` of the byte interleaver.
pub open spec fn interleave_delay(k: int) -> int {
    17 * k
}

/// The byte that entered branch `k` for the `m`-th time (zero before the first one).
pub open spec fn branch_input(hist: Seq<u8>, k: int, m: int) -> u8 {
    if 0 <= m && 12 * m + k < hist.len() {
        hist[12 * m + k]
    } else {
        0u8
    }
}

/// Number of bytes branch `k` has received after `len` inputs.
pub open spec fn branch_count(len: nat, k: int) -> int {
    if len as int > k {
        (len - k - 1) / 12 + 1
    } else {
        0
    }
}

/// Output of a 12-branch convolutional delay line for input number `t` of `inputs`, when
/// branch `k` delays by `delay(k)` of its own bytes: `inputs[t - 12 * delay(t % 12)]`,
/// or zero while that branch is still filling.
pub open spec fn delayed_byte(inputs: Seq<u8>, t: int, d: int) -> u8 {
    if t - 12 * d >= 0 {
        inputs[t - 12 * d]
    } else {
        0u8
    }
}

/// The contents of each branch FIFO given the input history.
pub open spec fn fifos_hold(fifos: Seq<VecDeque<u8>>, hist: Seq<u8>, delay: spec_fn(int) -> int) -> bool {
    &&& fifos.len() == 12
    &&& forall|k: int|
        0 <= k < 12 ==> #[trigger] fifos[k]@ == Seq::new(
            delay(k) as nat,
            |q: int| branch_input(hist, k, branch_count(hist.len(), k) - delay(k) + q),
        )
}

/// One push into branch `len % 12` keeps every branch FIFO consistent with the extended history.
proof fn lemma_fifo_step(
    old_fifos: Seq<VecDeque<u8>>,
    new_fifos: Seq<VecDeque<u8>>,
    hist: Seq<u8>,
    byte: u8,
    delay: spec_fn(int) -> int,
)
    requires
        fifos_hold(old_fifos, hist, delay),
        forall|j: int| 0 <= j < 12 ==> 0 <= #[trigger] delay(j),
        new_fifos.len() == 12,
        forall|j: int| 0 <= j < 12 && j != hist.len() % 12 ==> new_fifos[j] == old_fifos[j],
        ({
            let k = (hist.len() % 12) as int;
            let pushed = old_fifos[k]@.push(byte);
            new_fifos[k]@ == pushed.subrange(1, pushed.len() as int)
        }),
    ensures
        fifos_hold(new_fifos, hist.push(byte), delay),
{
    let h2 = hist.push(byte);
    let k = (hist.len() % 12) as int;
    assert forall|j: int| 0 <= j < 12 implies #[trigger] new_fifos[j]@ == Seq::new(
        delay(j) as nat,
        |q: int| branch_input(h2, j, branch_count(h2.len(), j) - delay(j) + q),
    ) by {
        let d = delay(j);
        if j == k {
            assert(branch_count(h2.len(), j) == branch_count(hist.len(), j) + 1) by {
                assert(hist.len() as int == 12 * (hist.len() as int / 12) + k);
            }
            assert(12 * branch_count(hist.len(), j) + j == hist.len()) by {
                assert(hist.len() as int == 12 * (hist.len() as int / 12) + k);
            }
            assert(new_fifos[j]@ =~= Seq::new(
                d as nat,
                |q: int| branch_input(h2, j, branch_count(h2.len(), j) - d + q),
            ));
        } else {
            assert(branch_count(h2.len(), j) == branch_count(hist.len(), j)) by {
                assert(hist.len() as int == 12 * (hist.len() as int / 12) + k);
            }
            assert(new_fifos[j]@ =~= Seq::new(
                d as nat,
                |q: int| branch_input(h2, j, branch_count(h2.len(), j) - d + q),
            ));
        }
    }
}

/// Forney convolutional byte deinterleaver (I=12, M=17): branch `k` delays by
/// `M*(I-1-k)` of its bytes, so with the transmitter's `M*k` every byte sees `M*(I-1)`.
pub struct ByteDeinterleaver {
    fifos: Vec<VecDeque<u8>>,
    idx: usize,
    hist: Ghost<Seq<u8>>,
    rev: Ghost<bool>,
}

impl ByteDeinterleaver {
    /// Consistency of the FIFOs with the bytes pushed so far.
    pub closed spec fn wf(&self) -> bool {
        &&& fifos_hold(self.fifos@, self.hist@, |k: int| deinterleave_delay(self.rev@, k))
        &&& self.idx == self.hist@.len() % 12
    }

    /// The bytes pushed so far.
    pub closed spec fn history(&self) -> Seq<u8> {
        self.hist@
    }

    /// Whether the mirrored branch order was chosen.
    pub closed spec fn reversed(&self) -> bool {
        self.rev@
    }

    /// Standard orientation (branch `k` delays by `M*(I-1-k)`).
    pub fn new() -> (d: Self)
        ensures
            d.wf(),
            d.history() == Seq::<u8>::empty(),
            !d.reversed(),
    {
        Self::with_rev(false)
    }

    /// `rev == false`: branch `k` delays by `M*(I-1-k)` (standard); `rev == true`: by `M*k`.
    pub fn with_rev(rev: bool) -> (d: Self)
        ensures
            d.wf(),
            d.history() == Seq::<u8>::empty(),
            d.reversed() == rev,
    {
        let mut fifos: Vec<VecDeque<u8>> = Vec::new();
        let mut k: usize = 0;
        while k < BI_I
            invariant
                k <= 12,
                fifos@.len() == k,
                forall|j: int|
                    0 <= j < k ==> #[trigger] fifos@[j]@ == Seq::new(
                        deinterleave_delay(rev, j) as nat,
                        |q: int| 0u8,
                    ),
            decreases 12 - k,
        {
            let d = if rev { k } else { BI_I - 1 - k };
            let mut f: VecDeque<u8> = VecDeque::new();
            let mut q: usize = 0;
            while q < BI_M * d
                invariant
                    d <= 11,
                    q <= BI_M * d,
                    f@ == Seq::new(q as nat, |x: int| 0u8),
                decreases BI_M * d - q,
            {
                f.push_back(0u8);
                q = q + 1;
                proof {
                    assert(f@ =~= Seq::new(q as nat, |x: int| 0u8));
                }
            }
            fifos.push(f);
            k = k + 1;
        }
        let d = ByteDeinterleaver { fifos, idx: 0, hist: Ghost(Seq::empty()), rev: Ghost(rev) };
        proof {
            assert forall|j: int| 0 <= j < 12 implies #[trigger] d.fifos@[j]@ == Seq::new(
                deinterleave_delay(rev, j) as nat,
                |q: int| branch_input(Seq::<u8>::empty(), j, branch_count(0, j) - deinterleave_delay(rev, j) + q),
            ) by {
                assert(d.fifos@[j]@ =~= Seq::new(
                    deinterleave_delay(rev, j) as nat,
                    |q: int| branch_input(Seq::<u8>::empty(), j, branch_count(0, j) - deinterleave_delay(rev, j) + q),
                ));
            }
        }
        d
    }

    /// Pushes one byte and returns the head of its branch's delay line (the commutator
    /// advances internally).
    pub fn push(&mut self, byte: u8) -> (out: u8)
        requires
            old(self).wf(),
        ensures
            final(self).wf(),
            final(self).reversed() == old(self).reversed(),
            final(self).history() == old(self).history().push(byte),
            out == delayed_byte(
                final(self).history(),
                old(self).history().len() as int,
                deinterleave_delay(old(self).reversed(), old(self).history().len() as int % 12),
            ),
    {
        let k = self.idx % BI_I;
        self.idx = (k + 1) % BI_I;
        let ghost old_hist = self.hist@;
        let ghost old_fifos = self.fifos@;
        self.fifos[k].push_back(byte);
        let out = match self.fifos[k].pop_front() {
            Some(x) => x,
            None => byte,
        };
        self.hist = Ghost(old_hist.push(byte));
        proof {
            let rev = self.rev@;
            lemma_fifo_step(old_fifos, self.fifos@, old_hist, byte, |j: int| deinterleave_delay(rev, j));
        }
        out
    }
}

/// Forney convolutional byte interleaver (transmit side, I=12, M=17): branch `k` delays
/// by `M*k` of its bytes. The counterpart of [`ByteDeinterleaver`].
pub struct ByteInterleaver {
    fifos: Vec<VecDeque<u8>>,
    idx: usize,
    hist: Ghost<Seq<u8>>,
}

impl ByteInterleaver {
    /// Consistency of the FIFOs with the bytes pushed so far.
    pub closed spec fn wf(&self) -> bool {
        &&& fifos_hold(self.fifos@, self.hist@, |k: int| interleave_delay(k))
        &&& self.idx == self.hist@.len() % 12
    }

    /// The bytes pushed so far.
    pub closed spec fn history(&self) -> Seq<u8> {
        self.hist@
    }

    pub fn new() -> (it: Self)
        ensures
            it.wf(),
            it.history() == Seq::<u8>::empty(),
    {
        let mut fifos: Vec<VecDeque<u8>> = Vec::new();
        let mut k: usize = 0;
        while k < BI_I
            invariant
                k <= 12,
                fifos@.len() == k,
                forall|j: int|
                    0 <= j < k ==> #[trigger] fifos@[j]@ == Seq::new(
                        interleave_delay(j) as nat,
                        |q: int| 0u8,
                    ),
            decreases 12 - k,
        {
            let mut f: VecDeque<u8> = VecDeque::new();
            let mut q: usize = 0;
            while q < BI_M * k
                invariant
                    k < 12,
                    q <= BI_M * k,
                    f@ == Seq::new(q as nat, |x: int| 0u8),
                decreases BI_M * k - q,
            {
                f.push_back(0u8);
                q = q + 1;
                proof {
                    assert(f@ =~= Seq::new(q as nat, |x: int| 0u8));
                }
            }
            fifos.push(f);
            k = k + 1;
        }
        let it = ByteInterleaver { fifos, idx: 0, hist: Ghost(Seq::empty()) };
        proof {
            assert forall|j: int| 0 <= j < 12 implies #[trigger] it.fifos@[j]@ == Seq::new(
                interleave_delay(j) as nat,
                |q: int| branch_input(Seq::<u8>::empty(), j, branch_count(0, j) - interleave_delay(j) + q),
            ) by {
                assert(it.fifos@[j]@ =~= Seq::new(
                    interleave_delay(j) as nat,
                    |q: int| branch_input(Seq::<u8>::empty(), j, branch_count(0, j) - interleave_delay(j) + q),
                ));
            }
        }
        it
    }

    /// Pushes one byte and returns the head of its branch's delay line.
    pub fn push(&mut self, byte: u8) -> (out: u8)
        requires
            old(self).wf(),
        ensures
            final(self).wf(),
            final(self).history() == old(self).history().push(byte),
            out == delayed_byte(
                final(self).history(),
                old(self).history().len() as int,
                interleave_delay(old(self).history().len() as int % 12),
            ),
    {
        let k = self.idx % BI_I;
        self.idx = (k + 1) % BI_I;
        let ghost old_hist = self.hist@;
        let ghost old_fifos = self.fifos@;
        self.fifos[k].push_back(byte);
        let out = match self.fifos[k].pop_front() {
            Some(x) => x,
            None => byte,
        };
        self.hist = Ghost(old_hist.push(byte));
        proof {
            lemma_fifo_step(old_fifos, self.fifos@, old_hist, byte, |j: int| interleave_delay(j));
        }
        out
    }
}

/// The byte stream a [`ByteInterleaver`] emits for the input stream `x`.
pub open spec fn interleaved_stream(x: Seq<u8>) -> Seq<u8> {
    Seq::new(x.len(), |t: int| delayed_byte(x, t, interleave_delay(t % 12)))
}

/// The byte stream a [`ByteDeinterleaver`] (orientation `rev`) emits for the input stream `y`.
pub open spec fn deinterleaved_stream(y: Seq<u8>, rev: bool) -> Seq<u8> {
    Seq::new(y.len(), |t: int| delayed_byte(y, t, deinterleave_delay(rev, t % 12)))
}

/// Interleaving followed by standard deinterleaving is the identity delayed by
/// `M * I * (I - 1) = 2244` bytes (11 RS blocks): every byte waits 17 * 11 of its
/// branch's turns in total.
pub proof fn lemma_byte_interleave_roundtrip(x: Seq<u8>, t: int)
    requires
        2244 <= t < x.len(),
    ensures
        deinterleaved_stream(interleaved_stream(x), false)[t] == x[t - 2244],
{
    let y = interleaved_stream(x);
    let k = t % 12;
    let s = t - 12 * deinterleave_delay(false, k);
    assert(s % 12 == k);
    assert(s - 12 * interleave_delay(s % 12) == t - 2244);
}

/// One step of the energy-dispersal register: feedback = bit13 xor bit14, shifted in at bit0.
pub open spec fn prbs_feedback(reg: u16) -> u16 {
    ((reg >> 13u16) ^ (reg >> 14u16)) & 1u16
}

pub open spec fn prbs_step(reg: u16) -> u16 {
    ((reg << 1u16) | prbs_feedback(reg)) & 0x7fffu16
}

/// The register after `n` steps.
pub open spec fn prbs_advance(reg: u16, n: nat) -> u16
    decreases n,
{
    if n == 0 {
        reg
    } else {
        prbs_step(prbs_advance(reg, (n - 1) as nat))
    }
}

/// The first `n` feedback bits, first bit most significant (low 32 bits kept).
pub open spec fn prbs_output(reg: u16, n: nat) -> u32
    decreases n,
{
    if n == 0 {
        0u32
    } else {
        (prbs_output(reg, (n - 1) as nat) << 1u32) | (prbs_feedback(
            prbs_advance(reg, (n - 1) as nat),
        ) as u32)
    }
}

/// The start register's 15 bits (bit 14 oldest) followed by the first `n` output bits
/// (newest in bit 0).
pub open spec fn prbs_window(reg: u16, n: nat) -> u64 {
    (((reg & 0x7fffu16) as u64) << (n as u64)) | (prbs_output(reg, n) as u64)
}

proof fn lemma_prbs_window_step(r: u64, a: u16, o: u32, n: u64)
    by (bit_vector)
    requires
        r < 0x8000u64,
        n < 32u64,
        (a & 0x7fffu16) as u64 == ((r << n) | (o as u64)) & 0x7fffu64,
        (o as u64) >> n == 0u64,
    ensures
        ({
            let f = ((a >> 13u16) ^ (a >> 14u16)) & 1u16;
            let o2 = (o << 1u32) | (f as u32);
            let w2 = (r << (n + 1u64)) | (o2 as u64);
            &&& ((((a << 1u16) | f) & 0x7fffu16) & 0x7fffu16) as u64 == w2 & 0x7fffu64
            &&& (o2 as u64) >> (n + 1u64) == 0u64
            &&& w2 & 1u64 == ((w2 >> 14u64) ^ (w2 >> 15u64)) & 1u64
        }),
{
}

proof fn lemma_prbs_window_start(reg: u16)
    by (bit_vector)
    ensures
        ((reg & 0x7fffu16) as u64) << 0u64 | 0u64 == (reg & 0x7fffu16) as u64,
        ((reg & 0x7fffu16) as u64) & 0x7fffu64 == (reg & 0x7fffu16) as u64,
        (0u32 as u64) >> 0u64 == 0u64,
        ((reg & 0x7fffu16) as u64) < 0x8000u64,
{
}

proof fn lemma_prbs_window(reg: u16, n: nat)
    requires
        n <= 32,
    ensures
        (prbs_advance(reg, n) & 0x7fffu16) as u64 == prbs_window(reg, n) & 0x7fffu64,
        (prbs_output(reg, n) as u64) >> (n as u64) == 0u64,
        n >= 1 ==> prbs_window(reg, n) & 1u64 == ((prbs_window(reg, n) >> 14u64) ^ (prbs_window(
            reg,
            n,
        ) >> 15u64)) & 1u64,
    decreases n,
{
    lemma_prbs_window_start(reg);
    if n > 0 {
        let m = (n - 1) as nat;
        lemma_prbs_window(reg, m);
        let r = (reg & 0x7fffu16) as u64;
        lemma_prbs_window_step(r, prbs_advance(reg, m), prbs_output(reg, m), m as u64);
    }
}

proof fn lemma_prbs_append(o: u32, a: u16)
    by (bit_vector)
    ensures
        ((o << 1u32) | (prbs_feedback(a) as u32)) >> 1u32 == o & 0x7fff_ffffu32,
{
}

proof fn lemma_prbs_step_masked(x: u16)
    by (bit_vector)
    ensures
        prbs_step(x) & 0x7fffu16 == prbs_step(x),
{
}

proof fn lemma_prbs_tail_step(a: u16, o: u32)
    by (bit_vector)
    requires
        a as u32 == o & 0x7fffu32,
    ensures
        ({
            let f = ((a >> 13u16) ^ (a >> 14u16)) & 1u16;
            let o2 = (o << 1u32) | (f as u32);
            &&& (((a << 1u16) | f) & 0x7fffu16) as u32 == o2 & 0x7fffu32
            &&& o2 & 1u32 == ((o2 >> 14u32) ^ (o2 >> 15u32)) & 1u32
        }),
{
}

proof fn lemma_prbs_tail(reg: u16, n: nat)
    requires
        n >= 15,
    ensures
        prbs_advance(reg, n) as u32 == prbs_output(reg, n) & 0x7fffu32,
        n >= 16 ==> prbs_output(reg, n) & 1u32 == ((prbs_output(reg, n) >> 14u32) ^ (prbs_output(
            reg,
            n,
        ) >> 15u32)) & 1u32,
    decreases n,
{
    if n == 15 {
        lemma_prbs_window(reg, 15);
        let a = prbs_advance(reg, 15);
        let o = prbs_output(reg, 15);
        let r = (reg & 0x7fffu16) as u64;
        assert(a == prbs_step(prbs_advance(reg, 14)));
        assert(prbs_window(reg, 15) == (r << 15u64) | (o as u64));
        lemma_prbs_step_masked(prbs_advance(reg, 14));
        assert(a as u32 == o & 0x7fffu32) by (bit_vector)
            requires
                a == a & 0x7fffu16,
                (a & 0x7fffu16) as u64 == ((r << 15u64) | (o as u64)) & 0x7fffu64,
        ;
    } else {
        let m = (n - 1) as nat;
        lemma_prbs_tail(reg, m);
        lemma_prbs_tail_step(prbs_advance(reg, m), prbs_output(reg, m));
    }
}

/// The energy-dispersal sequence follows the generator 1 + x^14 + x^15: in the stream made
/// of the start register (its bit 14 first) and then the output bits, every new bit is the
/// xor of the bits 14 and 15 places before it, i.e. of bits 13 and 14 of the register it
/// was clocked from. After at least 15 clocks the register holds the last 15 output bits,
/// and from the 16th output bit on the recurrence holds within what `clock` returns.
/// Each clock appends one bit to what the clocks before it returned.
pub proof fn lemma_prbs_recurrence(reg: u16, n: nat)
    ensures
        n >= 1 ==> prbs_output(reg, n) >> 1u32 == prbs_output(reg, (n - 1) as nat) & 0x7fff_ffffu32,
        1 <= n <= 32 ==> prbs_window(reg, n) & 1u64 == ((prbs_window(reg, n) >> 14u64) ^ (
        prbs_window(reg, n) >> 15u64)) & 1u64,
        1 <= n <= 32 ==> prbs_advance(reg, n) as u64 == prbs_window(reg, n) & 0x7fffu64,
        n >= 15 ==> prbs_advance(reg, n) as u32 == prbs_output(reg, n) & 0x7fffu32,
        n >= 16 ==> prbs_output(reg, n) & 1u32 == ((prbs_output(reg, n) >> 14u32) ^ (prbs_output(
            reg,
            n,
        ) >> 15u32)) & 1u32,
{
    if n >= 1 {
        lemma_prbs_append(prbs_output(reg, (n - 1) as nat), prbs_advance(reg, (n - 1) as nat));
    }
    if 1 <= n <= 32 {
        lemma_prbs_window(reg, n);
        let a = prbs_advance(reg, n);
        assert(a == prbs_step(prbs_advance(reg, (n - 1) as nat)));
        lemma_prbs_step_masked(prbs_advance(reg, (n - 1) as nat));
    }
    if n >= 15 {
        lemma_prbs_tail(reg, n);
    }
}

/// PRBS of the energy dispersal (15-bit register, reset value 0xa9, feedback bit13 ^ bit14).
/// `clock(8)` yields one scrambling byte.
pub struct EnergyPrbs {
    reg: u16,
}

impl EnergyPrbs {
    /// The 15-bit register contents.
    pub closed spec fn state(&self) -> u16 {
        self.reg
    }

    pub fn new() -> (p: Self)
        ensures
            p.state() == 0xa9,
    {
        assert(0xa9u16 & 0x7fffu16 == 0xa9u16) by (bit_vector);
        Self::with_init(0xa9)
    }

    /// Starts from `init` (its low 15 bits).
    pub fn with_init(init: u16) -> (p: Self)
        ensures
            p.state() == init & 0x7fff,
    {
        Self { reg: init & 0x7fff }
    }

    /// Back to the standard start value 0xa9.
    pub fn reset(&mut self)
        ensures
            final(self).state() == 0xa9,
    {
        self.reg = 0xa9;
    }

    /// Back to the low 15 bits of `init`.
    pub fn reset_to(&mut self, init: u16)
        ensures
            final(self).state() == init & 0x7fff,
    {
        self.reg = init & 0x7fff;
    }

    /// Advances `clocks` bits and returns them as an integer, first bit most significant
    /// (8 clocks give one byte).
    pub fn clock(&mut self, clocks: usize) -> (r: u32)
        ensures
            final(self).state() == prbs_advance(old(self).state(), clocks as nat),
            r == prbs_output(old(self).state(), clocks as nat),
    {
        let ghost start = self.reg;
        let mut res: u32 = 0;
        let mut i: usize = 0;
        while i < clocks
            invariant
                i <= clocks,
                self.reg == prbs_advance(start, i as nat),
                res == prbs_output(start, i as nat),
            decreases clocks - i,
        {
            let feedback = ((self.reg >> 13) ^ (self.reg >> 14)) & 0x1;
            self.reg = ((self.reg << 1) | feedback) & 0x7fff;
            res = (res << 1) | feedback as u32;
            i = i + 1;
        }
        res
    }
}

/// Number of positions `p, p + 204, ...` below `len`.
pub open spec fn phase_slots(len: nat, p: nat) -> nat {
    if p < len {
        ((len - p - 1) as nat / 204 + 1) as nat
    } else {
        0
    }
}

/// Slot `i` at phase `p` is counted exactly when it lies inside the stream.
pub proof fn lemma_phase_slots(len: nat, p: nat, i: nat)
    ensures
        i < phase_slots(len, p) <==> p + 204 * i < len,
{
    if p < len {
        lemma_count_below_quotient(i as int, len - p - 1);
    }
}

/// Whether a byte is a sync byte (0x47 or 0xB8).
pub open spec fn is_sync_byte(b: u8) -> bool {
    b == SYNC || b == SYNC_INV
}

/// Sync bytes among the first `n` slots `p + 204 * i`.
pub open spec fn sync_hits(bytes: Seq<u8>, p: nat, n: nat) -> nat
    decreases n,
{
    if n == 0 {
        0
    } else {
        sync_hits(bytes, p, (n - 1) as nat) + if is_sync_byte(bytes[p + 204 * (n - 1)]) {
            1nat
        } else {
            0nat
        }
    }
}

/// Counts, at phase `p`, the slots `p, p + 204, ...` of `bytes` and how many of them hold a
/// sync byte: `(hits, total)`; the sync score at `p` is `hits / total` (0 when `total` is 0).
pub fn sync_hits_at(bytes: &[u8], p: usize) -> (r: (usize, usize))
    requires
        bytes.len() + TSP <= usize::MAX,
    ensures
        r.1 == phase_slots(bytes@.len(), p as nat),
        r.0 == sync_hits(bytes@, p as nat, r.1 as nat),
{
    let mut hit: usize = 0;
    let mut tot: usize = 0;
    let mut i = p;
    while i < bytes.len()
        invariant
            bytes.len() + 204 <= usize::MAX,
            i == p + 204 * tot,
            tot <= phase_slots(bytes@.len(), p as nat),
            i < bytes@.len() ==> tot < phase_slots(bytes@.len(), p as nat),
            i >= bytes@.len() ==> tot == phase_slots(bytes@.len(), p as nat),
            hit == sync_hits(bytes@, p as nat, tot as nat),
            hit <= tot,
        decreases bytes.len() + 204 - i,
    {
        if bytes[i] == SYNC || bytes[i] == SYNC_INV {
            hit = hit + 1;
        }
        tot = tot + 1;
        i = i + TSP;
    }
    (hit, tot)
}

impl Default for ByteDeinterleaver {
    fn default() -> (d: Self)
        ensures
            d.wf(),
            d.history() == Seq::<u8>::empty(),
            !d.reversed(),
    {
        Self::new()
    }
}

impl Default for ByteInterleaver {
    fn default() -> (it: Self)
        ensures
            it.wf(),
            it.history() == Seq::<u8>::empty(),
    {
        Self::new()
    }
}

impl Default for EnergyPrbs {
    fn default() -> (p: Self)
        ensures
            p.state() == 0xa9,
    {
        Self::new()
    }
}

} // verus!
