//! Byte-level back end of the streaming decoder: from decoded information bits to
//! 188-byte TS packets.
//!
//! After the alignment has been locked (commutator offset of the byte deinterleaver, RS
//! block phase, and the block on which the energy-dispersal PRBS restarts), every decoded bit
//! is packed MSB first into bytes, byte-deinterleaved, cut into 204-byte blocks, de-scrambled
//! and RS-decoded. The PRBS restarts every 64 RS blocks (one OFDM frame:
//! 204 symbols * 384 carriers * 2 bits * 2/3 / 8 / 204 = 64).

use vstd::prelude::*;
use crate::rs::{decode, is_rs_codeword, diff_positions, within_reach, Checker, N, K};
use crate::ts::{
    ByteDeinterleaver, EnergyPrbs, prbs_advance, prbs_output, deinterleave_delay, delayed_byte,
    deinterleaved_stream, interleaved_stream, lemma_byte_interleave_roundtrip, TSP,
};

verus! {

/// RS blocks between PRBS restarts (one OFDM frame).
pub const RESET_PERIOD: usize = 64;
/// PRBS start value of the energy dispersal.
pub const PRBS_INIT: u16 = 0xa9;
/// Total delay of byte interleaving plus deinterleaving: `M * I * (I - 1)` bytes.
pub const BYTE_LATENCY: usize = 2244;

/// Block `blk` with bytes 1..204 xored with the PRBS bytes that follow register state `state`
/// (byte 0, the sync byte, is not scrambled).
pub open spec fn descrambled(blk: Seq<u8>, state: u16) -> Seq<u8> {
    Seq::new(
        204,
        |i: int|
            if i == 0 {
                blk[0]
            } else {
                blk[i] ^ (prbs_output(prbs_advance(state, (8 * (i - 1)) as nat), 8) as u8)
            },
    )
}

proof fn lemma_xor_twice(a: u8, k: u8)
    by (bit_vector)
    ensures
        (a ^ k) ^ k == a,
{
}

/// Scrambling is its own inverse: de-scrambling twice from the same register state gives
/// back the block (the transmitter's scrambler and the receiver's de-scrambler coincide).
pub proof fn lemma_descramble_involution(blk: Seq<u8>, state: u16)
    requires
        blk.len() == 204,
    ensures
        descrambled(descrambled(blk, state), state) == blk,
{
    let d = descrambled(blk, state);
    assert forall|i: int| 0 <= i < 204 implies #[trigger] descrambled(d, state)[i] == blk[i] by {
        if i > 0 {
            lemma_xor_twice(blk[i], prbs_output(prbs_advance(state, (8 * (i - 1)) as nat), 8) as u8);
        }
    }
    assert(descrambled(d, state) =~= blk);
}

proof fn lemma_prbs_advance_add(s: u16, a: nat, b: nat)
    ensures
        prbs_advance(prbs_advance(s, a), b) == prbs_advance(s, a + b),
    decreases b,
{
    if b > 0 {
        lemma_prbs_advance_add(s, a, (b - 1) as nat);
    }
}

/// De-scrambles one 204-byte block with the running PRBS: byte 0 is kept, bytes 1..203
/// are xored with successive PRBS bytes, and one more PRBS byte is skipped (the sync slot
/// of the next block).
pub fn descramble_block(prbs: &mut EnergyPrbs, blk: &[u8]) -> (o: Vec<u8>)
    requires
        blk@.len() == TSP,
    ensures
        o@ == descrambled(blk@, old(prbs).state()),
        final(prbs).state() == prbs_advance(old(prbs).state(), 8 * 204),
{
    let ghost s0 = prbs.state();
    let mut o: Vec<u8> = Vec::with_capacity(TSP);
    o.push(blk[0]);
    let mut i: usize = 1;
    while i < TSP
        invariant
            blk@.len() == 204,
            1 <= i <= 204,
            o@.len() == i,
            prbs.state() == prbs_advance(s0, (8 * (i - 1)) as nat),
            forall|q: int| 0 <= q < i ==> #[trigger] o@[q] == descrambled(blk@, s0)[q],
        decreases 204 - i,
    {
        let ghost before = prbs.state();
        let v = prbs.clock(8);
        o.push(blk[i] ^ (v as u8));
        proof {
            lemma_prbs_advance_add(s0, (8 * (i - 1)) as nat, 8);
        }
        i = i + 1;
    }
    prbs.clock(8);
    proof {
        lemma_prbs_advance_add(s0, 8 * 203, 8);
        assert(o@ =~= descrambled(blk@, s0));
    }
    o
}

/// The standard deinterleaver's output on `bytes[c..]`, without its first `BYTE_LATENCY`
/// (fill) bytes.
pub open spec fn aligned_stream(bytes: Seq<u8>, c: int) -> Seq<u8> {
    let d = deinterleaved_stream(bytes.subrange(c, bytes.len() as int), false);
    if d.len() > 2244 {
        d.subrange(2244, d.len() as int)
    } else {
        Seq::empty()
    }
}

/// Byte-deinterleaves `bytes[c..]` (standard orientation) and drops the first
/// `BYTE_LATENCY` outputs, which come from the initially empty delay lines.
pub fn deinterleave_aligned(bytes: &[u8], c: usize) -> (s: Vec<u8>)
    requires
        c <= bytes@.len(),
    ensures
        s@ == aligned_stream(bytes@, c as int),
{
    let ghost src = bytes@.subrange(c as int, bytes@.len() as int);
    let mut di = ByteDeinterleaver::new();
    let mut out: Vec<u8> = Vec::new();
    let mut j: usize = 0;
    while c + j < bytes.len()
        invariant
            c <= bytes@.len(),
            src == bytes@.subrange(c as int, bytes@.len() as int),
            c + j <= bytes.len(),
            di.wf(),
            !di.reversed(),
            di.history() == src.subrange(0, j as int),
            out@.len() == if j > 2244 { j - 2244 } else { 0 },
            forall|q: int|
                0 <= q < out@.len() ==> #[trigger] out@[q] == deinterleaved_stream(src, false)[q + 2244],
        decreases bytes.len() - (c + j),
    {
        let b = bytes[c + j];
        let o = di.push(b);
        proof {
            assert(di.history() == src.subrange(0, j + 1));
            let t = j as int;
            let d = deinterleave_delay(false, t % 12);
            assert(o == delayed_byte(src.subrange(0, j + 1), t, d));
            assert(0 <= d);
            assert(deinterleaved_stream(src, false)[t] == delayed_byte(src, t, d));
        }
        if j >= BYTE_LATENCY {
            out.push(o);
        }
        j = j + 1;
    }
    proof {
        assert(src.len() == j);
        assert(out@ =~= aligned_stream(bytes@, c as int));
    }
    out
}

/// PRBS register before de-scrambling block `idx`, when the PRBS restarts at 0xa9 before
/// every block with `idx % 64 == reset_off` and otherwise runs on from the previous block.
pub open spec fn prbs_state_before(idx: nat, reset_off: nat) -> u16
    decreases idx,
{
    let carried = if idx == 0 {
        0xa9u16
    } else {
        prbs_advance(prbs_state_before((idx - 1) as nat, reset_off), 8 * 204)
    };
    if idx % 64 == reset_off {
        0xa9u16
    } else {
        carried
    }
}

/// Number of complete 204-byte blocks of `stream` from `phase` on.
pub open spec fn full_blocks(len: nat, phase: nat) -> nat {
    if phase + 204 <= len {
        ((len - phase) as nat / 204) as nat
    } else {
        0
    }
}

/// Block `idx` (from `phase`) of `stream`, de-scrambled under the restart rule `reset_off`.
pub open spec fn trial_block(stream: Seq<u8>, phase: nat, idx: nat, reset_off: nat) -> Seq<u8> {
    descrambled(
        stream.subrange((phase + 204 * idx) as int, (phase + 204 * idx + 204) as int),
        prbs_state_before(idx, reset_off),
    )
}

/// How many of the first `n` trial blocks lie within 8 byte errors of an RS codeword.
pub open spec fn correctable_blocks(stream: Seq<u8>, phase: nat, reset_off: nat, n: nat) -> nat
    decreases n,
{
    if n == 0 {
        0
    } else {
        correctable_blocks(stream, phase, reset_off, (n - 1) as nat) + if within_reach(
            trial_block(stream, phase, (n - 1) as nat, reset_off),
        ) {
            1nat
        } else {
            0nat
        }
    }
}

/// Tries the PRBS restart offset `reset_off` on the first (at most 128) blocks of `stream`
/// from `phase`: returns `(ok, tot)`, the number of de-scrambled blocks that are codewords
/// or RS-decodable (exactly those within 8 byte errors of a codeword), and the number of
/// blocks tried.
pub fn rs_trial(checker: &Checker, stream: &[u8], phase: usize, reset_off: usize) -> (r: (usize, usize))
    ensures
        r.1 == if full_blocks(stream@.len(), phase as nat) < 128 {
            full_blocks(stream@.len(), phase as nat)
        } else {
            128
        },
        r.0 == correctable_blocks(stream@, phase as nat, reset_off as nat, r.1 as nat),
{
    if phase > stream.len() {
        // a phase past the end leaves no block to try
        return (0, 0);
    }
    let mut prbs = EnergyPrbs::with_init(PRBS_INIT);
    proof {
        assert(0xa9u16 & 0x7fffu16 == 0xa9u16) by (bit_vector);
    }
    let mut ok: usize = 0;
    let mut tot: usize = 0;
    let mut idx: usize = 0;
    while idx < 128 && TSP <= stream.len() - phase && idx < (stream.len() - phase) / TSP
        invariant
            phase <= stream.len(),
            idx <= 128,
            idx <= full_blocks(stream@.len(), phase as nat),
            tot == idx,
            ok == correctable_blocks(stream@, phase as nat, reset_off as nat, idx as nat),
            ok <= tot,
            idx > 0 ==> prbs.state() == prbs_advance(
                prbs_state_before((idx - 1) as nat, reset_off as nat),
                8 * 204,
            ),
            idx == 0 ==> prbs.state() == 0xa9,
        decreases 128 - idx,
    {
        if idx % RESET_PERIOD == reset_off {
            prbs.reset_to(PRBS_INIT);
        }
        proof {
            assert(0xa9u16 & 0x7fffu16 == 0xa9u16) by (bit_vector);
            assert(prbs.state() == prbs_state_before(idx as nat, reset_off as nat));
        }
        let start = phase + idx * TSP;
        let blk = &stream[start..start + TSP];
        let o = descramble_block(&mut prbs, blk);
        proof {
            assert(blk@ == stream@.subrange(start as int, start + 204));
        }
        let good = if checker.is_codeword(&o) {
            proof {
                assert(diff_positions(o@, o@) =~= Set::<int>::empty());
                assert(within_reach(o@));
            }
            true
        } else {
            match decode(&o) {
                Some(v) => {
                    proof {
                        assert(is_rs_codeword(v@));
                    }
                    true
                },
                None => false,
            }
        };
        if good {
            ok = ok + 1;
        }
        tot = tot + 1;
        idx = idx + 1;
    }
    (ok, tot)
}

/// Byte-level back end of the streaming decoder (after Viterbi): packs bits into bytes,
/// skips the commutator offset, byte-deinterleaves, skips the deinterleaver latency plus
/// the block phase, cuts 204-byte blocks, de-scrambles them and RS-decodes them; each
/// block that decodes contributes its 188 message bytes.
pub struct TsAssembler {
    commutator: usize,
    reset_off: usize,
    block_phase: usize,
    bit_acc: u8,
    bit_cnt: usize,
    byte_in_idx: usize,
    deint_out_idx: usize,
    bdeint: ByteDeinterleaver,
    prbs: EnergyPrbs,
    block_buf: Vec<u8>,
    block_idx: usize,
    ndec: usize,
    nblk: usize,
}

/// What a decoded block adds to the TS output: the 188 message bytes of the codeword within
/// 8 byte errors of the block (the block's own bytes when it is a codeword), or nothing when
/// no codeword is that close.
pub open spec fn block_emission(ds: Seq<u8>, added: Seq<u8>) -> bool {
    &&& is_rs_codeword(ds) ==> added == ds.subrange(0, 188)
    &&& if within_reach(ds) {
        forall|cw: Seq<u8>|
            cw.len() == 204 && #[trigger] is_rs_codeword(cw) && diff_positions(cw, ds).len() <= 8
                ==> added == cw.subrange(0, 188)
    } else {
        added.len() == 0
    }
}

/// `n + 1`, saturating at `usize::MAX`.
pub open spec fn sat_inc(n: nat) -> nat {
    if n < usize::MAX {
        n + 1
    } else {
        n
    }
}

/// What feeding one byte does to an assembler (`a` before, `b` after) and to the TS output
/// (`out0` before, `out1` after): skip it before the deinterleaver, or deinterleave it and
/// skip the output, collect it into the current block, or complete, de-scramble and decode
/// the block.
pub open spec fn byte_step(a: TsAssembler, byte: u8, b: TsAssembler, out0: Seq<u8>, out1: Seq<u8>) -> bool {
    &&& out1.len() >= out0.len()
    &&& out1.subrange(0, out0.len() as int) == out0
    &&& a.bytes_to_skip() > 0 ==> {
        &&& b.bytes_to_skip() == a.bytes_to_skip() - 1
        &&& b.outputs_to_skip() == a.outputs_to_skip()
        &&& b.deinterleaver_input() == a.deinterleaver_input()
        &&& b.current_block() == a.current_block()
        &&& b.block_position() == a.block_position()
        &&& b.prbs_state() == a.prbs_state()
        &&& b.counts() == a.counts()
        &&& out1 == out0
    }
    &&& a.bytes_to_skip() == 0 ==> {
        let t = a.deinterleaver_input().len() as int;
        let hist = a.deinterleaver_input().push(byte);
        let o = delayed_byte(hist, t, deinterleave_delay(false, t % 12));
        &&& b.bytes_to_skip() == 0
        &&& b.deinterleaver_input() == hist
        &&& a.outputs_to_skip() > 0 ==> {
            &&& b.outputs_to_skip() == a.outputs_to_skip() - 1
            &&& b.current_block() == a.current_block()
            &&& b.block_position() == a.block_position()
            &&& b.prbs_state() == a.prbs_state()
            &&& b.counts() == a.counts()
            &&& out1 == out0
        }
        &&& a.outputs_to_skip() == 0 && a.current_block().len() < 203 ==> {
            &&& b.outputs_to_skip() == 0
            &&& b.current_block() == a.current_block().push(o)
            &&& b.block_position() == a.block_position()
            &&& b.prbs_state() == a.prbs_state()
            &&& b.counts() == a.counts()
            &&& out1 == out0
        }
        &&& a.outputs_to_skip() == 0 && a.current_block().len() == 203 ==> {
            let blk = a.current_block().push(o);
            let (bi, ro) = a.block_position();
            let st = if bi == ro { PRBS_INIT } else { a.prbs_state() };
            let ds = descrambled(blk, st);
            let added = out1.subrange(out0.len() as int, out1.len() as int);
            &&& b.outputs_to_skip() == 0
            &&& b.current_block() == Seq::<u8>::empty()
            &&& b.block_position() == ((bi + 1) % 64, ro)
            &&& b.prbs_state() == prbs_advance(st, 8 * 204)
            &&& block_emission(ds, added)
            &&& b.counts() == (
                if within_reach(ds) { sat_inc(a.counts().0) } else { a.counts().0 },
                sat_inc(a.counts().1),
            )
        }
    }
}

impl TsAssembler {
    pub closed spec fn wf(&self) -> bool {
        &&& self.bdeint.wf()
        &&& !self.bdeint.reversed()
        &&& self.bit_cnt < 8
        &&& (self.bit_acc as nat) < pow2_small(self.bit_cnt as nat)
        &&& self.block_phase <= usize::MAX - BYTE_LATENCY
        &&& self.byte_in_idx <= self.commutator
        &&& self.deint_out_idx <= BYTE_LATENCY + self.block_phase
        &&& self.block_buf@.len() < 204
        &&& self.block_idx < 64
    }

    /// Bits of the byte being assembled, and their big-endian value.
    pub closed spec fn pending_bits(&self) -> (nat, nat) {
        (self.bit_cnt as nat, self.bit_acc as nat)
    }

    /// Bytes still to be skipped before the deinterleaver (commutator alignment).
    pub closed spec fn bytes_to_skip(&self) -> nat {
        (self.commutator - self.byte_in_idx) as nat
    }

    /// Deinterleaver outputs still to be discarded (latency plus block phase).
    pub closed spec fn outputs_to_skip(&self) -> nat {
        (BYTE_LATENCY + self.block_phase - self.deint_out_idx) as nat
    }

    /// The bytes fed to the byte deinterleaver so far.
    pub closed spec fn deinterleaver_input(&self) -> Seq<u8> {
        self.bdeint.history()
    }

    /// The bytes of the current, incomplete block.
    pub closed spec fn current_block(&self) -> Seq<u8> {
        self.block_buf@
    }

    /// Index of the next block modulo 64, and the restart offset of the PRBS.
    pub closed spec fn block_position(&self) -> (nat, nat) {
        (self.block_idx as nat, self.reset_off as nat)
    }

    /// The running PRBS register.
    pub closed spec fn prbs_state(&self) -> u16 {
        self.prbs.state()
    }

    /// RS blocks decoded and blocks completed (both saturating).
    pub closed spec fn counts(&self) -> (nat, nat) {
        (self.ndec as nat, self.nblk as nat)
    }

    /// An assembler for a locked alignment: skip `commutator` bytes before the deinterleaver,
    /// skip `BYTE_LATENCY + block_phase` deinterleaver outputs, restart the PRBS on blocks
    /// with index `reset_off` modulo 64.
    pub fn new(commutator: usize, reset_off: usize, block_phase: usize) -> (a: Self)
        requires
            block_phase <= usize::MAX - BYTE_LATENCY,
        ensures
            a.wf(),
            a.pending_bits() == (0nat, 0nat),
            a.bytes_to_skip() == commutator,
            a.outputs_to_skip() == BYTE_LATENCY + block_phase,
            a.deinterleaver_input() == Seq::<u8>::empty(),
            a.current_block() == Seq::<u8>::empty(),
            a.block_position() == (0nat, reset_off as nat),
            a.prbs_state() == PRBS_INIT,
            a.counts() == (0nat, 0nat),
    {
        let prbs = EnergyPrbs::with_init(PRBS_INIT);
        proof {
            assert(0xa9u16 & 0x7fffu16 == 0xa9u16) by (bit_vector);
        }
        TsAssembler {
            commutator,
            reset_off,
            block_phase,
            bit_acc: 0,
            bit_cnt: 0,
            byte_in_idx: 0,
            deint_out_idx: 0,
            bdeint: ByteDeinterleaver::new(),
            prbs,
            block_buf: Vec::with_capacity(TSP),
            block_idx: 0,
            ndec: 0,
            nblk: 0,
        }
    }

    /// Number of TS packets decoded and RS blocks completed so far.
    pub fn stats(&self) -> (r: (usize, usize))
        ensures
            (r.0 as nat, r.1 as nat) == self.counts(),
    {
        (self.ndec, self.nblk)
    }

    /// Feeds one complete byte (after bit packing).
    pub fn push_byte(&mut self, byte: u8, out: &mut Vec<u8>)
        requires
            old(self).wf(),
        ensures
            final(self).wf(),
            final(self).pending_bits() == old(self).pending_bits(),
            byte_step(*old(self), byte, *final(self), old(out)@, final(out)@),
    {
        proof {
            assert(out@.subrange(0, out@.len() as int) =~= out@);
        }
        if self.byte_in_idx < self.commutator {
            self.byte_in_idx = self.byte_in_idx + 1;
            return;
        }
        let o = self.bdeint.push(byte);
        if self.deint_out_idx < BYTE_LATENCY + self.block_phase {
            self.deint_out_idx = self.deint_out_idx + 1;
            return;
        }
        self.block_buf.push(o);
        if self.block_buf.len() < TSP {
            return;
        }
        if self.block_idx % RESET_PERIOD == self.reset_off {
            self.prbs.reset_to(PRBS_INIT);
        }
        proof {
            assert(0xa9u16 & 0x7fffu16 == 0xa9u16) by (bit_vector);
        }
        let ds = descramble_block(&mut self.prbs, &self.block_buf);
        self.block_idx = (self.block_idx + 1) % RESET_PERIOD;
        if self.nblk < usize::MAX {
            self.nblk = self.nblk + 1;
        }
        let ghost before = out@;
        match decode(&ds) {
            Some(cw) => {
                let mut i: usize = 0;
                while i < K
                    invariant
                        cw@.len() == N,
                        i <= 188,
                        out@.len() == before.len() + i,
                        out@.subrange(0, before.len() as int) == before,
                        out@.subrange(before.len() as int, out@.len() as int) == cw@.subrange(0, i as int),
                    decreases 188 - i,
                {
                    out.push(cw[i]);
                    i = i + 1;
                    proof {
                        assert(out@.subrange(0, before.len() as int) =~= before);
                        assert(out@.subrange(before.len() as int, out@.len() as int) =~= cw@.subrange(0, i as int));
                    }
                }
                if self.ndec < usize::MAX {
                    self.ndec = self.ndec + 1;
                }
                proof {
                    let added = out@.subrange(before.len() as int, out@.len() as int);
                    assert(is_rs_codeword(cw@));
                    assert(within_reach(ds@));
                }
            },
            None => {
                proof {
                    assert(out@.subrange(before.len() as int, out@.len() as int) =~= Seq::<u8>::empty());
                    assert(out@.subrange(0, before.len() as int) =~= before);
                }
            },
        }
        self.block_buf.clear();
    }

    /// Feeds one decoded information bit (its low bit); every 8th bit completes a byte,
    /// most significant bit first, which goes on as in [`TsAssembler::push_byte`].
    pub fn push_bit(&mut self, bit: u8, out: &mut Vec<u8>)
        requires
            old(self).wf(),
        ensures
            final(self).wf(),
            old(self).pending_bits().0 < 7 ==> {
                &&& final(self).pending_bits() == (
                    old(self).pending_bits().0 + 1,
                    2 * old(self).pending_bits().1 + (bit % 2) as nat,
                )
                &&& final(self).bytes_to_skip() == old(self).bytes_to_skip()
                &&& final(self).outputs_to_skip() == old(self).outputs_to_skip()
                &&& final(self).deinterleaver_input() == old(self).deinterleaver_input()
                &&& final(self).current_block() == old(self).current_block()
                &&& final(self).block_position() == old(self).block_position()
                &&& final(self).prbs_state() == old(self).prbs_state()
                &&& final(self).counts() == old(self).counts()
                &&& final(out)@ == old(out)@
            },
            old(self).pending_bits().0 == 7 ==> {
                let byte = (2 * old(self).pending_bits().1 + (bit % 2) as nat) as u8;
                &&& final(self).pending_bits() == (0nat, 0nat)
                &&& byte_step(*old(self), byte, *final(self), old(out)@, final(out)@)
            },
    {
        proof {
            lemma_pow2_small_bound(self.bit_cnt as nat);
            lemma_shift_in(self.bit_acc, bit);
        }
        self.bit_acc = (self.bit_acc << 1) | (bit & 1);
        self.bit_cnt = self.bit_cnt + 1;
        if self.bit_cnt < 8 {
            proof {
                assert(pow2_small(self.bit_cnt as nat) == 2 * pow2_small((self.bit_cnt - 1) as nat));
                assert(out@.subrange(0, out@.len() as int) =~= out@);
            }
            return;
        }
        let byte = self.bit_acc;
        self.bit_acc = 0;
        self.bit_cnt = 0;
        self.push_byte(byte, out);
    }
}

/// 2^n.
pub open spec fn pow2_small(n: nat) -> nat
    decreases n,
{
    if n == 0 {
        1
    } else {
        2 * pow2_small((n - 1) as nat)
    }
}

proof fn lemma_pow2_small_bound(n: nat)
    requires
        n < 8,
    ensures
        pow2_small(n) <= 128,
{
    assert(pow2_small(0) == 1);
    assert(pow2_small(1) == 2);
    assert(pow2_small(2) == 4);
    assert(pow2_small(3) == 8);
    assert(pow2_small(4) == 16);
    assert(pow2_small(5) == 32);
    assert(pow2_small(6) == 64);
    assert(pow2_small(7) == 128);
}

proof fn lemma_shift_in(v: u8, b: u8)
    by (bit_vector)
    requires
        v < 128,
    ensures
        (v << 1u8) | (b & 1u8) == 2 * v + b % 2,
{
}

/// The transmitted byte stream before interleaving: the 204-byte blocks `cws` one after
/// the other, block `k` scrambled from the PRBS state of the restart rule `reset_off`.
pub open spec fn scrambled_stream(cws: Seq<Seq<u8>>, reset_off: nat) -> Seq<u8> {
    Seq::new(
        (204 * cws.len()) as nat,
        |t: int| descrambled(cws[t / 204], prbs_state_before((t / 204) as nat, reset_off))[t % 204],
    )
}

/// Transmission round trip: scrambling and byte interleaving at the transmitter, then the
/// receiver's aligned deinterleaving and de-scrambling of block `k`, give back block `k`
/// (for every block that has left the deinterleaver's delay lines).
pub proof fn lemma_transmission_roundtrip(cws: Seq<Seq<u8>>, reset_off: nat, k: nat)
    requires
        forall|j: int| 0 <= j < cws.len() ==> (#[trigger] cws[j]).len() == 204,
        204 * (k + 1) + 2244 <= 204 * cws.len(),
    ensures
        trial_block(
            aligned_stream(interleaved_stream(scrambled_stream(cws, reset_off)), 0),
            0,
            k,
            reset_off,
        ) == cws[k as int],
{
    let x = scrambled_stream(cws, reset_off);
    let y = interleaved_stream(x);
    let a = aligned_stream(y, 0);
    let st = prbs_state_before(k, reset_off);
    assert(y.subrange(0, y.len() as int) =~= y);
    assert(deinterleaved_stream(y, false).len() == x.len());
    let blk = a.subrange((204 * k) as int, (204 * k + 204) as int);
    assert forall|i: int| 0 <= i < 204 implies #[trigger] blk[i] == descrambled(cws[k as int], st)[i]
        by {
        let t = 204 * k + i;
        lemma_byte_interleave_roundtrip(x, t + 2244);
        assert(t / 204 == k as int) by (nonlinear_arith)
            requires
                t == 204 * k + i,
                0 <= i < 204,
        ;
        assert(t % 204 == i) by (nonlinear_arith)
            requires
                t == 204 * k + i,
                0 <= i < 204,
        ;
    }
    assert(blk =~= descrambled(cws[k as int], st));
    assert(0 + 204 * k == 204 * k);
    lemma_descramble_involution(cws[k as int], st);
}

} // verus!
