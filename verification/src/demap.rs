//! QPSK bit deinterleaving.
//!
//! With QPSK the bit interleaver delays bit 0 (LSB) by 0 and bit 1 (MSB) by 120 carriers on
//! one delay line over the carrier stream: output bit `b` is bit `b` of the symbol
//! `delay[b]` carriers earlier. The deinterleaver is generic in the value carried per bit
//! (soft decisions in the receiver).

use vstd::prelude::*;
use std::collections::VecDeque;

verus! {

/// Bit delays of QPSK (LSB, MSB).
pub const QPSK_DELAY: [usize; 2] = [0, 120];
/// Largest delay (depth of the deinterleaver).
pub const QPSK_MAX_DELAY: usize = 120;

/// Symbol `m` of a stream of bit pairs, or `fill` before the stream.
pub open spec fn pair_input<T>(hist: Seq<[T; 2]>, m: int, fill: [T; 2]) -> [T; 2] {
    if 0 <= m < hist.len() {
        hist[m]
    } else {
        fill
    }
}

/// QPSK bit deinterleaver: a single delay line the carriers flow through.
pub struct BitDeinterleaverQpsk<T> {
    /// Past symbols `[lsb, msb]`, newest at the front.
    hist: VecDeque<[T; 2]>,
    pushed: Ghost<Seq<[T; 2]>>,
    fill: Ghost<[T; 2]>,
}

impl<T: Copy + Default> BitDeinterleaverQpsk<T> {
    /// Consistency of the delay line with the symbols pushed so far.
    pub closed spec fn wf(&self) -> bool {
        let n = self.pushed@.len();
        &&& self.hist@.len() == if n == 0 { 120nat } else { 121nat }
        &&& forall|q: int|
            0 <= q < self.hist@.len() ==> #[trigger] self.hist@[q] == pair_input(
                self.pushed@,
                n - 1 - q,
                self.fill@,
            )
    }

    /// The symbols pushed so far.
    pub closed spec fn history(&self) -> Seq<[T; 2]> {
        self.pushed@
    }

    /// The pair the delay line starts with (`[T::default(); 2]`).
    pub closed spec fn fill(&self) -> [T; 2] {
        self.fill@
    }

    /// A delay line filled with 120 default pairs.
    pub fn new() -> (d: Self)
        ensures
            d.wf(),
            d.history() == Seq::<[T; 2]>::empty(),
            call_ensures(T::default, (), d.fill()[0]),
            call_ensures(T::default, (), d.fill()[1]),
    {
        let z0 = T::default();
        let z1 = T::default();
        let zero = [z0, z1];
        let mut hist: VecDeque<[T; 2]> = VecDeque::with_capacity(QPSK_MAX_DELAY + 1);
        let mut q: usize = 0;
        while q < QPSK_MAX_DELAY
            invariant
                q <= 120,
                hist@ == Seq::new(q as nat, |x: int| zero),
            decreases 120 - q,
        {
            hist.push_back(zero);
            q = q + 1;
            proof {
                assert(hist@ =~= Seq::new(q as nat, |x: int| zero));
            }
        }
        BitDeinterleaverQpsk { hist, pushed: Ghost(Seq::empty()), fill: Ghost(zero) }
    }

    /// Pushes one carrier's `[lsb, msb]` and returns the deinterleaved `[lsb, msb]`:
    /// the LSB of this carrier and the MSB of the carrier 120 positions earlier.
    pub fn push(&mut self, sym: [T; 2]) -> (out: [T; 2])
        requires
            old(self).wf(),
        ensures
            final(self).wf(),
            final(self).fill() == old(self).fill(),
            final(self).history() == old(self).history().push(sym),
            out[0] == sym[0],
            out[1] == pair_input(
                final(self).history(),
                old(self).history().len() - 120,
                old(self).fill(),
            )[1],
    {
        let ghost n = self.pushed@.len();
        self.hist.push_front(sym);
        self.pushed = Ghost(self.pushed@.push(sym));
        let lsb = self.hist[QPSK_DELAY[0]][0];
        let msb = self.hist[QPSK_DELAY[1]][1];
        if self.hist.len() > QPSK_MAX_DELAY + 1 {
            self.hist.pop_back();
        }
        proof {
            assert forall|q: int| 0 <= q < self.hist@.len() implies #[trigger] self.hist@[q]
                == pair_input(self.pushed@, n - q, self.fill@) by {
                if q > 0 {
                    assert(pair_input(self.pushed@, n - q, self.fill@) == pair_input(
                        old(self).pushed@,
                        n - q,
                        self.fill@,
                    ));
                }
            }
        }
        [lsb, msb]
    }

    /// The total latency (the largest bit delay, 120).
    pub fn latency(&self) -> (r: usize)
        ensures
            r == 120,
    {
        QPSK_MAX_DELAY
    }
}

/// The transmitter's QPSK bit interleaver on a stream of pairs: LSB delayed by 120, MSB not.
pub open spec fn bit_interleaved<T>(x: Seq<[T; 2]>, fill: [T; 2]) -> Seq<[T; 2]> {
    Seq::new(x.len(), |t: int| [pair_input(x, t - 120, fill)[0], x[t][1]])
}

/// The stream a [`BitDeinterleaverQpsk`] emits for `y`: LSB not delayed, MSB delayed by 120.
pub open spec fn bit_deinterleaved<T>(y: Seq<[T; 2]>, fill: [T; 2]) -> Seq<[T; 2]> {
    Seq::new(y.len(), |t: int| [y[t][0], pair_input(y, t - 120, fill)[1]])
}

/// Bit interleaving followed by bit deinterleaving is the identity delayed by 120 carriers.
pub proof fn lemma_bit_interleave_roundtrip<T>(x: Seq<[T; 2]>, fill: [T; 2], t: int)
    requires
        120 <= t < x.len(),
    ensures
        bit_deinterleaved(bit_interleaved(x, fill), fill)[t] == x[t - 120],
{
    let z = bit_deinterleaved(bit_interleaved(x, fill), fill);
    assert(z[t][0] == x[t - 120][0]);
    assert(z[t][1] == x[t - 120][1]);
    assert(z[t] =~= x[t - 120]);
}

impl<T: Copy + Default> Default for BitDeinterleaverQpsk<T> {
    fn default() -> (d: Self)
        ensures
            d.wf(),
            d.history() == Seq::<[T; 2]>::empty(),
            call_ensures(T::default, (), d.fill()[0]),
            call_ensures(T::default, (), d.fill()[1]),
    {
        Self::new()
    }
}

} // verus!
