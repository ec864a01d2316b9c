//! Outer code: shortened Reed-Solomon RS(204,188) over GF(256)
//! (field polynomial 0x11d, first consecutive root alpha^0, 16 parity bytes).
//!
//! RS(255,239) shortened by 51 leading zero bytes. A block is read with `block[0]` as the
//! highest-degree coefficient; the shortening zeros do not change the polynomial's value.

use vstd::prelude::*;
use crate::gf::{
    Gf, build_gf, gf_mul, alpha_pow, lemma_gf_mul_basics, lemma_alpha_pow_nonzero, lemma_xor_ac, lemma_gf_mul_comm,
    lemma_gf_mul_distrib, lemma_gf_mul_distrib_left, lemma_gf_mul_assoc,
};
use crate::rs_distance::lemma_rs_unique_within_8;
use crate::rs_correct::{
    disc, generates, head, locator, low_eval, odd_sum, nz_count, error_locator, error_positions,
    power_sums_of, lemma_massey_bound, lemma_bm_update, lemma_error_word, lemma_error_locator,
    lemma_error_locator_generates, lemma_locator_found, lemma_chien_inverse, lemma_inverse_exps_of,
    lemma_chien_point, lemma_error_positions_step, lemma_error_positions_full, lemma_forney,
    lemma_xor_word,
};

verus! {

/// Codeword length (after shortening).
pub const N: usize = 204;
/// Message length.
pub const K: usize = 188;
/// Number of parity bytes (N - K).
pub const NROOTS: usize = 16;

/// Horner evaluation at `x` of the polynomial whose coefficients `p` are listed
/// highest degree first.
pub open spec fn poly_eval(p: Seq<u8>, x: u8) -> u8
    decreases p.len(),
{
    if p.len() == 0 {
        0u8
    } else {
        gf_mul(poly_eval(p.drop_last(), x), x) ^ p.last()
    }
}

/// The `j`-th syndrome of a block: its polynomial evaluated at alpha^j.
pub open spec fn syndrome(block: Seq<u8>, j: nat) -> u8 {
    poly_eval(block, alpha_pow(j))
}

/// A block is a codeword when its first 16 syndromes (roots alpha^0 .. alpha^15) vanish.
pub open spec fn is_rs_codeword(block: Seq<u8>) -> bool {
    forall|j: nat| j < 16 ==> #[trigger] syndrome(block, j) == 0
}

/// Number of nonzero syndromes among those at alpha^fcr .. alpha^(fcr+n-1).
pub open spec fn nonzero_syndrome_count(block: Seq<u8>, fcr: nat, n: nat) -> nat
    decreases n,
{
    if n == 0 {
        0
    } else {
        nonzero_syndrome_count(block, fcr, (n - 1) as nat) + if syndrome(
            block,
            (fcr + n - 1) as nat,
        ) != 0 {
            1nat
        } else {
            0nat
        }
    }
}

/// The positions at which two blocks differ.
pub open spec fn diff_positions(a: Seq<u8>, b: Seq<u8>) -> Set<int> {
    Set::new(|i: int| 0 <= i < a.len() && a[i] != b[i])
}

/// Some RS codeword lies within 8 byte errors of `block` (the code corrects up to 8).
pub open spec fn within_reach(block: Seq<u8>) -> bool {
    exists|c: Seq<u8>|
        c.len() == N && #[trigger] is_rs_codeword(c) && diff_positions(c, block).len() <= NROOTS / 2
}

/// Coefficient `i` of a coefficient list, zero outside it.
pub open spec fn coef(p: Seq<u8>, i: int) -> u8 {
    if 0 <= i < p.len() {
        p[i]
    } else {
        0u8
    }
}

/// sum_{i < n} a_i * b_(k-i): the first `n` terms of coefficient `k` of the product a * b.
pub open spec fn conv_partial(a: Seq<u8>, b: Seq<u8>, k: int, n: nat) -> u8
    decreases n,
{
    if n == 0 {
        0u8
    } else {
        conv_partial(a, b, k, (n - 1) as nat) ^ gf_mul(coef(a, n - 1), coef(b, k - (n - 1)))
    }
}

/// Horner evaluation of `block` at `root`.
fn horner(gf: &Gf, block: &[u8], root: u8) -> (r: u8)
    requires
        gf.wf(),
    ensures
        r == poly_eval(block@, root),
{
    let mut acc: u8 = 0;
    let mut i: usize = 0;
    while i < block.len()
        invariant
            gf.wf(),
            i <= block@.len(),
            acc == poly_eval(block@.take(i as int), root),
        decreases block.len() - i,
    {
        proof {
            assert(block@.take(i + 1).drop_last() =~= block@.take(i as int));
        }
        acc = gf.mul(acc, root) ^ block[i];
        i = i + 1;
    }
    proof {
        assert(block@.take(i as int) =~= block@);
    }
    acc
}

/// The 16 syndromes of a block; all zero exactly for a valid RS codeword.
pub fn syndromes(block: &[u8]) -> (s: [u8; NROOTS])
    ensures
        forall|j: int| 0 <= j < 16 ==> #[trigger] s@[j] == syndrome(block@, j as nat),
{
    let gf = build_gf();
    let mut s = [0u8; 16];
    let mut j: usize = 0;
    while j < NROOTS
        invariant
            gf.wf(),
            j <= 16,
            forall|k: int| 0 <= k < j ==> #[trigger] s@[k] == syndrome(block@, k as nat),
        decreases 16 - j,
    {
        let root = gf.pow(j);
        let acc = horner(&gf, block, root);
        s[j] = acc;
        j = j + 1;
    }
    s
}

fn all_zero(s: &[u8; NROOTS]) -> (r: bool)
    ensures
        r == forall|j: int| 0 <= j < 16 ==> #[trigger] s@[j] == 0,
{
    let mut j: usize = 0;
    while j < NROOTS
        invariant
            j <= 16,
            forall|k: int| 0 <= k < j ==> #[trigger] s@[k] == 0,
        decreases 16 - j,
    {
        if s[j] != 0 {
            return false;
        }
        j = j + 1;
    }
    true
}

/// Whether all 16 syndromes vanish (a valid codeword that needs no correction).
pub fn is_codeword(block: &[u8]) -> (r: bool)
    ensures
        r == is_rs_codeword(block@),
{
    let s = syndromes(block);
    let r = all_zero(&s);
    proof {
        if r {
            assert forall|j: nat| j < 16 implies #[trigger] syndrome(block@, j) == 0 by {
                assert(s@[j as int] == 0);
            }
        } else {
            let j = choose|j: int| 0 <= j < 16 && s@[j] != 0;
            assert(syndrome(block@, j as nat) != 0);
        }
    }
    r
}

/// Number of nonzero syndromes when the first consecutive root is alpha^fcr
/// (used to check which root convention a stream follows).
pub fn nonzero_syndromes_fcr(block: &[u8], fcr: usize) -> (r: usize)
    requires
        fcr + 16 <= usize::MAX,
    ensures
        r == nonzero_syndrome_count(block@, fcr as nat, 16),
{
    let gf = build_gf();
    let mut nz: usize = 0;
    let mut j: usize = 0;
    while j < NROOTS
        invariant
            gf.wf(),
            j <= 16,
            fcr + 16 <= usize::MAX,
            nz == nonzero_syndrome_count(block@, fcr as nat, j as nat),
            nz <= j,
        decreases 16 - j,
    {
        let root = gf.pow(fcr + j);
        let acc = horner(&gf, block, root);
        if acc != 0 {
            nz = nz + 1;
        }
        j = j + 1;
    }
    nz
}

/// Syndrome checker that keeps its GF(256) tables across many blocks.
pub struct Checker {
    gf: Gf,
}

impl Checker {
    #[verifier::type_invariant]
    spec fn tables_valid(self) -> bool {
        self.gf.wf()
    }

    /// The table of powers of alpha: entry `i` is alpha^(i mod 255).
    pub closed spec fn exp_table(&self) -> Seq<u8> {
        self.gf.exp@
    }

    /// The table of discrete logarithms: entry `a` is the exponent of `a` (0 for `a == 0`).
    pub closed spec fn log_table(&self) -> Seq<u8> {
        self.gf.log@
    }

    /// Builds the power and logarithm tables of GF(256).
    pub fn new() -> (c: Self)
        ensures
            c.exp_table().len() == 512,
            forall|i: int| 0 <= i < 512 ==> #[trigger] c.exp_table()[i] == alpha_pow((i % 255) as nat),
            c.log_table().len() == 256,
            c.log_table()[0] == 0,
            forall|a: int|
                1 <= a < 256 ==> #[trigger] c.log_table()[a] < 255 && alpha_pow(
                    c.log_table()[a] as nat,
                ) == a as u8,
    {
        Checker { gf: build_gf() }
    }

    /// Whether the block is a valid RS codeword (all syndromes zero).
    pub fn is_codeword(&self, block: &[u8]) -> (r: bool)
        ensures
            r == is_rs_codeword(block@),
    {
        proof {
            use_type_invariant(self);
        }
        let mut j: usize = 0;
        while j < NROOTS
            invariant
                self.gf.wf(),
                j <= 16,
                forall|k: nat| k < j ==> #[trigger] syndrome(block@, k) == 0,
            decreases 16 - j,
        {
            let root = self.gf.pow(j);
            let acc = horner(&self.gf, block, root);
            if acc != 0 {
                assert(syndrome(block@, j as nat) != 0);
                return false;
            }
            j = j + 1;
        }
        true
    }
}

impl Default for Checker {
    fn default() -> (c: Self)
        ensures
            c.exp_table().len() == 512,
            forall|i: int| 0 <= i < 512 ==> #[trigger] c.exp_table()[i] == alpha_pow((i % 255) as nat),
            c.log_table().len() == 256,
            c.log_table()[0] == 0,
            forall|a: int|
                1 <= a < 256 ==> #[trigger] c.log_table()[a] < 255 && alpha_pow(
                    c.log_table()[a] as nat,
                ) == a as u8,
    {
        Self::new()
    }
}

/// Coefficient-wise difference (xor) of two coefficient lists, padded with zeros.
fn poly_sub(a: &Vec<u8>, b: &Vec<u8>) -> (r: Vec<u8>)
    ensures
        r@.len() == if a@.len() >= b@.len() { a@.len() } else { b@.len() },
        forall|i: int| 0 <= i < r@.len() ==> #[trigger] r@[i] == coef(a@, i) ^ coef(b@, i),
{
    let n = if a.len() >= b.len() { a.len() } else { b.len() };
    let mut out: Vec<u8> = Vec::new();
    let mut i: usize = 0;
    while i < n
        invariant
            n == if a@.len() >= b@.len() { a@.len() } else { b@.len() },
            i <= n,
            out@.len() == i,
            forall|k: int| 0 <= k < i ==> #[trigger] out@[k] == coef(a@, k) ^ coef(b@, k),
        decreases n - i,
    {
        let av = if i < a.len() { a[i] } else { 0 };
        let bv = if i < b.len() { b[i] } else { 0 };
        out.push(av ^ bv);
        i = i + 1;
    }
    out
}

/// The product a * b truncated to its `moddeg` lowest coefficients (lists lowest degree first).
fn poly_mul_mod(gf: &Gf, a: &Vec<u8>, b: &Vec<u8>, moddeg: usize) -> (r: Vec<u8>)
    requires
        gf.wf(),
        a@.len() + b@.len() <= usize::MAX,
    ensures
        r@.len() == moddeg,
        forall|k: int| 0 <= k < moddeg ==> #[trigger] r@[k] == conv_partial(a@, b@, k, a@.len()),
{
    let mut out: Vec<u8> = vec![0u8; moddeg];
    let mut i: usize = 0;
    while i < a.len()
        invariant
            gf.wf(),
            a@.len() + b@.len() <= usize::MAX,
            i <= a@.len(),
            out@.len() == moddeg,
            forall|k: int| 0 <= k < moddeg ==> #[trigger] out@[k] == conv_partial(a@, b@, k, i as nat),
        decreases a.len() - i,
    {
        let ai = a[i];
        if ai != 0 {
            let mut j: usize = 0;
            while j < b.len()
                invariant
                    gf.wf(),
                    a@.len() + b@.len() <= usize::MAX,
                    i < a@.len(),
                    ai == a@[i as int],
                    j <= b@.len(),
                    out@.len() == moddeg,
                    forall|k: int|
                        0 <= k < moddeg ==> #[trigger] out@[k] == if i <= k < i + j {
                            conv_partial(a@, b@, k, i as nat) ^ gf_mul(ai, b@[k - i])
                        } else {
                            conv_partial(a@, b@, k, i as nat)
                        },
                decreases b.len() - j,
            {
                if i + j < moddeg {
                    let v = out[i + j] ^ gf.mul(ai, b[j]);
                    out.set(i + j, v);
                }
                j = j + 1;
            }
        }
        proof {
            assert forall|k: int| 0 <= k < moddeg implies #[trigger] out@[k] == conv_partial(
                a@,
                b@,
                k,
                (i + 1) as nat,
            ) by {
                let prev = conv_partial(a@, b@, k, i as nat);
                lemma_gf_mul_basics(prev);
                lemma_gf_mul_basics(coef(b@, k - i));
                lemma_gf_mul_basics(ai);
                assert(coef(a@, i as int) == ai);
            }
        }
        i = i + 1;
    }
    out
}

fn copy_block(block: &[u8]) -> (v: Vec<u8>)
    ensures
        v@ == block@,
{
    let mut v: Vec<u8> = Vec::new();
    let mut i: usize = 0;
    while i < block.len()
        invariant
            i <= block@.len(),
            v@ == block@.take(i as int),
        decreases block.len() - i,
    {
        v.push(block[i]);
        proof {
            assert(block@.take(i + 1) =~= block@.take(i as int).push(block@[i as int]));
        }
        i = i + 1;
    }
    proof {
        assert(block@.take(i as int) =~= block@);
    }
    v
}

/// Berlekamp-Massey: the shortest linear recurrence (connection polynomial `sigma`, lowest
/// degree first, and its length `l`) that produces the 16 syndromes.
fn berlekamp_massey(gf: &Gf, synd: &[u8; NROOTS]) -> (r: (Vec<u8>, usize))
    requires
        gf.wf(),
    ensures
        r.1 <= 16,
        r.1 + 1 <= r.0@.len() <= 17,
        coef(r.0@, 0) == 1,
        forall|i: int| r.1 < i ==> #[trigger] coef(r.0@, i) == 0,
        generates(r.0@, synd@, r.1 as nat, 16),
        forall|d: Seq<u8>, ld: nat|
            coef(d, 0) == 1 && #[trigger] generates(d, synd@, ld, 16) ==> r.1 <= ld,
{
    let ghost s = synd@;
    let mut sigma: Vec<u8> = vec![1u8];
    let mut b: Vec<u8> = vec![1u8];
    let mut l: usize = 0;
    let mut m: usize = 1;
    let mut bb: u8 = 1;
    let mut n: usize = 0;
    let ghost mut lb: nat = 0;
    proof {
        lemma_gf_mul_basics(0);
    }
    while n < NROOTS
        invariant
            gf.wf(),
            s == synd@,
            s.len() == 16,
            n <= 16,
            l <= n,
            1 <= m <= n + 1,
            l + 1 <= sigma@.len() <= n + 1,
            n + 2 <= b@.len() + m + l,
            b@.len() + m <= n + 2,
            coef(sigma@, 0) == 1,
            forall|i: int| l < i ==> #[trigger] coef(sigma@, i) == 0,
            generates(sigma@, s, l as nat, n as int),
            coef(b@, 0) == 1,
            forall|i: int| lb < i ==> #[trigger] coef(b@, i) == 0,
            bb != 0,
            m + lb == n + 1 - l,
            n - m >= 0 ==> {
                &&& lb <= n - m
                &&& generates(b@, s, lb, n - m)
                &&& disc(b@, s, n - m, lb + 1) == bb
            },
            n - m < 0 ==> lb == 0 && l == 0,
            forall|d: Seq<u8>, ld: nat|
                coef(d, 0) == 1 && #[trigger] generates(d, s, ld, n as int) ==> l <= ld,
        decreases 16 - n,
    {
        // discrepancy
        let mut delta = synd[n];
        proof {
            lemma_gf_mul_basics(s[n as int]);
            assert(disc(sigma@, s, n as int, 0) == 0);
            assert(disc(sigma@, s, n as int, 1) == 0u8 ^ gf_mul(1u8, s[n as int]));
        }
        let mut i: usize = 1;
        while i <= l
            invariant
                gf.wf(),
                s == synd@,
                1 <= i <= l + 1,
                l <= n < 16,
                l + 1 <= sigma@.len(),
                delta == disc(sigma@, s, n as int, i as nat),
            decreases l + 1 - i,
        {
            delta = delta ^ gf.mul(sigma[i], synd[n - i]);
            i = i + 1;
        }
        let ghost old_sigma = sigma@;
        let ghost old_l = l;
        let ghost old_m = m;
        let ghost old_b = b@;
        let ghost old_lb = lb;
        let ghost old_bb = bb;
        if delta == 0 {
            m = m + 1;
            proof {
                assert forall|j: int| l <= j < n + 1 implies #[trigger] disc(
                    sigma@,
                    s,
                    j,
                    l as nat + 1,
                ) == 0 by {
                    if j < n {
                        assert(generates(sigma@, s, l as nat, n as int));
                    }
                }
                assert forall|d: Seq<u8>, ld: nat|
                    coef(d, 0) == 1 && #[trigger] generates(d, s, ld, (n + 1) as int) implies l
                    <= ld by {
                    assert(generates(d, s, ld, n as int));
                }
                if n + 1 - m >= 0 {
                    assert forall|j: int| lb <= j < n + 1 - m implies #[trigger] disc(
                        b@,
                        s,
                        j,
                        lb + 1,
                    ) == 0 by {
                        assert(generates(b@, s, lb, n - old_m));
                    }
                }
            }
        } else {
            let t = sigma.clone();
            let ib = gf.inv(bb);
            let coefk = gf.mul(delta, ib);
            // scaled = x^m * (delta / bb) * b
            let mut scaled: Vec<u8> = vec![0u8; m];
            let mut k: usize = 0;
            while k < b.len()
                invariant
                    gf.wf(),
                    k <= b@.len(),
                    scaled@.len() == m + k,
                    forall|q: int|
                        0 <= q < m + k ==> #[trigger] scaled@[q] == if q < m {
                            0u8
                        } else {
                            gf_mul(coefk, b@[q - m])
                        },
                decreases b.len() - k,
            {
                scaled.push(gf.mul(coefk, b[k]));
                k = k + 1;
            }
            proof {
                assert forall|q: int| 0 <= q implies #[trigger] coef(scaled@, q) == if q < m {
                    0u8
                } else {
                    gf_mul(coefk, coef(b@, q - m))
                } by {
                    lemma_gf_mul_basics(coefk);
                }
            }
            sigma = poly_sub(&sigma, &scaled);
            proof {
                assert forall|q: int| 0 <= q implies #[trigger] coef(sigma@, q) == coef(
                    old_sigma,
                    q,
                ) ^ coef(scaled@, q) by {
                    if q >= sigma@.len() {
                        lemma_gf_mul_basics(0);
                        assert(coef(old_sigma, q) == 0);
                        assert(coef(scaled@, q) == 0);
                    }
                }
                assert(coef(sigma@, 0) == 1) by {
                    lemma_gf_mul_basics(1);
                }
            }
            if 2 * l <= n {
                l = n + 1 - l;
                b = t;
                bb = delta;
                m = 1;
                proof {
                    lb = old_l as nat;
                }
            } else {
                m = m + 1;
            }
            proof {
                lemma_bm_update(
                    old_sigma, sigma@, scaled@, old_b, s, coefk, ib, delta, old_bb, n as nat,
                    old_l as nat, l as nat, old_m as nat, old_lb,
                );
                if 2 * old_l <= n {
                    assert(b@ == old_sigma);
                    assert forall|d: Seq<u8>, ld: nat|
                        coef(d, 0) == 1 && #[trigger] generates(d, s, ld, (n + 1) as int) implies l
                        <= ld by {
                        assert forall|j: int| ld <= j <= n implies #[trigger] disc(d, s, j, ld + 1)
                            == 0 by {
                            assert(generates(d, s, ld, (n + 1) as int));
                        }
                        lemma_massey_bound(old_sigma, d, s, old_l as nat, ld, n as nat);
                    }
                } else {
                    assert forall|d: Seq<u8>, ld: nat|
                        coef(d, 0) == 1 && #[trigger] generates(d, s, ld, (n + 1) as int) implies l
                        <= ld by {
                        assert(generates(d, s, ld, n as int));
                    }
                    if n + 1 - m >= 0 {
                        assert forall|j: int| lb <= j < n + 1 - m implies #[trigger] disc(
                            b@,
                            s,
                            j,
                            lb + 1,
                        ) == 0 by {
                            assert(generates(b@, s, lb, n - old_m));
                        }
                    }
                }
            }
        }
        n = n + 1;
    }
    (sigma, l)
}

/// Forney's formula at error position `idx`: `omega(X^-1) / sigma'(X^-1) * X` with
/// `X = alpha^(203 - idx)`; `None` when the derivative vanishes.
#[verifier::rlimit(40)]
fn forney_value(
    gf: &Gf,
    sigma: &Vec<u8>,
    omega: &Vec<u8>,
    idx: usize,
    Ghost(e): Ghost<Seq<u8>>,
    Ghost(s): Ghost<Seq<u8>>,
    Ghost(sp): Ghost<Seq<u8>>,
    Ghost(good): Ghost<bool>,
) -> (r: Option<u8>)
    requires
        gf.wf(),
        idx < N,
        sigma@.len() <= 17,
        omega@.len() == 16,
        good ==> {
            &&& power_sums_of(e, s)
            &&& nz_count(e, N as nat) <= 8
            &&& e[idx as int] != 0
            &&& forall|i: int| 0 <= i ==> #[trigger] coef(sigma@, i) == coef(error_locator(e), i)
            &&& error_locator(e).len() <= sigma@.len()
            &&& sp.len() == 16
            &&& forall|t: int| 0 <= t < 16 ==> #[trigger] sp[t] == s[t]
            &&& forall|k: int| 0 <= k < 16 ==> #[trigger] omega@[k] == conv_partial(
                sigma@,
                sp,
                k,
                sigma@.len(),
            )
        },
    ensures
        good ==> r == Some(e[idx as int]),
{
    let exp_pos = (N - 1 - idx) % 255;
    let x = gf.pow(exp_pos);
    let xinv = gf.inv(x);
    let lx = gf.log(xinv) as usize;
    proof {
        lemma_alpha_pow_nonzero(exp_pos as nat);
        lemma_gf_mul_basics(x);
        lemma_inverse_exps_of(exp_pos as nat, lx as nat);
    }
    // omega(X^-1)
    let mut num: u8 = 0;
    let mut p: usize = 0;
    while p < omega.len()
        invariant
            gf.wf(),
            p <= omega@.len() == 16,
            lx < 255,
            num == low_eval(omega@, lx as nat, p as nat),
        decreases omega.len() - p,
    {
        assert(lx * p <= 254 * 16) by (nonlinear_arith)
            requires
                lx < 255,
                p < 16,
        ;
        num = num ^ gf.mul(omega[p], gf.pow(lx * p));
        p = p + 1;
    }
    // sigma'(X^-1): only the odd-degree terms survive the formal derivative
    let mut den: u8 = 0;
    let mut p: usize = 1;
    let ghost mut jd: nat = 0;
    while p < sigma.len()
        invariant
            gf.wf(),
            1 <= p,
            sigma@.len() <= 17,
            p <= sigma@.len() + 1,
            lx < 255,
            p == 2 * jd + 1,
            den == odd_sum(sigma@, lx as nat, jd),
        decreases sigma.len() + 1 - p,
    {
        assert(lx * (p - 1) <= 254 * 16) by (nonlinear_arith)
            requires
                lx < 255,
                1 <= p < 17,
        ;
        den = den ^ gf.mul(sigma[p], gf.pow(lx * (p - 1)));
        p = p + 2;
        proof {
            jd = jd + 1;
        }
    }
    proof {
        assert(exp_pos == 203 - idx);
        assert(x == locator(idx as int));
        if good {
            lemma_forney(e, s, sigma@, sp, omega@, idx as int, lx as nat, jd);
        }
    }
    if den == 0 {
        return None;
    }
    let iv = gf.inv(den);
    let ev = gf.mul(gf.mul(num, iv), x);
    proof {
        if good {
            assert(gf_mul(gf_mul(low_eval(omega@, lx as nat, 16), iv), locator(idx as int)) == e[idx as int]);
        }
    }
    Some(ev)
}

/// RS decoding (Berlekamp-Massey, Chien search, Forney).
///
/// `block` holds 204 bytes with `block[0]` the highest-degree coefficient. Returns the
/// corrected codeword, or `None` when the decoder cannot correct the block. A block within
/// 8 byte errors of a codeword is always corrected to that codeword; any block returned is
/// a codeword within 8 byte errors of the input.
#[verifier::rlimit(60)]
pub fn decode(block: &[u8]) -> (r: Option<Vec<u8>>)
    requires
        block@.len() == N,
    ensures
        is_rs_codeword(block@) ==> (r matches Some(v) && v@ == block@),
        r matches Some(v) ==> {
            &&& v@.len() == N
            &&& is_rs_codeword(v@)
            &&& diff_positions(v@, block@).finite()
            &&& diff_positions(v@, block@).len() <= NROOTS / 2
        },
        r matches Some(v) ==> forall|c: Seq<u8>|
            c.len() == N && #[trigger] is_rs_codeword(c) && diff_positions(c, block@).len()
                <= NROOTS / 2 ==> v@ == c,
        within_reach(block@) ==> r is Some,
{
    let gf = build_gf();
    let synd = syndromes(block);
    if all_zero(&synd) {
        let v = copy_block(block);
        proof {
            assert(diff_positions(v@, block@) =~= Set::<int>::empty());
            assert forall|j: nat| j < 16 implies #[trigger] syndrome(block@, j) == 0 by {
                assert(synd@[j as int] == 0);
            }
            assert forall|c: Seq<u8>|
                c.len() == N && #[trigger] is_rs_codeword(c) && diff_positions(c, block@).len()
                    <= NROOTS / 2 implies v@ == c by {
                lemma_rs_unique_within_8(block@, v@, c);
            }
        }
        return Some(v);
    }
    proof {
        let j = choose|j: int| 0 <= j < 16 && synd@[j] != 0;
        assert(syndrome(block@, j as nat) != 0);
    }
    // When the block lies within 8 errors of a codeword `c`, `e = block - c` is the error word.
    let ghost good = exists|c: Seq<u8>|
        c.len() == N && #[trigger] is_rs_codeword(c) && diff_positions(c, block@).len() <= 8;
    let ghost c = choose|c: Seq<u8>|
        c.len() == N && #[trigger] is_rs_codeword(c) && diff_positions(c, block@).len() <= 8;
    let ghost e = xor_seq(block@, c);
    let ghost s = synd@;
    let ghost w = nz_count(e, N as nat);
    proof {
        if good {
            lemma_error_word(block@, c, s);
        }
    }
    // Berlekamp-Massey: the error-locator polynomial sigma (lowest degree first).
    let (sigma, l) = berlekamp_massey(&gf, &synd);
    proof {
        if good {
            lemma_error_locator(e);
            assert(generates(error_locator(e), s, w, 16)) by {
                assert forall|j: int| w <= j < 16 implies #[trigger] disc(
                    error_locator(e),
                    s,
                    j,
                    w + 1,
                ) == 0 by {
                    lemma_error_locator_generates(e, s, j);
                }
            }
            assert(coef(error_locator(e), 0) == 1);
            lemma_locator_found(e, s, sigma@, l as nat);
            assert forall|i: int| 0 <= i implies #[trigger] coef(sigma@, i) == coef(
                error_locator(e),
                i,
            ) by {
                if i <= l {
                    assert(head(sigma@, l as nat)[i] == coef(sigma@, i));
                }
            }
        }
    }
    let nerr = l;
    if nerr == 0 || nerr > NROOTS / 2 {
        return None;
    }
    // Chien search: roots of sigma give the error positions (block[0] has degree N-1).
    let mut err_pos: Vec<usize> = Vec::new();
    let mut idx: usize = 0;
    while idx < N
        invariant
            gf.wf(),
            idx <= N,
            sigma@.len() <= 17,
            l + 1 <= sigma@.len(),
            forall|i: int| l < i ==> #[trigger] coef(sigma@, i) == 0,
            err_pos@.len() <= idx,
            forall|k: int| 0 <= k < err_pos@.len() ==> #[trigger] err_pos@[k] < idx,
            e.len() == N,
            good ==> forall|q: int|
                0 <= q < N ==> (#[trigger] poly_eval(head(sigma@, l as nat), locator(q)) == 0
                    <==> e[q] != 0),
            good ==> err_pos@.len() == error_positions(e, idx as nat).len(),
            good ==> forall|k: int|
                0 <= k < err_pos@.len() ==> #[trigger] err_pos@[k] as int == error_positions(
                    e,
                    idx as nat,
                )[k],
        decreases N - idx,
    {
        let xinv = gf.pow((255 - ((N - 1 - idx) % 255)) % 255);
        let lx = gf.log(xinv);
        let mut v: u8 = 0;
        let mut p: usize = 0;
        while p < sigma.len()
            invariant
                gf.wf(),
                p <= sigma@.len() <= 17,
                lx < 255,
                v == low_eval(sigma@, lx as nat, p as nat),
            decreases sigma.len() - p,
        {
            assert((lx as usize) * p <= 254 * 17) by (nonlinear_arith)
                requires
                    lx < 255,
                    p < 17,
            ;
            v = v ^ gf.mul(sigma[p], gf.pow((lx as usize) * p));
            p = p + 1;
        }
        proof {
            let eps = (203 - idx) as nat;
            lemma_chien_inverse(eps);
            lemma_alpha_pow_nonzero(((255 - eps % 255) % 255) as nat);
            lemma_inverse_exps_of(eps, lx as nat);
            lemma_chien_point(sigma@, l as nat, idx as int, lx as nat);
            lemma_error_positions_step(e, idx as nat);
        }
        if v == 0 {
            err_pos.push(idx);
        }
        idx = idx + 1;
    }
    proof {
        if good {
            lemma_error_positions_full(e);
        }
    }
    if err_pos.len() != nerr {
        return None;
    }
    // Forney: error values from omega = (sigma * S) mod x^16.
    let mut synd_poly: Vec<u8> = vec![0u8; NROOTS];
    let mut j: usize = 0;
    while j < NROOTS
        invariant
            j <= 16,
            synd_poly@.len() == 16,
            forall|k: int| 0 <= k < j ==> #[trigger] synd_poly@[k] == synd@[k],
        decreases 16 - j,
    {
        synd_poly.set(j, synd[j]);
        j = j + 1;
    }
    let omega = poly_mul_mod(&gf, &sigma, &synd_poly, NROOTS);
    let mut out = copy_block(block);
    let ghost ep = error_positions(e, N as nat);
    proof {
        if good {
            lemma_error_positions_full(e);
        }
    }
    let mut t: usize = 0;
    while t < err_pos.len()
        invariant
            gf.wf(),
            t <= err_pos@.len(),
            !is_rs_codeword(block@),
            sigma@.len() <= 17,
            omega@.len() == 16,
            out@.len() == N,
            forall|k: int| 0 <= k < err_pos@.len() ==> #[trigger] err_pos@[k] < N,
            forall|i: int|
                0 <= i < N && #[trigger] out@[i] != block@[i] ==> err_pos@.subrange(
                    0,
                    t as int,
                ).contains(i as usize),
            forall|k: int| 0 <= k < 16 ==> #[trigger] omega@[k] == conv_partial(
                sigma@,
                synd_poly@,
                k,
                sigma@.len(),
            ),
            synd_poly@.len() == 16,
            forall|k: int| 0 <= k < 16 ==> #[trigger] synd_poly@[k] == s[k],
            s == synd@,
            e == xor_seq(block@, c),
            ep == error_positions(e, N as nat),
            good == exists|c: Seq<u8>|
                c.len() == N && #[trigger] is_rs_codeword(c) && diff_positions(c, block@).len() <= 8,
            good ==> {
                &&& power_sums_of(e, s)
                &&& 1 <= nz_count(e, N as nat) <= 8
                &&& forall|i: int| 0 <= i ==> #[trigger] coef(sigma@, i) == coef(error_locator(e), i)
                &&& error_locator(e).len() <= sigma@.len()
                &&& err_pos@.len() == ep.len()
                &&& forall|k: int| 0 <= k < err_pos@.len() ==> #[trigger] err_pos@[k] as int == ep[k]
                &&& forall|a: int, b: int| 0 <= a < b < ep.len() ==> ep[a] < ep[b]
                &&& forall|a: int| 0 <= a < ep.len() ==> 0 <= #[trigger] ep[a] < N && e[ep[a]] != 0
                &&& forall|i: int| 0 <= i < N ==> block@[i] ^ #[trigger] e[i] == c[i]
                &&& forall|a: int| 0 <= a < t ==> #[trigger] out@[ep[a]] == c[ep[a]]
            },
        decreases err_pos.len() - t,
    {
        let idx = err_pos[t];
        proof {
            if good {
                assert(ep[t as int] == idx as int);
            }
        }
        let ev = match forney_value(&gf, &sigma, &omega, idx, Ghost(e), Ghost(s), Ghost(synd_poly@), Ghost(good)) {
            Some(v) => v,
            None => {
                return None;
            },
        };
        let ghost before = out@;
        let nv = out[idx] ^ ev;
        out.set(idx, nv);
        proof {
            assert forall|i: int|
                0 <= i < N && #[trigger] out@[i] != block@[i] implies err_pos@.subrange(
                0,
                t + 1,
            ).contains(i as usize) by {
                if i == idx as int {
                    assert(err_pos@.subrange(0, t + 1)[t as int] == idx);
                } else {
                    assert(before[i] == out@[i]);
                    let w = choose|w: int|
                        0 <= w < t && err_pos@.subrange(0, t as int)[w] == i as usize;
                    assert(err_pos@.subrange(0, t + 1)[w] == i as usize);
                }
            }
            if good {
                // idx has not been corrected before: the positions are increasing
                assert(before[idx as int] == block@[idx as int]) by {
                    if before[idx as int] != block@[idx as int] {
                        let w = choose|w: int|
                            0 <= w < t && err_pos@.subrange(0, t as int)[w] == idx;
                        assert(ep[w] < ep[t as int]);
                    }
                }
                assert(ev == e[idx as int]);
                assert forall|a: int| 0 <= a < t + 1 implies #[trigger] out@[ep[a]] == c[ep[a]] by {
                    if a < t {
                        assert(ep[a] < ep[t as int]);
                        assert(before[ep[a]] == c[ep[a]]);
                    }
                }
            }
        }
        t = t + 1;
    }
    proof {
        if good {
            lemma_error_positions_full(e);
            assert(out@ =~= c) by {
                assert forall|i: int| 0 <= i < N implies out@[i] == c[i] by {
                    lemma_xor_word(block@[i], c[i]);
                    if e[i] != 0 {
                        let a = choose|a: int| 0 <= a < ep.len() && #[trigger] ep[a] == i;
                    } else if out@[i] != block@[i] {
                        assert(err_pos@.subrange(0, t as int) =~= err_pos@);
                        let w = choose|w: int| 0 <= w < err_pos@.len() && err_pos@[w] == i as usize;
                        assert(ep[w] == i);
                    }
                }
            }
        }
    }
    if is_codeword(&out) {
        proof {
            let d = diff_positions(out@, block@);
            let epu = err_pos@.map_values(|u: usize| u as int);
            assert(d.subset_of(epu.to_set())) by {
                assert forall|i: int| d.contains(i) implies epu.to_set().contains(i) by {
                    assert(err_pos@.subrange(0, t as int) =~= err_pos@);
                    let w = choose|w: int| 0 <= w < err_pos@.len() && err_pos@[w] == i as usize;
                    assert(epu[w] == i);
                }
            }
            epu.lemma_cardinality_of_set();
            vstd::seq_lib::seq_to_set_is_finite(epu);
            vstd::set_lib::lemma_len_subset(d, epu.to_set());
            assert forall|c: Seq<u8>|
                c.len() == N && #[trigger] is_rs_codeword(c) && diff_positions(c, block@).len()
                    <= NROOTS / 2 implies out@ == c by {
                lemma_rs_unique_within_8(block@, out@, c);
            }
        }
        Some(out)
    } else {
        None
    }
}

/// Element-wise sum (xor) of two equally long coefficient lists.
pub open spec fn xor_seq(a: Seq<u8>, b: Seq<u8>) -> Seq<u8> {
    Seq::new(a.len(), |i: int| a[i] ^ b[i])
}

/// Every coefficient multiplied by `c`.
pub open spec fn scale_seq(c: u8, g: Seq<u8>) -> Seq<u8> {
    g.map_values(|v: u8| gf_mul(c, v))
}

/// `n` zero coefficients.
pub open spec fn zeros(n: nat) -> Seq<u8> {
    Seq::new(n, |i: int| 0u8)
}

/// (x + r) * g for a coefficient list `g` given lowest degree first.
pub open spec fn mul_linear(g: Seq<u8>, r: u8) -> Seq<u8> {
    Seq::new(g.len() + 1, |k: int| gf_mul(r, coef(g, k)) ^ coef(g, k - 1))
}

/// prod_{j < n} (x + alpha^j), lowest degree first.
pub open spec fn gen_low(n: nat) -> Seq<u8>
    decreases n,
{
    if n == 0 {
        seq![1u8]
    } else {
        mul_linear(gen_low((n - 1) as nat), alpha_pow((n - 1) as nat))
    }
}

/// The RS(204,188) generator polynomial prod_{j < 16} (x + alpha^j), highest degree first.
pub open spec fn generator() -> Seq<u8> {
    gen_low(16).reverse()
}

proof fn lemma_xor_facts(a: u8, b: u8, c: u8, d: u8)
    by (bit_vector)
    ensures
        a ^ 0 == a,
        0 ^ a == a,
        a ^ a == 0,
        a ^ b == b ^ a,
        (a ^ b) ^ (c ^ d) == (a ^ c) ^ (b ^ d),
        (0u8 ^ a) ^ b == b ^ a,
{
}

proof fn lemma_eval_push(s: Seq<u8>, v: u8, x: u8)
    ensures
        poly_eval(s.push(v), x) == gf_mul(poly_eval(s, x), x) ^ v,
{
    assert(s.push(v).drop_last() =~= s);
}

/// Evaluation is additive: E(a + b) = E(a) + E(b).
pub(crate) proof fn lemma_eval_xor(a: Seq<u8>, b: Seq<u8>, x: u8)
    requires
        a.len() == b.len(),
    ensures
        poly_eval(xor_seq(a, b), x) == poly_eval(a, x) ^ poly_eval(b, x),
    decreases a.len(),
{
    if a.len() == 0 {
        lemma_xor_facts(0, 0, 0, 0);
    } else {
        let c = xor_seq(a, b);
        lemma_eval_xor(a.drop_last(), b.drop_last(), x);
        assert(c.drop_last() =~= xor_seq(a.drop_last(), b.drop_last()));
        let ea = poly_eval(a.drop_last(), x);
        let eb = poly_eval(b.drop_last(), x);
        lemma_gf_mul_distrib_left(ea, eb, x);
        lemma_xor_facts(gf_mul(ea, x), gf_mul(eb, x), a.last(), b.last());
    }
}

proof fn lemma_eval_zeros(n: nat, x: u8)
    ensures
        poly_eval(zeros(n), x) == 0,
    decreases n,
{
    if n > 0 {
        lemma_eval_zeros((n - 1) as nat, x);
        assert(zeros(n).drop_last() =~= zeros((n - 1) as nat));
        lemma_gf_mul_basics(x);
        lemma_xor_facts(0, 0, 0, 0);
    }
}

/// Leading zero coefficients do not change the value.
proof fn lemma_eval_zeros_prefix(n: nat, s: Seq<u8>, x: u8)
    ensures
        poly_eval(zeros(n) + s, x) == poly_eval(s, x),
    decreases s.len(),
{
    if s.len() == 0 {
        assert(zeros(n) + s =~= zeros(n));
        lemma_eval_zeros(n, x);
    } else {
        lemma_eval_zeros_prefix(n, s.drop_last(), x);
        assert((zeros(n) + s).drop_last() =~= zeros(n) + s.drop_last());
    }
}

/// Trailing zero coefficients keep a vanishing value vanishing.
proof fn lemma_eval_zeros_suffix(s: Seq<u8>, n: nat, x: u8)
    requires
        poly_eval(s, x) == 0,
    ensures
        poly_eval(s + zeros(n), x) == 0,
    decreases n,
{
    if n == 0 {
        assert(s + zeros(n) =~= s);
    } else {
        lemma_eval_zeros_suffix(s, (n - 1) as nat, x);
        assert((s + zeros(n)).drop_last() =~= s + zeros((n - 1) as nat));
        lemma_gf_mul_basics(x);
        lemma_xor_facts(0, 0, 0, 0);
    }
}

/// Scaling the coefficients scales the value.
proof fn lemma_eval_scale(c: u8, g: Seq<u8>, x: u8)
    ensures
        poly_eval(scale_seq(c, g), x) == gf_mul(c, poly_eval(g, x)),
    decreases g.len(),
{
    if g.len() == 0 {
        lemma_gf_mul_basics(c);
    } else {
        lemma_eval_scale(c, g.drop_last(), x);
        assert(scale_seq(c, g).drop_last() =~= scale_seq(c, g.drop_last()));
        let e = poly_eval(g.drop_last(), x);
        lemma_gf_mul_assoc(c, e, x);
        lemma_gf_mul_distrib(c, gf_mul(e, x), g.last());
    }
}

/// Multiplying by the linear factor (x + r) multiplies the value by (x + r).
pub(crate) proof fn lemma_eval_mul_linear(g: Seq<u8>, r: u8, x: u8)
    ensures
        poly_eval(mul_linear(g, r).reverse(), x) == gf_mul(r ^ x, poly_eval(g.reverse(), x)),
{
    let gr = g.reverse();
    let a = seq![0u8] + scale_seq(r, gr);
    let b = gr.push(0u8);
    assert forall|k: int| 0 <= k < g.len() + 1 implies #[trigger] mul_linear(g, r).reverse()[k]
        == a[k] ^ b[k] by {
        let i = g.len() - k;
        lemma_xor_facts(gf_mul(r, coef(g, i)), coef(g, i - 1), 0, 0);
        lemma_gf_mul_basics(r);
    }
    assert(mul_linear(g, r).reverse() =~= xor_seq(a, b));
    lemma_eval_xor(a, b, x);
    lemma_eval_zeros_prefix(1, scale_seq(r, gr), x);
    assert(zeros(1) =~= seq![0u8]);
    lemma_eval_scale(r, gr, x);
    lemma_eval_push(gr, 0u8, x);
    let e = poly_eval(gr, x);
    lemma_xor_facts(gf_mul(e, x), 0, 0, 0);
    lemma_gf_mul_comm(e, x);
    lemma_gf_mul_distrib_left(r, x, e);
}

proof fn lemma_gen_low_shape(n: nat)
    ensures
        gen_low(n).len() == n + 1,
        gen_low(n)[n as int] == 1,
    decreases n,
{
    if n > 0 {
        lemma_gen_low_shape((n - 1) as nat);
        let g = gen_low((n - 1) as nat);
        lemma_gf_mul_basics(alpha_pow((n - 1) as nat));
        lemma_xor_facts(1, 0, 0, 0);
    }
}

/// alpha^j is a root of prod_{i < n} (x + alpha^i) for every j < n.
proof fn lemma_gen_roots(n: nat, j: nat)
    requires
        j < n,
    ensures
        poly_eval(gen_low(n).reverse(), alpha_pow(j)) == 0,
    decreases n,
{
    let r = alpha_pow((n - 1) as nat);
    let x = alpha_pow(j);
    lemma_eval_mul_linear(gen_low((n - 1) as nat), r, x);
    let e = poly_eval(gen_low((n - 1) as nat).reverse(), x);
    if j == n - 1 {
        lemma_xor_facts(x, 0, 0, 0);
        lemma_gf_mul_basics(e);
    } else {
        lemma_gen_roots((n - 1) as nat, j);
        lemma_gf_mul_basics(r ^ x);
    }
}

/// The generator polynomial, highest degree first (17 coefficients, leading 1).
fn genpoly_high_first(gf: &Gf) -> (g: Vec<u8>)
    requires
        gf.wf(),
    ensures
        g@ == generator(),
{
    let mut g: Vec<u8> = vec![1u8];
    let mut j: usize = 0;
    proof {
        assert(g@ =~= gen_low(0));
    }
    while j < NROOTS
        invariant
            gf.wf(),
            j <= 16,
            g@ == gen_low(j as nat),
            g@.len() == j + 1,
        decreases 16 - j,
    {
        proof {
            lemma_gen_low_shape(j as nat);
        }
        let r = gf.pow(j);
        let mut ng: Vec<u8> = vec![0u8; g.len() + 1];
        let mut k: usize = 0;
        proof {
            lemma_xor_facts(0, 0, 0, 0);
            assert(coef(g@, -1) == 0);
        }
        while k < g.len()
            invariant
                gf.wf(),
                g@.len() == j + 1,
                k <= g@.len(),
                ng@.len() == g@.len() + 1,
                forall|q: int|
                    0 <= q < ng@.len() ==> #[trigger] ng@[q] == if q < k {
                        (0u8 ^ coef(g@, q - 1)) ^ gf_mul(r, coef(g@, q))
                    } else if q == k {
                        0u8 ^ coef(g@, q - 1)
                    } else {
                        0u8
                    },
            decreases g.len() - k,
        {
            proof {
                lemma_xor_facts(0, 0, 0, 0);
                assert(coef(g@, -1) == 0);
            }
            let v0 = ng[k] ^ gf.mul(r, g[k]);
            ng.set(k, v0);
            let v1 = ng[k + 1] ^ g[k];
            ng.set(k + 1, v1);
            k = k + 1;
        }
        proof {
            assert forall|q: int| 0 <= q < ng@.len() implies #[trigger] ng@[q] == mul_linear(
                g@,
                r,
            )[q] by {
                lemma_xor_facts(coef(g@, q - 1), gf_mul(r, coef(g@, q)), 0, 0);
                lemma_gf_mul_basics(r);
            }
            assert(ng@ =~= mul_linear(g@, r));
        }
        g = ng;
        j = j + 1;
    }
    // reverse into highest-degree-first order
    let mut h: Vec<u8> = Vec::new();
    let mut k: usize = g.len();
    while k > 0
        invariant
            k <= g@.len(),
            h@.len() == g@.len() - k,
            forall|q: int| 0 <= q < h@.len() ==> #[trigger] h@[q] == g@[g@.len() - 1 - q],
        decreases k,
    {
        k = k - 1;
        h.push(g[k]);
    }
    proof {
        assert(h@ =~= g@.reverse());
    }
    h
}

/// RS encoding: 188 message bytes followed by the 16 parity bytes msg(x)*x^16 mod g(x).
/// `msg[0]` is the highest-degree coefficient.
pub fn encode(msg: &[u8]) -> (cw: Vec<u8>)
    requires
        msg@.len() == K,
    ensures
        cw@.len() == N,
        cw@.subrange(0, K as int) == msg@,
        is_rs_codeword(cw@),
{
    let gf = build_gf();
    let g = genpoly_high_first(&gf);
    proof {
        lemma_gen_low_shape(16);
        assert(g@.len() == 17);
        assert(g@[0] == 1);
        assert forall|j: nat| j < 16 implies #[trigger] poly_eval(g@, alpha_pow(j)) == 0 by {
            lemma_gen_roots(16, j);
        }
    }
    // work = msg followed by 16 zeros; polynomial long division by g
    let mut work: Vec<u8> = Vec::new();
    let mut i: usize = 0;
    while i < N
        invariant
            i <= N,
            msg@.len() == K,
            work@.len() == i,
            forall|p: int| 0 <= p < i ==> #[trigger] work@[p] == coef(msg@, p),
        decreases N - i,
    {
        if i < K {
            work.push(msg[i]);
        } else {
            work.push(0);
        }
        i = i + 1;
    }
    let ghost w0 = work@;
    proof {
        assert(w0 =~= msg@ + zeros(16));
    }
    let mut i: usize = 0;
    while i < K
        invariant
            gf.wf(),
            i <= K,
            g@.len() == 17,
            g@[0] == 1,
            forall|j: nat| j < 16 ==> #[trigger] poly_eval(g@, alpha_pow(j)) == 0,
            work@.len() == N,
            forall|p: int| 0 <= p < i ==> #[trigger] work@[p] == 0,
            forall|j: nat| j < 16 ==> #[trigger] poly_eval(work@, alpha_pow(j)) == poly_eval(w0, alpha_pow(j)),
        decreases K - i,
    {
        let c = work[i];
        if c != 0 {
            let ghost before = work@;
            let mut k: usize = 0;
            while k < g.len()
                invariant
                    gf.wf(),
                    i < K,
                    k <= g@.len() == 17,
                    work@.len() == N,
                    before.len() == N,
                    forall|p: int|
                        0 <= p < N ==> #[trigger] work@[p] == if i <= p < i + k {
                            before[p] ^ gf_mul(c, g@[p - i])
                        } else {
                            before[p]
                        },
                decreases g.len() - k,
            {
                let v = work[i + k] ^ gf.mul(c, g[k]);
                work.set(i + k, v);
                k = k + 1;
            }
            proof {
                let sh = zeros(i as nat) + (scale_seq(c, g@) + zeros((N - i - 17) as nat));
                assert forall|p: int| 0 <= p < N implies #[trigger] work@[p] == before[p] ^ sh[p] by {
                    lemma_xor_facts(before[p], 0, 0, 0);
                }
                assert(work@ =~= xor_seq(before, sh));
                assert forall|j: nat| j < 16 implies #[trigger] poly_eval(work@, alpha_pow(j))
                    == poly_eval(w0, alpha_pow(j)) by {
                    let x = alpha_pow(j);
                    lemma_eval_xor(before, sh, x);
                    lemma_eval_zeros_prefix(i as nat, scale_seq(c, g@) + zeros((N - i - 17) as nat), x);
                    lemma_eval_scale(c, g@, x);
                    lemma_gf_mul_basics(c);
                    lemma_eval_zeros_suffix(scale_seq(c, g@), (N - i - 17) as nat, x);
                    lemma_xor_facts(poly_eval(before, x), 0, 0, 0);
                }
                lemma_gf_mul_basics(c);
                lemma_xor_facts(c, 0, 0, 0);
                assert(work@[i as int] == 0);
            }
        }
        i = i + 1;
    }
    // codeword = message followed by the remainder work[K..N]
    let mut cw: Vec<u8> = Vec::new();
    let mut p: usize = 0;
    while p < N
        invariant
            p <= N,
            work@.len() == N,
            msg@.len() == K,
            cw@.len() == p,
            forall|q: int| 0 <= q < p ==> #[trigger] cw@[q] == if q < K { msg@[q] } else { work@[q] },
        decreases N - p,
    {
        if p < K {
            cw.push(msg[p]);
        } else {
            cw.push(work[p]);
        }
        p = p + 1;
    }
    proof {
        assert(cw@.subrange(0, K as int) =~= msg@);
        let rem = work@.subrange(K as int, N as int);
        assert(work@ =~= zeros(K as nat) + rem);
        let zr = zeros(K as nat) + rem;
        assert forall|q: int| 0 <= q < N implies #[trigger] cw@[q] == w0[q] ^ zr[q] by {
            lemma_xor_facts(w0[q], 0, 0, 0);
            lemma_xor_facts(zr[q], 0, 0, 0);
        }
        assert(cw@ =~= xor_seq(w0, zr));
        assert forall|j: nat| j < 16 implies #[trigger] syndrome(cw@, j) == 0 by {
            let x = alpha_pow(j);
            lemma_eval_xor(w0, zr, x);
            lemma_xor_facts(poly_eval(w0, x), 0, 0, 0);
        }
    }
    cw
}

} // verus!
