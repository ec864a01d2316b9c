//! Correction capability of the RS(204,188) decoder.
//!
//! When a block lies within 8 byte errors of a codeword, its syndromes are the power sums of
//! the error word. This module holds the algebra the decoder's proof rests on: finite sums
//! over GF(256) and their exchange; the discrepancy of a connection polynomial written as a
//! power sum of the error word weighted by the polynomial's reciprocal at the locators; root
//! counting by synthetic division; the error-locator polynomial and the fact that it produces
//! the syndromes; Massey's length bound and one correcting step of Berlekamp-Massey; and
//! Forney's formula for the error values.

use vstd::prelude::*;
use crate::gf::{
    gf_mul, alpha_pow, lemma_gf_mul_basics, lemma_gf_mul_comm, lemma_gf_mul_distrib,
    lemma_gf_mul_distrib_left, lemma_gf_mul_assoc, lemma_alpha_pow_add, lemma_alpha_pow_distinct,
    lemma_alpha_pow_mod, lemma_alpha_pow_nonzero,
};
use crate::rs::{
    N, poly_eval, coef, conv_partial, mul_linear, xor_seq, syndrome, is_rs_codeword,
    diff_positions, lemma_eval_mul_linear, lemma_eval_xor,
};
use crate::rs_distance::{
    power_sum, support, lemma_horner_power_sum, lemma_gf_no_zero_divisors, lemma_sparse_zero,
    lemma_support_finite, lemma_syndrome_power_sum,
};

verus! {

/// f(0) + f(1) + ... + f(n - 1) in GF(256).
pub open spec fn xsum(f: spec_fn(int) -> u8, n: nat) -> u8
    decreases n,
{
    if n == 0 {
        0u8
    } else {
        xsum(f, (n - 1) as nat) ^ f(n - 1)
    }
}

proof fn lemma_xor_laws(a: u8, b: u8, c: u8, d: u8)
    by (bit_vector)
    ensures
        (a ^ b) ^ (c ^ d) == (a ^ c) ^ (b ^ d),
        a ^ 0 == a,
        0 ^ a == a,
        a ^ a == 0,
        a ^ b == b ^ a,
        (a ^ b) ^ c == a ^ (b ^ c),
        a ^ b == 0 <==> a == b,
{
}

proof fn lemma_xor_cancel(a: u8, b: u8, c: u8, d: u8)
    by (bit_vector)
    ensures
        (a ^ (b ^ c)) ^ (c ^ d) == (a ^ b) ^ d,
{
}

/// Sums of pointwise equal terms are equal.
pub proof fn lemma_xsum_ext(f: spec_fn(int) -> u8, g: spec_fn(int) -> u8, n: nat)
    requires
        forall|i: int| 0 <= i < n ==> #[trigger] f(i) == g(i),
    ensures
        xsum(f, n) == xsum(g, n),
    decreases n,
{
    if n > 0 {
        lemma_xsum_ext(f, g, (n - 1) as nat);
    }
}

/// The sum of pointwise sums.
pub proof fn lemma_xsum_xor(f: spec_fn(int) -> u8, g: spec_fn(int) -> u8, n: nat)
    ensures
        xsum(|i: int| f(i) ^ g(i), n) == xsum(f, n) ^ xsum(g, n),
    decreases n,
{
    if n == 0 {
        lemma_xor_laws(0, 0, 0, 0);
    } else {
        lemma_xsum_xor(f, g, (n - 1) as nat);
        lemma_xor_laws(
            xsum(f, (n - 1) as nat),
            xsum(g, (n - 1) as nat),
            f(n - 1),
            g(n - 1),
        );
    }
}

/// A constant factor comes out of a sum.
pub proof fn lemma_xsum_scale(c: u8, f: spec_fn(int) -> u8, n: nat)
    ensures
        xsum(|i: int| gf_mul(c, f(i)), n) == gf_mul(c, xsum(f, n)),
    decreases n,
{
    if n == 0 {
        lemma_gf_mul_basics(c);
    } else {
        lemma_xsum_scale(c, f, (n - 1) as nat);
        lemma_gf_mul_distrib(c, xsum(f, (n - 1) as nat), f(n - 1));
    }
}

/// A sum of zeros is zero.
pub proof fn lemma_xsum_zero(f: spec_fn(int) -> u8, n: nat)
    requires
        forall|i: int| 0 <= i < n ==> #[trigger] f(i) == 0,
    ensures
        xsum(f, n) == 0,
    decreases n,
{
    if n > 0 {
        lemma_xsum_zero(f, (n - 1) as nat);
        lemma_xor_laws(0, 0, 0, 0);
    }
}

/// A sum with one nonzero term.
pub proof fn lemma_xsum_single(f: spec_fn(int) -> u8, n: nat, p: int)
    requires
        0 <= p < n,
        forall|i: int| 0 <= i < n && i != p ==> #[trigger] f(i) == 0,
    ensures
        xsum(f, n) == f(p),
    decreases n,
{
    if p < n - 1 {
        lemma_xsum_single(f, (n - 1) as nat, p);
        lemma_xor_laws(f(p), 0, 0, 0);
    } else {
        lemma_xsum_zero(f, (n - 1) as nat);
        lemma_xor_laws(f(p), 0, 0, 0);
    }
}

/// Finite double sums may be exchanged.
pub proof fn lemma_xsum_swap(f: spec_fn(int, int) -> u8, n: nat, m: nat)
    ensures
        xsum(|i: int| xsum(|k: int| f(i, k), m), n) == xsum(
            |k: int| xsum(|i: int| f(i, k), n),
            m,
        ),
    decreases n,
{
    if n == 0 {
        lemma_xsum_zero(|k: int| xsum(|i: int| f(i, k), 0), m);
    } else {
        let n1 = (n - 1) as nat;
        lemma_xsum_swap(f, n1, m);
        let a = |k: int| xsum(|i: int| f(i, k), n1);
        let b = |k: int| f(n1 as int, k);
        lemma_xsum_xor(a, b, m);
        lemma_xsum_ext(
            |k: int| xsum(|i: int| f(i, k), n),
            |k: int| a(k) ^ b(k),
            m,
        );
    }
}

/// A power sum written as a sum.
pub proof fn lemma_power_sum_xsum(d: Seq<u8>, j: nat, k: nat, top: nat)
    ensures
        power_sum(d, j, k, top) == xsum(
            |i: int| gf_mul(d[i], alpha_pow((j * (top - i)) as nat)),
            k,
        ),
    decreases k,
{
    if k > 0 {
        lemma_power_sum_xsum(d, j, (k - 1) as nat, top);
    }
}

/// sum_{i < k} c_i * s_(j - i): the first `k` terms of the discrepancy at position `j` of the
/// connection polynomial `c` (lowest degree first) over the sequence `s`.
pub open spec fn disc(c: Seq<u8>, s: Seq<u8>, j: int, k: nat) -> u8
    decreases k,
{
    if k == 0 {
        0u8
    } else {
        disc(c, s, j, (k - 1) as nat) ^ gf_mul(coef(c, k - 1), s[j - (k - 1)])
    }
}

/// Coefficients 0..=l of `c`, zero-padded; read highest degree first by `poly_eval`, so
/// `poly_eval(head(c, l), x) = sum_{p <= l} c_p x^(l - p)` (the reciprocal polynomial).
pub open spec fn head(c: Seq<u8>, l: nat) -> Seq<u8> {
    Seq::new(l + 1, |p: int| coef(c, p))
}

/// Locator of byte position `i`: alpha^(203 - i).
pub open spec fn locator(i: int) -> u8 {
    alpha_pow((203 - i) as nat)
}

/// The error word with each byte weighted by the reciprocal of `c` (length `l`) at its locator.
pub open spec fn weighted(e: Seq<u8>, c: Seq<u8>, l: nat) -> Seq<u8> {
    Seq::new(e.len(), |i: int| gf_mul(e[i], poly_eval(head(c, l), locator(i))))
}

/// `s` holds the 16 power sums (syndromes) of the 204-byte word `e`.
pub open spec fn power_sums_of(e: Seq<u8>, s: Seq<u8>) -> bool {
    &&& e.len() == N
    &&& s.len() == 16
    &&& forall|t: int|
        0 <= t < 16 ==> #[trigger] s[t] == power_sum(e, t as nat, N as nat, (N - 1) as nat)
}

proof fn lemma_disc_xsum(c: Seq<u8>, s: Seq<u8>, j: int, k: nat)
    ensures
        disc(c, s, j, k) == xsum(|p: int| gf_mul(coef(c, p), s[j - p]), k),
    decreases k,
{
    if k > 0 {
        lemma_disc_xsum(c, s, j, (k - 1) as nat);
    }
}

proof fn lemma_exp_split(j: int, l: int, p: int, e: int)
    requires
        0 <= p <= l <= j,
        0 <= e,
    ensures
        (j - p) * e == (j - l) * e + (l - p) * e,
        (j - p) * e >= 0,
        (j - l) * e >= 0,
        (l - p) * e >= 0,
        e * (l - p) == (l - p) * e,
{
    assert((j - p) * e == (j - l) * e + (l - p) * e) by (nonlinear_arith);
    assert((j - l) * e >= 0) by (nonlinear_arith)
        requires
            j - l >= 0,
            e >= 0,
    ;
    assert((l - p) * e >= 0) by (nonlinear_arith)
        requires
            l - p >= 0,
            e >= 0,
    ;
    assert(e * (l - p) == (l - p) * e) by (nonlinear_arith);
}

/// One locator's share of a discrepancy:
/// sum_{p <= l} c_p X^(j - p) = X^(j - l) * sum_{p <= l} c_p X^(l - p).
proof fn lemma_disc_term(c: Seq<u8>, ei: u8, i: int, j: int, l: nat)
    requires
        0 <= i < N,
        l <= j,
    ensures
        xsum(
            |p: int|
                gf_mul(coef(c, p), gf_mul(ei, alpha_pow(((j - p) * (203 - i)) as nat))),
            l + 1,
        ) == gf_mul(
            gf_mul(ei, poly_eval(head(c, l), locator(i))),
            alpha_pow(((j - l) * (203 - i)) as nat),
        ),
{
    let e = 203 - i;
    let a = alpha_pow(((j - l) * e) as nat);
    let f = |p: int| gf_mul(coef(c, p), gf_mul(ei, alpha_pow(((j - p) * e) as nat)));
    let g = |p: int| gf_mul(ei, gf_mul(a, gf_mul(coef(c, p), alpha_pow(((l - p) * e) as nat))));
    assert forall|p: int| 0 <= p < l + 1 implies #[trigger] f(p) == g(p) by {
        lemma_exp_split(j, l as int, p, e);
        let b = alpha_pow(((l - p) * e) as nat);
        let cp = coef(c, p);
        lemma_alpha_pow_add(((j - l) * e) as nat, ((l - p) * e) as nat);
        assert((((j - l) * e) as nat + ((l - p) * e) as nat) as nat == ((j - p) * e) as nat);
        // cp * (ei * (a * b)) == ei * (a * (cp * b))
        lemma_gf_mul_assoc(cp, ei, gf_mul(a, b));
        lemma_gf_mul_comm(cp, ei);
        lemma_gf_mul_assoc(ei, cp, gf_mul(a, b));
        lemma_gf_mul_assoc(cp, a, b);
        lemma_gf_mul_comm(cp, a);
        lemma_gf_mul_assoc(a, cp, b);
    }
    lemma_xsum_ext(f, g, l + 1);
    let h = |p: int| gf_mul(coef(c, p), alpha_pow(((l - p) * e) as nat));
    let ha = |p: int| gf_mul(a, h(p));
    lemma_xsum_scale(ei, ha, l + 1);
    lemma_xsum_ext(g, |p: int| gf_mul(ei, ha(p)), l + 1);
    lemma_xsum_scale(a, h, l + 1);
    // the inner sum is the reciprocal polynomial evaluated at the locator
    let hd = head(c, l);
    lemma_power_sum_xsum(hd, e as nat, l + 1, l);
    assert forall|p: int| 0 <= p < l + 1 implies #[trigger] h(p) == gf_mul(
        hd[p],
        alpha_pow(((e as nat) * (l - p)) as nat),
    ) by {
        lemma_exp_split(l as int, l as int, p, e);
    }
    lemma_xsum_ext(h, |p: int| gf_mul(hd[p], alpha_pow(((e as nat) * (l - p)) as nat)), l + 1);
    lemma_horner_power_sum(hd, e as nat, l + 1);
    assert(hd.take((l + 1) as int) =~= hd);
    let pv = poly_eval(hd, locator(i));
    // ei * (a * pv) == (ei * pv) * a
    lemma_gf_mul_comm(a, pv);
    lemma_gf_mul_assoc(ei, pv, a);
}

/// The discrepancy of `c` (length `l`) at position `j` over the syndromes of `e` is the
/// `(j - l)`-th power sum of `e` weighted by the reciprocal of `c` at the locators.
pub proof fn lemma_disc_weighted(c: Seq<u8>, e: Seq<u8>, s: Seq<u8>, l: nat, j: int)
    requires
        power_sums_of(e, s),
        l <= j < 16,
    ensures
        disc(c, s, j, l + 1) == power_sum(weighted(e, c, l), (j - l) as nat, N as nat, (N - 1) as nat),
{
    let nn = N as nat;
    let top = (N - 1) as nat;
    let ff = |p: int, i: int|
        gf_mul(coef(c, p), gf_mul(e[i], alpha_pow(((j - p) * (203 - i)) as nat)));
    lemma_disc_xsum(c, s, j, l + 1);
    assert forall|p: int| 0 <= p < l + 1 implies #[trigger] gf_mul(coef(c, p), s[j - p]) == xsum(
        |i: int| ff(p, i),
        nn,
    ) by {
        let jp = (j - p) as nat;
        assert(s[j - p] == power_sum(e, jp, nn, top));
        lemma_power_sum_xsum(e, jp, nn, top);
        let g = |i: int| gf_mul(e[i], alpha_pow((jp * (top - i)) as nat));
        let h = |i: int| gf_mul(e[i], alpha_pow(((j - p) * (203 - i)) as nat));
        assert forall|i: int| 0 <= i < nn implies #[trigger] g(i) == h(i) by {
            assert(jp * (top - i) == (j - p) * (203 - i));
        }
        lemma_xsum_ext(g, h, nn);
        lemma_xsum_scale(coef(c, p), h, nn);
        lemma_xsum_ext(|i: int| gf_mul(coef(c, p), h(i)), |i: int| ff(p, i), nn);
    }
    lemma_xsum_ext(
        |p: int| gf_mul(coef(c, p), s[j - p]),
        |p: int| xsum(|i: int| ff(p, i), nn),
        l + 1,
    );
    lemma_xsum_swap(ff, l + 1, nn);
    let w = weighted(e, c, l);
    assert forall|i: int| 0 <= i < nn implies xsum(|p: int| ff(p, i), l + 1) == gf_mul(
        #[trigger] w[i],
        alpha_pow((((j - l) as nat) * (top - i)) as nat),
    ) by {
        lemma_disc_term(c, e[i], i, j, l);
        lemma_xsum_ext(
            |p: int| ff(p, i),
            |p: int| gf_mul(coef(c, p), gf_mul(e[i], alpha_pow(((j - p) * (203 - i)) as nat))),
            l + 1,
        );
    }
    lemma_xsum_ext(
        |i: int| xsum(|p: int| ff(p, i), l + 1),
        |i: int| gf_mul(w[i], alpha_pow((((j - l) as nat) * (top - i)) as nat)),
        nn,
    );
    lemma_power_sum_xsum(w, (j - l) as nat, nn, top);
}

/// The Horner partial values of `p` at `y` after the first byte: the quotient of `p` by
/// `(x + y)` (both highest degree first).
pub open spec fn horner_quotient(p: Seq<u8>, y: u8) -> Seq<u8> {
    Seq::new((p.len() - 1) as nat, |i: int| poly_eval(p.take(i + 1), y))
}

proof fn lemma_horner_division_prefix(p: Seq<u8>, y: u8, x: u8, k: nat)
    requires
        1 <= k <= p.len(),
    ensures
        poly_eval(p.take(k as int), x) == gf_mul(
            x ^ y,
            poly_eval(horner_quotient(p, y).take(k - 1), x),
        ) ^ poly_eval(p.take(k as int), y),
    decreases k,
{
    let q = horner_quotient(p, y);
    assert(p.take(k as int).drop_last() =~= p.take(k - 1));
    assert(p.take(k as int).last() == p[k - 1]);
    if k == 1 {
        assert(p.take(0) =~= Seq::<u8>::empty());
        assert(q.take(0) =~= Seq::<u8>::empty());
        lemma_gf_mul_basics(x);
        lemma_gf_mul_basics(y);
        lemma_gf_mul_basics(x ^ y);
        lemma_xor_laws(p[0], 0, 0, 0);
        assert(poly_eval(p.take(0), x) == 0);
        assert(poly_eval(p.take(0), y) == 0);
        assert(poly_eval(p.take(1), x) == p[0]);
        assert(poly_eval(p.take(1), y) == p[0]);
        assert(poly_eval(q.take(0), x) == 0);
        assert(gf_mul(x ^ y, poly_eval(q.take(0), x)) == 0);
    } else {
        let k1 = (k - 1) as nat;
        lemma_horner_division_prefix(p, y, x, k1);
        let qk = poly_eval(q.take(k1 - 1), x);
        let hk = poly_eval(p.take(k1 as int), y);
        let pk = p[k1 as int];
        assert(q.take(k1 as int).drop_last() =~= q.take(k1 - 1));
        assert(q.take(k1 as int).last() == hk);
        // left side
        lemma_gf_mul_distrib_left(gf_mul(x ^ y, qk), hk, x);
        lemma_gf_mul_assoc(x ^ y, qk, x);
        lemma_gf_mul_comm(hk, x);
        // right side
        lemma_gf_mul_distrib(x ^ y, gf_mul(qk, x), hk);
        lemma_gf_mul_distrib_left(x, y, hk);
        lemma_gf_mul_comm(y, hk);
        let a = gf_mul(x ^ y, gf_mul(qk, x));
        let b = gf_mul(x, hk);
        let c = gf_mul(hk, y);
        assert(poly_eval(p.take(k1 as int), x) == gf_mul(x ^ y, qk) ^ hk);
        assert(poly_eval(p.take(k as int), x) == (a ^ b) ^ pk);
        assert(poly_eval(q.take(k1 as int), x) == gf_mul(qk, x) ^ hk);
        assert(gf_mul(x ^ y, poly_eval(q.take(k1 as int), x)) == a ^ (b ^ c));
        assert(poly_eval(p.take(k as int), y) == c ^ pk);
        lemma_xor_cancel(a, b, c, pk);
    }
}

/// Division by `(x + y)`: p(x) = (x + y) q(x) + p(y).
pub proof fn lemma_horner_division(p: Seq<u8>, y: u8, x: u8)
    requires
        p.len() >= 1,
    ensures
        poly_eval(p, x) == gf_mul(x ^ y, poly_eval(horner_quotient(p, y), x)) ^ poly_eval(p, y),
{
    lemma_horner_division_prefix(p, y, x, p.len());
    assert(p.take(p.len() as int) =~= p);
    assert(horner_quotient(p, y).take(p.len() - 1) =~= horner_quotient(p, y));
}

/// A polynomial (highest degree first) that vanishes at as many distinct points as it has
/// coefficients is zero.
pub proof fn lemma_root_count(p: Seq<u8>, pts: Seq<u8>)
    requires
        pts.len() >= p.len(),
        forall|a: int, b: int| 0 <= a < b < pts.len() ==> pts[a] != pts[b],
        forall|k: int| 0 <= k < pts.len() ==> #[trigger] poly_eval(p, pts[k]) == 0,
    ensures
        forall|i: int| 0 <= i < p.len() ==> p[i] == 0,
    decreases p.len(),
{
    if p.len() > 0 {
        let n = p.len();
        let y0 = pts.last();
        let q = horner_quotient(p, y0);
        let rest = pts.drop_last();
        assert forall|k: int| 0 <= k < rest.len() implies #[trigger] poly_eval(q, rest[k]) == 0 by {
            let x = rest[k];
            assert(pts[k] == x);
            assert(pts[pts.len() - 1] == y0);
            lemma_horner_division(p, y0, x);
            assert(poly_eval(p, pts[pts.len() - 1]) == 0);
            lemma_xor_laws(x, y0, 0, 0);
            let qx = poly_eval(q, x);
            lemma_xor_laws(gf_mul(x ^ y0, qx), 0, 0, 0);
            if qx != 0 {
                lemma_gf_no_zero_divisors(x ^ y0, qx);
            }
        }
        lemma_root_count(q, rest);
        assert(poly_eval(p, pts[pts.len() - 1]) == 0);
        assert forall|i: int| 0 <= i < n implies p[i] == 0 by {
            // h_(i+1) = h_i * y0 + p_i, with every h zero
            let hi = poly_eval(p.take(i), y0);
            let hi1 = poly_eval(p.take(i + 1), y0);
            assert(p.take(i + 1).drop_last() =~= p.take(i));
            assert(p.take(i + 1).last() == p[i]);
            if i == 0 {
                assert(p.take(0) =~= Seq::<u8>::empty());
            } else {
                assert(q[i - 1] == hi);
            }
            assert(hi == 0);
            if i + 1 < n {
                assert(q[i] == hi1);
            } else {
                assert(p.take(i + 1) =~= p);
            }
            assert(hi1 == 0);
            lemma_gf_mul_basics(y0);
            lemma_xor_laws(0, p[i], 0, 0);
        }
    }
}

/// Number of nonzero bytes among the first `k` of `e`.
pub open spec fn nz_count(e: Seq<u8>, k: nat) -> nat
    decreases k,
{
    if k == 0 {
        0
    } else {
        nz_count(e, (k - 1) as nat) + if e[k - 1] != 0 {
            1nat
        } else {
            0nat
        }
    }
}

/// prod (x + X_i) over the nonzero positions i < k of `e`, lowest degree first.
pub open spec fn locator_product(e: Seq<u8>, k: nat) -> Seq<u8>
    decreases k,
{
    if k == 0 {
        seq![1u8]
    } else if e[k - 1] != 0 {
        mul_linear(locator_product(e, (k - 1) as nat), locator(k - 1))
    } else {
        locator_product(e, (k - 1) as nat)
    }
}

/// The error-locator polynomial prod (1 + X_i x) over the nonzero positions of `e`,
/// lowest degree first (the reverse of `locator_product`).
pub open spec fn error_locator(e: Seq<u8>) -> Seq<u8> {
    locator_product(e, N as nat).reverse()
}

proof fn lemma_locator_product_shape(e: Seq<u8>, k: nat)
    ensures
        locator_product(e, k).len() == nz_count(e, k) + 1,
        locator_product(e, k)[nz_count(e, k) as int] == 1,
    decreases k,
{
    if k > 0 {
        lemma_locator_product_shape(e, (k - 1) as nat);
        let g = locator_product(e, (k - 1) as nat);
        lemma_gf_mul_basics(locator(k - 1));
        lemma_xor_laws(1, 0, 0, 0);
        if e[k - 1] != 0 {
            assert(coef(g, g.len() as int) == 0);
            assert(coef(g, g.len() - 1) == 1);
        }
    }
}

/// Each error locator is a root of the locator product.
proof fn lemma_locator_product_roots(e: Seq<u8>, k: nat, q: int)
    requires
        0 <= q < k,
        e[q] != 0,
    ensures
        poly_eval(locator_product(e, k).reverse(), locator(q)) == 0,
    decreases k,
{
    let g = locator_product(e, (k - 1) as nat);
    let x = locator(q);
    if e[k - 1] != 0 {
        lemma_eval_mul_linear(g, locator(k - 1), x);
        let v = poly_eval(g.reverse(), x);
        if q == k - 1 {
            lemma_xor_laws(x, 0, 0, 0);
            lemma_gf_mul_basics(v);
        } else {
            lemma_locator_product_roots(e, (k - 1) as nat, q);
            lemma_gf_mul_basics(locator(k - 1) ^ x);
        }
    } else {
        lemma_locator_product_roots(e, (k - 1) as nat, q);
    }
}

/// The error locator has length w + 1 (w nonzero bytes), constant term 1, and vanishes in
/// reciprocal form at every error locator.
pub proof fn lemma_error_locator(e: Seq<u8>)
    requires
        e.len() == N,
    ensures
        error_locator(e).len() == nz_count(e, N as nat) + 1,
        error_locator(e)[0] == 1,
        forall|q: int|
            0 <= q < N && e[q] != 0 ==> #[trigger] poly_eval(error_locator(e), locator(q)) == 0,
{
    lemma_locator_product_shape(e, N as nat);
    assert forall|q: int| 0 <= q < N && e[q] != 0 implies #[trigger] poly_eval(
        error_locator(e),
        locator(q),
    ) == 0 by {
        lemma_locator_product_roots(e, N as nat, q);
    }
}

/// A power sum of the zero word vanishes.
proof fn lemma_power_sum_of_zero(d: Seq<u8>, j: nat, k: nat, top: nat)
    requires
        k <= d.len(),
        forall|i: int| 0 <= i < k ==> d[i] == 0,
    ensures
        power_sum(d, j, k, top) == 0,
    decreases k,
{
    if k > 0 {
        lemma_power_sum_of_zero(d, j, (k - 1) as nat, top);
        lemma_gf_mul_basics(alpha_pow((j * (top - (k - 1))) as nat));
        lemma_xor_laws(0, 0, 0, 0);
    }
}

/// The error locator (length w) generates the syndromes: its discrepancy vanishes at every
/// position w .. 15.
pub proof fn lemma_error_locator_generates(e: Seq<u8>, s: Seq<u8>, j: int)
    requires
        power_sums_of(e, s),
        nz_count(e, N as nat) <= j < 16,
    ensures
        disc(error_locator(e), s, j, nz_count(e, N as nat) + 1) == 0,
{
    let w = nz_count(e, N as nat);
    let lam = error_locator(e);
    lemma_error_locator(e);
    lemma_disc_weighted(lam, e, s, w, j);
    assert(head(lam, w) =~= lam);
    let wt = weighted(e, lam, w);
    assert forall|i: int| 0 <= i < N implies wt[i] == 0 by {
        if e[i] != 0 {
            lemma_gf_mul_basics(e[i]);
        } else {
            lemma_gf_mul_basics(poly_eval(lam, locator(i)));
        }
    }
    lemma_power_sum_of_zero(wt, (j - w) as nat, N as nat, (N - 1) as nat);
}

/// The first term of a sum split off: f(0) + sum_{i < n} f(i + 1).
proof fn lemma_xsum_first(f: spec_fn(int) -> u8, n: nat)
    ensures
        xsum(f, n + 1) == f(0) ^ xsum(|i: int| f(i + 1), n),
    decreases n,
{
    let g = |i: int| f(i + 1);
    if n == 0 {
        assert(xsum(f, 0) == 0);
        assert(xsum(g, 0) == 0);
        lemma_xor_laws(f(0), 0, 0, 0);
    } else {
        lemma_xsum_first(f, (n - 1) as nat);
        assert(xsum(g, n) == xsum(g, (n - 1) as nat) ^ f(n as int));
        assert(xsum(f, n + 1) == xsum(f, n) ^ f(n as int));
        lemma_xor_laws(f(0), xsum(g, (n - 1) as nat), f(n as int), 0);
    }
}

/// sum_{1 <= i <= l} c_i * s_(j - i): the discrepancy without its constant term.
pub open spec fn disc_tail(c: Seq<u8>, s: Seq<u8>, j: int, l: nat) -> u8 {
    xsum(|i: int| gf_mul(coef(c, i + 1), s[j - (i + 1)]), l)
}

proof fn lemma_disc_split(c: Seq<u8>, s: Seq<u8>, j: int, l: nat)
    requires
        coef(c, 0) == 1,
    ensures
        disc(c, s, j, l + 1) == s[j] ^ disc_tail(c, s, j, l),
{
    lemma_disc_xsum(c, s, j, l + 1);
    let f = |p: int| gf_mul(coef(c, p), s[j - p]);
    lemma_xsum_first(f, l);
    lemma_gf_mul_basics(s[j]);
    lemma_xsum_ext(|i: int| f(i + 1), |i: int| gf_mul(coef(c, i + 1), s[j - (i + 1)]), l);
}

/// Massey's length bound: if a connection polynomial of length `l` produces `s_0 .. s_(n-1)`
/// but not `s_n`, every connection polynomial that produces `s_0 .. s_n` has length at
/// least `n + 1 - l`.
pub proof fn lemma_massey_bound(c: Seq<u8>, d: Seq<u8>, s: Seq<u8>, l: nat, ld: nat, n: nat)
    requires
        coef(c, 0) == 1,
        coef(d, 0) == 1,
        l <= n < s.len(),
        forall|j: int| l <= j < n ==> #[trigger] disc(c, s, j, l + 1) == 0,
        disc(c, s, n as int, l + 1) != 0,
        forall|j: int| ld <= j <= n ==> #[trigger] disc(d, s, j, ld + 1) == 0,
    ensures
        ld + l > n,
{
    if ld + l <= n {
        // every s_t with ld <= t <= n is its own tail under d, and with l <= t < n under c
        assert forall|t: int| ld <= t <= n implies #[trigger] s[t] == disc_tail(d, s, t, ld) by {
            lemma_disc_split(d, s, t, ld);
            lemma_xor_laws(s[t], disc_tail(d, s, t, ld), 0, 0);
        }
        assert forall|t: int| l <= t < n implies #[trigger] s[t] == disc_tail(c, s, t, l) by {
            lemma_disc_split(c, s, t, l);
            lemma_xor_laws(s[t], disc_tail(c, s, t, l), 0, 0);
        }
        let ff = |i: int, k: int|
            gf_mul(coef(c, i + 1), gf_mul(coef(d, k + 1), s[n - (i + 1) - (k + 1)]));
        // tail_c(n) = sum_i c_(i+1) * sum_k d_(k+1) s_(n-i-k-2)
        assert forall|i: int| 0 <= i < l implies #[trigger] gf_mul(
            coef(c, i + 1),
            s[n - (i + 1)],
        ) == xsum(|k: int| ff(i, k), ld) by {
            let t = n - (i + 1);
            assert(s[t] == disc_tail(d, s, t, ld));
            let g = |k: int| gf_mul(coef(d, k + 1), s[t - (k + 1)]);
            lemma_xsum_scale(coef(c, i + 1), g, ld);
            lemma_xsum_ext(|k: int| gf_mul(coef(c, i + 1), g(k)), |k: int| ff(i, k), ld);
        }
        lemma_xsum_ext(
            |i: int| gf_mul(coef(c, i + 1), s[n - (i + 1)]),
            |i: int| xsum(|k: int| ff(i, k), ld),
            l,
        );
        lemma_xsum_swap(ff, l, ld);
        // sum_k d_(k+1) * tail_c(n - k - 1) = sum_k d_(k+1) s_(n-k-1) = tail_d(n)
        assert forall|k: int| 0 <= k < ld implies xsum(|i: int| ff(i, k), l) == gf_mul(
            #[trigger] coef(d, k + 1),
            s[n - (k + 1)],
        ) by {
            let t = n - (k + 1);
            assert(s[t] == disc_tail(c, s, t, l));
            let g = |i: int| gf_mul(coef(c, i + 1), s[t - (i + 1)]);
            assert forall|i: int| 0 <= i < l implies #[trigger] ff(i, k) == gf_mul(
                coef(d, k + 1),
                g(i),
            ) by {
                let ci = coef(c, i + 1);
                let dk = coef(d, k + 1);
                let sv = s[n - (i + 1) - (k + 1)];
                assert(t - (i + 1) == n - (i + 1) - (k + 1));
                lemma_gf_mul_assoc(ci, dk, sv);
                lemma_gf_mul_comm(ci, dk);
                lemma_gf_mul_assoc(dk, ci, sv);
            }
            lemma_xsum_ext(|i: int| ff(i, k), |i: int| gf_mul(coef(d, k + 1), g(i)), l);
            lemma_xsum_scale(coef(d, k + 1), g, l);
        }
        lemma_xsum_ext(
            |k: int| xsum(|i: int| ff(i, k), l),
            |k: int| gf_mul(coef(d, k + 1), s[n - (k + 1)]),
            ld,
        );
        assert(disc_tail(c, s, n as int, l) == disc_tail(d, s, n as int, ld));
        assert(s[n as int] == disc_tail(d, s, n as int, ld));
        lemma_disc_split(c, s, n as int, l);
        lemma_xor_laws(s[n as int], s[n as int], 0, 0);
    }
}

/// The nonzero positions of `e` below `k`.
pub open spec fn support_below(e: Seq<u8>, k: nat) -> Set<int> {
    Set::new(|i: int| 0 <= i < k && e[i] != 0)
}

proof fn lemma_support_below_count(e: Seq<u8>, k: nat)
    requires
        k <= e.len(),
    ensures
        support_below(e, k).finite(),
        support_below(e, k).len() == nz_count(e, k),
    decreases k,
{
    if k == 0 {
        assert(support_below(e, 0) =~= Set::<int>::empty());
    } else {
        let k1 = (k - 1) as nat;
        lemma_support_below_count(e, k1);
        if e[k1 as int] != 0 {
            assert(support_below(e, k) =~= support_below(e, k1).insert(k1 as int));
        } else {
            assert(support_below(e, k) =~= support_below(e, k1));
        }
    }
}

/// The number of nonzero bytes of a 204-byte word is the size of its support.
pub proof fn lemma_support_len(e: Seq<u8>)
    requires
        e.len() == N,
    ensures
        support(e).len() == nz_count(e, N as nat),
{
    lemma_support_below_count(e, N as nat);
    assert(support(e) =~= support_below(e, N as nat));
}

/// The nonzero positions of `e` below `k`, in increasing order.
pub open spec fn error_positions(e: Seq<u8>, k: nat) -> Seq<int>
    decreases k,
{
    if k == 0 {
        Seq::empty()
    } else if e[k - 1] != 0 {
        error_positions(e, (k - 1) as nat).push(k - 1)
    } else {
        error_positions(e, (k - 1) as nat)
    }
}

proof fn lemma_error_positions(e: Seq<u8>, k: nat)
    requires
        k <= e.len(),
    ensures
        error_positions(e, k).len() == nz_count(e, k),
        forall|a: int, b: int|
            0 <= a < b < error_positions(e, k).len() ==> error_positions(e, k)[a]
                < error_positions(e, k)[b],
        forall|a: int|
            0 <= a < error_positions(e, k).len() ==> 0 <= #[trigger] error_positions(e, k)[a] < k
                && e[error_positions(e, k)[a]] != 0,
        forall|q: int|
            0 <= q < k && e[q] != 0 ==> exists|a: int|
                0 <= a < error_positions(e, k).len() && #[trigger] error_positions(e, k)[a] == q,
    decreases k,
{
    if k > 0 {
        let k1 = (k - 1) as nat;
        lemma_error_positions(e, k1);
        let p = error_positions(e, k1);
        let pk = error_positions(e, k);
        if e[k1 as int] != 0 {
            assert(pk == p.push(k1 as int));
        } else {
            assert(pk == p);
        }
        assert forall|q: int| 0 <= q < k && e[q] != 0 implies exists|a: int|
            0 <= a < pk.len() && #[trigger] pk[a] == q by {
            if q == k1 {
                assert(pk[p.len() as int] == q);
            } else {
                let a = choose|a: int| 0 <= a < p.len() && #[trigger] p[a] == q;
                assert(pk[a] == q);
            }
        }
    }
}

/// Locators of distinct positions below 204 are distinct.
pub proof fn lemma_locator_distinct(i: int, j: int)
    requires
        0 <= i < N,
        0 <= j < N,
        i != j,
    ensures
        locator(i) != locator(j),
{
    if i < j {
        lemma_alpha_pow_distinct((203 - j) as nat, (203 - i) as nat);
    } else {
        lemma_alpha_pow_distinct((203 - i) as nat, (203 - j) as nat);
    }
}

/// The locators of the error positions followed by those of the positions `extra`: distinct
/// points, each the locator of a position that is in error or in `extra`.
proof fn lemma_error_points(e: Seq<u8>, extra: Seq<int>) -> (r: (Seq<int>, Seq<u8>))
    requires
        e.len() == N,
        forall|a: int| 0 <= a < extra.len() ==> 0 <= #[trigger] extra[a] < N && e[extra[a]] == 0,
        forall|a: int, b: int| 0 <= a < b < extra.len() ==> extra[a] != extra[b],
    ensures
        r.0.len() == r.1.len() == nz_count(e, N as nat) + extra.len(),
        forall|a: int, b: int| 0 <= a < b < r.1.len() ==> r.1[a] != r.1[b],
        forall|a: int|
            0 <= a < r.1.len() ==> 0 <= #[trigger] r.0[a] < N && (e[r.0[a]] != 0 || extra.contains(
                r.0[a],
            )) && r.1[a] == locator(r.0[a]),
{
    lemma_error_positions(e, N as nat);
    let pos = error_positions(e, N as nat) + extra;
    let pts = pos.map_values(|q: int| locator(q));
    let np = error_positions(e, N as nat).len();
    assert forall|a: int| 0 <= a < pts.len() implies 0 <= #[trigger] pos[a] < N && (e[pos[a]] != 0
        || extra.contains(pos[a])) && pts[a] == locator(pos[a]) by {
        if a >= np {
            assert(extra[a - np] == pos[a]);
        }
    }
    assert forall|a: int, b: int| 0 <= a < b < pts.len() implies pts[a] != pts[b] by {
        if b < np {
            assert(pos[a] < pos[b]);
        } else if a >= np {
            assert(pos[a] != pos[b]);
        } else {
            assert(e[pos[a]] != 0);
            assert(e[pos[b]] == 0);
        }
        lemma_locator_distinct(pos[a], pos[b]);
    }
    (pos, pts)
}

/// After Berlekamp-Massey: a connection polynomial of length `l <= w` that generates the
/// syndromes of a word with `w` (1..8) nonzero bytes has length exactly `w`, its reciprocal
/// is the error locator, and it vanishes at the locator of a position exactly when that
/// position is in error.
pub proof fn lemma_locator_found(e: Seq<u8>, s: Seq<u8>, sigma: Seq<u8>, l: nat)
    requires
        power_sums_of(e, s),
        1 <= nz_count(e, N as nat) <= 8,
        coef(sigma, 0) == 1,
        l <= nz_count(e, N as nat),
        forall|j: int| l <= j < 16 ==> #[trigger] disc(sigma, s, j, l + 1) == 0,
    ensures
        l == nz_count(e, N as nat),
        head(sigma, l) == error_locator(e),
        forall|q: int|
            0 <= q < N ==> (#[trigger] poly_eval(head(sigma, l), locator(q)) == 0 <==> e[q] != 0),
{
    let w = nz_count(e, N as nat);
    let h = head(sigma, l);
    let wt = weighted(e, sigma, l);
    // the weighted word has all power sums 0 .. 15 - l zero, hence is zero
    assert forall|t: nat| t < w implies #[trigger] power_sum(wt, t, N as nat, (N - 1) as nat)
        == 0 by {
        lemma_disc_weighted(sigma, e, s, l, (t + l) as int);
    }
    lemma_support_len(e);
    lemma_support_finite(e);
    assert(support(wt).subset_of(support(e))) by {
        assert forall|i: int| support(wt).contains(i) implies support(e).contains(i) by {
            lemma_gf_mul_basics(poly_eval(h, locator(i)));
        }
    }
    vstd::set_lib::lemma_len_subset(support(wt), support(e));
    lemma_sparse_zero(wt, w);
    assert forall|q: int| 0 <= q < N && e[q] != 0 implies #[trigger] poly_eval(h, locator(q))
        == 0 by {
        assert(wt[q] == 0);
        if poly_eval(h, locator(q)) != 0 {
            lemma_gf_no_zero_divisors(e[q], poly_eval(h, locator(q)));
        }
    }
    // at least w roots: l >= w
    let (pos, pts) = lemma_error_points(e, Seq::<int>::empty());
    assert forall|k: int| 0 <= k < pts.len() implies #[trigger] poly_eval(h, pts[k]) == 0 by {
        assert(0 <= pos[k] < N);
    }
    if l < w {
        lemma_root_count(h, pts);
        assert(h[0] == 1);
    }
    assert(l == w);
    // no root outside the errors
    assert forall|q: int| 0 <= q < N && poly_eval(h, locator(q)) == 0 implies e[q] != 0 by {
        if e[q] == 0 {
            let extra = seq![q];
            let (pos2, pts2) = lemma_error_points(e, extra);
            assert forall|k: int| 0 <= k < pts2.len() implies #[trigger] poly_eval(h, pts2[k])
                == 0 by {
                let r = pos2[k];
                assert(0 <= r < N);
                if e[r] == 0 {
                    assert(extra.contains(r));
                    assert(r == q);
                }
            }
            lemma_root_count(h, pts2);
            assert(h[0] == 1);
        }
    }
    // the reciprocal is the error locator
    let lam = error_locator(e);
    lemma_error_locator(e);
    let d = xor_seq(h, lam);
    let d1 = d.drop_first();
    assert forall|k: int| 0 <= k < pts.len() implies #[trigger] poly_eval(d1, pts[k]) == 0 by {
        assert(0 <= pos[k] < N);
        lemma_eval_xor(h, lam, pts[k]);
        lemma_xor_laws(0, 0, 0, 0);
        lemma_xor_laws(h[0], lam[0], 0, 0);
        lemma_eval_leading_zero(d, pts[k]);
    }
    lemma_root_count(d1, pts);
    assert forall|i: int| 0 <= i <= w implies h[i] == lam[i] by {
        lemma_xor_laws(h[i], lam[i], 0, 0);
        lemma_xor_laws(h[0], lam[0], 0, 0);
        if i > 0 {
            assert(d1[i - 1] == d[i]);
        }
    }
    assert(h =~= lam);
}

/// A leading zero coefficient does not change the value.
proof fn lemma_eval_leading_zero(d: Seq<u8>, x: u8)
    requires
        d.len() >= 1,
        d[0] == 0,
    ensures
        poly_eval(d.drop_first(), x) == poly_eval(d, x),
    decreases d.len(),
{
    if d.len() == 1 {
        assert(d.drop_first() =~= Seq::<u8>::empty());
        assert(d.drop_last() =~= Seq::<u8>::empty());
        lemma_gf_mul_basics(x);
        lemma_xor_laws(0, 0, 0, 0);
    } else {
        lemma_eval_leading_zero(d.drop_last(), x);
        assert(d.drop_first().drop_last() =~= d.drop_last().drop_first());
        assert(d.drop_first().last() == d.last());
    }
}

/// Extra zero coefficients do not change a discrepancy.
pub proof fn lemma_disc_pad(c: Seq<u8>, s: Seq<u8>, j: int, l: nat, l1: nat)
    requires
        l <= l1,
        forall|i: int| l < i <= l1 ==> #[trigger] coef(c, i) == 0,
    ensures
        disc(c, s, j, l1 + 1) == disc(c, s, j, l + 1),
    decreases l1,
{
    if l1 > l {
        lemma_disc_pad(c, s, j, l, (l1 - 1) as nat);
        lemma_gf_mul_basics(s[j - l1]);
        lemma_xor_laws(disc(c, s, j, l1), 0, 0, 0);
    }
}

/// The discrepancy is additive in the connection polynomial.
pub proof fn lemma_disc_xor(c: Seq<u8>, c1: Seq<u8>, c2: Seq<u8>, s: Seq<u8>, j: int, k: nat)
    requires
        forall|i: int| 0 <= i < k ==> #[trigger] coef(c, i) == coef(c1, i) ^ coef(c2, i),
    ensures
        disc(c, s, j, k) == disc(c1, s, j, k) ^ disc(c2, s, j, k),
    decreases k,
{
    if k == 0 {
        lemma_xor_laws(0, 0, 0, 0);
    } else {
        let k1 = (k - 1) as nat;
        lemma_disc_xor(c, c1, c2, s, j, k1);
        let v = s[j - k1];
        lemma_gf_mul_distrib_left(coef(c1, k1 as int), coef(c2, k1 as int), v);
        lemma_xor_laws(
            disc(c1, s, j, k1),
            disc(c2, s, j, k1),
            gf_mul(coef(c1, k1 as int), v),
            gf_mul(coef(c2, k1 as int), v),
        );
    }
}

/// A polynomial with only zero coefficients below `k` has a zero partial discrepancy.
proof fn lemma_disc_low_zero(c: Seq<u8>, s: Seq<u8>, j: int, k: nat)
    requires
        forall|i: int| 0 <= i < k ==> #[trigger] coef(c, i) == 0,
    ensures
        disc(c, s, j, k) == 0,
    decreases k,
{
    if k > 0 {
        lemma_disc_low_zero(c, s, j, (k - 1) as nat);
        lemma_gf_mul_basics(s[j - (k - 1)]);
        lemma_xor_laws(0, 0, 0, 0);
    }
}

/// Discrepancy of `kf * x^m * b`: `kf` times the discrepancy of `b` at `j - m`.
pub proof fn lemma_disc_shift(sc: Seq<u8>, b: Seq<u8>, kf: u8, m: nat, s: Seq<u8>, j: int, k: nat)
    requires
        forall|i: int|
            0 <= i < k + m ==> #[trigger] coef(sc, i) == if i < m {
                0u8
            } else {
                gf_mul(kf, coef(b, i - m))
            },
    ensures
        disc(sc, s, j, k + m) == gf_mul(kf, disc(b, s, j - m, k)),
    decreases k,
{
    if k == 0 {
        lemma_disc_low_zero(sc, s, j, m);
        lemma_gf_mul_basics(kf);
    } else {
        let k1 = (k - 1) as nat;
        lemma_disc_shift(sc, b, kf, m, s, j, k1);
        let bk = coef(b, k1 as int);
        let v = s[j - m - k1];
        assert(j - (k1 + m) == j - m - k1);
        assert(coef(sc, (k1 + m) as int) == gf_mul(kf, bk));
        lemma_gf_mul_assoc(kf, bk, v);
        lemma_gf_mul_distrib(kf, disc(b, s, j - m, k1), gf_mul(bk, v));
    }
}

/// The connection polynomial `c` of length `l` (lowest degree first) produces `s_l .. s_(n-1)`
/// from the bytes before them: its discrepancy vanishes at every position `l <= j < n`.
pub open spec fn generates(c: Seq<u8>, s: Seq<u8>, l: nat, n: int) -> bool {
    forall|j: int| l <= j < n ==> #[trigger] disc(c, s, j, l + 1) == 0
}

/// One correcting step of Berlekamp-Massey: from `sigma` (length `l`, discrepancy `delta != 0`
/// at `n`) and the earlier polynomial `b` (length `lb`, discrepancy `bb` at `n - m`), the
/// polynomial `sigma - (delta / bb) x^m b` has length `l2` (`n + 1 - l` when `2l <= n`, else `l`)
/// and produces `s_l2 .. s_n`.
pub proof fn lemma_bm_update(
    sig: Seq<u8>,
    new_sig: Seq<u8>,
    sc: Seq<u8>,
    b: Seq<u8>,
    s: Seq<u8>,
    kf: u8,
    ib: u8,
    delta: u8,
    bb: u8,
    n: nat,
    l: nat,
    l2: nat,
    m: nat,
    lb: nat,
)
    requires
        n < s.len(),
        forall|i: int| l < i ==> #[trigger] coef(sig, i) == 0,
        generates(sig, s, l, n as int),
        disc(sig, s, n as int, l + 1) == delta,
        delta != 0,
        forall|i: int| lb < i ==> #[trigger] coef(b, i) == 0,
        gf_mul(bb, ib) == 1,
        kf == gf_mul(delta, ib),
        m >= 1,
        m + lb == n + 1 - l,
        n - m >= 0 ==> {
            &&& lb <= n - m
            &&& generates(b, s, lb, n - m)
            &&& disc(b, s, n - m, lb + 1) == bb
        },
        n - m < 0 ==> lb == 0 && l == 0,
        forall|q: int| 0 <= q ==> #[trigger] coef(sc, q) == if q < m {
            0u8
        } else {
            gf_mul(kf, coef(b, q - m))
        },
        forall|q: int| 0 <= q ==> #[trigger] coef(new_sig, q) == coef(sig, q) ^ coef(sc, q),
        l2 == if 2 * l <= n {
            (n + 1 - l) as nat
        } else {
            l
        },
    ensures
        forall|i: int| l2 < i ==> #[trigger] coef(new_sig, i) == 0,
        generates(new_sig, s, l2, (n + 1) as int),
{
    assert(m + lb <= l2);
    assert forall|i: int| l2 < i implies #[trigger] coef(new_sig, i) == 0 by {
        assert(coef(sig, i) == 0);
        assert(coef(b, i - m) == 0);
        lemma_gf_mul_basics(kf);
        lemma_xor_laws(0, 0, 0, 0);
    }
    let k2 = (l2 + 1 - m) as nat;
    assert forall|j: int| l2 <= j < n + 1 implies #[trigger] disc(new_sig, s, j, l2 + 1) == 0 by {
        lemma_disc_xor(new_sig, sig, sc, s, j, l2 + 1);
        lemma_disc_pad(sig, s, j, l, l2);
        assert forall|i: int| 0 <= i < k2 + m implies #[trigger] coef(sc, i) == if i < m {
            0u8
        } else {
            gf_mul(kf, coef(b, i - m))
        } by {
        }
        lemma_disc_shift(sc, b, kf, m, s, j, k2);
        assert(k2 + m == l2 + 1);
        lemma_disc_pad(b, s, j - m, lb, (k2 - 1) as nat);
        assert((k2 - 1) as nat + 1 == k2);
        if j < n {
            assert(disc(sig, s, j, l + 1) == 0);
            if n - m >= 0 {
                assert(disc(b, s, j - m, lb + 1) == 0);
            }
            lemma_gf_mul_basics(kf);
            lemma_xor_laws(0, 0, 0, 0);
        } else {
            assert(n - m >= 0);
            lemma_gf_mul_assoc(delta, ib, bb);
            lemma_gf_mul_comm(ib, bb);
            lemma_gf_mul_basics(delta);
            lemma_xor_laws(delta, delta, 0, 0);
        }
    }
}

/// `alpha^eps * alpha^lx == 1`: the exponents of a locator and of its inverse.
pub open spec fn inverse_exps(eps: nat, lx: nat) -> bool {
    (eps + lx) % 255 == 0
}

/// sum_{p < n} d_p * alpha^(lx * p): a polynomial, lowest degree first, at alpha^lx.
pub open spec fn low_eval(d: Seq<u8>, lx: nat, n: nat) -> u8 {
    xsum(|p: int| gf_mul(d[p], alpha_pow((lx * p) as nat)), n)
}

proof fn lemma_exp_inverse(eps: nat, lx: nat, n: nat, p: int)
    requires
        inverse_exps(eps, lx),
        0 <= p < n,
    ensures
        alpha_pow((eps * (n - 1) + lx * p) as nat) == alpha_pow((eps * (n - 1 - p)) as nat),
        eps * (n - 1) + lx * p >= 0,
        eps * (n - 1 - p) >= 0,
{
    let k = (eps + lx) / 255;
    assert(eps + lx == 255 * k);
    let a = eps * (n - 1 - p);
    assert(a >= 0) by (nonlinear_arith)
        requires
            n - 1 - p >= 0,
            a == eps * (n - 1 - p),
            eps >= 0,
    ;
    assert(eps * (n - 1) + lx * p == 255 * (k * p) + a) by (nonlinear_arith)
        requires
            eps + lx == 255 * k,
            a == eps * (n - 1 - p),
    ;
    assert(k * p >= 0) by (nonlinear_arith)
        requires
            k >= 0,
            p >= 0,
    ;
    vstd::arithmetic::div_mod::lemma_mod_multiples_vanish(k * p, a, 255);
    lemma_alpha_pow_mod((eps * (n - 1) + lx * p) as nat);
    lemma_alpha_pow_mod(a as nat);
}

/// A polynomial read lowest degree first at alpha^lx, times alpha^(eps (n - 1)), is the same
/// coefficients read highest degree first at alpha^eps when alpha^eps * alpha^lx = 1.
pub proof fn lemma_reciprocal(d: Seq<u8>, eps: nat, lx: nat)
    requires
        d.len() >= 1,
        inverse_exps(eps, lx),
    ensures
        gf_mul(alpha_pow((eps * (d.len() - 1)) as nat), low_eval(d, lx, d.len())) == poly_eval(
            d,
            alpha_pow(eps),
        ),
{
    let n = d.len();
    let c = alpha_pow((eps * (n - 1)) as nat);
    let f = |p: int| gf_mul(d[p], alpha_pow((lx * p) as nat));
    lemma_xsum_scale(c, f, n);
    let g = |p: int| gf_mul(d[p], alpha_pow((eps * ((n - 1) as nat - p)) as nat));
    assert forall|p: int| 0 <= p < n implies #[trigger] gf_mul(c, f(p)) == g(p) by {
        lemma_exp_inverse(eps, lx, n, p);
        assert(eps * (n - 1) >= 0) by (nonlinear_arith)
            requires
                n >= 1,
                eps >= 0,
        ;
        assert(lx * p >= 0) by (nonlinear_arith)
            requires
                p >= 0,
                lx >= 0,
        ;
        lemma_alpha_pow_add((eps * (n - 1)) as nat, (lx * p) as nat);
        lemma_gf_mul_assoc(c, d[p], alpha_pow((lx * p) as nat));
        lemma_gf_mul_comm(c, d[p]);
        lemma_gf_mul_assoc(d[p], c, alpha_pow((lx * p) as nat));
    }
    lemma_xsum_ext(|p: int| gf_mul(c, f(p)), g, n);
    lemma_horner_power_sum(d, eps, n);
    assert(d.take(n as int) =~= d);
    lemma_power_sum_xsum(d, eps, n, (n - 1) as nat);
}

/// A_r(m) = sum_{p <= m} lam_p X_r^(m - p): Horner's value at the locator of `r` after the
/// coefficients `lam_0 .. lam_m` (the coefficients of lam / (1 + X_r x) while m < deg lam).
pub open spec fn partial_at(lam: Seq<u8>, r: int, m: nat) -> u8 {
    poly_eval(head(lam, m), locator(r))
}

/// The values A_r(0) .. A_r(15).
pub open spec fn partials(lam: Seq<u8>, r: int) -> Seq<u8> {
    Seq::new(16, |m: int| partial_at(lam, r, m as nat))
}

proof fn lemma_partial_step(lam: Seq<u8>, r: int, m: nat)
    ensures
        m == 0 ==> partial_at(lam, r, m) == coef(lam, 0),
        m > 0 ==> partial_at(lam, r, m) == gf_mul(partial_at(lam, r, (m - 1) as nat), locator(r))
            ^ coef(lam, m as int),
{
    let h = head(lam, m);
    if m == 0 {
        assert(h.drop_last() =~= Seq::<u8>::empty());
        assert(poly_eval(Seq::<u8>::empty(), locator(r)) == 0);
        assert(h.last() == coef(lam, 0));
        lemma_gf_mul_basics(locator(r));
        lemma_xor_laws(coef(lam, 0), 0, 0, 0);
    } else {
        assert(h.drop_last() =~= head(lam, (m - 1) as nat));
    }
}

/// Past the degree of a polynomial that vanishes (reciprocally) at X_r, A_r stays zero.
proof fn lemma_partial_zero(lam: Seq<u8>, r: int, w: nat, m: nat)
    requires
        lam.len() == w + 1,
        poly_eval(lam, locator(r)) == 0,
        w <= m,
    ensures
        partial_at(lam, r, m) == 0,
    decreases m,
{
    if m == w {
        assert(head(lam, w) =~= lam);
    } else {
        lemma_partial_zero(lam, r, w, (m - 1) as nat);
        lemma_partial_step(lam, r, m);
        lemma_gf_mul_basics(locator(r));
        lemma_xor_laws(0, 0, 0, 0);
    }
}

proof fn lemma_xor_shuffle(l: u8, p: u8, t: u8, q: u8)
    by (bit_vector)
    ensures
        (l ^ p) ^ (t ^ q) == (l ^ (t ^ p)) ^ q,
{
}

proof fn lemma_one_plus_mul(x: u8, y: u8, ak: u8, yk: u8, yk1: u8)
    requires
        gf_mul(yk, y) == yk1,
    ensures
        gf_mul(1u8 ^ gf_mul(x, y), gf_mul(ak, yk)) == gf_mul(ak, yk) ^ gf_mul(gf_mul(x, ak), yk1),
{
    let t = gf_mul(ak, yk);
    lemma_gf_mul_distrib_left(1u8, gf_mul(x, y), t);
    lemma_gf_mul_basics(t);
    lemma_gf_mul_assoc(x, y, t);
    lemma_gf_mul_comm(y, t);
    lemma_gf_mul_assoc(ak, yk, y);
    lemma_gf_mul_assoc(x, ak, yk1);
}

proof fn lemma_coef_split(lam: Seq<u8>, r: int, k1: nat, yk: u8)
    requires
        k1 >= 1,
    ensures
        gf_mul(coef(lam, k1 as int), yk) == gf_mul(partial_at(lam, r, k1), yk) ^ gf_mul(
            gf_mul(locator(r), partial_at(lam, r, (k1 - 1) as nat)),
            yk,
        ),
{
    let x = locator(r);
    let ak = partial_at(lam, r, k1);
    let am = partial_at(lam, r, (k1 - 1) as nat);
    let c = coef(lam, k1 as int);
    lemma_partial_step(lam, r, k1);
    lemma_gf_mul_comm(am, x);
    // ak == x*am ^ c  ==>  c == ak ^ x*am
    lemma_xor_laws(ak, gf_mul(x, am), 0, 0);
    lemma_xor_assoc_cancel(gf_mul(x, am), c);
    lemma_gf_mul_distrib_left(ak, gf_mul(x, am), yk);
}

proof fn lemma_xor_assoc_cancel(a: u8, c: u8)
    by (bit_vector)
    ensures
        c == (a ^ c) ^ a,
{
}

/// (1 + X_r y) * sum_{m < k} A_r(m) y^m = sum_{m < k} lam_m y^m + X_r A_r(k - 1) y^k,
/// with y = alpha^lx.
#[verifier::rlimit(40)]
proof fn lemma_telescope(lam: Seq<u8>, r: int, lx: nat, k: nat)
    requires
        1 <= k <= 16,
    ensures
        gf_mul(1u8 ^ gf_mul(locator(r), alpha_pow(lx)), low_eval(partials(lam, r), lx, k)) == low_eval(
            head(lam, 15),
            lx,
            k,
        ) ^ gf_mul(
            gf_mul(locator(r), partial_at(lam, r, (k - 1) as nat)),
            alpha_pow((lx * k) as nat),
        ),
    decreases k,
{
    let x = locator(r);
    let y = alpha_pow(lx);
    let u = 1u8 ^ gf_mul(x, y);
    let a = partials(lam, r);
    let hd = head(lam, 15);
    let k1 = (k - 1) as nat;
    let ak = partial_at(lam, r, k1);
    let yk = alpha_pow((lx * k1) as nat);
    let yk1 = alpha_pow((lx * k) as nat);
    assert(lx * k1 + lx == lx * k) by (nonlinear_arith)
        requires
            k1 + 1 == k,
    ;
    assert(lx * k1 >= 0) by (nonlinear_arith)
        requires
            lx >= 0,
            k1 >= 0,
    ;
    lemma_alpha_pow_add((lx * k1) as nat, lx);
    assert(a[k1 as int] == ak);
    assert(hd[k1 as int] == coef(lam, k1 as int));
    let t = gf_mul(ak, yk);
    let qt = gf_mul(gf_mul(x, ak), yk1);
    lemma_one_plus_mul(x, y, ak, yk, yk1);
    assert(low_eval(a, lx, k) == low_eval(a, lx, k1) ^ t);
    assert(low_eval(hd, lx, k) == low_eval(hd, lx, k1) ^ gf_mul(coef(lam, k1 as int), yk));
    if k1 == 0 {
        assert(lx * 0 == 0);
        assert(alpha_pow(0) == 1);
        lemma_partial_step(lam, r, 0);
        lemma_gf_mul_basics(ak);
        assert(low_eval(a, lx, 0) == 0);
        assert(low_eval(hd, lx, 0) == 0);
        lemma_xor_laws(t, qt, 0, 0);
        lemma_xor_laws(0, t, 0, 0);
    } else {
        lemma_telescope(lam, r, lx, k1);
        let sk = low_eval(a, lx, k1);
        let lk = low_eval(hd, lx, k1);
        let am = partial_at(lam, r, (k1 - 1) as nat);
        let p = gf_mul(gf_mul(x, am), yk);
        assert((k1 - 1) as nat + 1 == k1);
        lemma_gf_mul_distrib(u, sk, t);
        lemma_coef_split(lam, r, k1, yk);
        lemma_xor_shuffle(lk, p, t, qt);
    }
}

/// Terms beyond `n1` that vanish do not change a sum.
pub proof fn lemma_xsum_pad(f: spec_fn(int) -> u8, n1: nat, n2: nat)
    requires
        n1 <= n2,
        forall|i: int| n1 <= i < n2 ==> #[trigger] f(i) == 0,
    ensures
        xsum(f, n2) == xsum(f, n1),
    decreases n2,
{
    if n2 > n1 {
        lemma_xsum_pad(f, n1, (n2 - 1) as nat);
        lemma_xor_laws(xsum(f, n1), 0, 0, 0);
    }
}

/// The locator times its inverse is one.
proof fn lemma_inverse_product(eps: nat, lx: nat)
    requires
        inverse_exps(eps, lx),
    ensures
        gf_mul(alpha_pow(eps), alpha_pow(lx)) == 1,
{
    lemma_alpha_pow_add(eps, lx);
    lemma_alpha_pow_mod(eps + lx);
    assert(alpha_pow(0) == 1);
}

/// The error locator vanishes at the inverse of an error locator: lam(X_q^-1) = 0.
proof fn lemma_locator_at_inverse(e: Seq<u8>, q: int, lx: nat)
    requires
        e.len() == N,
        0 <= q < N,
        e[q] != 0,
        nz_count(e, N as nat) <= 15,
        inverse_exps((203 - q) as nat, lx),
    ensures
        low_eval(head(error_locator(e), 15), lx, 16) == 0,
{
    let lam = error_locator(e);
    let w = nz_count(e, N as nat);
    let eps = (203 - q) as nat;
    lemma_error_locator(e);
    lemma_reciprocal(lam, eps, lx);
    let c = alpha_pow((eps * (lam.len() - 1)) as nat);
    lemma_alpha_pow_nonzero((eps * (lam.len() - 1)) as nat);
    let v = low_eval(lam, lx, w + 1);
    lemma_gf_mul_basics(c);
    if v != 0 {
        lemma_gf_no_zero_divisors(c, v);
    }
    let hd = head(lam, 15);
    let f = |p: int| gf_mul(hd[p], alpha_pow((lx * p) as nat));
    let g = |p: int| gf_mul(lam[p], alpha_pow((lx * p) as nat));
    assert forall|i: int| w + 1 <= i < 16 implies #[trigger] f(i) == 0 by {
        lemma_gf_mul_basics(alpha_pow((lx * i) as nat));
    }
    lemma_xsum_pad(f, w + 1, 16);
    lemma_xsum_ext(f, g, w + 1);
    assert(poly_eval(lam, locator(q)) == 0);
    assert(v == 0);
    assert(low_eval(hd, lx, 16) == xsum(f, 16));
    assert(low_eval(lam, lx, w + 1) == xsum(g, w + 1));
}

/// The share of another error position in the evaluator vanishes at X_q^-1.
pub proof fn lemma_other_share_zero(e: Seq<u8>, r: int, q: int, lx: nat)
    requires
        e.len() == N,
        0 <= r < N,
        0 <= q < N,
        r != q,
        e[r] != 0,
        e[q] != 0,
        nz_count(e, N as nat) <= 15,
        inverse_exps((203 - q) as nat, lx),
    ensures
        low_eval(partials(error_locator(e), r), lx, 16) == 0,
{
    let lam = error_locator(e);
    let w = nz_count(e, N as nat);
    let x = locator(r);
    let y = alpha_pow(lx);
    lemma_error_locator(e);
    lemma_telescope(lam, r, lx, 16);
    lemma_partial_zero(lam, r, w, 15);
    lemma_gf_mul_basics(x);
    lemma_gf_mul_basics(alpha_pow((lx * 16) as nat));
    lemma_locator_at_inverse(e, q, lx);
    lemma_xor_laws(0, 0, 0, 0);
    // 1 + X_r y != 0, since X_q y = 1 and X_r != X_q
    lemma_inverse_product((203 - q) as nat, lx);
    lemma_locator_distinct(r, q);
    let xq = locator(q);
    if gf_mul(x, y) == 1 {
        // X_r = X_r (y X_q) = (X_r y) X_q = X_q
        lemma_gf_mul_assoc(x, y, xq);
        lemma_gf_mul_comm(xq, y);
        lemma_gf_mul_basics(xq);
        lemma_gf_mul_basics(x);
    }
    lemma_xor_laws(1u8, gf_mul(x, y), 0, 0);
    let qv = low_eval(partials(lam, r), lx, 16);
    if qv != 0 {
        lemma_gf_no_zero_divisors(1u8 ^ gf_mul(x, y), qv);
    }
}

/// sum over the odd indices p = 2i + 1 < 2j + 1 of c_p y^(p - 1), with y = alpha^lx.
pub open spec fn odd_sum(c: Seq<u8>, lx: nat, j: nat) -> u8
    decreases j,
{
    if j == 0 {
        0u8
    } else {
        odd_sum(c, lx, (j - 1) as nat) ^ gf_mul(
            coef(c, 2 * j - 1),
            alpha_pow((lx * (2 * j - 2)) as nat),
        )
    }
}

proof fn lemma_xor_shuffle2(l: u8, t1: u8, t2: u8)
    by (bit_vector)
    ensures
        l ^ (t1 ^ t2) == (l ^ t2) ^ t1,
{
}

/// The formal derivative at X_q^-1: sum_{odd p} lam_p y^(p-1) = X_q sum_{m < 2j} A_q(m) y^m.
proof fn lemma_odd_sum(lam: Seq<u8>, q: int, lx: nat, j: nat)
    requires
        inverse_exps((203 - q) as nat, lx),
    ensures
        odd_sum(lam, lx, j) == xsum(
            |m: int| gf_mul(gf_mul(locator(q), partial_at(lam, q, m as nat)), alpha_pow((lx * m) as nat)),
            2 * j,
        ),
    decreases j,
{
    let f = |m: int| gf_mul(gf_mul(locator(q), partial_at(lam, q, m as nat)), alpha_pow((lx * m) as nat));
    if j > 0 {
        let j1 = (j - 1) as nat;
        lemma_odd_sum(lam, q, lx, j1);
        let x = locator(q);
        let y = alpha_pow(lx);
        let m0 = 2 * j1;
        let m1 = 2 * j1 + 1;
        let y0 = alpha_pow((lx * m0) as nat);
        let y1 = alpha_pow((lx * m1) as nat);
        assert(lx * m0 + lx == lx * m1) by (nonlinear_arith)
            requires
                m1 == m0 + 1,
        ;
        assert(lx * m0 >= 0) by (nonlinear_arith)
            requires
                lx >= 0,
                m0 >= 0,
        ;
        lemma_alpha_pow_add((lx * m0) as nat, lx);
        assert(2 * j - 1 == m1);
        assert(2 * j - 2 == m0);
        lemma_coef_split(lam, q, m1 as nat, y0);
        let a1 = partial_at(lam, q, m1 as nat);
        let a0 = partial_at(lam, q, m0 as nat);
        assert((m1 - 1) as nat == m0 as nat);
        // X A(m1) y^(m1) = A(m1) y^(m0), since X y = 1
        lemma_inverse_product((203 - q) as nat, lx);
        lemma_gf_mul_assoc(x, a1, y1);
        lemma_gf_mul_comm(y0, y);
        lemma_gf_mul_assoc(a1, y, y0);
        lemma_gf_mul_comm(x, gf_mul(a1, y1));
        lemma_gf_mul_assoc(a1, y1, x);
        lemma_gf_mul_assoc(y, y0, x);
        lemma_gf_mul_comm(y0, x);
        lemma_gf_mul_assoc(y, x, y0);
        lemma_gf_mul_comm(y, x);
        lemma_gf_mul_basics(y0);
        assert(gf_mul(y1, x) == y0);
        assert(f(m1 as int) == gf_mul(a1, y0));
        assert(f(m0 as int) == gf_mul(gf_mul(x, a0), y0));
        assert(xsum(f, 2 * j) == xsum(f, (m0 + 1) as nat) ^ f(m1 as int));
        assert(xsum(f, (m0 + 1) as nat) == xsum(f, m0 as nat) ^ f(m0 as int));
        lemma_xor_shuffle2(odd_sum(lam, lx, j1), gf_mul(a1, y0), gf_mul(gf_mul(x, a0), y0));
    }
}

proof fn lemma_nz_positive(e: Seq<u8>, q: int)
    requires
        e.len() == N,
        0 <= q < N,
        e[q] != 0,
    ensures
        nz_count(e, N as nat) >= 1,
{
    lemma_error_positions(e, N as nat);
    let a = choose|a: int|
        0 <= a < error_positions(e, N as nat).len() && #[trigger] error_positions(e, N as nat)[a]
            == q;
}

/// The share of the error position `q` itself in the evaluator does not vanish at X_q^-1.
pub proof fn lemma_own_share_nonzero(e: Seq<u8>, q: int, lx: nat)
    requires
        e.len() == N,
        0 <= q < N,
        e[q] != 0,
        nz_count(e, N as nat) <= 15,
        inverse_exps((203 - q) as nat, lx),
    ensures
        low_eval(partials(error_locator(e), q), lx, 16) != 0,
{
    let lam = error_locator(e);
    let w = nz_count(e, N as nat);
    let xq = locator(q);
    let eps = (203 - q) as nat;
    lemma_error_locator(e);
    lemma_nz_positive(e, q);
    let qr = horner_quotient(lam, xq);
    assert forall|i: int| 0 <= i < w implies #[trigger] qr[i] == partial_at(lam, q, i as nat) by {
        assert(head(lam, i as nat) =~= lam.take(i + 1));
    }
    let (pos, pts) = lemma_error_points(e, Seq::<int>::empty());
    let qy = low_eval(partials(lam, q), lx, 16);
    if qy == 0 {
        // qr vanishes at every other error locator ...
        assert forall|k: int| 0 <= k < pts.len() implies #[trigger] poly_eval(qr, pts[k]) == 0 by {
            let r = pos[k];
            assert(0 <= r < N && e[r] != 0);
            if r != q {
                lemma_horner_division(lam, xq, locator(r));
                lemma_locator_distinct(r, q);
                lemma_xor_laws(locator(r), xq, 0, 0);
                let v = poly_eval(qr, locator(r));
                lemma_xor_laws(gf_mul(locator(r) ^ xq, v), 0, 0, 0);
                if v != 0 {
                    lemma_gf_no_zero_divisors(locator(r) ^ xq, v);
                }
            } else {
                // ... and at X_q, where its value is a multiple of qy
                let f = |m: int| gf_mul(partials(lam, q)[m], alpha_pow((lx * m) as nat));
                let g = |m: int| gf_mul(qr[m], alpha_pow((lx * m) as nat));
                assert forall|m: int| w <= m < 16 implies #[trigger] f(m) == 0 by {
                    lemma_partial_zero(lam, q, w, m as nat);
                    lemma_gf_mul_basics(alpha_pow((lx * m) as nat));
                }
                lemma_xsum_pad(f, w, 16);
                lemma_xsum_ext(f, g, w);
                assert(low_eval(qr, lx, w) == 0);
                lemma_reciprocal(qr, eps, lx);
                lemma_gf_mul_basics(alpha_pow((eps * (w - 1)) as nat));
            }
        }
        lemma_root_count(qr, pts);
        lemma_partial_step(lam, q, 0);
        assert(qr[0] == 1);
    }
}

proof fn lemma_conv_partial_xsum(a: Seq<u8>, b: Seq<u8>, k: int, n: nat)
    ensures
        conv_partial(a, b, k, n) == xsum(|i: int| gf_mul(coef(a, i), coef(b, k - i)), n),
    decreases n,
{
    if n > 0 {
        lemma_conv_partial_xsum(a, b, k, (n - 1) as nat);
    }
}

/// Coefficient `k` of (lam * S) mod x^16 is sum_r e_r A_r(k).
pub proof fn lemma_evaluator_coef(e: Seq<u8>, s: Seq<u8>, sig: Seq<u8>, sp: Seq<u8>, k: int)
    requires
        power_sums_of(e, s),
        forall|i: int| 0 <= i ==> #[trigger] coef(sig, i) == coef(error_locator(e), i),
        error_locator(e).len() <= sig.len(),
        sp.len() == 16,
        forall|t: int| 0 <= t < 16 ==> #[trigger] sp[t] == s[t],
        0 <= k < 16,
    ensures
        conv_partial(sig, sp, k, sig.len()) == xsum(
            |r: int| gf_mul(e[r], partial_at(error_locator(e), r, k as nat)),
            N as nat,
        ),
{
    let lam = error_locator(e);
    let n = sig.len();
    let h = |i: int| gf_mul(coef(lam, i), coef(sp, k - i));
    lemma_conv_partial_xsum(sig, sp, k, n);
    lemma_xsum_ext(|i: int| gf_mul(coef(sig, i), coef(sp, k - i)), h, n);
    lemma_disc_xsum(lam, s, k, (k + 1) as nat);
    assert forall|p: int| 0 <= p < k + 1 implies #[trigger] gf_mul(coef(lam, p), s[k - p]) == h(p) by {
    }
    lemma_xsum_ext(|p: int| gf_mul(coef(lam, p), s[k - p]), h, (k + 1) as nat);
    let mx = if n >= k + 1 { n } else { (k + 1) as nat };
    assert forall|i: int| n <= i < mx implies #[trigger] h(i) == 0 by {
        lemma_gf_mul_basics(coef(sp, k - i));
    }
    lemma_xsum_pad(h, n, mx);
    assert forall|i: int| k + 1 <= i < mx implies #[trigger] h(i) == 0 by {
        lemma_gf_mul_basics(coef(lam, i));
    }
    lemma_xsum_pad(h, (k + 1) as nat, mx);
    lemma_disc_weighted(lam, e, s, k as nat, k);
    let w = weighted(e, lam, k as nat);
    lemma_power_sum_xsum(w, 0, N as nat, (N - 1) as nat);
    assert forall|r: int| 0 <= r < N implies #[trigger] gf_mul(
        w[r],
        alpha_pow((0 * ((N - 1) as nat - r)) as nat),
    ) == gf_mul(e[r], partial_at(lam, r, k as nat)) by {
        assert(0 * ((N - 1) as nat - r) == 0);
        assert(alpha_pow(0) == 1);
        lemma_gf_mul_basics(w[r]);
    }
    lemma_xsum_ext(
        |r: int| gf_mul(w[r], alpha_pow((0 * ((N - 1) as nat - r)) as nat)),
        |r: int| gf_mul(e[r], partial_at(lam, r, k as nat)),
        N as nat,
    );
}

/// A constant factor on the right comes out of a sum.
proof fn lemma_xsum_scale_right(f: spec_fn(int) -> u8, c: u8, n: nat)
    ensures
        xsum(|i: int| gf_mul(f(i), c), n) == gf_mul(xsum(f, n), c),
{
    lemma_xsum_scale(c, f, n);
    assert forall|i: int| 0 <= i < n implies #[trigger] gf_mul(f(i), c) == gf_mul(c, f(i)) by {
        lemma_gf_mul_comm(f(i), c);
    }
    lemma_xsum_ext(|i: int| gf_mul(f(i), c), |i: int| gf_mul(c, f(i)), n);
    lemma_gf_mul_comm(xsum(f, n), c);
}

/// The error evaluator at X_q^-1: sum_m omega_m y^m = e_q * Q_q(y).
pub proof fn lemma_evaluator_value(e: Seq<u8>, omega: Seq<u8>, q: int, lx: nat)
    requires
        e.len() == N,
        0 <= q < N,
        e[q] != 0,
        nz_count(e, N as nat) <= 15,
        inverse_exps((203 - q) as nat, lx),
        omega.len() == 16,
        forall|k: int|
            0 <= k < 16 ==> #[trigger] omega[k] == xsum(
                |r: int| gf_mul(e[r], partial_at(error_locator(e), r, k as nat)),
                N as nat,
            ),
    ensures
        low_eval(omega, lx, 16) == gf_mul(e[q], low_eval(partials(error_locator(e), q), lx, 16)),
{
    let lam = error_locator(e);
    let ff = |m: int, r: int|
        gf_mul(gf_mul(e[r], partial_at(lam, r, m as nat)), alpha_pow((lx * m) as nat));
    assert forall|m: int| 0 <= m < 16 implies #[trigger] gf_mul(
        omega[m],
        alpha_pow((lx * m) as nat),
    ) == xsum(|r: int| ff(m, r), N as nat) by {
        let g = |r: int| gf_mul(e[r], partial_at(lam, r, m as nat));
        lemma_xsum_scale_right(g, alpha_pow((lx * m) as nat), N as nat);
        lemma_xsum_ext(
            |r: int| gf_mul(g(r), alpha_pow((lx * m) as nat)),
            |r: int| ff(m, r),
            N as nat,
        );
    }
    lemma_xsum_ext(
        |m: int| gf_mul(omega[m], alpha_pow((lx * m) as nat)),
        |m: int| xsum(|r: int| ff(m, r), N as nat),
        16,
    );
    lemma_xsum_swap(ff, 16, N as nat);
    let share = |r: int| gf_mul(e[r], low_eval(partials(lam, r), lx, 16));
    assert forall|r: int| 0 <= r < N implies xsum(|m: int| ff(m, r), 16) == #[trigger] share(r) by {
        let a = partials(lam, r);
        let g = |m: int| gf_mul(a[m], alpha_pow((lx * m) as nat));
        assert forall|m: int| 0 <= m < 16 implies #[trigger] ff(m, r) == gf_mul(e[r], g(m)) by {
            lemma_gf_mul_assoc(e[r], partial_at(lam, r, m as nat), alpha_pow((lx * m) as nat));
        }
        lemma_xsum_ext(|m: int| ff(m, r), |m: int| gf_mul(e[r], g(m)), 16);
        lemma_xsum_scale(e[r], g, 16);
    }
    lemma_xsum_ext(|r: int| xsum(|m: int| ff(m, r), 16), share, N as nat);
    assert forall|r: int| 0 <= r < N && r != q implies #[trigger] share(r) == 0 by {
        if e[r] == 0 {
            lemma_gf_mul_basics(low_eval(partials(lam, r), lx, 16));
        } else {
            lemma_other_share_zero(e, r, q, lx);
            lemma_gf_mul_basics(e[r]);
        }
    }
    lemma_xsum_single(share, N as nat, q);
}

proof fn lemma_odd_sum_coef(c1: Seq<u8>, c2: Seq<u8>, lx: nat, j: nat)
    requires
        forall|i: int| 0 <= i ==> #[trigger] coef(c1, i) == coef(c2, i),
    ensures
        odd_sum(c1, lx, j) == odd_sum(c2, lx, j),
    decreases j,
{
    if j > 0 {
        lemma_odd_sum_coef(c1, c2, lx, (j - 1) as nat);
        assert(coef(c1, 2 * j - 1) == coef(c2, 2 * j - 1));
    }
}

/// Forney's formula at an error position `q`: the derivative sum `den` is nonzero and
/// `num / den * X_q` is the error value `e_q`.
pub proof fn lemma_forney(
    e: Seq<u8>,
    s: Seq<u8>,
    sig: Seq<u8>,
    sp: Seq<u8>,
    omega: Seq<u8>,
    q: int,
    lx: nat,
    jd: nat,
)
    requires
        power_sums_of(e, s),
        nz_count(e, N as nat) <= 8,
        0 <= q < N,
        e[q] != 0,
        inverse_exps((203 - q) as nat, lx),
        forall|i: int| 0 <= i ==> #[trigger] coef(sig, i) == coef(error_locator(e), i),
        error_locator(e).len() <= sig.len() <= 2 * jd + 1,
        sp.len() == 16,
        forall|t: int| 0 <= t < 16 ==> #[trigger] sp[t] == s[t],
        omega.len() == 16,
        forall|k: int| 0 <= k < 16 ==> #[trigger] omega[k] == conv_partial(sig, sp, k, sig.len()),
    ensures
        odd_sum(sig, lx, jd) != 0,
        forall|iv: u8|
            gf_mul(odd_sum(sig, lx, jd), iv) == 1 ==> #[trigger] gf_mul(
                gf_mul(low_eval(omega, lx, 16), iv),
                locator(q),
            ) == e[q],
{
    let lam = error_locator(e);
    let w = nz_count(e, N as nat);
    let x = locator(q);
    lemma_error_locator(e);
    assert forall|k: int| 0 <= k < 16 implies #[trigger] omega[k] == xsum(
        |r: int| gf_mul(e[r], partial_at(lam, r, k as nat)),
        N as nat,
    ) by {
        lemma_evaluator_coef(e, s, sig, sp, k);
    }
    lemma_evaluator_value(e, omega, q, lx);
    let qy = low_eval(partials(lam, q), lx, 16);
    lemma_own_share_nonzero(e, q, lx);
    // den = X_q * Q_q(y)
    lemma_odd_sum_coef(sig, lam, lx, jd);
    lemma_odd_sum(lam, q, lx, jd);
    let f = |m: int| gf_mul(gf_mul(x, partial_at(lam, q, m as nat)), alpha_pow((lx * m) as nat));
    assert forall|m: int| w <= m implies #[trigger] f(m) == 0 by {
        lemma_partial_zero(lam, q, w, m as nat);
        lemma_gf_mul_basics(x);
        lemma_gf_mul_basics(alpha_pow((lx * m) as nat));
    }
    lemma_xsum_pad(f, w, 2 * jd);
    lemma_xsum_pad(f, w, 16);
    let a = partials(lam, q);
    let g = |m: int| gf_mul(a[m], alpha_pow((lx * m) as nat));
    assert forall|m: int| 0 <= m < 16 implies #[trigger] f(m) == gf_mul(x, g(m)) by {
        lemma_gf_mul_assoc(x, partial_at(lam, q, m as nat), alpha_pow((lx * m) as nat));
    }
    lemma_xsum_ext(f, |m: int| gf_mul(x, g(m)), 16);
    lemma_xsum_scale(x, g, 16);
    let den = odd_sum(sig, lx, jd);
    assert(den == gf_mul(x, qy));
    lemma_alpha_pow_nonzero((203 - q) as nat);
    lemma_gf_no_zero_divisors(x, qy);
    // num / den * X_q = e_q * qy * iv * X_q = e_q * (iv * den) = e_q
    assert forall|iv: u8| gf_mul(den, iv) == 1 implies #[trigger] gf_mul(
        gf_mul(low_eval(omega, lx, 16), iv),
        x,
    ) == e[q] by {
        let eq = e[q];
        lemma_gf_mul_assoc(gf_mul(eq, qy), iv, x);
        lemma_gf_mul_assoc(eq, qy, gf_mul(iv, x));
        lemma_gf_mul_comm(iv, x);
        lemma_gf_mul_assoc(qy, x, iv);
        lemma_gf_mul_comm(qy, x);
        lemma_gf_mul_basics(eq);
    }
}

pub proof fn lemma_xor_word(b: u8, c: u8)
    by (bit_vector)
    ensures
        (b ^ c == 0) == (b == c),
        b ^ (b ^ c) == c,
        c ^ (b ^ c) == b,
        0u8 ^ b == b,
{
}

/// A block within 8 errors of a codeword `c` (and not itself a codeword): its syndromes are
/// the power sums of the error word `block - c`, which has 1 to 8 nonzero bytes.
pub proof fn lemma_error_word(block: Seq<u8>, c: Seq<u8>, synd: Seq<u8>)
    requires
        block.len() == N,
        c.len() == N,
        is_rs_codeword(c),
        !is_rs_codeword(block),
        diff_positions(c, block).len() <= 8,
        synd.len() == 16,
        forall|t: int| 0 <= t < 16 ==> #[trigger] synd[t] == syndrome(block, t as nat),
    ensures
        power_sums_of(xor_seq(block, c), synd),
        1 <= nz_count(xor_seq(block, c), N as nat) <= 8,
        forall|i: int|
            0 <= i < N ==> (#[trigger] xor_seq(block, c)[i] == 0 <==> block[i] == c[i]),
        forall|i: int| 0 <= i < N ==> block[i] ^ #[trigger] xor_seq(block, c)[i] == c[i],
{
    let e = xor_seq(block, c);
    assert forall|i: int| 0 <= i < N implies (#[trigger] e[i] == 0 <==> block[i] == c[i])
        && block[i] ^ e[i] == c[i] by {
        lemma_xor_word(block[i], c[i]);
    }
    assert(xor_seq(c, e) =~= block) by {
        assert forall|i: int| 0 <= i < N implies #[trigger] xor_seq(c, e)[i] == block[i] by {
            lemma_xor_word(block[i], c[i]);
        }
    }
    assert forall|t: int| 0 <= t < 16 implies #[trigger] synd[t] == power_sum(
        e,
        t as nat,
        N as nat,
        (N - 1) as nat,
    ) by {
        lemma_eval_xor(c, e, alpha_pow(t as nat));
        assert(syndrome(c, t as nat) == 0);
        lemma_xor_word(syndrome(e, t as nat), 0);
        lemma_syndrome_power_sum(e, t as nat);
    }
    assert(support(e) =~= diff_positions(c, block)) by {
        assert forall|i: int| 0 <= i < N implies (e[i] != 0) == (c[i] != block[i]) by {
            lemma_xor_word(block[i], c[i]);
        }
    }
    lemma_support_len(e);
    if nz_count(e, N as nat) == 0 {
        lemma_error_positions(e, N as nat);
        assert forall|i: int| 0 <= i < N implies block[i] == c[i] by {
            lemma_xor_word(block[i], c[i]);
            if e[i] != 0 {
                let a = choose|a: int|
                    0 <= a < error_positions(e, N as nat).len() && #[trigger] error_positions(
                        e,
                        N as nat,
                    )[a] == i;
            }
        }
        assert(block =~= c);
    }
}

/// From `alpha^eps * alpha^lx == 1` to the exponent relation.
pub proof fn lemma_inverse_exps_of(eps: nat, lx: nat)
    requires
        gf_mul(alpha_pow(eps), alpha_pow(lx)) == 1,
    ensures
        inverse_exps(eps, lx),
{
    lemma_alpha_pow_add(eps, lx);
    lemma_alpha_pow_mod(eps + lx);
    let r = ((eps + lx) % 255) as nat;
    if r != 0 {
        lemma_alpha_pow_distinct(0, r);
        assert(alpha_pow(0) == 1);
    }
}

/// The Chien search's evaluation point is the inverse of the locator.
pub proof fn lemma_chien_inverse(eps: nat)
    requires
        eps < 255,
    ensures
        gf_mul(alpha_pow(eps), alpha_pow(((255 - eps % 255) % 255) as nat)) == 1,
{
    let f = ((255 - eps % 255) % 255) as nat;
    lemma_alpha_pow_add(eps, f);
    lemma_alpha_pow_mod(eps + f);
    assert((eps + f) % 255 == 0);
    assert(alpha_pow(0) == 1);
}

/// The Chien test: sigma (lowest degree first) vanishes at X^-1 exactly when its reciprocal
/// (coefficients 0..=l, highest degree first) vanishes at the locator X.
pub proof fn lemma_chien_point(sig: Seq<u8>, l: nat, idx: int, lx: nat)
    requires
        0 <= idx < N,
        l + 1 <= sig.len(),
        forall|i: int| l < i ==> #[trigger] coef(sig, i) == 0,
        inverse_exps((203 - idx) as nat, lx),
    ensures
        (low_eval(sig, lx, sig.len()) == 0) == (poly_eval(head(sig, l), locator(idx)) == 0),
{
    let h = head(sig, l);
    let eps = (203 - idx) as nat;
    let f = |p: int| gf_mul(sig[p], alpha_pow((lx * p) as nat));
    let g = |p: int| gf_mul(h[p], alpha_pow((lx * p) as nat));
    assert forall|p: int| l + 1 <= p < sig.len() implies #[trigger] f(p) == 0 by {
        assert(coef(sig, p) == 0);
        lemma_gf_mul_basics(alpha_pow((lx * p) as nat));
    }
    lemma_xsum_pad(f, l + 1, sig.len());
    lemma_xsum_ext(f, g, l + 1);
    lemma_reciprocal(h, eps, lx);
    let c = alpha_pow((eps * l) as nat);
    lemma_alpha_pow_nonzero((eps * l) as nat);
    let v = low_eval(h, lx, l + 1);
    lemma_gf_mul_basics(c);
    if v != 0 {
        lemma_gf_no_zero_divisors(c, v);
    }
}

/// The nonzero positions below `k + 1`: those below `k`, then `k` itself when in error.
pub proof fn lemma_error_positions_step(e: Seq<u8>, k: nat)
    requires
        k < e.len(),
    ensures
        error_positions(e, k + 1) == if e[k as int] != 0 {
            error_positions(e, k).push(k as int)
        } else {
            error_positions(e, k)
        },
        nz_count(e, k + 1) == nz_count(e, k) + if e[k as int] != 0 {
            1nat
        } else {
            0nat
        },
{
}

/// Facts on the list of error positions of a full word.
pub proof fn lemma_error_positions_full(e: Seq<u8>)
    requires
        e.len() == N,
    ensures
        error_positions(e, N as nat).len() == nz_count(e, N as nat),
        forall|a: int, b: int|
            0 <= a < b < error_positions(e, N as nat).len() ==> error_positions(e, N as nat)[a]
                < error_positions(e, N as nat)[b],
        forall|a: int|
            0 <= a < error_positions(e, N as nat).len() ==> 0 <= #[trigger] error_positions(
                e,
                N as nat,
            )[a] < N && e[error_positions(e, N as nat)[a]] != 0,
        forall|q: int|
            0 <= q < N && e[q] != 0 ==> exists|a: int|
                0 <= a < error_positions(e, N as nat).len() && #[trigger] error_positions(
                    e,
                    N as nat,
                )[a] == q,
{
    lemma_error_positions(e, N as nat);
}

} // verus!
