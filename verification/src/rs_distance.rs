//! Minimum distance of the RS(204,188) code.
//!
//! A nonzero word whose 16 syndromes vanish has at least 17 nonzero bytes, so two codewords
//! that differ in at most 16 positions are equal, and a block within 8 errors of a codeword
//! has no other codeword within 8 errors. The proof writes each syndrome as the power sum
//! `sum_i d_i * X_i^j` over the position locators `X_i = alpha^(203 - i)` and eliminates one
//! nonzero position at a time (the Vandermonde argument).

use vstd::prelude::*;
use vstd::set_lib::{set_int_range, lemma_int_range, lemma_len_subset, lemma_len_union};
use crate::gf::{
    gf_mul, alpha_pow, lemma_gf_mul_basics, lemma_gf_mul_comm, lemma_gf_mul_distrib,
    lemma_gf_mul_distrib_left, lemma_gf_mul_assoc, lemma_alpha_pow_add, lemma_alpha_pow_nonzero,
    lemma_alpha_pow_distinct, lemma_alpha_pow_onto,
};
use crate::rs::{N, poly_eval, syndrome, is_rs_codeword, diff_positions, xor_seq, lemma_eval_xor};

verus! {

/// sum_{i < k} d_i * alpha^(j * (top - i)): the first `k` terms of the `j`-th power sum of
/// `d` when position `i` has locator alpha^(top - i).
pub open spec fn power_sum(d: Seq<u8>, j: nat, k: nat, top: nat) -> u8
    decreases k,
{
    if k == 0 {
        0u8
    } else {
        power_sum(d, j, (k - 1) as nat, top) ^ gf_mul(
            d[k - 1],
            alpha_pow((j * (top - (k - 1))) as nat),
        )
    }
}

/// The positions at which a word is nonzero.
pub open spec fn support(d: Seq<u8>) -> Set<int> {
    Set::new(|i: int| 0 <= i < d.len() && d[i] != 0)
}

proof fn lemma_xor_swap(a: u8, b: u8, c: u8, d: u8)
    by (bit_vector)
    ensures
        (a ^ b) ^ (c ^ d) == (a ^ c) ^ (b ^ d),
        a ^ b == 0 <==> a == b,
        0u8 ^ 0u8 == 0u8,
{
}

/// Multiplying a power sum by alpha^j raises every locator exponent by one.
proof fn lemma_power_sum_shift(d: Seq<u8>, j: nat, k: nat, top: nat)
    requires
        k <= top + 1,
    ensures
        gf_mul(power_sum(d, j, k, top), alpha_pow(j)) == power_sum(d, j, k, top + 1),
    decreases k,
{
    let x = alpha_pow(j);
    if k == 0 {
        lemma_gf_mul_basics(x);
    } else {
        let k1 = (k - 1) as nat;
        lemma_power_sum_shift(d, j, k1, top);
        let s = power_sum(d, j, k1, top);
        let e = (top - k1) as nat;
        let t = gf_mul(d[k - 1], alpha_pow(j * e));
        lemma_gf_mul_distrib_left(s, t, x);
        lemma_gf_mul_assoc(d[k - 1], alpha_pow(j * e), x);
        lemma_alpha_pow_add(j * e, j);
        assert(j * e + j == j * (top + 1 - k1)) by (nonlinear_arith)
            requires
                e == top - k1,
                k1 <= top,
        ;
    }
}

/// Horner evaluation at alpha^j of the first `k` bytes equals their power sum with
/// top exponent `k - 1`.
pub(crate) proof fn lemma_horner_power_sum(d: Seq<u8>, j: nat, k: nat)
    requires
        1 <= k <= d.len(),
    ensures
        poly_eval(d.take(k as int), alpha_pow(j)) == power_sum(d, j, k, (k - 1) as nat),
    decreases k,
{
    let x = alpha_pow(j);
    let k1 = (k - 1) as nat;
    assert(d.take(k as int).drop_last() =~= d.take(k1 as int));
    assert(d.take(k as int).last() == d[k1 as int]);
    assert(j * (k1 - k1) == 0);
    assert(alpha_pow(0) == 1);
    lemma_gf_mul_basics(d[k1 as int]);
    assert(power_sum(d, j, k, k1) == power_sum(d, j, k1, k1) ^ d[k1 as int]);
    assert(poly_eval(d.take(k as int), x) == gf_mul(poly_eval(d.take(k1 as int), x), x)
        ^ d[k1 as int]);
    if k1 == 0 {
        assert(d.take(0) =~= Seq::<u8>::empty());
        lemma_gf_mul_basics(x);
        assert(poly_eval(d.take(0), x) == 0);
        assert(power_sum(d, j, 0, 0) == 0);
    } else {
        lemma_horner_power_sum(d, j, k1);
        lemma_power_sum_shift(d, j, k1, (k1 - 1) as nat);
        assert((k1 - 1) as nat + 1 == k1);
        assert(gf_mul(poly_eval(d.take(k1 as int), x), x) == power_sum(d, j, k1, k1));
    }
}

/// The `j`-th syndrome of a full block is its power sum with locators alpha^(203 - i).
pub proof fn lemma_syndrome_power_sum(d: Seq<u8>, j: nat)
    requires
        d.len() == N,
    ensures
        syndrome(d, j) == power_sum(d, j, N as nat, (N - 1) as nat),
{
    lemma_horner_power_sum(d, j, N as nat);
    assert(d.take(N as int) =~= d);
}

/// Each byte multiplied by (its locator + `xp`): the elimination step of the argument.
pub open spec fn eliminate(d: Seq<u8>, xp: u8, top: nat) -> Seq<u8> {
    Seq::new(d.len(), |i: int| gf_mul(d[i], alpha_pow((top - i) as nat) ^ xp))
}

/// The field has no zero divisors.
pub proof fn lemma_gf_no_zero_divisors(a: u8, b: u8)
    requires
        a != 0,
        b != 0,
    ensures
        gf_mul(a, b) != 0,
{
    lemma_alpha_pow_onto(a);
    lemma_alpha_pow_onto(b);
    let m = choose|k: nat| k < 255 && alpha_pow(k) == a;
    let n = choose|k: nat| k < 255 && alpha_pow(k) == b;
    lemma_alpha_pow_add(m, n);
    lemma_alpha_pow_nonzero(m + n);
}

/// Power sums of the eliminated word: S'_j = S_(j+1) + xp * S_j.
proof fn lemma_power_sum_eliminate(d: Seq<u8>, xp: u8, j: nat, k: nat, top: nat)
    requires
        k <= d.len(),
        k <= top + 1,
    ensures
        power_sum(eliminate(d, xp, top), j, k, top) == power_sum(d, j + 1, k, top) ^ gf_mul(
            xp,
            power_sum(d, j, k, top),
        ),
    decreases k,
{
    if k == 0 {
        lemma_gf_mul_basics(xp);
        lemma_xor_swap(0, 0, 0, 0);
    } else {
        let k1 = (k - 1) as nat;
        lemma_power_sum_eliminate(d, xp, j, k1, top);
        let di = d[k1 as int];
        let e = (top - k1) as nat;
        let x = alpha_pow(e);
        let a = alpha_pow(j * e);
        let b = alpha_pow((j + 1) * e);
        lemma_gf_mul_assoc(di, x ^ xp, a);
        lemma_gf_mul_distrib_left(x, xp, a);
        lemma_alpha_pow_add(e, j * e);
        assert(e + j * e == (j + 1) * e) by (nonlinear_arith);
        lemma_gf_mul_distrib(di, b, gf_mul(xp, a));
        lemma_gf_mul_assoc(di, xp, a);
        lemma_gf_mul_comm(di, xp);
        lemma_gf_mul_assoc(xp, di, a);
        let s0 = power_sum(d, j, k1, top);
        let s1 = power_sum(d, j + 1, k1, top);
        let t0 = gf_mul(di, a);
        let t1 = gf_mul(di, b);
        lemma_gf_mul_distrib(xp, s0, t0);
        lemma_xor_swap(s1, gf_mul(xp, s0), t1, gf_mul(xp, t0));
        assert(eliminate(d, xp, top)[k1 as int] == gf_mul(di, x ^ xp));
    }
}

/// The zeroth power sum of a word that is zero outside position `p`.
proof fn lemma_power_sum_single(d: Seq<u8>, p: int, k: nat, top: nat)
    requires
        k <= d.len(),
        k <= top + 1,
        0 <= p,
        forall|i: int| 0 <= i < d.len() && i != p ==> d[i] == 0,
    ensures
        power_sum(d, 0, k, top) == if p < k {
            d[p]
        } else {
            0u8
        },
    decreases k,
{
    if k > 0 {
        let k1 = (k - 1) as nat;
        lemma_power_sum_single(d, p, k1, top);
        assert(0 * (top - k1) == 0);
        assert(alpha_pow(0) == 1);
        lemma_gf_mul_basics(d[k1 as int]);
        let prev = power_sum(d, 0, k1, top);
        lemma_gf_mul_basics(prev);
    }
}

/// The support of a word lies among its positions.
pub(crate) proof fn lemma_support_finite(d: Seq<u8>)
    ensures
        support(d).finite(),
        support(d).len() <= d.len(),
{
    lemma_int_range(0, d.len() as int);
    assert(support(d).subset_of(set_int_range(0, d.len() as int)));
    lemma_len_subset(support(d), set_int_range(0, d.len() as int));
}

/// A block with at most `w` nonzero bytes whose power sums 0 .. w-1 vanish is zero.
pub(crate) proof fn lemma_sparse_zero(d: Seq<u8>, w: nat)
    requires
        d.len() == N,
        support(d).len() <= w,
        forall|j: nat| j < w ==> #[trigger] power_sum(d, j, N as nat, (N - 1) as nat) == 0,
    ensures
        forall|i: int| 0 <= i < N ==> d[i] == 0,
    decreases w,
{
    let top = (N - 1) as nat;
    lemma_support_finite(d);
    if exists|p: int| 0 <= p < N && d[p] != 0 {
        let p = choose|p: int| 0 <= p < N && d[p] != 0;
        assert(support(d).contains(p));
        vstd::set::axiom_set_remove_len(support(d), p);
        vstd::set::axiom_set_remove_finite(support(d), p);
        let xp = alpha_pow((top - p) as nat);
        let e = eliminate(d, xp, top);
        assert(support(e).subset_of(support(d).remove(p))) by {
            assert forall|i: int| support(e).contains(i) implies support(d).remove(p).contains(
                i,
            ) by {
                lemma_gf_mul_basics(alpha_pow((top - i) as nat) ^ xp);
                lemma_gf_mul_basics(d[i]);
                lemma_gf_mul_basics(xp);
            }
        }
        lemma_len_subset(support(e), support(d).remove(p));
        assert forall|j: nat| j < (w - 1) as nat implies #[trigger] power_sum(
            e,
            j,
            N as nat,
            (N - 1) as nat,
        ) == 0 by {
            lemma_power_sum_eliminate(d, xp, j, N as nat, top);
            assert(power_sum(d, j + 1, N as nat, (N - 1) as nat) == 0);
            assert(power_sum(d, j, N as nat, (N - 1) as nat) == 0);
            lemma_gf_mul_basics(xp);
            lemma_xor_swap(0, 0, 0, 0);
        }
        lemma_sparse_zero(e, (w - 1) as nat);
        assert forall|i: int| 0 <= i < d.len() && i != p implies d[i] == 0 by {
            assert(e[i] == 0);
            let ei = (top - i) as nat;
            let ep = (top - p) as nat;
            if ei < ep {
                lemma_alpha_pow_distinct(ei, ep);
            } else {
                lemma_alpha_pow_distinct(ep, ei);
            }
            lemma_xor_swap(alpha_pow(ei), xp, 0, 0);
            if d[i] != 0 {
                lemma_gf_no_zero_divisors(d[i], alpha_pow(ei) ^ xp);
            }
        }
        lemma_power_sum_single(d, p, N as nat, top);
        assert(power_sum(d, 0, N as nat, (N - 1) as nat) == 0);
    }
}

/// The code has minimum distance 17: two codewords that differ in at most 16 positions
/// are equal.
pub proof fn lemma_rs_min_distance(a: Seq<u8>, b: Seq<u8>)
    requires
        a.len() == N,
        b.len() == N,
        is_rs_codeword(a),
        is_rs_codeword(b),
        diff_positions(a, b).len() <= 16,
    ensures
        a == b,
{
    let d = xor_seq(a, b);
    assert(support(d) =~= diff_positions(a, b)) by {
        assert forall|i: int| 0 <= i < N implies (d[i] != 0) == (a[i] != b[i]) by {
            lemma_xor_swap(a[i], b[i], 0, 0);
        }
    }
    assert forall|j: nat| j < 16 implies #[trigger] power_sum(d, j, N as nat, (N - 1) as nat)
        == 0 by {
        lemma_syndrome_power_sum(d, j);
        lemma_eval_xor(a, b, alpha_pow(j));
        assert(syndrome(a, j) == 0);
        assert(syndrome(b, j) == 0);
        lemma_xor_swap(0, 0, 0, 0);
    }
    lemma_sparse_zero(d, 16);
    assert forall|i: int| 0 <= i < N implies a[i] == b[i] by {
        assert(d[i] == 0);
        lemma_xor_swap(a[i], b[i], 0, 0);
    }
    assert(a =~= b);
}

/// Positions where two blocks of one length differ lie among that length.
proof fn lemma_diff_finite(a: Seq<u8>, b: Seq<u8>)
    requires
        a.len() == b.len(),
    ensures
        diff_positions(a, b).finite(),
{
    lemma_int_range(0, a.len() as int);
    assert(diff_positions(a, b).subset_of(set_int_range(0, a.len() as int)));
    lemma_len_subset(diff_positions(a, b), set_int_range(0, a.len() as int));
}

/// A block has at most one codeword within 8 byte errors of it.
pub proof fn lemma_rs_unique_within_8(r: Seq<u8>, a: Seq<u8>, b: Seq<u8>)
    requires
        r.len() == N,
        a.len() == N,
        b.len() == N,
        is_rs_codeword(a),
        is_rs_codeword(b),
        diff_positions(a, r).len() <= 8,
        diff_positions(b, r).len() <= 8,
    ensures
        a == b,
{
    lemma_diff_finite(a, r);
    lemma_diff_finite(b, r);
    let u = diff_positions(a, r).union(diff_positions(b, r));
    lemma_len_union(diff_positions(a, r), diff_positions(b, r));
    assert(diff_positions(a, b).subset_of(u));
    vstd::set::axiom_set_union_finite(diff_positions(a, r), diff_positions(b, r));
    lemma_len_subset(diff_positions(a, b), u);
    lemma_rs_min_distance(a, b);
}

} // verus!
