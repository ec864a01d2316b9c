//! Arithmetic in GF(256) with the field polynomial x^8 + x^4 + x^3 + x^2 + 1 (0x11d)
//! and primitive element alpha = x (the byte 2).
//!
//! The field product is specified directly (`gf_mul`: shift-and-add of `a * x^i` over the set
//! bits of `b`); the executable multiplier works through exp/log tables, and this module proves
//! that the tables agree with the direct definition.

use vstd::prelude::*;
use vstd::set_lib::*;
use vstd::relations::injective_on;

verus! {

/// Multiplication by x (the primitive element alpha = 2), reduced by 0x11d.
pub open spec fn xtime(a: u8) -> u8 {
    if a & 0x80u8 == 0u8 {
        a << 1u8
    } else {
        (a << 1u8) ^ 0x1du8
    }
}

/// The field product: the sum (xor) over the set bits i of `b` of `a * x^i`.
pub open spec fn gf_mul(a: u8, b: u8) -> u8 {
    let a1 = xtime(a);
    let a2 = xtime(a1);
    let a3 = xtime(a2);
    let a4 = xtime(a3);
    let a5 = xtime(a4);
    let a6 = xtime(a5);
    let a7 = xtime(a6);
    (if b & 1u8 != 0u8 { a } else { 0u8 }) ^ (if b & 2u8 != 0u8 { a1 } else { 0u8 }) ^ (if b
        & 4u8 != 0u8 {
        a2
    } else {
        0u8
    }) ^ (if b & 8u8 != 0u8 { a3 } else { 0u8 }) ^ (if b & 16u8 != 0u8 { a4 } else { 0u8 }) ^ (
    if b & 32u8 != 0u8 {
        a5
    } else {
        0u8
    }) ^ (if b & 64u8 != 0u8 { a6 } else { 0u8 }) ^ (if b & 128u8 != 0u8 { a7 } else { 0u8 })
}

/// alpha^n, alpha = x.
pub open spec fn alpha_pow(n: nat) -> u8
    decreases n,
{
    if n == 0 {
        1u8
    } else {
        xtime(alpha_pow((n - 1) as nat))
    }
}

pub proof fn lemma_gf_mul_basics(a: u8)
    by (bit_vector)
    ensures
        gf_mul(a, 0) == 0,
        gf_mul(0, a) == 0,
        gf_mul(a, 1) == a,
        gf_mul(1, a) == a,
        gf_mul(a, 2) == xtime(a),
        a != 0 ==> xtime(a) != 0,
        a ^ a == 0,
        a ^ 0 == a,
        0 ^ a == a,
{
}

pub proof fn lemma_xor_ac(a: u8, b: u8, c: u8)
    by (bit_vector)
    ensures
        a ^ b == b ^ a,
        (a ^ b) ^ c == a ^ (b ^ c),
{
}

/// Multiplication is commutative.
#[verifier::rlimit(100)]
pub proof fn lemma_gf_mul_comm(a: u8, b: u8)
    by (bit_vector)
    ensures
        gf_mul(a, b) == gf_mul(b, a),
{
}

/// Multiplication distributes over addition (xor), on the right.
pub proof fn lemma_gf_mul_distrib(a: u8, b: u8, c: u8)
    by (bit_vector)
    ensures
        gf_mul(a, b ^ c) == gf_mul(a, b) ^ gf_mul(a, c),
{
}

/// Multiplication distributes over addition (xor), on the left.
#[verifier::rlimit(100)]
pub proof fn lemma_gf_mul_distrib_left(a: u8, b: u8, c: u8)
    by (bit_vector)
    ensures
        gf_mul(a ^ b, c) == gf_mul(a, c) ^ gf_mul(b, c),
{
}

#[verifier::rlimit(100)]
proof fn lemma_gf_mul_xtime_left(a: u8, b: u8)
    by (bit_vector)
    ensures
        gf_mul(xtime(a), b) == xtime(gf_mul(a, b)),
{
}

proof fn lemma_gf_mul_xtime_right(a: u8, b: u8)
    ensures
        gf_mul(a, xtime(b)) == xtime(gf_mul(a, b)),
{
    lemma_gf_mul_comm(a, xtime(b));
    lemma_gf_mul_xtime_left(b, a);
    lemma_gf_mul_comm(b, a);
}

proof fn lemma_gf_mul_cond(a: u8, c: bool, y: u8)
    ensures
        gf_mul(a, if c { y } else { 0u8 }) == if c { gf_mul(a, y) } else { 0u8 },
{
    lemma_gf_mul_basics(a);
}

/// Multiplication is associative.
pub proof fn lemma_gf_mul_assoc(a: u8, b: u8, c: u8)
    ensures
        gf_mul(gf_mul(a, b), c) == gf_mul(a, gf_mul(b, c)),
{
    let b1 = xtime(b);
    let b2 = xtime(b1);
    let b3 = xtime(b2);
    let b4 = xtime(b3);
    let b5 = xtime(b4);
    let b6 = xtime(b5);
    let b7 = xtime(b6);
    let t0 = if c & 1u8 != 0u8 { b } else { 0u8 };
    let t1 = if c & 2u8 != 0u8 { b1 } else { 0u8 };
    let t2 = if c & 4u8 != 0u8 { b2 } else { 0u8 };
    let t3 = if c & 8u8 != 0u8 { b3 } else { 0u8 };
    let t4 = if c & 16u8 != 0u8 { b4 } else { 0u8 };
    let t5 = if c & 32u8 != 0u8 { b5 } else { 0u8 };
    let t6 = if c & 64u8 != 0u8 { b6 } else { 0u8 };
    let t7 = if c & 128u8 != 0u8 { b7 } else { 0u8 };
    assert(gf_mul(b, c) == t0 ^ t1 ^ t2 ^ t3 ^ t4 ^ t5 ^ t6 ^ t7);
    lemma_gf_mul_distrib(a, t0 ^ t1 ^ t2 ^ t3 ^ t4 ^ t5 ^ t6, t7);
    lemma_gf_mul_distrib(a, t0 ^ t1 ^ t2 ^ t3 ^ t4 ^ t5, t6);
    lemma_gf_mul_distrib(a, t0 ^ t1 ^ t2 ^ t3 ^ t4, t5);
    lemma_gf_mul_distrib(a, t0 ^ t1 ^ t2 ^ t3, t4);
    lemma_gf_mul_distrib(a, t0 ^ t1 ^ t2, t3);
    lemma_gf_mul_distrib(a, t0 ^ t1, t2);
    lemma_gf_mul_distrib(a, t0, t1);
    let ab = gf_mul(a, b);
    lemma_gf_mul_xtime_right(a, b);
    lemma_gf_mul_xtime_right(a, b1);
    lemma_gf_mul_xtime_right(a, b2);
    lemma_gf_mul_xtime_right(a, b3);
    lemma_gf_mul_xtime_right(a, b4);
    lemma_gf_mul_xtime_right(a, b5);
    lemma_gf_mul_xtime_right(a, b6);
    lemma_gf_mul_cond(a, c & 1u8 != 0u8, b);
    lemma_gf_mul_cond(a, c & 2u8 != 0u8, b1);
    lemma_gf_mul_cond(a, c & 4u8 != 0u8, b2);
    lemma_gf_mul_cond(a, c & 8u8 != 0u8, b3);
    lemma_gf_mul_cond(a, c & 16u8 != 0u8, b4);
    lemma_gf_mul_cond(a, c & 32u8 != 0u8, b5);
    lemma_gf_mul_cond(a, c & 64u8 != 0u8, b6);
    lemma_gf_mul_cond(a, c & 128u8 != 0u8, b7);
}

/// Powers of alpha multiply by adding exponents.
pub proof fn lemma_alpha_pow_add(m: nat, n: nat)
    ensures
        gf_mul(alpha_pow(m), alpha_pow(n)) == alpha_pow(m + n),
    decreases n,
{
    if n == 0 {
        lemma_gf_mul_basics(alpha_pow(m));
    } else {
        lemma_alpha_pow_add(m, (n - 1) as nat);
        lemma_gf_mul_xtime_right(alpha_pow(m), alpha_pow((n - 1) as nat));
        assert(alpha_pow(m + n) == xtime(alpha_pow((m + n - 1) as nat)));
    }
}

pub proof fn lemma_alpha_pow_nonzero(n: nat)
    ensures
        alpha_pow(n) != 0,
    decreases n,
{
    if n > 0 {
        lemma_alpha_pow_nonzero((n - 1) as nat);
        lemma_gf_mul_basics(alpha_pow((n - 1) as nat));
    }
}

proof fn lemma_concrete_products()
    by (bit_vector)
    ensures
        xtime(1) == 2,
        gf_mul(2, 2) == 4,
        gf_mul(4, 4) == 0x10,
        gf_mul(0x10, 0x10) == 0x1d,
        gf_mul(0x1d, 0x1d) == 0x4c,
        gf_mul(0x4c, 0x4c) == 0x9d,
        gf_mul(0x9d, 0x9d) == 0x5f,
        gf_mul(0x5f, 0x5f) == 0x85,
        gf_mul(gf_mul(gf_mul(0x1d, 0x10), 4), 2) == 0x26,
        gf_mul(gf_mul(gf_mul(0x9d, 0x4c), 4), 2) == 0x0a,
        gf_mul(gf_mul(gf_mul(0x5f, 0x4c), 0x10), 2) == 0xd6,
        gf_mul(
            gf_mul(gf_mul(gf_mul(gf_mul(gf_mul(gf_mul(0x85, 0x5f), 0x9d), 0x4c), 0x1d), 0x10), 4),
            2,
        ) == 1,
{
}

proof fn lemma_alpha_squares()
    ensures
        alpha_pow(1) == 2,
        alpha_pow(2) == 4,
        alpha_pow(4) == 0x10,
        alpha_pow(8) == 0x1d,
        alpha_pow(16) == 0x4c,
        alpha_pow(32) == 0x9d,
        alpha_pow(64) == 0x5f,
        alpha_pow(128) == 0x85,
{
    assert(alpha_pow(1) == 2) by {
        assert(alpha_pow(0) == 1);
        lemma_concrete_products();
    }
    assert(alpha_pow(2) == 4) by {
        lemma_concrete_products();
        lemma_alpha_pow_add(1, 1);
    }
    assert(alpha_pow(4) == 0x10) by {
        lemma_concrete_products();
        lemma_alpha_pow_add(2, 2);
    }
    assert(alpha_pow(8) == 0x1d) by {
        lemma_concrete_products();
        lemma_alpha_pow_add(4, 4);
    }
    assert(alpha_pow(16) == 0x4c) by {
        lemma_concrete_products();
        lemma_alpha_pow_add(8, 8);
    }
    assert(alpha_pow(32) == 0x9d) by {
        lemma_concrete_products();
        lemma_alpha_pow_add(16, 16);
    }
    assert(alpha_pow(64) == 0x5f) by {
        lemma_concrete_products();
        lemma_alpha_pow_add(32, 32);
    }
    assert(alpha_pow(128) == 0x85) by {
        lemma_concrete_products();
        lemma_alpha_pow_add(64, 64);
    }
}

/// The concrete powers alpha^15, alpha^51, alpha^85 differ from 1, and alpha^255 is 1.
proof fn lemma_alpha_concrete()
    ensures
        alpha_pow(15) == 0x26,
        alpha_pow(51) == 0x0a,
        alpha_pow(85) == 0xd6,
        alpha_pow(255) == 1,
{
    lemma_alpha_squares();
    assert(alpha_pow(15) == 0x26) by {
        lemma_concrete_products();
        lemma_alpha_pow_add(8, 4);
        lemma_alpha_pow_add(12, 2);
        lemma_alpha_pow_add(14, 1);
    }
    assert(alpha_pow(51) == 0x0a) by {
        lemma_concrete_products();
        lemma_alpha_pow_add(32, 16);
        lemma_alpha_pow_add(48, 2);
        lemma_alpha_pow_add(50, 1);
    }
    assert(alpha_pow(85) == 0xd6) by {
        lemma_concrete_products();
        lemma_alpha_pow_add(64, 16);
        lemma_alpha_pow_add(80, 4);
        lemma_alpha_pow_add(84, 1);
    }
    assert(alpha_pow(255) == 1) by {
        lemma_concrete_products();
        lemma_alpha_pow_add(128, 64);
        lemma_alpha_pow_add(192, 32);
        lemma_alpha_pow_add(224, 16);
        lemma_alpha_pow_add(240, 8);
        lemma_alpha_pow_add(248, 4);
        lemma_alpha_pow_add(252, 2);
        lemma_alpha_pow_add(254, 1);
    }
}

/// If alpha^k == 1 then alpha^(m*k) == 1.
proof fn lemma_alpha_pow_mul_one(k: nat, m: nat)
    requires
        alpha_pow(k) == 1,
    ensures
        alpha_pow(m * k) == 1,
    decreases m,
{
    if m == 0 {
        assert(m * k == 0);
    } else {
        let mm = (m - 1) as nat;
        lemma_alpha_pow_mul_one(k, mm);
        lemma_alpha_pow_add(mm * k, k);
        assert(mm * k + k == m * k) by (nonlinear_arith)
            requires
                mm == m - 1,
        ;
        lemma_gf_mul_basics(1);
    }
}

/// If alpha^k == 1 (k > 0) then alpha^n == alpha^(n % k).
proof fn lemma_alpha_pow_reduce(k: nat, n: nat)
    requires
        k > 0,
        alpha_pow(k) == 1,
    ensures
        alpha_pow(n) == alpha_pow(n % k),
{
    let q = n / k;
    let r = n % k;
    assert(n == q * k + r) by (nonlinear_arith)
        requires
            k > 0,
            q == n / k,
            r == n % k,
    ;
    lemma_alpha_pow_mul_one(k, q);
    lemma_alpha_pow_add(q * k, r);
    lemma_gf_mul_comm(1, alpha_pow(r));
    lemma_gf_mul_basics(alpha_pow(r));
}

/// alpha has order 255: exponents are taken mod 255.
pub proof fn lemma_alpha_pow_mod(n: nat)
    ensures
        alpha_pow(n) == alpha_pow(n % 255),
{
    lemma_alpha_concrete();
    lemma_alpha_pow_reduce(255, n);
}

proof fn lemma_divisors_255(d: int, q: int)
    requires
        1 <= d <= 254,
        d * q == 255,
    ensures
        85int % d == 0 || 51int % d == 0 || 15int % d == 0,
{
    assert(q >= 2) by (nonlinear_arith)
        requires
            1 <= d <= 254,
            d * q == 255,
    ;
    assert(q <= 255) by (nonlinear_arith)
        requires
            1 <= d,
            d * q == 255,
    ;
    assert(d == 1 || d == 3 || d == 5 || d == 15 || d == 17 || d == 51 || d == 85)
        by (nonlinear_arith)
        requires
            2 <= q <= 255,
            1 <= d <= 254,
            d * q == 255,
    ;
}

/// No exponent 1..254 gives 1: alpha is primitive.
proof fn lemma_alpha_order(k: nat)
    requires
        1 <= k <= 254,
    ensures
        alpha_pow(k) != 1,
    decreases k,
{
    if alpha_pow(k) == 1 {
        lemma_alpha_concrete();
        let r = 255nat % k;
        lemma_alpha_pow_reduce(k, 255);
        if r == 0 {
            let q = 255nat / k;
            assert(k * q == 255) by (nonlinear_arith)
                requires
                    k > 0,
                    q == 255nat / k,
                    255nat % k == 0,
            ;
            lemma_divisors_255(k as int, q as int);
            lemma_alpha_pow_reduce(k, 85);
            lemma_alpha_pow_reduce(k, 51);
            lemma_alpha_pow_reduce(k, 15);
            assert(alpha_pow(0) == 1);
        } else {
            lemma_alpha_order(r);
        }
    }
}

/// The powers alpha^0 .. alpha^254 are pairwise distinct.
pub proof fn lemma_alpha_pow_distinct(i: nat, j: nat)
    requires
        i < j < 255,
    ensures
        alpha_pow(i) != alpha_pow(j),
{
    if alpha_pow(i) == alpha_pow(j) {
        lemma_alpha_concrete();
        let d = (j - i) as nat;
        let c = (255 - i) as nat;
        lemma_alpha_pow_add(c, i);
        lemma_alpha_pow_add(c, j);
        lemma_alpha_pow_add(255, d);
        assert(c + j == 255 + d);
        lemma_gf_mul_basics(alpha_pow(d));
        lemma_alpha_order(d);
    }
}

/// Every nonzero byte is a power of alpha with exponent below 255.
pub proof fn lemma_alpha_pow_onto(a: u8)
    requires
        a != 0,
    ensures
        exists|k: nat| k < 255 && alpha_pow(k) == a,
{
    let exps = set_int_range(0, 255);
    let f = |k: int| alpha_pow(k as nat);
    let pows = exps.map(f);
    lemma_int_range(0, 255);
    assert(injective_on(f, exps)) by {
        assert forall|x: int, y: int|
            exps.contains(x) && exps.contains(y) && #[trigger] f(x) == #[trigger] f(y) implies x
            == y by {
            if x < y {
                lemma_alpha_pow_distinct(x as nat, y as nat);
            } else if y < x {
                lemma_alpha_pow_distinct(y as nat, x as nat);
            }
        }
    }
    lemma_map_size(exps, pows, f);
    let nz = Set::<u8>::range(1u8, 255u8).insert(255u8);
    <u8 as FiniteRange>::range_properties(1u8, 255u8);
    assert(nz.len() == 255);
    assert(pows.subset_of(nz)) by {
        assert forall|b: u8| pows.contains(b) implies nz.contains(b) by {
            let k = choose|k: int| exps.contains(k) && f(k) == b;
            lemma_alpha_pow_nonzero(k as nat);
        }
    }
    lemma_subset_equality(pows, nz);
    assert(nz.contains(a));
    assert(pows.contains(a));
    let k = choose|k: int| exps.contains(k) && f(k) == a;
    assert(alpha_pow(k as nat) == a);
}

/// Exp/log tables for fast multiplication.
pub(crate) struct Gf {
    pub(crate) exp: Vec<u8>,
    pub(crate) log: Vec<u8>,
}

impl Gf {
    /// The tables hold alpha^(i mod 255) and the discrete logarithm of every nonzero byte.
    pub(crate) open spec fn wf(&self) -> bool {
        &&& self.exp@.len() == 512
        &&& self.log@.len() == 256
        &&& forall|i: int| 0 <= i < 512 ==> #[trigger] self.exp@[i] == alpha_pow((i % 255) as nat)
        &&& self.log@[0] == 0
        &&& forall|a: int|
            1 <= a < 256 ==> #[trigger] self.log@[a] < 255 && alpha_pow(self.log@[a] as nat)
                == a as u8
    }

    /// a * b in GF(256).
    pub(crate) fn mul(&self, a: u8, b: u8) -> (r: u8)
        requires
            self.wf(),
        ensures
            r == gf_mul(a, b),
    {
        if a == 0 || b == 0 {
            proof {
                lemma_gf_mul_basics(a);
                lemma_gf_mul_basics(b);
            }
            0
        } else {
            let la = self.log[a as usize];
            let lb = self.log[b as usize];
            proof {
                assert(self.log@[a as int] < 255);
                assert(self.log@[b as int] < 255);
                lemma_alpha_pow_add(la as nat, lb as nat);
                lemma_alpha_pow_mod((la + lb) as nat);
            }
            self.exp[la as usize + lb as usize]
        }
    }

    /// The multiplicative inverse of a nonzero `a` (1 for `a == 0`).
    pub(crate) fn inv(&self, a: u8) -> (r: u8)
        requires
            self.wf(),
        ensures
            a != 0 ==> gf_mul(a, r) == 1,
            a == 0 ==> r == 1,
    {
        let la = self.log[a as usize];
        proof {
            if a != 0 {
                assert(self.log@[a as int] < 255);
                lemma_alpha_pow_add(la as nat, (255 - la) as nat);
                lemma_alpha_concrete();
            }
            assert(alpha_pow(0) == 1);
            assert(self.exp@[255] == alpha_pow(0));
        }
        self.exp[255 - la as usize]
    }

    /// alpha^p.
    pub(crate) fn pow(&self, p: usize) -> (r: u8)
        requires
            self.wf(),
        ensures
            r == alpha_pow(p as nat),
    {
        proof {
            lemma_alpha_pow_mod(p as nat);
            assert(self.exp@[(p % 255) as int] == alpha_pow(((p % 255) % 255) as nat));
        }
        self.exp[p % 255]
    }

    /// The discrete logarithm of a nonzero `a` (0 for `a == 0`).
    pub(crate) fn log(&self, a: u8) -> (r: u8)
        requires
            self.wf(),
        ensures
            a != 0 ==> r < 255 && alpha_pow(r as nat) == a,
            a == 0 ==> r == 0,
    {
        proof {
            if a != 0 {
                assert(self.log@[a as int] < 255);
            }
        }
        self.log[a as usize]
    }
}

proof fn lemma_xtime_exec(x: u16)
    by (bit_vector)
    requires
        x < 256,
    ensures
        ({
            let y = x << 1u16;
            let z = if y & 0x100u16 != 0u16 { y ^ 0x11du16 } else { y };
            z < 256 && z as u8 == xtime(x as u8)
        }),
{
}

/// Builds the exp and log tables by repeated multiplication by alpha.
pub(crate) fn build_gf() -> (g: Gf)
    ensures
        g.wf(),
{
    let mut exp: Vec<u8> = vec![0u8; 512];
    let mut log: Vec<u8> = vec![0u8; 256];
    let mut x: u16 = 1;
    let mut i: usize = 0;
    while i < 255
        invariant
            0 <= i <= 255,
            exp@.len() == 512,
            log@.len() == 256,
            x < 256,
            x as u8 == alpha_pow(i as nat),
            forall|k: int| 0 <= k < i ==> #[trigger] exp@[k] == alpha_pow(k as nat),
            log@[0] == 0,
            forall|k: int|
                0 <= k < i ==> #[trigger] log@[alpha_pow(k as nat) as int] < i && alpha_pow(
                    log@[alpha_pow(k as nat) as int] as nat,
                ) == alpha_pow(k as nat),
        decreases 255 - i,
    {
        proof {
            lemma_alpha_pow_nonzero(i as nat);
        }
        exp.set(i, x as u8);
        log.set(x as usize, i as u8);
        proof {
            lemma_xtime_exec(x);
            assert forall|k: int| 0 <= k < i + 1 implies #[trigger] log@[alpha_pow(k as nat) as int]
                < i + 1 && alpha_pow(log@[alpha_pow(k as nat) as int] as nat) == alpha_pow(
                k as nat,
            ) by {
                if alpha_pow(k as nat) == x as u8 {
                } else {
                }
            }
        }
        x = x << 1;
        if x & 0x100 != 0 {
            x = x ^ 0x11d;
        }
        i = i + 1;
    }
    let mut j: usize = 255;
    while j < 512
        invariant
            255 <= j <= 512,
            exp@.len() == 512,
            forall|k: int| 0 <= k < 255 ==> #[trigger] exp@[k] == alpha_pow(k as nat),
            forall|k: int| 255 <= k < j ==> #[trigger] exp@[k] == alpha_pow((k % 255) as nat),
        decreases 512 - j,
    {
        let v = exp[j - 255];
        exp.set(j, v);
        j = j + 1;
    }
    proof {
        assert forall|a: int| 1 <= a < 256 implies #[trigger] log@[a] < 255 && alpha_pow(
            log@[a] as nat,
        ) == a as u8 by {
            lemma_alpha_pow_onto(a as u8);
            let k = choose|k: nat| k < 255 && alpha_pow(k) == a as u8;
            let ki = k as int;
            assert(alpha_pow(ki as nat) == a as u8);
            assert(log@[alpha_pow(ki as nat) as int] < 255);
            assert((a as u8) as int == a);
        }
        assert forall|k: int| 0 <= k < 512 implies #[trigger] exp@[k] == alpha_pow(
            (k % 255) as nat,
        ) by {
            if k < 255 {
                assert(k % 255 == k);
            }
        }
    }
    Gf { exp, log }
}

} // verus!
