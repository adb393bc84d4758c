//! GF(2^8) arithmetic for Q-parity reconstruction.
//!
//! The field is GF(2^8) with reduction byte 0x1d (x^8 + x^4 + x^3 + x^2 + 1,
//! the Linux raid6 field) and generator g = 2. Q at each offset is the XOR over
//! slots j of g^(j-1) * D_j.

use vstd::prelude::*;
use vstd::relations::injective_on;
use vstd::set_lib::{lemma_int_range, lemma_map_size, lemma_subset_equality, set_int_range};

verus! {

// ---------------------------------------------------------------------------
// The field
// ---------------------------------------------------------------------------

/// `a * x`: shift left and reduce by the field polynomial when the high bit
/// escapes.
pub open spec fn xtime(a: u8) -> u8 {
    (a << 1) ^ (if a & 0x80 != 0 { 0x1du8 } else { 0u8 })
}

/// The product of `a` and `b` in the field.
pub open spec fn gmul(a: u8, b: u8) -> u8
    decreases b,
{
    if b == 0 {
        0
    } else {
        proof {
            assert(b != 0 ==> (b >> 1) < b) by (bit_vector);
        }
        (if b & 1 != 0 { a } else { 0u8 }) ^ gmul(xtime(a), b >> 1)
    }
}

/// `x^n` in the field.
pub open spec fn gpow(x: u8, n: nat) -> u8
    decreases n,
{
    if n == 0 {
        1
    } else {
        gmul(x, gpow(x, (n - 1) as nat))
    }
}

/// `g^e`, the exponent taken mod 255 (g^255 == g^0), negative ones included.
pub open spec fn gexp(e: int) -> u8 {
    gpow(2, (e % 255) as nat)
}

/// `x^-1`, with 0 for 0, which has no inverse.
pub open spec fn ginv(x: u8) -> u8 {
    if x == 0 { 0 } else { gpow(x, 254) }
}

/// Entry `e` of the table of generator powers: `g^e` below 255 and the 0
/// sentinel at 255.
pub open spec fn gfexp_entry(e: int) -> u8 {
    if e < 255 { gpow(2, e as nat) } else { 0 }
}

/// Entry `e` of the table for the two-disk solve: `(g^e XOR 1)^-1`.
pub open spec fn gfexi_entry(e: int) -> u8 {
    ginv(gfexp_entry(e) ^ 1)
}

// ---------------------------------------------------------------------------
// Ring laws
// ---------------------------------------------------------------------------

/// XOR is a commutative group operation in which every byte is its own inverse.
pub proof fn lemma_xor(a: u8, b: u8, c: u8)
    by (bit_vector)
    ensures
        a ^ b == b ^ a,
        (a ^ b) ^ c == a ^ (b ^ c),
        a ^ a == 0,
        a ^ 0 == a,
        0u8 ^ a == a,
        (a ^ b) ^ b == a,
{
}

proof fn lemma_xtime_linear(a: u8, b: u8)
    by (bit_vector)
    ensures
        xtime(a ^ b) == xtime(a) ^ xtime(b),
        xtime(0) == 0,
{
}

proof fn lemma_shift(b: u8, c: u8)
    by (bit_vector)
    ensures
        b != 0 ==> (b >> 1) < b,
        0u8 >> 1 == 0u8,
        0u8 & 1 == 0u8,
        (b ^ c) >> 1 == (b >> 1) ^ (c >> 1),
        ((b ^ c) & 1 != 0) <==> ((b & 1 != 0) != (c & 1 != 0)),
        b == (if b & 1 != 0 { 1u8 } else { 0u8 }) ^ xtime(b >> 1),
        (xtime(b) >> 1) == (if b & 0x80 != 0 { (b << 1 >> 1) ^ 0x0e } else { b }),
        1u8 >> 1 == 0u8,
        1u8 & 1 == 1u8,
        2u8 >> 1 == 1u8,
        2u8 & 1 == 0u8,
        b & 1 == 0 || b & 1 == 1,
{
}

/// Four-way exchange used by the distributive laws.
pub proof fn lemma_xor_swap(a: u8, b: u8, c: u8, d: u8)
    by (bit_vector)
    ensures
        (a ^ b) ^ (c ^ d) == (a ^ c) ^ (b ^ d),
{
}

/// One unrolling of the product, at zero too.
proof fn lemma_gmul_step(a: u8, b: u8)
    ensures
        gmul(a, b) == (if b & 1 != 0 { a } else { 0u8 }) ^ gmul(xtime(a), b >> 1),
{
    lemma_shift(b, b);
    lemma_xor(0, 0, 0);
}

proof fn lemma_gmul_zero_left(b: u8)
    ensures
        gmul(0, b) == 0,
    decreases b,
{
    if b != 0 {
        lemma_shift(b, b);
        lemma_xtime_linear(0, 0);
        lemma_xor(0, 0, 0);
        lemma_gmul_zero_left(b >> 1);
    }
}

/// Zero annihilates.
pub proof fn lemma_gmul_zero(a: u8)
    ensures
        gmul(0, a) == 0,
        gmul(a, 0) == 0,
{
    lemma_gmul_zero_left(a);
}

/// Multiplication distributes over XOR on the left.
pub proof fn lemma_gmul_distributes_left(a: u8, c: u8, b: u8)
    ensures
        gmul(a ^ c, b) == gmul(a, b) ^ gmul(c, b),
    decreases b,
{
    if b == 0 {
        lemma_xor(0, 0, 0);
    } else {
        lemma_shift(b, b);
        lemma_xtime_linear(a, c);
        lemma_gmul_distributes_left(xtime(a), xtime(c), b >> 1);
        let t: u8 = b >> 1;
        let ta: u8 = if b & 1 != 0 { a } else { 0 };
        let tc: u8 = if b & 1 != 0 { c } else { 0 };
        lemma_xor_swap(ta, tc, gmul(xtime(a), t), gmul(xtime(c), t));
        lemma_xor(0, 0, 0);
    }
}

/// Multiplication distributes over XOR on the right.
pub proof fn lemma_gmul_distributes_right(a: u8, b: u8, c: u8)
    ensures
        gmul(a, b ^ c) == gmul(a, b) ^ gmul(a, c),
    decreases b, c,
{
    lemma_gmul_step(a, b);
    lemma_gmul_step(a, c);
    lemma_gmul_step(a, b ^ c);
    lemma_shift(b, c);
    lemma_shift(c, b);
    lemma_xor(b, c, 0);
    lemma_xor(c, c, 0);
    if b == 0 {
        lemma_xor(gmul(a, c), 0, 0);
    } else if c == 0 {
        lemma_xor(gmul(a, b), 0, 0);
    } else {
        let x: u8 = xtime(a);
        lemma_gmul_distributes_right(x, b >> 1, c >> 1);
        let tb: u8 = if b & 1 != 0 { a } else { 0 };
        let tc: u8 = if c & 1 != 0 { a } else { 0 };
        lemma_xor_swap(tb, gmul(x, b >> 1), tc, gmul(x, c >> 1));
        lemma_xor(a, a, 0);
        lemma_xor(a, 0, 0);
        lemma_xor(0, 0, 0);
    }
}

proof fn lemma_xtime_out(a: u8, b: u8)
    ensures
        gmul(xtime(a), b) == xtime(gmul(a, b)),
    decreases b,
{
    lemma_xtime_linear(0, 0);
    if b != 0 {
        lemma_shift(b, b);
        lemma_xtime_out(xtime(a), b >> 1);
        let t: u8 = if b & 1 != 0 { a } else { 0 };
        lemma_xtime_linear(t, gmul(xtime(a), b >> 1));
    }
}

/// The product as a flat eight-term sum, for bit-level facts.
spec fn gmul_flat(a: u8, b: u8) -> u8 {
    let a1 = xtime(a);
    let a2 = xtime(a1);
    let a3 = xtime(a2);
    let a4 = xtime(a3);
    let a5 = xtime(a4);
    let a6 = xtime(a5);
    let a7 = xtime(a6);
    (if b & 1 != 0 { a } else { 0u8 })
    ^ (if b & 2 != 0 { a1 } else { 0u8 })
    ^ (if b & 4 != 0 { a2 } else { 0u8 })
    ^ (if b & 8 != 0 { a3 } else { 0u8 })
    ^ (if b & 16 != 0 { a4 } else { 0u8 })
    ^ (if b & 32 != 0 { a5 } else { 0u8 })
    ^ (if b & 64 != 0 { a6 } else { 0u8 })
    ^ (if b & 128 != 0 { a7 } else { 0u8 })
}

proof fn lemma_gmul_flat(a: u8, b: u8)
    ensures
        gmul(a, b) == gmul_flat(a, b),
{
    let a1 = xtime(a);
    let a2 = xtime(a1);
    let a3 = xtime(a2);
    let a4 = xtime(a3);
    let a5 = xtime(a4);
    let a6 = xtime(a5);
    let a7 = xtime(a6);
    let a8 = xtime(a7);
    let b1 = b >> 1;
    let b2 = b1 >> 1;
    let b3 = b2 >> 1;
    let b4 = b3 >> 1;
    let b5 = b4 >> 1;
    let b6 = b5 >> 1;
    let b7 = b6 >> 1;
    let b8 = b7 >> 1;
    lemma_gmul_step(a, b);
    lemma_gmul_step(a1, b1);
    lemma_gmul_step(a2, b2);
    lemma_gmul_step(a3, b3);
    lemma_gmul_step(a4, b4);
    lemma_gmul_step(a5, b5);
    lemma_gmul_step(a6, b6);
    lemma_gmul_step(a7, b7);
    assert(b8 == 0 && (b1 & 1 != 0) == (b & 2 != 0) && (b2 & 1 != 0) == (b & 4 != 0) && (b3 & 1
        != 0) == (b & 8 != 0) && (b4 & 1 != 0) == (b & 16 != 0) && (b5 & 1 != 0) == (b & 32 != 0)
        && (b6 & 1 != 0) == (b & 64 != 0) && (b7 & 1 != 0) == (b & 128 != 0)) by (bit_vector)
        requires
            b1 == b >> 1,
            b2 == b1 >> 1,
            b3 == b2 >> 1,
            b4 == b3 >> 1,
            b5 == b4 >> 1,
            b6 == b5 >> 1,
            b7 == b6 >> 1,
            b8 == b7 >> 1,
    ;
    let t0: u8 = if b & 1 != 0 { a } else { 0 };
    let t1: u8 = if b & 2 != 0 { a1 } else { 0 };
    let t2: u8 = if b & 4 != 0 { a2 } else { 0 };
    let t3: u8 = if b & 8 != 0 { a3 } else { 0 };
    let t4: u8 = if b & 16 != 0 { a4 } else { 0 };
    let t5: u8 = if b & 32 != 0 { a5 } else { 0 };
    let t6: u8 = if b & 64 != 0 { a6 } else { 0 };
    let t7: u8 = if b & 128 != 0 { a7 } else { 0 };
    assert(gmul(a, b) == t0 ^ (t1 ^ (t2 ^ (t3 ^ (t4 ^ (t5 ^ (t6 ^ (t7 ^ 0))))))));
    assert(t0 ^ (t1 ^ (t2 ^ (t3 ^ (t4 ^ (t5 ^ (t6 ^ (t7 ^ 0))))))) == t0 ^ t1 ^ t2 ^ t3 ^ t4 ^ t5
        ^ t6 ^ t7) by (bit_vector);
}

/// One is neutral.
pub proof fn lemma_gmul_one(a: u8)
    ensures
        gmul(a, 1) == a,
        gmul(1, a) == a,
{
    lemma_gmul_flat(a, 1);
    lemma_gmul_flat(1, a);
    assert(gmul_flat(a, 1) == a && gmul_flat(1, a) == a) by (bit_vector);
}

proof fn lemma_xtime_in(a: u8, b: u8)
    ensures
        gmul(a, xtime(b)) == xtime(gmul(a, b)),
{
    let p = gmul(a, b);
    let x = xtime(b);
    lemma_gmul_flat(a, b);
    lemma_gmul_flat(a, x);
    assert(gmul_flat(a, xtime(b)) == xtime(gmul_flat(a, b))) by (bit_vector);
}

/// Multiplication commutes.
pub proof fn lemma_gmul_commutes(a: u8, b: u8)
    ensures
        gmul(a, b) == gmul(b, a),
    decreases b,
{
    lemma_gmul_zero(a);
    if b != 0 {
        lemma_shift(b, b);
        let low: u8 = if b & 1 != 0 { 1 } else { 0 };
        let rest: u8 = b >> 1;
        lemma_gmul_distributes_left(low, xtime(rest), a);
        lemma_xtime_out(rest, a);
        lemma_xtime_out(a, rest);
        lemma_gmul_commutes(a, rest);
        lemma_gmul_one(a);
    }
}

/// Multiplication associates.
pub proof fn lemma_gmul_associates(a: u8, b: u8, c: u8)
    ensures
        gmul(gmul(a, b), c) == gmul(a, gmul(b, c)),
    decreases c,
{
    if c != 0 {
        lemma_shift(c, c);
        lemma_xtime_in(a, b);
        lemma_gmul_associates(a, xtime(b), c >> 1);
        let t: u8 = if c & 1 != 0 { b } else { 0 };
        lemma_gmul_distributes_right(a, t, gmul(xtime(b), c >> 1));
        lemma_gmul_zero(a);
    } else {
        lemma_gmul_zero(a);
    }
}

// ---------------------------------------------------------------------------
// Powers, inverses and the order of the generator
// ---------------------------------------------------------------------------

/// Exponents add.
pub proof fn lemma_gpow_adds(x: u8, m: nat, n: nat)
    ensures
        gpow(x, m + n) == gmul(gpow(x, m), gpow(x, n)),
    decreases m,
{
    if m == 0 {
        lemma_gmul_one(gpow(x, n));
    } else {
        lemma_gpow_adds(x, (m - 1) as nat, n);
        lemma_gmul_associates(x, gpow(x, (m - 1) as nat), gpow(x, n));
    }
}

proof fn lemma_gpow_one(x: u8)
    ensures
        gpow(x, 1) == x,
{
    reveal_with_fuel(gpow, 2);
    lemma_gmul_one(x);
}

/// One to any power is one.
proof fn lemma_gpow_of_one(n: nat)
    ensures
        gpow(1, n) == 1,
    decreases n,
{
    if n > 0 {
        lemma_gpow_of_one((n - 1) as nat);
        lemma_gmul_one(1);
    }
}

/// Exponents multiply.
proof fn lemma_gpow_multiplies(x: u8, m: nat, n: nat)
    ensures
        gpow(x, m * n) == gpow(gpow(x, m), n),
    decreases n,
{
    if n == 0 {
        assert(m * n == 0) by (nonlinear_arith)
            requires
                n == 0,
        ;
    } else {
        let k: nat = (n - 1) as nat;
        lemma_gpow_multiplies(x, m, k);
        assert(m * n == m + m * k) by (nonlinear_arith)
            requires
                n == k + 1,
        ;
        lemma_gpow_adds(x, m, m * k);
    }
}

/// The generator times itself: every product below is one of two known powers.
proof fn lemma_gen_powers()
    ensures
        gpow(2, 1) == 2,
        gpow(2, 3) == 0x08,
        gpow(2, 5) == 0x20,
        gpow(2, 15) == 0x26,
        gpow(2, 17) == 0x98,
        gpow(2, 51) == 0x0a,
        gpow(2, 85) == 0xd6,
        gpow(2, 255) == 1,
{
    lemma_gpow_one(2);
    lemma_gpow_adds(2, 1, 1);
    lemma_gpow_adds(2, 2, 1);
    lemma_gpow_adds(2, 2, 3);
    lemma_gpow_adds(2, 5, 5);
    lemma_gpow_adds(2, 10, 5);
    lemma_gpow_adds(2, 15, 2);
    lemma_gpow_adds(2, 17, 17);
    lemma_gpow_adds(2, 34, 17);
    lemma_gpow_adds(2, 51, 34);
    lemma_gpow_adds(2, 85, 85);
    lemma_gpow_adds(2, 170, 85);
    lemma_gmul_flat(2, 2);
    lemma_gmul_flat(0x04, 2);
    lemma_gmul_flat(0x04, 0x08);
    lemma_gmul_flat(0x20, 0x20);
    lemma_gmul_flat(0x74, 0x20);
    lemma_gmul_flat(0x26, 0x04);
    lemma_gmul_flat(0x98, 0x98);
    lemma_gmul_flat(0x4e, 0x98);
    lemma_gmul_flat(0x0a, 0x4e);
    lemma_gmul_flat(0xd6, 0xd6);
    lemma_gmul_flat(0xd7, 0xd6);
    assert(gmul_flat(2, 2) == 0x04 && gmul_flat(0x04, 2) == 0x08 && gmul_flat(0x04, 0x08) == 0x20
        && gmul_flat(0x20, 0x20) == 0x74 && gmul_flat(0x74, 0x20) == 0x26 && gmul_flat(0x26, 0x04)
        == 0x98 && gmul_flat(0x98, 0x98) == 0x4e && gmul_flat(0x4e, 0x98) == 0x0a && gmul_flat(
        0x0a,
        0x4e,
    ) == 0xd6 && gmul_flat(0xd6, 0xd6) == 0xd7 && gmul_flat(0xd7, 0xd6) == 1) by (bit_vector);
}

/// The generator has order exactly 255: no smaller positive power is one.
pub proof fn lemma_generator_order(d: nat)
    requires
        0 < d < 255,
    ensures
        gpow(2, d) != 1,
    decreases d,
{
    if gpow(2, d) == 1 {
        let q: nat = 255nat / d;
        let r: nat = 255nat % d;
        assert(d * q + r == 255) by (nonlinear_arith)
            requires
                q == 255nat / d,
                r == 255nat % d,
                d > 0,
        ;
        lemma_gen_powers();
        lemma_gpow_adds(2, d * q, r);
        lemma_gpow_multiplies(2, d, q);
        lemma_gpow_of_one(q);
        lemma_gmul_one(gpow(2, r));
        if r > 0 {
            lemma_generator_order(r);
        } else {
            let e: u8 = d as u8;
            assert(0 < e < 255 && 255u8 % e == 0 ==> e == 1 || e == 3 || e == 5 || e == 15 || e
                == 17 || e == 51 || e == 85) by (bit_vector);
        }
    }
}

/// No power of the generator is zero.
pub proof fn lemma_gen_pow_nonzero(n: nat)
    ensures
        gpow(2, n) != 0,
    decreases n,
{
    if n > 0 {
        let v = gpow(2, (n - 1) as nat);
        lemma_gen_pow_nonzero((n - 1) as nat);
        lemma_gmul_one(v);
        lemma_xtime_out(1, v);
        assert(xtime(1) == 2 && (v != 0 ==> xtime(v) != 0)) by (bit_vector);
    }
}

/// The first 255 powers of the generator are pairwise different.
pub proof fn lemma_gen_pow_injective(i: nat, j: nat)
    requires
        i < j < 255,
    ensures
        gpow(2, i) != gpow(2, j),
{
    if gpow(2, i) == gpow(2, j) {
        let k: nat = (255 - i) as nat;
        let d: nat = (j - i) as nat;
        lemma_gpow_adds(2, i, k);
        lemma_gpow_adds(2, j, k);
        lemma_gpow_adds(2, 255, d);
        lemma_gen_powers();
        lemma_gmul_one(gpow(2, d));
        lemma_generator_order(d);
    }
}

/// Every nonzero element is a power of the generator.
pub proof fn lemma_generator_generates(x: u8)
    requires
        x != 0,
    ensures
        exists|k: nat| k < 255 && #[trigger] gpow(2, k) == x,
{
    let f = |k: int| gpow(2, k as nat) as int;
    let dom = set_int_range(0, 255);
    let all = set_int_range(1, 256);
    lemma_int_range(0, 255);
    lemma_int_range(1, 256);
    assert(injective_on(f, dom)) by {
        assert forall|i: int, j: int| dom.contains(i) && dom.contains(j) && #[trigger] f(i)
            == #[trigger] f(j) implies i == j by {
            if i < j {
                lemma_gen_pow_injective(i as nat, j as nat);
            } else if j < i {
                lemma_gen_pow_injective(j as nat, i as nat);
            }
        }
    }
    let image = dom.map(f);
    lemma_map_size(dom, image, f);
    assert(image.subset_of(all)) by {
        assert forall|y: int| image.contains(y) implies all.contains(y) by {
            let k = choose|k: int| dom.contains(k) && f(k) == y;
            lemma_gen_pow_nonzero(k as nat);
        }
    }
    lemma_subset_equality(image, all);
    assert(image.contains(x as int));
    let k = choose|k: int| dom.contains(k) && f(k) == x as int;
    assert(gpow(2, k as nat) == x);
}

/// Every nonzero element to the power 255 is one.
pub proof fn lemma_gpow_period(x: u8)
    requires
        x != 0,
    ensures
        gpow(x, 255) == 1,
{
    lemma_generator_generates(x);
    let k = choose|k: nat| k < 255 && #[trigger] gpow(2, k) == x;
    lemma_gpow_multiplies(2, k, 255);
    lemma_gpow_multiplies(2, 255, k);
    assert(k * 255 == 255 * k);
    lemma_gen_powers();
    lemma_gpow_of_one(k);
}

/// A nonzero element times its inverse is one, and that inverse is not zero.
pub proof fn lemma_ginv(x: u8)
    requires
        x != 0,
    ensures
        gmul(x, ginv(x)) == 1,
        gmul(ginv(x), x) == 1,
        ginv(x) != 0,
{
    lemma_gpow_period(x);
    lemma_gmul_commutes(x, ginv(x));
    lemma_gmul_zero(x);
    assert(gpow(x, 255) == gmul(x, gpow(x, 254)));
}

/// A product is zero only when a factor is.
pub proof fn lemma_no_zero_divisors(a: u8, b: u8)
    requires
        gmul(a, b) == 0,
    ensures
        a == 0 || b == 0,
{
    if a != 0 {
        lemma_ginv(a);
        lemma_gmul_associates(ginv(a), a, b);
        lemma_gmul_one(b);
        lemma_gmul_zero(ginv(a));
    }
}

/// Powers of the generator repeat with period 255.
pub proof fn lemma_gen_pow_mod(n: nat)
    ensures
        gpow(2, n) == gexp(n as int),
{
    let q: nat = n / 255;
    let r: nat = n % 255;
    lemma_gpow_adds(2, 255 * q, r);
    lemma_gpow_multiplies(2, 255, q);
    lemma_gpow_period(2);
    lemma_gpow_of_one(q);
    lemma_gmul_one(gpow(2, r));
}

/// `g^a * g^b == g^(a+b)` for all exponents, negative ones included.
pub proof fn lemma_gexp_adds(a: int, b: int)
    ensures
        gmul(gexp(a), gexp(b)) == gexp(a + b),
        gexp(a) != 0,
{
    let m: nat = (a % 255) as nat;
    let n: nat = (b % 255) as nat;
    lemma_gpow_adds(2, m, n);
    lemma_gen_pow_mod(m + n);
    lemma_gen_pow_nonzero(m);
    assert((m + n) as int % 255 == (a + b) % 255);
}

/// Two columns fewer than 255 apart have different coefficients.
pub proof fn lemma_gexp_distinct(a: int, b: int)
    requires
        0 <= a < b < 255,
    ensures
        gexp(a) ^ gexp(b) != 0,
        gexp(a) ^ gexp(b) == gmul(gexp(a), gexp(b - a) ^ 1),
        gexp(b - a) ^ 1 != 0,
{
    let d = b - a;
    lemma_generator_order(d as nat);
    lemma_gexp_adds(a, d);
    lemma_gmul_one(gexp(a));
    lemma_gmul_distributes_right(gexp(a), gexp(d), 1);
    lemma_xor(gexp(a), gexp(b), 0);
    lemma_xor(gexp(d), 1, 0);
    lemma_xor(1, 1, 0);
    if gexp(d) ^ 1 == 0 {
        lemma_xor(1, 0, 0);
    }
    if gexp(a) ^ gexp(b) == 0 {
        lemma_no_zero_divisors(gexp(a), gexp(d) ^ 1);
    }
}

// ---------------------------------------------------------------------------
// Executable arithmetic and tables
// ---------------------------------------------------------------------------

/// Field multiplication by shift and reduce.
pub fn gf_mul_scalar(a: u8, b: u8) -> (r: u8)
    ensures
        r == gmul(a, b),
{
    let mut a: u8 = a;
    let mut b: u8 = b;
    let mut v: u8 = 0;
    let ghost product = gmul(a, b);
    proof {
        lemma_xor(product, 0, 0);
    }
    while b != 0
        invariant
            v ^ gmul(a, b) == product,
        decreases b,
    {
        proof {
            lemma_gmul_step(a, b);
            lemma_shift(b, b);
            lemma_xor(v, a, gmul(xtime(a), b >> 1));
            lemma_xor(gmul(xtime(a), b >> 1), 0, 0);
        }
        if b & 1 != 0 {
            v = v ^ a;
        }
        let hi: u8 = a & 0x80;
        a = (a << 1) ^ (if hi != 0 { 0x1d } else { 0 });
        b = b >> 1;
    }
    proof {
        lemma_xor(v, 0, 0);
    }
    v
}

/// Row `a` of the multiplication table: entry `b` is `a * b`.
pub fn gfmul_row(a: u8) -> (t: [u8; 256])
    ensures
        forall|b: int| 0 <= b < 256 ==> #[trigger] t@[b] == gmul(a, b as u8),
{
    let mut t: [u8; 256] = [0u8; 256];
    let mut b: usize = 0;
    while b < 256
        invariant
            b <= 256,
            forall|i: int| 0 <= i < b ==> #[trigger] t@[i] == gmul(a, i as u8),
        decreases 256 - b,
    {
        t[b] = gf_mul_scalar(a, b as u8);
        b = b + 1;
    }
    t
}

/// The 256x256 multiplication table: `t[a][b] = a * b` in the field.
pub fn build_gfmul() -> (t: Vec<[u8; 256]>)
    ensures
        t@.len() == 256,
        forall|a: int, b: int|
            0 <= a < 256 && 0 <= b < 256 ==> #[trigger] t@[a]@[b] == gmul(a as u8, b as u8),
{
    let mut t: Vec<[u8; 256]> = Vec::new();
    let mut a: usize = 0;
    while a < 256
        invariant
            a <= 256,
            t@.len() == a,
            forall|i: int, b: int|
                0 <= i < a && 0 <= b < 256 ==> #[trigger] t@[i]@[b] == gmul(i as u8, b as u8),
        decreases 256 - a,
    {
        let row = gfmul_row(a as u8);
        t.push(row);
        a = a + 1;
    }
    t
}

/// Powers of the generator: `t[e] = g^e` below 255; entry 255 is a 0 sentinel
/// (g^255 == 1 would alias entry 0).
pub fn build_gfexp() -> (t: [u8; 256])
    ensures
        forall|e: int| 0 <= e < 256 ==> #[trigger] t@[e] == gfexp_entry(e),
{
    let mut t: [u8; 256] = [0u8; 256];
    let mut v: u8 = 1;
    let mut i: usize = 0;
    while i < 255
        invariant
            i <= 255,
            v == gpow(2, i as nat),
            forall|e: int| 0 <= e < i ==> #[trigger] t@[e] == gfexp_entry(e),
        decreases 255 - i,
    {
        t[i] = v;
        proof {
            lemma_gmul_one(v);
            lemma_xtime_out(1, v);
            assert(xtime(1) == 2) by (bit_vector);
        }
        let hi: u8 = v & 0x80;
        v = (v << 1) ^ (if hi != 0 { 0x1d } else { 0 });
        i = i + 1;
    }
    t[255] = 0;
    t
}

/// `x^p` by repeated squaring.
pub fn gf_pow_const(x: u8, p: u32) -> (r: u8)
    ensures
        r == gpow(x, p as nat),
{
    let mut v: u8 = 1;
    let mut a: u8 = x;
    let mut p: u32 = p;
    let ghost whole = gpow(x, p as nat);
    proof {
        lemma_gmul_one(whole);
    }
    while p > 0
        invariant
            gmul(v, gpow(a, p as nat)) == whole,
        decreases p,
    {
        let ghost half: nat = (p / 2) as nat;
        proof {
            assert((p & 1 != 0) == (p % 2 == 1) && p >> 1 == p / 2) by (bit_vector);
            lemma_gpow_one(a);
            lemma_gpow_adds(a, 1, 1);
            lemma_gpow_multiplies(a, 2, half);
            lemma_gpow_adds(a, 1, 2 * half);
            lemma_gmul_associates(v, a, gpow(a, 2 * half));
        }
        if p & 1 != 0 {
            v = gf_mul_scalar(v, a);
        }
        a = gf_mul_scalar(a, a);
        p = p >> 1;
    }
    proof {
        lemma_gmul_one(v);
    }
    v
}

/// Multiplicative inverses: `t[x] = x^-1`, with `t[0] = 0`.
pub fn build_gfinv() -> (t: [u8; 256])
    ensures
        forall|x: int| 0 <= x < 256 ==> #[trigger] t@[x] == ginv(x as u8),
{
    let mut t: [u8; 256] = [0u8; 256];
    let mut i: usize = 0;
    while i < 256
        invariant
            i <= 256,
            forall|x: int| 0 <= x < i ==> #[trigger] t@[x] == ginv(x as u8),
        decreases 256 - i,
    {
        t[i] = if i == 0 { 0 } else { gf_pow_const(i as u8, 254) };
        i = i + 1;
    }
    t
}

/// `t[e] = (g^e XOR 1)^-1`, the coefficients of the two-disk solve.
pub fn build_gfexi() -> (t: [u8; 256])
    ensures
        forall|e: int| 0 <= e < 256 ==> #[trigger] t@[e] == gfexi_entry(e),
{
    let gfinv = build_gfinv();
    let gfexp = build_gfexp();
    let mut t: [u8; 256] = [0u8; 256];
    let mut i: usize = 0;
    while i < 256
        invariant
            i <= 256,
            forall|x: int| 0 <= x < 256 ==> #[trigger] gfinv@[x] == ginv(x as u8),
            forall|e: int| 0 <= e < 256 ==> #[trigger] gfexp@[e] == gfexp_entry(e),
            forall|e: int| 0 <= e < i ==> #[trigger] t@[e] == gfexi_entry(e),
        decreases 256 - i,
    {
        let k: u8 = gfexp[i] ^ 1;
        t[i] = gfinv[k as usize];
        i = i + 1;
    }
    t
}

/// An exponent mod 255 (negative allowed).
fn exponent(e: i32) -> (r: u32)
    ensures
        r == e as int % 255,
{
    let m: i32 = e % 255;
    if m < 0 {
        (m + 255) as u32
    } else {
        m as u32
    }
}

/// `g^e`, with the exponent taken mod 255 (g^255 == g^0).
pub fn gf_exp(e: i32) -> (r: u8)
    ensures
        r == gexp(e as int),
{
    gf_pow_const(2, exponent(e))
}

/// `x^-1 = x^254`; zero has no inverse and maps to 0.
pub fn gf_inv(x: u8) -> (r: u8)
    ensures
        r == ginv(x),
{
    if x == 0 {
        return 0;
    }
    gf_pow(x, 254)
}

/// `x^p` by repeated squaring, the exponent taken mod 255 (negative allowed).
pub fn gf_pow(x: u8, p: i32) -> (r: u8)
    ensures
        r == gpow(x, (p as int % 255) as nat),
{
    gf_pow_const(x, exponent(p))
}

/// Field multiplication.
pub fn gf_mul(a: u8, b: u8) -> (r: u8)
    ensures
        r == gmul(a, b),
{
    gf_mul_scalar(a, b)
}

} // verus!
