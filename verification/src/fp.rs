//! A word-sized prime field: residues modulo a constant below 2^64.

use vstd::prelude::*;
use vstd::arithmetic::div_mod::*;
use crate::field::{divides, finv, is_inverse, lemma_mul_congruent, lemma_sub_congruent, Field};
use crate::ring::lemma_inverse_unique;

verus! {

/// An element of the integers modulo `P`, kept as a residue below `P`.
/// A modulus below 2 is read as 2.
#[derive(Clone, Copy, Debug, PartialEq, Eq)]
pub struct Fp<const P: u64> {
    pub v: u64,
}

impl<const P: u64> Fp<P> {
    /// The modulus in use.
    pub open spec fn spec_modulus() -> int {
        if P >= 2 {
            P as int
        } else {
            2
        }
    }

    /// The modulus in use, as a word.
    pub fn modulus_u64() -> (m: u64)
        ensures
            m as int == Self::spec_modulus(),
    {
        if P >= 2 {
            P
        } else {
            2
        }
    }

    /// The element that `x` reduces to.
    pub fn new(x: u64) -> (r: Self)
        ensures
            r.value() == (x as int) % Self::spec_modulus(),
            r.v as int == r.value(),
    {
        let m = Self::modulus_u64();
        proof {
            lemma_mod_twice(x as int, m as int);
        }
        Fp { v: x % m }
    }
}

impl<const P: u64> Field for Fp<P> {
    open spec fn modulus() -> int {
        Self::spec_modulus()
    }

    open spec fn value(&self) -> int {
        (self.v as int) % Self::spec_modulus()
    }

    proof fn lemma_modulus_bounds() {
    }

    proof fn lemma_value_bounds(&self) {
        lemma_mod_bound(self.v as int, Self::spec_modulus());
    }

    fn from_u64(x: u64) -> (r: Self) {
        Self::new(x)
    }

    fn to_u64(&self) -> (r: u64) {
        self.v % Self::modulus_u64()
    }

    fn add(&self, rhs: &Self) -> (r: Self) {
        let m = Self::modulus_u64();
        let a: u128 = (self.v % m) as u128;
        let b: u128 = (rhs.v % m) as u128;
        let s: u64 = ((a + b) % (m as u128)) as u64;
        proof {
            lemma_small_mod(s as nat, m as nat);
        }
        Fp { v: s }
    }

    fn sub(&self, rhs: &Self) -> (r: Self) {
        let m = Self::modulus_u64();
        let a: u128 = (self.v % m) as u128;
        let b: u128 = (rhs.v % m) as u128;
        let s: u64 = ((a + (m as u128) - b) % (m as u128)) as u64;
        proof {
            lemma_small_mod(s as nat, m as nat);
            lemma_mod_add_multiples_vanish(a as int - b as int, m as int);
        }
        Fp { v: s }
    }

    fn mul(&self, rhs: &Self) -> (r: Self) {
        let m = Self::modulus_u64();
        let a: u128 = (self.v % m) as u128;
        let b: u128 = (rhs.v % m) as u128;
        proof {
            assert(a * b <= 0xFFFF_FFFF_FFFF_FFFF * 0xFFFF_FFFF_FFFF_FFFF) by (nonlinear_arith)
                requires
                    0 <= a <= 0xFFFF_FFFF_FFFF_FFFF,
                    0 <= b <= 0xFFFF_FFFF_FFFF_FFFF,
            ;
        }
        let s: u64 = ((a * b) % (m as u128)) as u64;
        proof {
            lemma_small_mod(s as nat, m as nat);
        }
        Fp { v: s }
    }

    fn inv(&self) -> (r: Self) {
        let m = Self::modulus_u64();
        let a: u64 = self.v % m;
        let mut r0: u64 = m;
        let mut r1: u64 = a;
        let mut t0: u64 = 0;
        let mut t1: u64 = 1 % m;
        proof {
            lemma_small_mod(1, m as nat);
            lemma_mod_self_0(m as int);
            assert(0 * (a as int) == 0);
            lemma_small_mod(0, m as nat);
            lemma_small_mod(a as nat, m as nat);
            assert(1 * (a as int) == a as int);
        }
        while r1 != 0
            invariant
                m as int == Self::spec_modulus(),
                a < m,
                0 <= t0 < m,
                0 <= t1 < m,
                r0 > 0,
                r1 < m,
                r0 <= m,
                (t0 as int * a as int) % (m as int) == (r0 as int) % (m as int),
                (t1 as int * a as int) % (m as int) == (r1 as int) % (m as int),
                forall|d: int|
                    d > 0 && #[trigger] divides(d, r0 as int) && divides(d, r1 as int) ==> divides(
                        d,
                        a as int,
                    ) && divides(d, m as int),
            decreases r1,
        {
            let q: u64 = r0 / r1;
            let r2: u64 = r0 % r1;
            let qm: u128 = (q % m) as u128;
            let tw: u128 = t1 as u128;
            assert(qm * tw <= 0xFFFF_FFFF_FFFF_FFFF * 0xFFFF_FFFF_FFFF_FFFF) by (nonlinear_arith)
                requires
                    0 <= qm <= 0xFFFF_FFFF_FFFF_FFFF,
                    0 <= tw <= 0xFFFF_FFFF_FFFF_FFFF,
            ;
            let qt: u64 = ((qm * tw) % (m as u128)) as u64;
            let t2: u64 = (((t0 as u128) + (m as u128) - (qt as u128)) % (m as u128)) as u64;
            proof {
                lemma_euclid_step(m as int, a as int, r0 as int, r1 as int, t0 as int, t1 as int);
                assert forall|d: int|
                    d > 0 && #[trigger] divides(d, r1 as int) && divides(d, r2 as int) implies divides(
                    d,
                    a as int,
                ) && divides(d, m as int) by {
                    lemma_divisor_of_remainder(r0 as int, r1 as int, d);
                    assert(divides(d, r0 as int));
                }
            }
            r0 = r1;
            r1 = r2;
            t0 = t1;
            t1 = t2;
        }
        proof {
            lemma_inverse_decided(m as int, a as int, r0 as int, t0 as int);
            lemma_small_mod(t0 as nat, m as nat);
        }
        if r0 == 1 {
            Fp { v: t0 }
        } else {
            Fp { v: 0 }
        }
    }
}

/// One step of the extended Euclidean algorithm keeps the cofactor in step
/// with the remainder.
proof fn lemma_euclid_step(m: int, a: int, r0: int, r1: int, t0: int, t1: int)
    requires
        m >= 2,
        r1 > 0,
        r0 >= 0,
        (t0 * a) % m == r0 % m,
        (t1 * a) % m == r1 % m,
    ensures
        ({
            let q = r0 / r1;
            let qt = ((q % m) * t1) % m;
            let t2 = (t0 + m - qt) % m;
            (t2 * a) % m == (r0 % r1) % m
        }),
{
    let q = r0 / r1;
    let qt = ((q % m) * t1) % m;
    let t2 = (t0 + m - qt) % m;
    lemma_fundamental_div_mod(r0, r1);
    assert(r0 % r1 == r0 - q * r1) by (nonlinear_arith)
        requires
            r0 == r1 * (r0 / r1) + r0 % r1,
            q == r0 / r1,
    ;
    // qt is congruent to q * t1
    lemma_mul_mod_noop_general(q, t1, m);
    lemma_mod_twice(q * t1, m);
    assert(qt % m == (q * t1) % m);
    // t2 is congruent to t0 - q * t1
    lemma_mod_add_multiples_vanish(t0 - qt, m);
    assert(t2 == (t0 - qt) % m);
    lemma_sub_congruent(m, t0, t0, qt, q * t1);
    lemma_mod_twice(t0 - qt, m);
    assert(t2 % m == (t0 - q * t1) % m);
    // multiply by a
    lemma_mul_congruent(m, t2, t0 - q * t1, a, a);
    assert((t0 - q * t1) * a == t0 * a - q * (t1 * a)) by (nonlinear_arith);
    lemma_mul_congruent(m, q, q, t1 * a, r1);
    lemma_sub_congruent(m, t0 * a, r0, q * (t1 * a), q * r1);
}

/// A common divisor of `r1` and `r0 % r1` divides `r0`.
proof fn lemma_divisor_of_remainder(r0: int, r1: int, d: int)
    requires
        d > 0,
        r1 > 0,
        r0 >= 0,
        r1 % d == 0,
        (r0 % r1) % d == 0,
    ensures
        r0 % d == 0,
{
    lemma_fundamental_div_mod(r0, r1);
    lemma_fundamental_div_mod(r1, d);
    lemma_fundamental_div_mod(r0 % r1, d);
    let k1 = r1 / d;
    let k2 = (r0 % r1) / d;
    let q = r0 / r1;
    assert(r0 == d * (k1 * q + k2)) by (nonlinear_arith)
        requires
            r0 == r1 * q + r0 % r1,
            r1 == d * k1,
            r0 % r1 == d * k2,
    ;
    lemma_mod_multiples_basic(k1 * q + k2, d);
    assert(d * (k1 * q + k2) == (k1 * q + k2) * d) by (nonlinear_arith);
}

/// When the Euclidean algorithm ends with greatest common divisor `g` and
/// cofactor `t`, then `t` is the inverse of `a` if `g` is 1, and `a` has no
/// inverse otherwise.
proof fn lemma_inverse_decided(m: int, a: int, g: int, t: int)
    requires
        m >= 2,
        0 <= a < m,
        0 <= t < m,
        g > 0,
        (t * a) % m == g % m,
        forall|d: int|
            d > 0 && #[trigger] divides(d, g) && divides(d, 0) ==> divides(d, a) && divides(d, m),
    ensures
        g == 1 ==> finv(m, a) == t,
        g != 1 ==> finv(m, a) == 0,
{
    lemma_mod_self_0(g);
    lemma_small_mod(0, g as nat);
    assert(divides(g, g) && divides(g, 0));
    assert(a % g == 0 && m % g == 0);
    if g == 1 {
        lemma_small_mod(1, m as nat);
        assert(a * t == t * a) by (nonlinear_arith);
        assert(is_inverse(m, a, t));
        lemma_inverse_unique(m, a, t, finv(m, a));
    } else {
        if exists|b: int| is_inverse(m, a, b) {
            let b = choose|b: int| is_inverse(m, a, b);
            lemma_fundamental_div_mod(a, g);
            lemma_fundamental_div_mod(m, g);
            lemma_fundamental_div_mod(a * b, m);
            let k = (a * b) / m;
            let a1 = a / g;
            let m1 = m / g;
            assert(1 == g * (a1 * b - m1 * k)) by (nonlinear_arith)
                requires
                    a * b == m * k + 1,
                    a == g * a1,
                    m == g * m1,
            ;
            assert(false) by (nonlinear_arith)
                requires
                    g > 1,
                    1 == g * (a1 * b - m1 * k),
            ;
        }
    }
}

} // verus!
