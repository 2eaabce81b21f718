//! The laws of arithmetic modulo a prime that the proofs about the protocol
//! rest on.

use vstd::prelude::*;
use vstd::arithmetic::div_mod::*;
use crate::field::{
    divides, fadd, finv, fmul, fsub, is_inverse, is_prime, lemma_add_congruent,
    lemma_mul_congruent,
};

verus! {

/// `a` is a canonical residue modulo `p`.
pub open spec fn canonical(p: int, a: int) -> bool {
    0 <= a < p
}

/// Results of the field operations are canonical.
pub proof fn lemma_ops_canonical(p: int, a: int, b: int)
    requires
        p > 0,
    ensures
        canonical(p, fadd(p, a, b)),
        canonical(p, fsub(p, a, b)),
        canonical(p, fmul(p, a, b)),
{
    lemma_mod_bound(a + b, p);
    lemma_mod_bound(a - b, p);
    lemma_mod_bound(a * b, p);
}

/// A sum of residues is the residue of the sum of what they stand for.
pub proof fn lemma_fadd_lift(p: int, a: int, b: int, x: int, y: int)
    requires
        p > 0,
        a == x % p,
        b == y % p,
    ensures
        fadd(p, a, b) == (x + y) % p,
{
    lemma_mod_twice(x, p);
    lemma_mod_twice(y, p);
    lemma_add_congruent(p, a, x, b, y);
}

/// A product of residues is the residue of the product of what they stand
/// for.
pub proof fn lemma_fmul_lift(p: int, a: int, b: int, x: int, y: int)
    requires
        p > 0,
        a == x % p,
        b == y % p,
    ensures
        fmul(p, a, b) == (x * y) % p,
{
    lemma_mod_twice(x, p);
    lemma_mod_twice(y, p);
    lemma_mul_congruent(p, a, x, b, y);
}

/// A canonical residue stands for itself.
pub proof fn lemma_self_lift(p: int, a: int)
    requires
        canonical(p, a),
    ensures
        a == a % p,
{
    lemma_small_mod(a as nat, p as nat);
}

/// Multiplication is commutative.
pub proof fn lemma_fmul_comm(p: int, a: int, b: int)
    ensures
        fmul(p, a, b) == fmul(p, b, a),
{
    assert(a * b == b * a) by (nonlinear_arith);
}

/// Multiplication is associative.
pub proof fn lemma_fmul_assoc(p: int, a: int, b: int, c: int)
    requires
        p > 0,
    ensures
        fmul(p, fmul(p, a, b), c) == fmul(p, a, fmul(p, b, c)),
{
    lemma_mul_mod_noop_general(a * b, c, p);
    lemma_mul_mod_noop_general(a, b * c, p);
    assert((a * b) * c == a * (b * c)) by (nonlinear_arith);
}

/// Zero and one behave as identities on canonical residues.
pub proof fn lemma_identities(p: int, a: int)
    requires
        p >= 2,
        canonical(p, a),
    ensures
        fadd(p, a, 0) == a,
        fadd(p, 0, a) == a,
        fmul(p, a, 1) == a,
        fmul(p, 1, a) == a,
        fmul(p, a, 0) == 0,
        fmul(p, 0, a) == 0,
        fsub(p, a, a) == 0,
        fsub(p, a, 0) == a,
{
    lemma_small_mod(a as nat, p as nat);
    lemma_small_mod(0, p as nat);
    assert(a * 1 == a && 1 * a == a && a * 0 == 0 && 0 * a == 0);
}

/// An element has at most one canonical inverse.
pub proof fn lemma_inverse_unique(m: int, a: int, b: int, c: int)
    requires
        m >= 2,
        is_inverse(m, a, b),
        is_inverse(m, a, c),
    ensures
        b == c,
{
    lemma_small_mod(1, m as nat);
    lemma_mul_congruent(m, b, b, a * c, 1);
    lemma_mul_congruent(m, a * b, 1, c, c);
    assert(b * (a * c) == (a * b) * c) by (nonlinear_arith);
    assert(b * 1 == b && 1 * c == c);
    lemma_small_mod(b as nat, m as nat);
    lemma_small_mod(c as nat, m as nat);
}

/// Modulo a prime every nonzero residue has an inverse.
pub proof fn lemma_inverse_exists(p: int, a: int) -> (b: int)
    requires
        is_prime(p),
        0 < a < p,
    ensures
        is_inverse(p, a, b),
    decreases a,
{
    if a == 1 {
        lemma_small_mod(1, p as nat);
        assert(1int * 1int == 1int);
        1
    } else {
        let q = p / a;
        let r = p % a;
        lemma_fundamental_div_mod(p, a);
        lemma_mod_bound(p, a);
        assert(r != 0) by {
            assert(!divides(a, p));
        }
        let s = lemma_inverse_exists(p, r);
        // r == p - q * a, so a * (-q * s) == r * s - p * s is congruent to 1
        let b = (-(q * s)) % p;
        lemma_mod_bound(-(q * s), p);
        lemma_mul_mod_noop_general(a, -(q * s), p);
        assert(a * (-(q * s)) == r * s + p * (-s)) by (nonlinear_arith)
            requires
                p == a * q + r,
        ;
        assert(p * (-s) == (-s) * p) by (nonlinear_arith);
        lemma_mod_multiples_vanish(-s, r * s, p);
        assert((a * b) % p == 1);
        b
    }
}

/// Modulo a prime the inverse of a nonzero residue is one.
pub proof fn lemma_finv(p: int, a: int)
    requires
        is_prime(p),
        0 < a < p,
    ensures
        canonical(p, finv(p, a)),
        fmul(p, a, finv(p, a)) == 1,
        fmul(p, finv(p, a), a) == 1,
        finv(p, a) != 0,
{
    let b = lemma_inverse_exists(p, a);
    assert(is_inverse(p, a, finv(p, a)));
    lemma_fmul_comm(p, a, finv(p, a));
    if finv(p, a) == 0 {
        assert(a * 0 == 0);
        lemma_small_mod(0, p as nat);
    }
}

/// Zero has no inverse: its `finv` is zero.
pub proof fn lemma_finv_zero(p: int)
    requires
        p >= 2,
    ensures
        finv(p, 0) == 0,
{
    assert forall|b: int| !is_inverse(p, 0, b) by {
        assert(0 * b == 0);
        lemma_small_mod(0, p as nat);
    }
}

/// Modulo a prime a product of nonzero residues is nonzero.
pub proof fn lemma_no_zero_divisors(p: int, a: int, b: int)
    requires
        is_prime(p),
        0 < a < p,
        0 < b < p,
    ensures
        0 < fmul(p, a, b) < p,
{
    lemma_ops_canonical(p, a, b);
    if fmul(p, a, b) == 0 {
        // b == (inv(a) * a) * b == inv(a) * (a * b) == 0
        lemma_finv(p, a);
        let u = finv(p, a);
        lemma_fmul_assoc(p, u, a, b);
        lemma_identities(p, b);
        lemma_identities(p, u);
        assert(false);
    }
}

/// Dividing out a nonzero factor: the inverse of `a * c` times `c` is the
/// inverse of `a`.
pub proof fn lemma_finv_cancel(p: int, a: int, c: int)
    requires
        is_prime(p),
        canonical(p, a),
        0 < c < p,
    ensures
        fmul(p, finv(p, fmul(p, a, c)), c) == finv(p, a),
{
    if a == 0 {
        lemma_identities(p, c);
        lemma_finv_zero(p);
        lemma_identities(p, c);
    } else {
        lemma_no_zero_divisors(p, a, c);
        let ac = fmul(p, a, c);
        lemma_finv(p, ac);
        lemma_finv(p, a);
        let u = finv(p, ac);
        let w = fmul(p, u, c);
        lemma_ops_canonical(p, u, c);
        // a * (u * c) == (a * c) * u == 1
        lemma_fmul_comm(p, u, c);
        lemma_fmul_assoc(p, a, c, u);
        assert(fmul(p, a, w) == 1);
        assert(is_inverse(p, a, w));
        assert(is_inverse(p, a, finv(p, a)));
        lemma_inverse_unique(p, a, w, finv(p, a));
    }
}

} // verus!
