//! Prime-field arithmetic as functions on integers, and the trait that ties
//! an executable element type to it.

use vstd::prelude::*;
use vstd::arithmetic::div_mod::*;

verus! {

/// Sum of `a` and `b` in the integers modulo `p`.
pub open spec fn fadd(p: int, a: int, b: int) -> int {
    (a + b) % p
}

/// Difference of `a` and `b` in the integers modulo `p`.
pub open spec fn fsub(p: int, a: int, b: int) -> int {
    (a - b) % p
}

/// Product of `a` and `b` in the integers modulo `p`.
pub open spec fn fmul(p: int, a: int, b: int) -> int {
    (a * b) % p
}

/// `b` is the canonical multiplicative inverse of `a` modulo `p`.
pub open spec fn is_inverse(p: int, a: int, b: int) -> bool {
    0 <= b < p && (a * b) % p == 1
}

/// The multiplicative inverse of `a` modulo `p`, and 0 where `a` has none.
pub open spec fn finv(p: int, a: int) -> int {
    if exists|b: int| is_inverse(p, a, b) {
        choose|b: int| is_inverse(p, a, b)
    } else {
        0
    }
}

/// `d` divides `n`.
pub open spec fn divides(d: int, n: int) -> bool {
    n % d == 0
}

/// `p` has no divisor strictly between 1 and itself.
pub open spec fn is_prime(p: int) -> bool {
    p >= 2 && forall|d: int| 1 < d < p ==> !#[trigger] divides(d, p)
}

/// An executable representation of the integers modulo `modulus()`.
///
/// Every value of the type stands for the residue `value()`; two values
/// denote the same element exactly when their residues agree.
pub trait Field: Sized + Copy {
    /// The modulus of the field.
    spec fn modulus() -> int;

    /// The canonical residue that `self` stands for.
    spec fn value(&self) -> int;

    /// The modulus is at least 2 and a canonical residue fits in 64 bits.
    proof fn lemma_modulus_bounds()
        ensures
            2 <= Self::modulus() <= 0xFFFF_FFFF_FFFF_FFFF,
    ;

    /// Residues are canonical.
    proof fn lemma_value_bounds(&self)
        ensures
            0 <= self.value() < Self::modulus(),
    ;

    /// The element that `x` reduces to.
    fn from_u64(x: u64) -> (r: Self)
        ensures
            r.value() == (x as int) % Self::modulus(),
    ;

    /// The canonical residue of `self`.
    fn to_u64(&self) -> (r: u64)
        ensures
            r as int == self.value(),
    ;

    /// The sum of `self` and `rhs`.
    fn add(&self, rhs: &Self) -> (r: Self)
        ensures
            r.value() == fadd(Self::modulus(), self.value(), rhs.value()),
    ;

    /// The difference of `self` and `rhs`.
    fn sub(&self, rhs: &Self) -> (r: Self)
        ensures
            r.value() == fsub(Self::modulus(), self.value(), rhs.value()),
    ;

    /// The product of `self` and `rhs`.
    fn mul(&self, rhs: &Self) -> (r: Self)
        ensures
            r.value() == fmul(Self::modulus(), self.value(), rhs.value()),
    ;

    /// The multiplicative inverse, and zero for an element that has none.
    fn inv(&self) -> (r: Self)
        ensures
            r.value() == finv(Self::modulus(), self.value()),
    ;
}

/// The residues that the elements of `s` stand for.
pub open spec fn values<F: Field>(s: Seq<F>) -> Seq<int> {
    Seq::new(s.len(), |i: int| s[i].value())
}

/// The additive identity.
pub fn zero<F: Field>() -> (r: F)
    ensures
        r.value() == 0,
{
    proof {
        F::lemma_modulus_bounds();
        lemma_small_mod(0, F::modulus() as nat);
    }
    F::from_u64(0)
}

/// The multiplicative identity.
pub fn one<F: Field>() -> (r: F)
    ensures
        r.value() == 1,
{
    proof {
        F::lemma_modulus_bounds();
        lemma_small_mod(1, F::modulus() as nat);
    }
    F::from_u64(1)
}

/// Whether `a` and `b` denote the same element.
pub fn same<F: Field>(a: &F, b: &F) -> (r: bool)
    ensures
        r == (a.value() == b.value()),
{
    a.to_u64() == b.to_u64()
}

/// Congruent summands give congruent sums.
pub proof fn lemma_add_congruent(p: int, a: int, a2: int, b: int, b2: int)
    requires
        p > 0,
        a % p == a2 % p,
        b % p == b2 % p,
    ensures
        (a + b) % p == (a2 + b2) % p,
{
    lemma_add_mod_noop(a, b, p);
    lemma_add_mod_noop(a2, b2, p);
}

/// Congruent factors give congruent products.
pub proof fn lemma_mul_congruent(p: int, a: int, a2: int, b: int, b2: int)
    requires
        p > 0,
        a % p == a2 % p,
        b % p == b2 % p,
    ensures
        (a * b) % p == (a2 * b2) % p,
{
    lemma_mul_mod_noop_general(a, b, p);
    lemma_mul_mod_noop_general(a2, b2, p);
}

/// Congruent operands give congruent differences.
pub proof fn lemma_sub_congruent(p: int, a: int, a2: int, b: int, b2: int)
    requires
        p > 0,
        a % p == a2 % p,
        b % p == b2 % p,
    ensures
        (a - b) % p == (a2 - b2) % p,
{
    lemma_sub_mod_noop(a, b, p);
    lemma_sub_mod_noop(a2, b2, p);
}

} // verus!
