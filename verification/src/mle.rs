//! Multilinear extensions, stored as their evaluations over the boolean
//! hypercube.

use vstd::prelude::*;
use vstd::arithmetic::power2::{lemma_pow2_pos, lemma_pow2_unfold, pow2};
use crate::field::{fadd, fmul, fsub, values, Field};

verus! {

/// The value at assignment `b` of the table `t` with its first variable
/// fixed to `r`: the line through `t[2b]` and `t[2b + 1]`, taken at `r`.
pub open spec fn fixed_entry(p: int, t: Seq<int>, r: int, b: int) -> int {
    fadd(p, t[2 * b], fmul(p, r, fsub(p, t[2 * b + 1], t[2 * b])))
}

/// The table of `t` with its first variable fixed to `r`.
pub open spec fn fix_first(p: int, t: Seq<int>, r: int) -> Seq<int> {
    Seq::new((t.len() / 2) as nat, |b: int| fixed_entry(p, t, r, b))
}

/// The multilinear extension with table `t`, evaluated at `point`: the
/// variables are fixed one by one, first to last.
pub open spec fn evaluate_table(p: int, t: Seq<int>, point: Seq<int>) -> int
    decreases point.len(),
{
    if point.len() == 0 {
        t[0]
    } else {
        evaluate_table(p, fix_first(p, t, point[0]), point.skip(1))
    }
}

/// A multilinear polynomial in `num_vars` variables, given by its
/// `2^num_vars` evaluations. The first variable is the lowest bit of the
/// index.
pub struct DenseMultilinearExtension<F: Field> {
    pub num_vars: usize,
    pub evaluations: Vec<F>,
}

impl<F: Field> View for DenseMultilinearExtension<F> {
    type V = Seq<int>;

    open spec fn view(&self) -> Seq<int> {
        values(self.evaluations@)
    }
}

/// A copy of `v`.
pub fn copy_elements<F: Field>(v: &Vec<F>) -> (out: Vec<F>)
    ensures
        out@ == v@,
{
    let mut out: Vec<F> = Vec::new();
    for i in 0..v.len()
        invariant
            out@ == v@.take(i as int),
    {
        assert(v@.take(i as int + 1) =~= v@.take(i as int).push(v@[i as int]));
        out.push(v[i]);
    }
    assert(v@.take(v.len() as int) =~= v@);
    out
}

impl<F: Field> DenseMultilinearExtension<F> {
    /// The table has one entry per point of the hypercube.
    pub open spec fn wf(&self) -> bool {
        self.evaluations@.len() == pow2(self.num_vars as nat)
    }

    /// The extension with the given table.
    pub fn from_evaluations_vec(num_vars: usize, evaluations: Vec<F>) -> (m: Self)
        requires
            evaluations@.len() == pow2(num_vars as nat),
        ensures
            m.wf(),
            m.num_vars == num_vars,
            m.evaluations == evaluations,
    {
        DenseMultilinearExtension { num_vars, evaluations }
    }

    /// A copy that owns its table.
    pub fn duplicate(&self) -> (m: Self)
        ensures
            m.num_vars == self.num_vars,
            m.evaluations@ == self.evaluations@,
    {
        DenseMultilinearExtension {
            num_vars: self.num_vars,
            evaluations: copy_elements(&self.evaluations),
        }
    }

    /// The extension in one variable fewer that results from fixing the
    /// first variable to `r`.
    pub fn fix_first_variable(&self, r: &F) -> (m: Self)
        requires
            self.wf(),
            self.num_vars > 0,
        ensures
            m.wf(),
            m.num_vars == self.num_vars - 1,
            m@ == fix_first(F::modulus(), self@, r.value()),
    {
        proof {
            lemma_pow2_unfold(self.num_vars as nat);
        }
        let half: usize = self.evaluations.len() / 2;
        let mut out: Vec<F> = Vec::new();
        for b in 0..half
            invariant
                half * 2 == self.evaluations.len(),
                out@.len() == b,
                forall|i: int|
                    0 <= i < b ==> (#[trigger] out@[i]).value() == fixed_entry(
                        F::modulus(),
                        self@,
                        r.value(),
                        i,
                    ),
        {
            let lo: F = self.evaluations[2 * b];
            let hi: F = self.evaluations[2 * b + 1];
            let v: F = lo.add(&r.mul(&hi.sub(&lo)));
            out.push(v);
        }
        let m = DenseMultilinearExtension { num_vars: self.num_vars - 1, evaluations: out };
        assert(m@ =~= fix_first(F::modulus(), self@, r.value()));
        m
    }

    /// The value of the extension at `point`.
    pub fn evaluate(&self, point: &Vec<F>) -> (r: F)
        requires
            self.wf(),
            point@.len() == self.num_vars,
        ensures
            r.value() == evaluate_table(F::modulus(), self@, values(point@)),
    {
        let mut cur = self.duplicate();
        let ghost pt = values(point@);
        assert(cur@ =~= self@);
        assert(pt.skip(0) =~= pt);
        for i in 0..point.len()
            invariant
                pt == values(point@),
                cur.wf(),
                cur.num_vars == point@.len() - i,
                evaluate_table(F::modulus(), self@, pt) == evaluate_table(
                    F::modulus(),
                    cur@,
                    pt.skip(i as int),
                ),
        {
            let next = cur.fix_first_variable(&point[i]);
            proof {
                assert(pt.skip(i as int)[0] == point@[i as int].value());
                assert(pt.skip(i as int).skip(1) =~= pt.skip(i as int + 1));
            }
            cur = next;
        }
        proof {
            lemma_pow2_pos(0);
            assert(pow2(0) == 1) by {
                vstd::arithmetic::power2::lemma2_to64();
            }
        }
        cur.evaluations[0]
    }
}

} // verus!
