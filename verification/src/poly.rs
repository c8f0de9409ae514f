//! The polynomial engine: a polynomial as its coefficient sequence, lowest
//! power first, and evaluation at a point of the scalar field.
use crate::algebra::{fr_order, poly_eval, reduced};
use crate::backend::{fr_add, fr_mul, fr_val};
use bls12_381::Scalar;
use vstd::arithmetic::div_mod::{lemma_mod_twice, lemma_mul_mod_noop_left, lemma_mul_mod_noop_right, lemma_small_mod};
use vstd::arithmetic::power::{lemma_pow0, lemma_pow1, pow};
use vstd::prelude::*;

verus! {

/// A polynomial over the scalar field; index = power of the variable, lowest
/// power first. Non-empty whenever it enters the scheme.
#[derive(Debug)]
pub struct Polynomial {
    pub coefficients: Vec<Scalar>,
}

/// The residues of a sequence of scalars.
pub open spec fn scalar_vals(s: Seq<Scalar>) -> Seq<int> {
    s.map(|_i: int, c: Scalar| fr_val(c))
}

/// Residues distribute over appending a scalar.
pub proof fn lemma_scalar_vals_push(s: Seq<Scalar>, x: Scalar)
    ensures
        scalar_vals(s.push(x)) =~= scalar_vals(s).push(fr_val(x)),
{
}

/// Residues distribute over replacing a scalar.
pub proof fn lemma_scalar_vals_update(s: Seq<Scalar>, i: int, x: Scalar)
    requires
        0 <= i < s.len(),
    ensures
        scalar_vals(s.update(i, x)) =~= scalar_vals(s).update(i, fr_val(x)),
{
}

impl View for Polynomial {
    type V = Seq<int>;

    open spec fn view(&self) -> Seq<int> {
        scalar_vals(self.coefficients@)
    }
}

impl Polynomial {
    /// Every coefficient is a canonical residue of the scalar field.
    pub open spec fn wf(&self) -> bool {
        forall|i: int| 0 <= i < self@.len() ==> reduced(#[trigger] self@[i])
    }

    /// Evaluates the polynomial at `point`, accumulating coefficient times
    /// ascending power.
    pub fn evaluate_at(&self, point: Scalar) -> (r: Scalar)
        requires
            self.wf(),
            self@.len() >= 1,
        ensures
            fr_val(r) == poly_eval(self@, fr_val(point)),
            reduced(fr_val(r)),
    {
        let ghost x0 = fr_val(point);
        let mut sum = self.coefficients[0];
        let mut powers = point;
        let mut i: usize = 1;
        proof {
            assert(self@.subrange(0, 1).drop_last() =~= Seq::<int>::empty());
            assert(poly_eval(Seq::<int>::empty(), x0) == 0);
            assert(self@.subrange(0, 1).last() == self@[0]);
            lemma_pow0(x0);
            lemma_small_mod(self@[0] as nat, fr_order() as nat);
            assert(fr_val(sum) == poly_eval(self@.subrange(0, 1), x0));
            lemma_pow1(x0);
            assert(fr_val(powers) % fr_order() == pow(x0, 1) % fr_order());
        }
        while i < self.coefficients.len()
            invariant
                1 <= i <= self@.len(),
                fr_val(sum) == poly_eval(self@.subrange(0, i as int), x0),
                reduced(fr_val(sum)),
                fr_val(powers) % fr_order() == pow(x0, i as nat) % fr_order(),
            decreases self@.len() - i,
        {
            let c = self.coefficients[i];
            let term = fr_mul(c, powers);
            let new_sum = fr_add(sum, term);
            let new_powers = fr_mul(powers, point);
            proof {
                let ci = self@[i as int];
                let pwv = fr_val(powers);
                let pw = pow(x0, i as nat);
                // the term agrees with the spec's power of the point
                lemma_mul_mod_noop_right(ci, pwv, fr_order());
                lemma_mul_mod_noop_right(ci, pw, fr_order());
                assert(fr_val(term) == (ci * pw) % fr_order());
                lemma_mod_twice(ci * pw, fr_order());
                crate::algebra::lemma_add_congruent((ci * pw) % fr_order(), ci * pw, fr_val(sum));
                assert(self@.subrange(0, i + 1).drop_last() =~= self@.subrange(0, i as int));
                assert(fr_val(new_sum) == poly_eval(self@.subrange(0, i + 1), x0));
                // the running power advances by one factor of the point
                lemma_mul_mod_noop_left(pwv, x0, fr_order());
                lemma_mul_mod_noop_left(pw, x0, fr_order());
                vstd::arithmetic::power::lemma_pow_adds(x0, i as nat, 1);
                lemma_pow1(x0);
                assert(pow(x0, (i + 1) as nat) == pw * x0);
                lemma_mod_twice(pw * x0, fr_order());
                assert(fr_val(new_powers) % fr_order() == pow(x0, (i + 1) as nat)
                    % fr_order());
            }
            sum = new_sum;
            powers = new_powers;
            i = i + 1;
        }
        proof {
            assert(self@.subrange(0, self@.len() as int) =~= self@);
        }
        sum
    }
}

/// Builds a polynomial from its ordered coefficient sequence, lowest power
/// first.
pub fn from_coefficients(coefficients: Vec<Scalar>) -> (r: Polynomial)
    requires
        coefficients@.len() >= 1,
        forall|i: int|
            0 <= i < coefficients@.len() ==> reduced(fr_val(#[trigger] coefficients@[i])),
    ensures
        r@ == coefficients@.map(|_i: int, c: Scalar| fr_val(c)),
        r.wf(),
        r@.len() == coefficients@.len(),
{
    Polynomial { coefficients }
}

} // verus!
