//! The global properties of the scheme, each stated over the mathematical
//! model and proved once for all inputs.
use crate::algebra::{
    fr_order, kzg_check, lemma_add_congruent, lemma_mul_congruent, lemma_msm_powers,
    lemma_msm_reduced, lemma_poly_eval_reduced, lemma_synth_quot_len, lemma_synth_quot_step,
    lin_comb, msm, poly_eval, reduce_top, sub_mod, synth_quot,
};
use vstd::arithmetic::div_mod::{
    lemma_mod_bound, lemma_mod_multiples_vanish, lemma_mod_twice, lemma_small_mod,
    lemma_sub_mod_noop,
};
use vstd::arithmetic::power::{lemma_pow0, lemma_pow1, lemma_pow_adds, pow};
use vstd::prelude::*;

verus! {

/// Dropping the leading coefficient of `f` into the next one changes the
/// value at `x` by the leading term taken through the factor `x - z`.
proof fn lemma_eval_reduce_top(f: Seq<int>, z: int, x: int)
    requires
        f.len() >= 2,
    ensures
        poly_eval(f, x) == (poly_eval(reduce_top(f, z), x) + (f.last() % fr_order()) * pow(
            x,
            (f.len() - 2) as nat,
        ) * (x - z)) % fr_order(),
{
    let r = fr_order();
    let n = f.len() - 1;
    let t = f.last() % r;
    let g = reduce_top(f, z);
    let u = f.drop_last();
    let h = u.drop_last();
    let f1 = f[n - 1];
    let v = (f1 + z * t) % r;
    let x1 = pow(x, (n - 1) as nat);
    let xn = pow(x, n as nat);
    assert(g.drop_last() =~= h);
    assert(g.last() == v);
    lemma_pow_adds(x, (n - 1) as nat, 1);
    lemma_pow1(x);
    assert(xn == x1 * x);
    let eh = poly_eval(h, x);
    // the evaluation of f, fully unfolded past the top two coefficients
    assert(poly_eval(u, x) == (eh + f1 * x1) % r);
    assert(poly_eval(f, x) == ((eh + f1 * x1) % r + f.last() * xn) % r);
    lemma_add_congruent((eh + f1 * x1) % r, eh + f1 * x1, f.last() * xn);
    lemma_mod_twice(eh + f1 * x1, r);
    lemma_mod_twice(f.last(), r);
    lemma_mul_congruent(f.last(), t, xn);
    lemma_add_congruent(f.last() * xn, t * xn, eh + f1 * x1);
    assert(poly_eval(f, x) == (eh + f1 * x1 + t * xn) % r);
    // the evaluation of the folded polynomial, plus the split leading term
    assert(poly_eval(g, x) == (eh + v * x1) % r);
    lemma_add_congruent((eh + v * x1) % r, eh + v * x1, t * x1 * (x - z));
    lemma_mod_twice(eh + v * x1, r);
    lemma_mod_twice(f1 + z * t, r);
    lemma_mul_congruent(v, f1 + z * t, x1);
    lemma_add_congruent(v * x1, (f1 + z * t) * x1, eh + t * x1 * (x - z));
    assert((poly_eval(g, x) + t * x1 * (x - z)) % r == (eh + (f1 + z * t) * x1 + t * x1 * (x
        - z)) % r);
    assert((f1 + z * t) * x1 + t * x1 * (x - z) == f1 * x1 + t * (x1 * x)) by (nonlinear_arith);
}

/// Remainder-theorem consistency: for any polynomial `f`, any root guess `z`
/// and any point `x`, the quotient of dividing `f` by `x - z` rebuilds `f` at
/// `x` from the factor and the value of `f` at `z`.
pub proof fn lemma_remainder_theorem(f: Seq<int>, z: int, x: int)
    requires
        f.len() >= 1,
    ensures
        poly_eval(f, x) == (poly_eval(synth_quot(f, z), x) * sub_mod(x, z) + poly_eval(f, z))
            % fr_order(),
    decreases f.len(),
{
    let r = fr_order();
    let d = sub_mod(x, z);
    lemma_poly_eval_reduced(f, x);
    lemma_poly_eval_reduced(f, z);
    if f.len() == 1 {
        lemma_pow0(x);
        lemma_pow0(z);
        assert(f.drop_last() =~= Seq::<int>::empty());
        assert(poly_eval(Seq::<int>::empty(), x) == 0);
        assert(poly_eval(Seq::<int>::empty(), z) == 0);
        assert(poly_eval(f, x) == f[0] % r);
        assert(poly_eval(f, z) == f[0] % r);
        lemma_mod_twice(f[0], r);
        assert(poly_eval(synth_quot(f, z), x) == 0);
    } else {
        let n = f.len() - 1;
        let t = f.last() % r;
        let g = reduce_top(f, z);
        let x1 = pow(x, (n - 1) as nat);
        lemma_remainder_theorem(g, z, x);
        lemma_poly_eval_reduced(g, x);
        lemma_poly_eval_reduced(g, z);
        lemma_eval_reduce_top(f, z, x);
        lemma_eval_reduce_top(f, z, z);
        // at z the split leading term vanishes, so the values of f and g agree
        assert(t * pow(z, (n - 1) as nat) * (z - z) == 0) by (nonlinear_arith);
        lemma_small_mod(poly_eval(g, z) as nat, r as nat);
        assert(poly_eval(f, z) == poly_eval(g, z));
        // the quotient gains the leading term
        lemma_synth_quot_step(f, z);
        lemma_synth_quot_len(g, z);
        let qg = synth_quot(g, z);
        let qf = synth_quot(f, z);
        assert(qf.drop_last() =~= qg);
        assert(qf.last() == t);
        assert(poly_eval(qf, x) == (poly_eval(qg, x) + t * x1) % r);
        // assemble: the claimed right-hand side equals the one for g plus the
        // leading term taken through the factor
        lemma_mul_congruent((poly_eval(qg, x) + t * x1) % r, poly_eval(qg, x) + t * x1, d);
        lemma_mod_twice(poly_eval(qg, x) + t * x1, r);
        lemma_add_congruent(
            ((poly_eval(qg, x) + t * x1) % r) * d,
            (poly_eval(qg, x) + t * x1) * d,
            poly_eval(f, z),
        );
        assert((poly_eval(qg, x) + t * x1) * d == poly_eval(qg, x) * d + t * x1 * d)
            by (nonlinear_arith);
        lemma_mul_congruent(d, x - z, t * x1);
        lemma_mod_twice(x - z, r);
        assert(d * (t * x1) == t * x1 * d && (x - z) * (t * x1) == t * x1 * (x - z))
            by (nonlinear_arith);
        lemma_add_congruent(t * x1 * d, t * x1 * (x - z), poly_eval(qg, x) * d + poly_eval(f, z));
        // fold in the induction hypothesis for g
        lemma_add_congruent(
            poly_eval(qg, x) * d + poly_eval(g, z),
            poly_eval(g, x),
            t * x1 * (x - z),
        );
        assert((poly_eval(qf, x) * d + poly_eval(f, z)) % r == (poly_eval(g, x) + t * x1 * (x
            - z)) % r);
    }
}

/// Completeness of the verifier: a commitment to `f` against the powers of a
/// setup secret `s`, the value of `f` at any point `z`, and a proof built
/// from the quotient of `f` by the factor through `z`, always pass the
/// pairing check.
pub proof fn lemma_open_at_verifies(f: Seq<int>, b: Seq<int>, s: int, t2: int, z: int)
    requires
        f.len() >= 1,
        f.len() <= b.len(),
        forall|i: int| 0 <= i < f.len() ==> b[i] == pow(s, i as nat) % fr_order(),
        t2 == s % fr_order(),
    ensures
        kzg_check(msm(f, b), poly_eval(f, z), msm(synth_quot(f, z), b), t2, z),
{
    let r = fr_order();
    let q = synth_quot(f, z);
    lemma_synth_quot_len(f, z);
    lemma_msm_powers(f, b, s);
    lemma_msm_powers(q, b, s);
    lemma_remainder_theorem(f, z, s);
    let w = poly_eval(q, s);
    let y = poly_eval(f, z);
    lemma_poly_eval_reduced(f, z);
    // the two pairing exponents subtract the same reduced values
    lemma_sub_mod_noop(s, z, r);
    lemma_sub_mod_noop(s % r, z, r);
    lemma_mod_twice(s, r);
    lemma_mod_twice(z, r);
    assert(sub_mod(t2, z) == sub_mod(s, z));
    // peel the added value back off the evaluation at the secret
    let wd = w * sub_mod(s, z);
    lemma_add_congruent((wd + y) % r, wd + y, 0 - y);
    lemma_mod_twice(wd + y, r);
    assert(sub_mod((wd + y) % r, y) == wd % r);
}

/// Additive homomorphism of commitments: committing to `a * p + q` equals
/// `a` times the commitment to `p` plus the commitment to `q`, in the first
/// group.
pub proof fn lemma_commit_homomorphism(a: int, p: Seq<int>, q: Seq<int>, b: Seq<int>)
    requires
        p.len() == q.len(),
        p.len() <= b.len(),
    ensures
        msm(lin_comb(a, p, q), b) == (a * msm(p, b) + msm(q, b)) % fr_order(),
    decreases p.len(),
{
    let r = fr_order();
    let c = lin_comb(a, p, q);
    if p.len() == 0 {
        assert(a * 0 + 0 == 0) by (nonlinear_arith);
        lemma_small_mod(0nat, r as nat);
    } else {
        let n = p.len() - 1;
        let bn = b[n as int];
        let mp = msm(p.drop_last(), b);
        let mq = msm(q.drop_last(), b);
        lemma_commit_homomorphism(a, p.drop_last(), q.drop_last(), b);
        assert(c.drop_last() =~= lin_comb(a, p.drop_last(), q.drop_last()));
        assert(c.last() == (a * p[n] + q[n]) % r);
        // normalize the left-hand side
        lemma_add_congruent((a * mp + mq) % r, a * mp + mq, c.last() * bn);
        lemma_mod_twice(a * mp + mq, r);
        lemma_mul_congruent((a * p[n] + q[n]) % r, a * p[n] + q[n], bn);
        lemma_mod_twice(a * p[n] + q[n], r);
        lemma_add_congruent(
            ((a * p[n] + q[n]) % r) * bn,
            (a * p[n] + q[n]) * bn,
            a * mp + mq,
        );
        assert(msm(c, b) == (a * mp + mq + (a * p[n] + q[n]) * bn) % r);
        // normalize the right-hand side
        lemma_mul_congruent((mp + p[n] * bn) % r, mp + p[n] * bn, a);
        lemma_mod_twice(mp + p[n] * bn, r);
        lemma_add_congruent(
            ((mp + p[n] * bn) % r) * a,
            (mp + p[n] * bn) * a,
            (mq + q[n] * bn) % r,
        );
        lemma_add_congruent((mq + q[n] * bn) % r, mq + q[n] * bn, (mp + p[n] * bn) * a);
        lemma_mod_twice(mq + q[n] * bn, r);
        assert(a * msm(p, b) == msm(p, b) * a) by (nonlinear_arith);
        assert(msm(p, b) == (mp + p[n] * bn) % r);
        assert(a * msm(p, b) == ((mp + p[n] * bn) % r) * a);
        assert((a * msm(p, b) + msm(q, b)) % r == ((mp + p[n] * bn) * a + (mq + q[n] * bn))
            % r);
        assert(a * mp + mq + (a * p[n] + q[n]) * bn == (mp + p[n] * bn) * a + (mq + q[n] * bn))
            by (nonlinear_arith);
    }
}

/// Padding a polynomial with a trailing zero coefficient does not change its
/// commitment, so the homomorphism extends to polynomials of unequal length.
pub proof fn lemma_msm_trailing_zero(c: Seq<int>, b: Seq<int>)
    requires
        c.len() < b.len(),
    ensures
        msm(c.push(0), b) == msm(c, b),
{
    let r = fr_order();
    assert(c.push(0).drop_last() =~= c);
    assert(0 * b[c.len() as int] == 0) by (nonlinear_arith);
    lemma_msm_reduced(c, b);
    lemma_small_mod(msm(c, b) as nat, r as nat);
}

/// Tamper rejection for the claimed value: once a triple passes the check,
/// any claim of a different residue for the value fails it.
pub proof fn lemma_tampered_value_rejected(c: int, y1: int, y2: int, w: int, t2: int, z: int)
    requires
        kzg_check(c, y1, w, t2, z),
        y1 % fr_order() != y2 % fr_order(),
    ensures
        !kzg_check(c, y2, w, t2, z),
{
    let r = fr_order();
    if sub_mod(c, y1) == sub_mod(c, y2) {
        let cv = c % r;
        let a1 = y1 % r;
        let a2 = y2 % r;
        lemma_sub_mod_noop(c, y1, r);
        lemma_sub_mod_noop(c, y2, r);
        lemma_mod_bound(c, r);
        lemma_mod_bound(y1, r);
        lemma_mod_bound(y2, r);
        if cv - a1 >= 0 {
            lemma_small_mod((cv - a1) as nat, r as nat);
        } else {
            lemma_mod_multiples_vanish(1, cv - a1, r);
            lemma_small_mod((cv - a1 + r) as nat, r as nat);
        }
        if cv - a2 >= 0 {
            lemma_small_mod((cv - a2) as nat, r as nat);
        } else {
            lemma_mod_multiples_vanish(1, cv - a2, r);
            lemma_small_mod((cv - a2 + r) as nat, r as nat);
        }
        assert(false);
    }
}

} // verus!
