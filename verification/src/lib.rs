//! A KZG polynomial commitment scheme over BLS12-381: a trusted setup derives
//! public parameters from a secret scalar, a commitment binds a polynomial to
//! a single first-group point, an opening proves a claimed evaluation at a
//! point, and a verifier checks the claim with one pairing equality.
#![verifier::loop_isolation(false)]
pub mod algebra;
pub mod backend;
pub mod laws;
pub mod poly;

use crate::algebra::{
    be_val, fr_order, kzg_check, lemma_add_congruent, lemma_be_val_bounds,
    lemma_be_val_first_nonzero, lemma_be_val_zero_prefix, msm, poly_eval, reduced, sub_mod,
    synth_quot,
};
use crate::backend::{
    bu_from_be_bytes, bu_from_usize, bu_ge, bu_modpow, bu_to_be_bytes, bu_val, fr_div,
    fr_from_le_bytes, fr_from_u64, fr_mul, fr_neg, fr_sub, fr_val, group_order, p1_add, p1_generator,
    p1_identity, p1_in_g, p1_mul, p1_neg, p1_val, p2_add, p2_generator, p2_in_g, p2_mul, p2_neg,
    p2_val, pairings_equal, random_bytes_32,
};
use crate::poly::{from_coefficients, Polynomial};
use bls12_381::{G1Projective, G2Projective, Scalar};
use vstd::arithmetic::div_mod::{lemma_mod_twice, lemma_small_mod, lemma_sub_mod_noop};
use vstd::arithmetic::power::{lemma_pow_increases, pow};
use vstd::prelude::*;

verus! {

/// The explicit failures of the scheme.
#[derive(Debug)]
pub enum KZGErrors {
    /// The setup secret's integer value is at least the group order.
    SecretOutOfRange,
    /// A polynomial has more coefficients than the public parameters have
    /// basis points.
    DegreeExceeded,
    /// A division was asked with a divisor of degree above the dividend's.
    DivisionError,
}

/// The public parameters of the scheme: `points_in_g1[i]` holds the
/// first-group generator times the i-th power of the setup secret, and
/// `point_in_g2` holds the second-group generator times the secret.
#[derive(Debug)]
pub struct PP {
    pub points_in_g1: Vec<G1Projective>,
    pub point_in_g2: G2Projective,
}

impl PP {
    /// The indices of the basis points with respect to the first-group
    /// generator.
    pub open spec fn basis(&self) -> Seq<int> {
        self.points_in_g1@.map(|_i: int, p: G1Projective| p1_val(p))
    }

    /// The points lie in the prime-order subgroups and at least one basis
    /// point is present.
    pub open spec fn wf(&self) -> bool {
        &&& self.points_in_g1@.len() >= 1
        &&& forall|i: int|
            0 <= i < self.points_in_g1@.len() ==> p1_in_g(#[trigger] self.points_in_g1@[i])
        &&& p2_in_g(self.point_in_g2)
    }
}

/// The setup side of the scheme, holding the public parameters it produced.
#[derive(Debug)]
pub struct KZG {
    pub public_parameter: PP,
}

/// A commitment: the committed point, with owned copies of the source
/// polynomial and of the public parameters used.
#[derive(Debug)]
pub struct Commitment {
    pub element: G1Projective,
    pub polynomial: Polynomial,
    pub public_parameter: PP,
}

impl Commitment {
    /// The commitment is well-formed: its point is the multi-scalar
    /// accumulation of its non-empty polynomial against its parameters, and
    /// the polynomial fits the degree bound.
    pub open spec fn wf(&self) -> bool {
        &&& self.polynomial.wf()
        &&& 1 <= self.polynomial@.len() <= self.public_parameter.points_in_g1@.len()
        &&& self.public_parameter.wf()
        &&& p1_in_g(self.element)
        &&& p1_val(self.element) == msm(self.polynomial@, self.public_parameter.basis())
    }
}

/// An opening: the claimed value of the committed polynomial at a point, and
/// the proof point that backs the claim.
#[derive(Debug)]
pub struct Opening {
    pub value: Scalar,
    pub proof_point: G1Projective,
}

/// Copies a vector of scalars.
fn clone_scalars(v: &Vec<Scalar>) -> (r: Vec<Scalar>)
    ensures
        r@ == v@,
{
    let mut r: Vec<Scalar> = Vec::new();
    let mut i: usize = 0;
    while i < v.len()
        invariant
            i <= v@.len(),
            r@ =~= v@.subrange(0, i as int),
        decreases v@.len() - i,
    {
        r.push(v[i]);
        i = i + 1;
    }
    proof {
        assert(v@.subrange(0, v@.len() as int) =~= v@);
    }
    r
}

/// Copies a vector of first-group points.
fn clone_points(v: &Vec<G1Projective>) -> (r: Vec<G1Projective>)
    ensures
        r@ == v@,
{
    let mut r: Vec<G1Projective> = Vec::new();
    let mut i: usize = 0;
    while i < v.len()
        invariant
            i <= v@.len(),
            r@ =~= v@.subrange(0, i as int),
        decreases v@.len() - i,
    {
        r.push(v[i]);
        i = i + 1;
    }
    proof {
        assert(v@.subrange(0, v@.len() as int) =~= v@);
    }
    r
}

/// Copies a 32-byte buffer into a vector.
fn bytes32_to_vec(b: &[u8; 32]) -> (r: Vec<u8>)
    ensures
        r@ == b@,
{
    let mut r: Vec<u8> = Vec::new();
    let mut i: usize = 0;
    while i < 32
        invariant
            i <= 32,
            r@ =~= b@.subrange(0, i as int),
        decreases 32 - i,
    {
        r.push(b[i]);
        i = i + 1;
    }
    proof {
        assert(b@.subrange(0, 32) =~= b@);
    }
    r
}

/// Left-pads a big-endian byte string with zeros to 32 bytes, keeping its
/// value.
fn pad_to_32(raw: &Vec<u8>) -> (r: Vec<u8>)
    requires
        1 <= raw@.len() <= 32,
    ensures
        r@.len() == 32,
        be_val(r@) == be_val(raw@),
{
    let zeros: usize = 32 - raw.len();
    let mut padded: Vec<u8> = Vec::new();
    let mut i: usize = 0;
    while i < zeros
        invariant
            i <= zeros,
            padded@.len() == i,
            forall|j: int| 0 <= j < i ==> padded@[j] == 0,
        decreases zeros - i,
    {
        padded.push(0u8);
        i = i + 1;
    }
    let ghost zs = padded@;
    let mut j: usize = 0;
    while j < raw.len()
        invariant
            j <= raw@.len(),
            padded@ =~= zs + raw@.subrange(0, j as int),
        decreases raw@.len() - j,
    {
        padded.push(raw[j]);
        j = j + 1;
    }
    proof {
        assert(raw@.subrange(0, raw@.len() as int) =~= raw@);
        lemma_be_val_zero_prefix(zs, raw@);
    }
    padded
}

/// Parses 32 big-endian bytes whose value is below the group order as a
/// scalar, by handing the collaborator the reversed, little-endian form.
fn fr_from_be_bytes(b: &Vec<u8>) -> (r: Scalar)
    requires
        b@.len() == 32,
        0 <= be_val(b@) < fr_order(),
    ensures
        fr_val(r) == be_val(b@),
{
    let mut le: Vec<u8> = Vec::new();
    let mut i: usize = 0;
    while i < 32
        invariant
            i <= 32,
            b@.len() == 32,
            le@.len() == i,
            forall|j: int| 0 <= j < i ==> le@[j] == b@[31 - j],
        decreases 32 - i,
    {
        le.push(b[31 - i]);
        i = i + 1;
    }
    proof {
        crate::algebra::lemma_le_val_of_reversed(le@, b@);
    }
    fr_from_le_bytes(&le)
}

/// Encodes a big integer below the group order as exactly 32 big-endian
/// bytes.
fn scalar_bytes32(v: &num_bigint::BigUint) -> (r: Vec<u8>)
    requires
        0 <= bu_val(*v) < fr_order(),
    ensures
        r@.len() == 32,
        be_val(r@) == bu_val(*v),
{
    let raw_bytes = bu_to_be_bytes(v);
    proof {
        crate::algebra::lemma_pow256_32();
        if raw_bytes@.len() > 32 {
            lemma_be_val_first_nonzero(raw_bytes@);
            lemma_pow_increases(256, 32, (raw_bytes@.len() - 1) as nat);
            assert(false);
        }
    }
    pad_to_32(&raw_bytes)
}

impl KZG {
    /// Builds the public parameters from the given 32-byte big-endian secret
    /// and the degree bound; the secret must be below the group order.
    pub fn new(tau: &[u8; 32], degree: usize) -> (r: Result<KZG, KZGErrors>)
        requires
            degree < usize::MAX,
        ensures
            be_val(tau@) >= fr_order() <==> r is Err,
            r is Err ==> (r matches Err(e) && e == KZGErrors::SecretOutOfRange),
            r matches Ok(k) ==> {
                &&& k.public_parameter.wf()
                &&& k.public_parameter.points_in_g1@.len() == degree + 1
                &&& forall|j: int|
                    0 <= j <= degree ==> k.public_parameter.basis()[j] == pow(
                        be_val(tau@),
                        j as nat,
                    ) % fr_order()
                &&& p2_val(k.public_parameter.point_in_g2) == be_val(tau@)
            },
    {
        KZG::setup_internal(&bytes32_to_vec(tau), degree)
    }

    /// Builds the public parameters from a secret drawn from the secure
    /// random source; redraws while the drawn value is at or above the group
    /// order, then discards the secret. Unlike pure rejection sampling, the
    /// redraws are capped so that the loop provably terminates; if the cap is
    /// ever reached (each draw passes with probability above two fifths, so
    /// this is never expected), the last draw is folded into range by one
    /// modular reduction, at the cost of a negligible bias.
    pub fn new_rand(degree: usize) -> (r: Result<KZG, KZGErrors>)
        requires
            degree < usize::MAX,
        ensures
            r is Ok,
            r matches Ok(k) ==> {
                &&& k.public_parameter.wf()
                &&& k.public_parameter.points_in_g1@.len() == degree + 1
                &&& exists|s: int|
                    reduced(s) && p2_val(k.public_parameter.point_in_g2) == s && forall|j: int|
                        0 <= j <= degree ==> k.public_parameter.basis()[j] == pow(s, j as nat)
                            % fr_order()
            },
    {
        let modulus = group_order();
        let mut secret = random_bytes_32();
        let mut s = bu_from_be_bytes(&secret);
        let mut too_big = bu_ge(&s, &modulus);
        let mut attempts: usize = 0;
        while too_big && attempts < 65536
            invariant
                secret@.len() == 32,
                bu_val(s) == be_val(secret@),
                !too_big ==> be_val(secret@) < fr_order(),
            decreases 65536 - attempts,
        {
            secret = random_bytes_32();
            s = bu_from_be_bytes(&secret);
            too_big = bu_ge(&s, &modulus);
            attempts = attempts + 1;
        }
        if too_big {
            // Out of draws, which is never expected: fold the last draw into
            // the field by one modular reduction instead.
            proof {
                lemma_be_val_bounds(secret@);
            }
            let exponent = bu_from_usize(1);
            let folded = bu_modpow(&s, &exponent, &modulus);
            proof {
                vstd::arithmetic::power::lemma_pow1(bu_val(s));
            }
            secret = scalar_bytes32(&folded);
        }
        let r = KZG::setup_internal(&secret, degree);
        proof {
            lemma_be_val_bounds(secret@);
            let s0 = be_val(secret@);
            if r is Ok {
                let k = r->Ok_0;
                assert(reduced(s0) && p2_val(k.public_parameter.point_in_g2) == s0 && forall|j: int|
                    0 <= j <= degree ==> k.public_parameter.basis()[j] == pow(s0, j as nat)
                        % fr_order());
            }
        }
        r
    }

    /// Derives the secret-power basis in the first group and the secret point
    /// in the second group, by modular exponentiation per index.
    fn setup_internal(tau: &Vec<u8>, degree: usize) -> (r: Result<KZG, KZGErrors>)
        requires
            degree < usize::MAX,
            tau@.len() == 32,
        ensures
            be_val(tau@) >= fr_order() <==> r is Err,
            r is Err ==> (r matches Err(e) && e == KZGErrors::SecretOutOfRange),
            r matches Ok(k) ==> {
                &&& k.public_parameter.wf()
                &&& k.public_parameter.points_in_g1@.len() == degree + 1
                &&& forall|j: int|
                    0 <= j <= degree ==> k.public_parameter.basis()[j] == pow(
                        be_val(tau@),
                        j as nat,
                    ) % fr_order()
                &&& p2_val(k.public_parameter.point_in_g2) == be_val(tau@)
            },
    {
        let modulus = group_order();
        let bytes_tau = bu_from_be_bytes(tau);
        if bu_ge(&bytes_tau, &modulus) {
            return Err(KZGErrors::SecretOutOfRange);
        }
        proof {
            lemma_be_val_bounds(tau@);
        }
        let ghost tau_v = be_val(tau@);
        let g1 = p1_generator();
        let mut points_in_g1: Vec<G1Projective> = Vec::new();
        let mut i: usize = 0;
        while i <= degree
            invariant
                i <= degree + 1,
                points_in_g1@.len() == i,
                forall|j: int| 0 <= j < i ==> p1_in_g(#[trigger] points_in_g1@[j]),
                forall|j: int|
                    0 <= j < i ==> p1_val(#[trigger] points_in_g1@[j]) == pow(tau_v, j as nat)
                        % fr_order(),
            decreases degree + 1 - i,
        {
            let i_as_big = bu_from_usize(i);
            let s_i_big = bu_modpow(&bytes_tau, &i_as_big, &modulus);
            let raw_bytes = bu_to_be_bytes(&s_i_big);
            proof {
                crate::algebra::lemma_pow256_32();
                if raw_bytes@.len() > 32 {
                    lemma_be_val_first_nonzero(raw_bytes@);
                    lemma_pow_increases(256, 32, (raw_bytes@.len() - 1) as nat);
                    assert(false);
                }
            }
            let s_i_bytes = pad_to_32(&raw_bytes);
            let s_i_scalar = fr_from_be_bytes(&s_i_bytes);
            let result = p1_mul(s_i_scalar, g1);
            proof {
                let pv = pow(tau_v, i as nat) % fr_order();
                assert(fr_val(s_i_scalar) * 1 == fr_val(s_i_scalar));
                lemma_small_mod(pv as nat, fr_order() as nat);
                assert(p1_val(result) == pow(tau_v, i as nat) % fr_order());
            }
            points_in_g1.push(result);
            i = i + 1;
        }
        let scalar = fr_from_be_bytes(tau);
        let result_in_g2 = p2_mul(scalar, p2_generator());
        proof {
            assert(fr_val(scalar) * 1 == fr_val(scalar));
            lemma_small_mod(tau_v as nat, fr_order() as nat);
            assert(p2_val(result_in_g2) == tau_v);
        }
        let public_parameter = PP { points_in_g1, point_in_g2: result_in_g2 };
        Ok(KZG { public_parameter })
    }

    /// Commits to a polynomial: the multi-scalar accumulation of its
    /// coefficients against the basis points.
    pub fn commit(public_parameter: &PP, polynomial: &Polynomial) -> (r: Result<
        Commitment,
        KZGErrors,
    >)
        requires
            public_parameter.wf(),
            polynomial.wf(),
            polynomial@.len() >= 1,
        ensures
            polynomial@.len() > public_parameter.points_in_g1@.len() <==> r is Err,
            r is Err ==> (r matches Err(e) && e == KZGErrors::DegreeExceeded),
            r matches Ok(c) ==> {
                &&& c.wf()
                &&& c.polynomial@ == polynomial@
                &&& c.public_parameter.points_in_g1@ == public_parameter.points_in_g1@
                &&& c.public_parameter.point_in_g2 == public_parameter.point_in_g2
                &&& p1_val(c.element) == msm(polynomial@, public_parameter.basis())
                &&& p1_in_g(c.element)
            },
    {
        let basis = &public_parameter.points_in_g1;
        let coefficients = &polynomial.coefficients;
        if coefficients.len() > basis.len() {
            return Err(KZGErrors::DegreeExceeded);
        }
        let ghost bvals = public_parameter.basis();
        let mut result = p1_identity();
        let mut i: usize = 0;
        while i < coefficients.len()
            invariant
                i <= polynomial@.len(),
                p1_in_g(result),
                reduced(p1_val(result)),
                p1_val(result) == msm(polynomial@.subrange(0, i as int), bvals),
            decreases polynomial@.len() - i,
        {
            let term = p1_mul(coefficients[i], basis[i]);
            let new_result = p1_add(result, term);
            proof {
                let ci = polynomial@[i as int];
                let bi = bvals[i as int];
                lemma_mod_twice(ci * bi, fr_order());
                lemma_add_congruent((ci * bi) % fr_order(), ci * bi, p1_val(result));
                assert(polynomial@.subrange(0, i + 1).drop_last() =~= polynomial@.subrange(
                    0,
                    i as int,
                ));
                assert(p1_val(new_result) == msm(polynomial@.subrange(0, i + 1), bvals));
            }
            result = new_result;
            i = i + 1;
        }
        proof {
            assert(polynomial@.subrange(0, polynomial@.len() as int) =~= polynomial@);
        }
        Ok(
            Commitment {
                element: result,
                polynomial: Polynomial { coefficients: clone_scalars(coefficients) },
                public_parameter: PP {
                    points_in_g1: clone_points(basis),
                    point_in_g2: public_parameter.point_in_g2,
                },
            },
        )
    }
}

/// Divides `dividend` by `divisor` in the scalar field, discarding the
/// remainder. The divisor's leading coefficient must be nonzero; a divisor of
/// higher degree than the dividend is refused. For every divisor, the product
/// of quotient and divisor agrees with the dividend on each coefficient from
/// the divisor's degree upward (below it only the discarded remainder
/// differs), which pins the quotient; for the monic linear divisor the
/// quotient is also given in closed form.
pub fn compute_quotient(dividend: &Polynomial, divisor: &Polynomial) -> (r: Result<
    Polynomial,
    KZGErrors,
>)
    requires
        dividend.wf(),
        divisor.wf(),
        dividend@.len() >= 1,
        divisor@.len() >= 1,
        divisor@[divisor@.len() - 1] != 0,
    ensures
        divisor@.len() > dividend@.len() <==> r is Err,
        r is Err ==> (r matches Err(e) && e == KZGErrors::DivisionError),
        r matches Ok(q) ==> {
            &&& q.wf()
            &&& q@.len() == dividend@.len() - divisor@.len() + 1
            &&& forall|p: int|
                divisor@.len() - 1 <= p < dividend@.len()
                    ==> crate::algebra::conv_at(q@, divisor@, p) % fr_order() == dividend@[p]
                    % fr_order()
            &&& (divisor@.len() == 2 && divisor@[1] == 1) ==> q@ == synth_quot(
                dividend@,
                (0 - divisor@[0]) % fr_order(),
            )
        },
{
    let n = dividend.coefficients.len();
    let m = divisor.coefficients.len();
    if m > n {
        return Err(KZGErrors::DivisionError);
    }
    let ghost is_lin = divisor@.len() == 2 && divisor@[1] == 1;
    let ghost z = (0 - divisor@[0]) % fr_order();
    let ghost quot = synth_quot(dividend@, z);
    proof {
        crate::algebra::lemma_synth_quot_len(dividend@, z);
    }
    let steps = n - m + 1;
    let mut working = clone_scalars(&dividend.coefficients);
    let mut terms: Vec<Scalar> = Vec::new();
    let mut k = steps;
    let ghost fview = dividend@;
    let ghost dview = divisor@;
    let ghost mut qpart: Seq<int> = Seq::new(steps as nat, |_i: int| 0int);
    proof {
        if is_lin {
            assert(crate::poly::scalar_vals(working@).subrange(0, (k + 1) as int) =~= dividend@);
            assert(quot.subrange(0, k as int) =~= quot);
        }
        assert forall|p: int| 0 <= p < n implies crate::poly::scalar_vals(working@)[p]
            % fr_order() == (fview[p] - crate::algebra::conv_at(qpart, dview, p)) % fr_order() by {
            crate::algebra::lemma_conv_pre_zero(qpart, dview, p, dview.len() as int);
        }
    }
    while k > 0
        invariant
            k <= steps,
            steps == n - m + 1,
            working@.len() == n,
            terms@.len() == steps - k,
            forall|j: int|
                0 <= j < terms@.len() ==> reduced(
                    #[trigger] crate::poly::scalar_vals(terms@)[j],
                ),
            is_lin ==> synth_quot(crate::poly::scalar_vals(working@).subrange(0, k + 1), z)
                == quot.subrange(0, k as int),
            is_lin ==> forall|j: int|
                0 <= j < terms@.len() ==> crate::poly::scalar_vals(terms@)[j] == quot[steps - 1
                    - j],
            qpart.len() == steps,
            forall|i: int| 0 <= i < k ==> qpart[i] == 0,
            forall|i: int|
                k <= i < steps ==> #[trigger] qpart[i] == crate::poly::scalar_vals(
                    terms@,
                )[steps - 1 - i],
            forall|p: int|
                0 <= p < n ==> crate::poly::scalar_vals(working@)[p] % fr_order() == (fview[p]
                    - crate::algebra::conv_at(qpart, dview, p)) % fr_order(),
            forall|p: int|
                k + m - 1 <= p < n ==> crate::poly::scalar_vals(working@)[p] % fr_order() == 0,
        decreases k,
    {
        let kk = k - 1;
        let pos = kk + (m - 1);
        let t = fr_div(working[pos], divisor.coefficients[m - 1]);
        let ghost old_w = crate::poly::scalar_vals(working@);
        let mut idx: usize = 0;
        while idx < m
            invariant
                idx <= m,
                working@.len() == n,
                forall|j: int|
                    0 <= j < n && !(kk <= j < kk + idx) ==> crate::poly::scalar_vals(working@)[j]
                        == old_w[j],
                forall|j: int|
                    kk <= j < kk + idx ==> crate::poly::scalar_vals(working@)[j] == (old_w[j] - (
                    divisor@[j - kk] * fr_val(t)) % fr_order()) % fr_order(),
            decreases m - idx,
        {
            let cur_val = working[kk + idx];
            let upd = fr_sub(cur_val, fr_mul(divisor.coefficients[idx], t));
            let ghost prev = working@;
            working[kk + idx] = upd;
            proof {
                crate::poly::lemma_scalar_vals_update(prev, (kk + idx) as int, upd);
            }
            idx = idx + 1;
        }
        proof {
            let wv = crate::poly::scalar_vals(working@);
            let tv = fr_val(t);
            let dlast = dview[m - 1];
            let qp2 = qpart.update(kk as int, tv);
            // each position keeps the balance between the working entries and
            // the partial product of quotient and divisor
            assert forall|p: int| 0 <= p < n implies wv[p] % fr_order() == (fview[p]
                - crate::algebra::conv_at(qp2, dview, p)) % fr_order() by {
                crate::algebra::lemma_conv_pre_update(qpart, dview, p, m as int, kk as int, tv);
                if kk <= p < kk + m {
                    let dd = dview[p - kk];
                    assert(wv[p] == (old_w[p] - (dd * tv) % fr_order()) % fr_order());
                    lemma_mod_twice(old_w[p] - (dd * tv) % fr_order(), fr_order());
                    lemma_mod_twice(dd * tv, fr_order());
                    crate::algebra::lemma_sub_congruent((dd * tv) % fr_order(), dd * tv, old_w[p]);
                    crate::algebra::lemma_add_congruent(
                        old_w[p],
                        fview[p] - crate::algebra::conv_at(qpart, dview, p),
                        0 - dd * tv,
                    );
                    assert(tv * dd == dd * tv) by (nonlinear_arith);
                }
            }
            // the cursor entry is cleared by the chosen quotient term
            vstd::arithmetic::div_mod::lemma_mod_equivalence(
                old_w[pos as int],
                tv * dlast,
                fr_order(),
            );
            assert(tv * dlast == dlast * tv) by (nonlinear_arith);
            lemma_mod_twice(dlast * tv, fr_order());
            crate::algebra::lemma_sub_congruent(
                (dlast * tv) % fr_order(),
                dlast * tv,
                old_w[pos as int],
            );
            lemma_mod_twice(old_w[pos as int] - (dlast * tv) % fr_order(), fr_order());
            assert(wv[pos as int] % fr_order() == 0);
            assert forall|p: int| kk + m - 1 <= p < n implies wv[p] % fr_order() == 0 by {
                if p > kk + m - 1 {
                    assert(wv[p] == old_w[p]);
                }
            }
            if is_lin {
                let d0 = divisor@[0];
                let cur = old_w.subrange(0, k + 1);
                let cur2 = wv.subrange(0, k as int);
                crate::algebra::lemma_monic_term(tv, old_w[pos as int]);
                assert(tv == cur.last() % fr_order());
                crate::algebra::lemma_fold_step(old_w[kk as int], d0, tv, z);
                assert(wv[kk as int] == (old_w[kk as int] + z * tv) % fr_order());
                assert(cur2 =~= crate::algebra::reduce_top(cur, z));
                crate::algebra::lemma_synth_quot_step(cur, z);
                assert(synth_quot(cur, z) == synth_quot(cur2, z).push(tv));
                assert(synth_quot(cur2, z) =~= quot.subrange(0, kk as int));
                assert(tv == quot[kk as int]);
            }
        }
        let ghost tprev = terms@;
        terms.push(t);
        k = kk;
        proof {
            crate::poly::lemma_scalar_vals_push(tprev, t);
            qpart = qpart.update(kk as int, fr_val(t));
        }
    }
    let mut coefficients: Vec<Scalar> = Vec::new();
    let mut i: usize = 0;
    while i < steps
        invariant
            i <= steps,
            terms@.len() == steps,
            coefficients@.len() == i,
            forall|j: int|
                0 <= j < i ==> crate::poly::scalar_vals(coefficients@)[j]
                    == crate::poly::scalar_vals(terms@)[steps - 1 - j],
        decreases steps - i,
    {
        let ghost cprev = coefficients@;
        coefficients.push(terms[steps - 1 - i]);
        proof {
            crate::poly::lemma_scalar_vals_push(cprev, terms@[steps - 1 - i as int]);
        }
        i = i + 1;
    }
    let result = Polynomial { coefficients };
    proof {
        if is_lin {
            assert(result@ =~= quot);
        }
        assert(result@ =~= qpart);
        assert forall|p: int| m - 1 <= p < n implies crate::algebra::conv_at(result@, dview, p)
            % fr_order() == fview[p] % fr_order() by {
            vstd::arithmetic::div_mod::lemma_mod_equivalence(
                fview[p],
                crate::algebra::conv_at(qpart, dview, p),
                fr_order(),
            );
        }
    }
    Ok(result)
}

impl Commitment {
    /// Opens the commitment at `point`: evaluates the committed polynomial
    /// there and commits to the quotient by the monic linear factor through
    /// the point, which is the constant-size proof.
    pub fn open_at(&self, point: Scalar) -> (r: Result<Opening, KZGErrors>)
        requires
            self.wf(),
        ensures
            r matches Ok(o) && {
                &&& fr_val(o.value) == poly_eval(self.polynomial@, fr_val(point))
                &&& reduced(fr_val(o.value))
                &&& p1_val(o.proof_point) == msm(
                    synth_quot(self.polynomial@, fr_val(point)),
                    self.public_parameter.basis(),
                )
                &&& p1_in_g(o.proof_point)
            },
    {
        let result = self.polynomial.evaluate_at(point);
        if self.polynomial.coefficients.len() == 1 {
            // The quotient by the linear factor is empty, and committing to
            // nothing yields the first-group identity.
            proof {
                crate::algebra::lemma_synth_quot_len(self.polynomial@, fr_val(point));
                assert(msm(
                    synth_quot(self.polynomial@, fr_val(point)),
                    self.public_parameter.basis(),
                ) == 0);
            }
            return Ok(Opening { value: result, proof_point: p1_identity() });
        }
        let neg_point = fr_neg(point);
        let one = fr_from_u64(1);
        let mut divisor_coefficients: Vec<Scalar> = Vec::new();
        divisor_coefficients.push(neg_point);
        divisor_coefficients.push(one);
        proof {
            assert(fr_order() > 1);
        }
        let divisor = from_coefficients(divisor_coefficients);
        let quotient = match compute_quotient(&self.polynomial, &divisor) {
            Ok(q) => q,
            Err(e) => {
                proof {
                    assert(false);
                }
                return Err(e);
            },
        };
        proof {
            let z = fr_val(point);
            let d0 = fr_val(neg_point);
            lemma_sub_mod_noop(0, (0 - z) % fr_order(), fr_order());
            lemma_sub_mod_noop(0, 0 - z, fr_order());
            lemma_mod_twice(0 - z, fr_order());
            lemma_mod_twice(z, fr_order());
            assert((0 - d0) % fr_order() == z % fr_order());
            crate::algebra::lemma_synth_quot_mod_z(self.polynomial@, z);
            crate::algebra::lemma_synth_quot_len(self.polynomial@, z);
        }
        let proof_commitment = match KZG::commit(&self.public_parameter, &quotient) {
            Ok(c) => c,
            Err(_) => {
                proof {
                    assert(false);
                }
                return Err(KZGErrors::DegreeExceeded);
            },
        };
        Ok(Opening { value: result, proof_point: proof_commitment.element })
    }
}

impl Opening {
    /// Checks the claimed (point, value, proof) triple against the
    /// commitment with one pairing equality.
    pub fn verify(&self, input: &Scalar, commitment: &Commitment) -> (r: bool)
        requires
            p1_in_g(commitment.element),
            p1_in_g(self.proof_point),
            p2_in_g(commitment.public_parameter.point_in_g2),
        ensures
            r == kzg_check(
                p1_val(commitment.element),
                fr_val(self.value),
                p1_val(self.proof_point),
                p2_val(commitment.public_parameter.point_in_g2),
                fr_val(*input),
            ),
    {
        let y_p1 = p1_mul(self.value, p1_generator());
        let neg_y = p1_neg(y_p1);
        let commitment_minus_y = p1_add(commitment.element, neg_y);
        let z_p2 = p2_mul(*input, p2_generator());
        let neg_z = p2_neg(z_p2);
        let s_minus_z = p2_add(commitment.public_parameter.point_in_g2, neg_z);
        let r = pairings_equal(commitment_minus_y, p2_generator(), self.proof_point, s_minus_z);
        proof {
            let c = p1_val(commitment.element);
            let y = fr_val(self.value);
            let t2 = p2_val(commitment.public_parameter.point_in_g2);
            let z = fr_val(*input);
            assert(y * 1 == y);
            assert(z * 1 == z);
            lemma_sub_mod_noop(0, y % fr_order(), fr_order());
            lemma_sub_mod_noop(0, y, fr_order());
            lemma_mod_twice(y, fr_order());
            assert(p1_val(neg_y) == (0 - y) % fr_order());
            lemma_add_congruent((0 - y) % fr_order(), 0 - y, c);
            lemma_mod_twice(0 - y, fr_order());
            assert(p1_val(commitment_minus_y) == sub_mod(c, y));
            lemma_sub_mod_noop(0, z % fr_order(), fr_order());
            lemma_sub_mod_noop(0, z, fr_order());
            lemma_mod_twice(z, fr_order());
            lemma_add_congruent((0 - z) % fr_order(), 0 - z, t2);
            lemma_mod_twice(0 - z, fr_order());
            assert(p2_val(s_minus_z) == sub_mod(t2, z));
            lemma_small_mod(sub_mod(c, y) as nat, fr_order() as nat);
            assert(sub_mod(c, y) * 1 == sub_mod(c, y));
        }
        r
    }
}

} // verus!
