//! Trusted surface over the arithmetic collaborators: the BLS12-381 scalar
//! field and groups, big-integer arithmetic, and the secure random source.
//!
//! The model: `fr_val` maps a scalar to its canonical residue; `p1_val` and
//! `p2_val` map a group element to its index with respect to the group's
//! generator (each prime-order subgroup is cyclic, so the index is a residue
//! modulo the group order; for a point outside the subgroup, its component in
//! the subgroup under a fixed direct-sum decomposition of the curve group);
//! `p1_in_g` and `p2_in_g` say that a point lies in the prime-order subgroup;
//! `bu_val` maps a big unsigned integer to its value.
use crate::algebra::{be_val, fr_order, le_val, reduced};
use bls12_381::{G1Affine, G1Projective, G2Affine, G2Projective, Scalar};
use num_bigint::BigUint;
use rand::RngCore;
use vstd::arithmetic::power::pow;
use vstd::prelude::*;

verus! {

#[verifier::external_type_specification]
#[verifier::external_body]
pub struct ExScalar(Scalar);

#[verifier::external_type_specification]
#[verifier::external_body]
pub struct ExG1Projective(G1Projective);

#[verifier::external_type_specification]
#[verifier::external_body]
pub struct ExG2Projective(G2Projective);

#[verifier::external_type_specification]
#[verifier::external_body]
pub struct ExBigUint(BigUint);

pub uninterp spec fn fr_val(x: Scalar) -> int;

pub uninterp spec fn p1_val(p: G1Projective) -> int;

pub uninterp spec fn p1_in_g(p: G1Projective) -> bool;

pub uninterp spec fn p2_val(p: G2Projective) -> int;

pub uninterp spec fn p2_in_g(p: G2Projective) -> bool;

pub uninterp spec fn bu_val(x: BigUint) -> int;

/// Relies on Scalar: From<u64>: the scalar whose residue is the given word.
#[verifier::external_body]
pub(crate) fn fr_from_u64(x: u64) -> (r: Scalar)
    ensures
        fr_val(r) == x as int,
{
    Scalar::from(x)
}

/// Relies on Add for Scalar: field addition.
#[verifier::external_body]
pub(crate) fn fr_add(a: Scalar, b: Scalar) -> (r: Scalar)
    ensures
        fr_val(r) == (fr_val(a) + fr_val(b)) % fr_order(),
        reduced(fr_val(r)),
{
    a + b
}

/// Relies on Sub for Scalar: field subtraction.
#[verifier::external_body]
pub(crate) fn fr_sub(a: Scalar, b: Scalar) -> (r: Scalar)
    ensures
        fr_val(r) == (fr_val(a) - fr_val(b)) % fr_order(),
        reduced(fr_val(r)),
{
    a - b
}

/// Relies on Mul for Scalar: field multiplication.
#[verifier::external_body]
pub(crate) fn fr_mul(a: Scalar, b: Scalar) -> (r: Scalar)
    ensures
        fr_val(r) == (fr_val(a) * fr_val(b)) % fr_order(),
        reduced(fr_val(r)),
{
    a * b
}

/// Relies on Neg for Scalar: field negation.
#[verifier::external_body]
pub(crate) fn fr_neg(a: Scalar) -> (r: Scalar)
    ensures
        fr_val(r) == (0 - fr_val(a)) % fr_order(),
        reduced(fr_val(r)),
{
    -a
}

/// Relies on Scalar::invert (defined for a nonzero scalar) and Mul: field
/// division.
#[verifier::external_body]
pub(crate) fn fr_div(a: Scalar, b: Scalar) -> (r: Scalar)
    requires
        fr_val(b) != 0,
    ensures
        reduced(fr_val(r)),
        (fr_val(r) * fr_val(b)) % fr_order() == fr_val(a) % fr_order(),
{
    a * Option::<Scalar>::from(b.invert()).unwrap()
}

/// Relies on Scalar::from_bytes, which accepts exactly the canonical
/// little-endian encodings of the residues.
#[verifier::external_body]
pub(crate) fn fr_from_le_bytes(b: &Vec<u8>) -> (r: Scalar)
    requires
        b@.len() == 32,
        0 <= le_val(b@) < fr_order(),
    ensures
        fr_val(r) == le_val(b@),
{
    let arr: [u8; 32] = b.as_slice().try_into().unwrap();
    Option::<Scalar>::from(Scalar::from_bytes(&arr)).unwrap()
}

/// Relies on G1Projective::generator.
#[verifier::external_body]
pub(crate) fn p1_generator() -> (r: G1Projective)
    ensures
        p1_val(r) == 1,
        p1_in_g(r),
{
    G1Projective::generator()
}

/// Relies on G1Projective::identity.
#[verifier::external_body]
pub(crate) fn p1_identity() -> (r: G1Projective)
    ensures
        p1_val(r) == 0,
        p1_in_g(r),
{
    G1Projective::identity()
}

/// Relies on Add for G1Projective: the group operation.
#[verifier::external_body]
pub(crate) fn p1_add(a: G1Projective, b: G1Projective) -> (r: G1Projective)
    ensures
        p1_val(r) == (p1_val(a) + p1_val(b)) % fr_order(),
        reduced(p1_val(r)),
        p1_in_g(a) && p1_in_g(b) ==> p1_in_g(r),
{
    a + b
}

/// Relies on Neg for G1Projective: the group inverse.
#[verifier::external_body]
pub(crate) fn p1_neg(a: G1Projective) -> (r: G1Projective)
    ensures
        p1_val(r) == (0 - p1_val(a)) % fr_order(),
        reduced(p1_val(r)),
        p1_in_g(a) ==> p1_in_g(r),
{
    -a
}

/// Relies on Mul<Scalar> for G1Projective: scalar multiplication.
#[verifier::external_body]
pub(crate) fn p1_mul(c: Scalar, p: G1Projective) -> (r: G1Projective)
    ensures
        p1_val(r) == (fr_val(c) * p1_val(p)) % fr_order(),
        reduced(p1_val(r)),
        p1_in_g(p) ==> p1_in_g(r),
{
    p * c
}

/// Relies on G2Projective::generator.
#[verifier::external_body]
pub(crate) fn p2_generator() -> (r: G2Projective)
    ensures
        p2_val(r) == 1,
        p2_in_g(r),
{
    G2Projective::generator()
}

/// Relies on Add for G2Projective: the group operation.
#[verifier::external_body]
pub(crate) fn p2_add(a: G2Projective, b: G2Projective) -> (r: G2Projective)
    ensures
        p2_val(r) == (p2_val(a) + p2_val(b)) % fr_order(),
        reduced(p2_val(r)),
        p2_in_g(a) && p2_in_g(b) ==> p2_in_g(r),
{
    a + b
}

/// Relies on Neg for G2Projective: the group inverse.
#[verifier::external_body]
pub(crate) fn p2_neg(a: G2Projective) -> (r: G2Projective)
    ensures
        p2_val(r) == (0 - p2_val(a)) % fr_order(),
        reduced(p2_val(r)),
        p2_in_g(a) ==> p2_in_g(r),
{
    -a
}

/// Relies on Mul<Scalar> for G2Projective: scalar multiplication.
#[verifier::external_body]
pub(crate) fn p2_mul(c: Scalar, p: G2Projective) -> (r: G2Projective)
    ensures
        p2_val(r) == (fr_val(c) * p2_val(p)) % fr_order(),
        reduced(p2_val(r)),
        p2_in_g(p) ==> p2_in_g(r),
{
    p * c
}

/// Relies on bls12_381::pairing being a non-degenerate bilinear map on the
/// prime-order subgroups: for points in them, the two pairings agree exactly
/// when the products of the points' indices agree modulo the group order.
#[verifier::external_body]
pub(crate) fn pairings_equal(
    a: G1Projective,
    b: G2Projective,
    c: G1Projective,
    d: G2Projective,
) -> (r: bool)
    requires
        p1_in_g(a),
        p2_in_g(b),
        p1_in_g(c),
        p2_in_g(d),
    ensures
        r == ((p1_val(a) * p2_val(b)) % fr_order() == (p1_val(c) * p2_val(d)) % fr_order()),
{
    bls12_381::pairing(&G1Affine::from(a), &G2Affine::from(b))
        == bls12_381::pairing(&G1Affine::from(c), &G2Affine::from(d))
}

/// Relies on BigUint::from_bytes_be; the bytes are the order of the
/// BLS12-381 prime-order subgroups, the crate's documented `MODULUS`.
#[verifier::external_body]
pub(crate) fn group_order() -> (r: BigUint)
    ensures
        bu_val(r) == fr_order(),
{
    BigUint::from_bytes_be(&[
        0x73, 0xed, 0xa7, 0x53, 0x29, 0x9d, 0x7d, 0x48, 0x33, 0x39, 0xd8, 0x08, 0x09, 0xa1,
        0xd8, 0x05, 0x53, 0xbd, 0xa4, 0x02, 0xff, 0xfe, 0x5b, 0xfe, 0xff, 0xff, 0xff, 0xff,
        0x00, 0x00, 0x00, 0x01,
    ])
}

/// Relies on BigUint::from_bytes_be.
#[verifier::external_body]
pub(crate) fn bu_from_be_bytes(b: &Vec<u8>) -> (r: BigUint)
    ensures
        bu_val(r) == be_val(b@),
{
    BigUint::from_bytes_be(b)
}

/// Relies on BigUint: From<usize>.
#[verifier::external_body]
pub(crate) fn bu_from_usize(x: usize) -> (r: BigUint)
    ensures
        bu_val(r) == x as int,
{
    BigUint::from(x)
}

/// Relies on PartialOrd for BigUint: the numerical order.
#[verifier::external_body]
pub(crate) fn bu_ge(a: &BigUint, b: &BigUint) -> (r: bool)
    ensures
        r == (bu_val(*a) >= bu_val(*b)),
{
    a >= b
}

/// Relies on BigUint::modpow: `(base ^ exponent) % modulus`, which panics on
/// a zero modulus.
#[verifier::external_body]
pub(crate) fn bu_modpow(base: &BigUint, exponent: &BigUint, modulus: &BigUint) -> (r: BigUint)
    requires
        bu_val(*base) >= 0,
        bu_val(*exponent) >= 0,
        bu_val(*modulus) >= 1,
    ensures
        bu_val(r) == pow(bu_val(*base), bu_val(*exponent) as nat) % bu_val(*modulus),
{
    base.modpow(exponent, modulus)
}

/// Relies on BigUint::to_bytes_be: the shortest big-endian encoding, with the
/// single byte zero for the value zero.
#[verifier::external_body]
pub(crate) fn bu_to_be_bytes(v: &BigUint) -> (r: Vec<u8>)
    ensures
        be_val(r@) == bu_val(*v),
        r@.len() >= 1,
        r@.len() > 1 ==> r@[0] != 0,
{
    v.to_bytes_be()
}

/// Relies on rand::thread_rng and RngCore::fill_bytes: a buffer of 32
/// cryptographically secure random bytes. Nothing is assumed of the values.
#[verifier::external_body]
pub(crate) fn random_bytes_32() -> (r: Vec<u8>)
    ensures
        r@.len() == 32,
{
    let mut buf = [0u8; 32];
    rand::thread_rng().fill_bytes(&mut buf);
    buf.to_vec()
}

} // verus!
