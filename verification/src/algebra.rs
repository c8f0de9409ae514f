//! Mathematical model of the scheme: the scalar-field order, modular
//! polynomial evaluation, multi-scalar accumulation, synthetic division by a
//! monic linear factor, and big-endian byte values, together with the lemmas
//! that relate them.
use vstd::arithmetic::div_mod::{
    lemma_add_mod_noop, lemma_mod_twice, lemma_mul_mod_noop_left, lemma_mul_mod_noop_right,
    lemma_small_mod, lemma_sub_mod_noop,
};
use vstd::arithmetic::power::{lemma_pow0, pow};
use vstd::prelude::*;

verus! {

/// The order of the BLS12-381 prime-order subgroups, which is also the
/// modulus of the scalar field.
pub open spec fn fr_order() -> int {
    0x73eda753299d7d483339d80809a1d80553bda402fffe5bfeffffffff00000001int
}

/// A canonical residue of the scalar field.
pub open spec fn reduced(x: int) -> bool {
    0 <= x < fr_order()
}

/// Subtraction in the scalar field.
pub open spec fn sub_mod(a: int, b: int) -> int {
    (a - b) % fr_order()
}

/// Value of a polynomial, given lowest-power-first coefficients `c`, at `x`,
/// in the scalar field.
pub open spec fn poly_eval(c: Seq<int>, x: int) -> int
    decreases c.len(),
{
    if c.len() == 0 {
        0
    } else {
        (poly_eval(c.drop_last(), x) + c.last() * pow(x, (c.len() - 1) as nat)) % fr_order()
    }
}

/// Multi-scalar accumulation: the sum of `c[i] * b[i]` in the scalar field,
/// over the indices of `c`. Meaningful when `c.len() <= b.len()`.
pub open spec fn msm(c: Seq<int>, b: Seq<int>) -> int
    decreases c.len(),
{
    if c.len() == 0 {
        0
    } else {
        (msm(c.drop_last(), b) + c.last() * b[c.len() - 1]) % fr_order()
    }
}

/// One step of synthetic division of `f` by the monic linear factor `x - z`:
/// drop the leading coefficient and fold it into the next one.
pub open spec fn reduce_top(f: Seq<int>, z: int) -> Seq<int> {
    f.drop_last().update(f.len() - 2, (f[f.len() - 2] + z * (f.last() % fr_order())) % fr_order())
}

/// The quotient of dividing `f` by the monic linear factor `x - z` in the
/// scalar field, lowest-power-first, ignoring the remainder.
pub open spec fn synth_quot(f: Seq<int>, z: int) -> Seq<int>
    decreases f.len(),
{
    if f.len() <= 1 {
        Seq::empty()
    } else {
        synth_quot(reduce_top(f, z), z).push(f.last() % fr_order())
    }
}

/// The convolution of a quotient `q` and a divisor `d` at position `p`,
/// summed over the divisor indices below `j`: the coefficient of the product
/// polynomial `q * d` at the power `p`, once `j` reaches the length of `d`.
pub open spec fn conv_pre(q: Seq<int>, d: Seq<int>, p: int, j: int) -> int
    decreases j,
{
    if j <= 0 {
        0
    } else {
        conv_pre(q, d, p, j - 1) + if 0 <= p - (j - 1) < q.len() {
            q[p - (j - 1)] * d[j - 1]
        } else {
            0
        }
    }
}

/// The coefficient of the product polynomial `q * d` at the power `p`.
pub open spec fn conv_at(q: Seq<int>, d: Seq<int>, p: int) -> int {
    conv_pre(q, d, p, d.len() as int)
}

/// The convolution with an all-zero quotient vanishes.
pub proof fn lemma_conv_pre_zero(q: Seq<int>, d: Seq<int>, p: int, j: int)
    requires
        forall|i: int| 0 <= i < q.len() ==> q[i] == 0,
    ensures
        conv_pre(q, d, p, j) == 0,
    decreases j,
{
    if j > 0 {
        lemma_conv_pre_zero(q, d, p, j - 1);
    }
}

/// Filling one zero entry of the quotient adds exactly one term to the
/// convolution.
pub proof fn lemma_conv_pre_update(q: Seq<int>, d: Seq<int>, p: int, j: int, k0: int, t: int)
    requires
        0 <= k0 < q.len(),
        q[k0] == 0,
    ensures
        conv_pre(q.update(k0, t), d, p, j) == conv_pre(q, d, p, j) + if 0 <= p - k0 < j {
            t * d[p - k0]
        } else {
            0
        },
    decreases j,
{
    if j > 0 {
        lemma_conv_pre_update(q, d, p, j - 1, k0, t);
    }
}

/// Congruent terms stay congruent under a common minuend.
pub proof fn lemma_sub_congruent(p: int, q: int, c: int)
    requires
        p % fr_order() == q % fr_order(),
    ensures
        (c - p) % fr_order() == (c - q) % fr_order(),
{
    lemma_sub_mod_noop(c, p, fr_order());
    lemma_sub_mod_noop(c, q, fr_order());
}

/// The big-endian integer value of a byte string.
pub open spec fn be_val(s: Seq<u8>) -> int
    decreases s.len(),
{
    if s.len() == 0 {
        0
    } else {
        be_val(s.drop_last()) * 256 + s.last()
    }
}

/// The little-endian integer value of a byte string.
pub open spec fn le_val(s: Seq<u8>) -> int
    decreases s.len(),
{
    if s.len() == 0 {
        0
    } else {
        s[0] + 256 * le_val(s.subrange(1, s.len() as int))
    }
}

/// Reversing a byte string swaps its big-endian and little-endian values.
pub proof fn lemma_le_val_of_reversed(r: Seq<u8>, s: Seq<u8>)
    requires
        r.len() == s.len(),
        forall|i: int| 0 <= i < r.len() ==> r[i] == s[s.len() - 1 - i],
    ensures
        le_val(r) == be_val(s),
    decreases s.len(),
{
    if s.len() != 0 {
        let r2 = r.subrange(1, r.len() as int);
        let s2 = s.drop_last();
        assert(forall|i: int| 0 <= i < r2.len() ==> r2[i] == s2[s2.len() - 1 - i]);
        lemma_le_val_of_reversed(r2, s2);
    }
}

/// The linear combination `a * p + q` of two coefficient sequences of equal
/// length, in the scalar field.
pub open spec fn lin_comb(a: int, p: Seq<int>, q: Seq<int>) -> Seq<int> {
    Seq::new(p.len(), |i: int| (a * p[i] + q[i]) % fr_order())
}

/// The equality that the pairing test of the verifier decides, stated over
/// the scalar field: commitment `c`, claimed value `y`, proof `w`, the
/// second-group parameter `t2`, and the evaluation point `z`.
pub open spec fn kzg_check(c: int, y: int, w: int, t2: int, z: int) -> bool {
    sub_mod(c, y) == (w * sub_mod(t2, z)) % fr_order()
}

/// Congruent terms stay congruent under a common addend.
pub proof fn lemma_add_congruent(p: int, q: int, c: int)
    requires
        p % fr_order() == q % fr_order(),
    ensures
        (p + c) % fr_order() == (q + c) % fr_order(),
{
    lemma_add_mod_noop(p, c, fr_order());
    lemma_add_mod_noop(q, c, fr_order());
}

/// Congruent terms stay congruent under a common factor.
pub proof fn lemma_mul_congruent(p: int, q: int, c: int)
    requires
        p % fr_order() == q % fr_order(),
    ensures
        (p * c) % fr_order() == (q * c) % fr_order(),
{
    lemma_mul_mod_noop_left(p, c, fr_order());
    lemma_mul_mod_noop_left(q, c, fr_order());
}

/// A polynomial value is a canonical residue.
pub proof fn lemma_poly_eval_reduced(c: Seq<int>, x: int)
    ensures
        reduced(poly_eval(c, x)),
    decreases c.len(),
{
    if c.len() != 0 {
        lemma_poly_eval_reduced(c.drop_last(), x);
    }
}

/// A multi-scalar accumulation is a canonical residue.
pub proof fn lemma_msm_reduced(c: Seq<int>, b: Seq<int>)
    ensures
        reduced(msm(c, b)),
    decreases c.len(),
{
    if c.len() != 0 {
        lemma_msm_reduced(c.drop_last(), b);
    }
}

/// The quotient of a division by a linear factor has one coefficient fewer
/// than the dividend.
pub proof fn lemma_synth_quot_len(f: Seq<int>, z: int)
    requires
        f.len() >= 1,
    ensures
        synth_quot(f, z).len() == f.len() - 1,
    decreases f.len(),
{
    if f.len() > 1 {
        lemma_synth_quot_len(reduce_top(f, z), z);
    }
}

/// A big-endian byte value is bounded by the base raised to the length.
pub proof fn lemma_be_val_bounds(s: Seq<u8>)
    ensures
        0 <= be_val(s) < pow(256, s.len()),
    decreases s.len(),
{
    if s.len() == 0 {
        lemma_pow0(256);
    } else {
        lemma_be_val_bounds(s.drop_last());
        vstd::arithmetic::power::lemma_pow_adds(256, (s.len() - 1) as nat, 1);
        vstd::arithmetic::power::lemma_pow1(256);
        vstd::arithmetic::mul::lemma_mul_inequality(
            be_val(s.drop_last()),
            pow(256, (s.len() - 1) as nat) - 1,
            256,
        );
    }
}

/// A big-endian byte string with a nonzero first byte is at least the base
/// raised to one less than the length.
pub proof fn lemma_be_val_first_nonzero(s: Seq<u8>)
    requires
        s.len() >= 1,
        s[0] != 0,
    ensures
        be_val(s) >= pow(256, (s.len() - 1) as nat),
    decreases s.len(),
{
    if s.len() == 1 {
        lemma_pow0(256);
    } else {
        lemma_be_val_first_nonzero(s.drop_last());
        lemma_be_val_bounds(s);
        vstd::arithmetic::power::lemma_pow_adds(256, (s.len() - 2) as nat, 1);
        vstd::arithmetic::power::lemma_pow1(256);
        vstd::arithmetic::mul::lemma_mul_inequality(
            pow(256, (s.len() - 2) as nat),
            be_val(s.drop_last()),
            256,
        );
    }
}

/// The base raised to a 32-byte length, written out.
pub proof fn lemma_pow256_32()
    ensures
        pow(256, 32) == 0x10000000000000000000000000000000000000000000000000000000000000000int,
{
    vstd::arithmetic::power::lemma_pow1(256);
    vstd::arithmetic::power::lemma_pow_adds(256, 1, 1);
    assert(pow(256, 2) == 0x10000int);
    vstd::arithmetic::power::lemma_pow_adds(256, 2, 2);
    assert(pow(256, 4) == 0x100000000int);
    vstd::arithmetic::power::lemma_pow_adds(256, 4, 4);
    assert(pow(256, 8) == 0x10000000000000000int);
    vstd::arithmetic::power::lemma_pow_adds(256, 8, 8);
    assert(pow(256, 16) == 0x100000000000000000000000000000000int);
    vstd::arithmetic::power::lemma_pow_adds(256, 16, 16);
}

/// A quotient term: dividing the cursor entry by the monic leading
/// coefficient reduces it.
pub proof fn lemma_monic_term(tv: int, a: int)
    requires
        reduced(tv),
        (tv * 1) % fr_order() == a % fr_order(),
    ensures
        tv == a % fr_order(),
{
    assert(tv * 1 == tv) by (nonlinear_arith);
    lemma_small_mod(tv as nat, fr_order() as nat);
}

/// Subtracting the scaled low divisor coefficient equals folding the root
/// into the next entry, as `reduce_top` writes it.
pub proof fn lemma_fold_step(w: int, d0: int, tv: int, z: int)
    requires
        z == (0 - d0) % fr_order(),
    ensures
        (w - (d0 * tv) % fr_order()) % fr_order() == (w + z * tv) % fr_order(),
{
    lemma_sub_mod_noop(0, d0 * tv, fr_order());
    lemma_mod_twice(0 - d0 * tv, fr_order());
    lemma_small_mod(0nat, fr_order() as nat);
    lemma_add_congruent(0 - (d0 * tv) % fr_order(), 0 - d0 * tv, w);
    lemma_mul_mod_noop_left(0 - d0, tv, fr_order());
    lemma_add_congruent(((0 - d0) % fr_order()) * tv, (0 - d0) * tv, w);
    assert((0 - d0) * tv == 0 - d0 * tv) by (nonlinear_arith);
}

/// The quotient depends on the root only through its residue.
pub proof fn lemma_synth_quot_mod_z(f: Seq<int>, z: int)
    ensures
        synth_quot(f, z) == synth_quot(f, z % fr_order()),
    decreases f.len(),
{
    if f.len() > 1 {
        let t = f.last() % fr_order();
        let n = f.len() - 1;
        lemma_mul_mod_noop_left(z, t, fr_order());
        lemma_mod_twice(z, fr_order());
        lemma_add_congruent(z * t, (z % fr_order()) * t, f[n - 1]);
        assert(reduce_top(f, z) =~= reduce_top(f, z % fr_order()));
        lemma_synth_quot_mod_z(reduce_top(f, z), z);
    }
}

/// Unfolds one step of the quotient of a division by a monic linear factor.
pub proof fn lemma_synth_quot_step(cur: Seq<int>, z: int)
    requires
        cur.len() >= 2,
    ensures
        synth_quot(cur, z) == synth_quot(reduce_top(cur, z), z).push(cur.last() % fr_order()),
{
}

/// Prepending zero bytes does not change a big-endian byte value.
pub proof fn lemma_be_val_zero_prefix(zs: Seq<u8>, s: Seq<u8>)
    requires
        forall|i: int| 0 <= i < zs.len() ==> zs[i] == 0,
    ensures
        be_val(zs + s) == be_val(s),
    decreases s.len(),
{
    if s.len() == 0 {
        assert(zs + s =~= zs);
        lemma_be_val_all_zero(zs);
    } else {
        assert((zs + s).drop_last() =~= zs + s.drop_last());
        lemma_be_val_zero_prefix(zs, s.drop_last());
    }
}

/// A byte string of zeros has value zero.
pub proof fn lemma_be_val_all_zero(s: Seq<u8>)
    requires
        forall|i: int| 0 <= i < s.len() ==> s[i] == 0,
    ensures
        be_val(s) == 0,
    decreases s.len(),
{
    if s.len() != 0 {
        lemma_be_val_all_zero(s.drop_last());
    }
}

/// Accumulating coefficients against the ascending powers of `s` computes
/// the polynomial value at `s`.
pub proof fn lemma_msm_powers(c: Seq<int>, b: Seq<int>, s: int)
    requires
        c.len() <= b.len(),
        forall|i: int| 0 <= i < c.len() ==> b[i] == pow(s, i as nat) % fr_order(),
    ensures
        msm(c, b) == poly_eval(c, s),
    decreases c.len(),
{
    if c.len() != 0 {
        let n = c.len() - 1;
        lemma_msm_powers(c.drop_last(), b, s);
        assert(b[n] == pow(s, n as nat) % fr_order());
        lemma_mul_mod_noop_right(c.last(), pow(s, n as nat), fr_order());
        lemma_add_congruent(
            c.last() * (pow(s, n as nat) % fr_order()),
            c.last() * pow(s, n as nat),
            msm(c.drop_last(), b),
        );
    }
}

} // verus!
