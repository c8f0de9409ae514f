use bls12_381::{G1Projective, Scalar};
use kzg::poly::from_coefficients;
use kzg::{compute_quotient, KZGErrors, KZG};

/// The order of the BLS12-381 subgroups, big-endian.
const ORDER_BYTES: [u8; 32] = [
    0x73, 0xed, 0xa7, 0x53, 0x29, 0x9d, 0x7d, 0x48, 0x33, 0x39, 0xd8, 0x08, 0x09, 0xa1, 0xd8,
    0x05, 0x53, 0xbd, 0xa4, 0x02, 0xff, 0xfe, 0x5b, 0xfe, 0xff, 0xff, 0xff, 0xff, 0x00, 0x00,
    0x00, 0x01,
];

fn scalars(values: &[u64]) -> Vec<Scalar> {
    values.iter().map(|v| Scalar::from(*v)).collect()
}

#[test]
fn test_setup() {
    let tau = [34u8; 32];
    let degree = 29;

    let kzg = KZG::new(&tau, degree).unwrap();
    assert_eq!(kzg.public_parameter.points_in_g1.len(), degree + 1);
}

#[test]
fn can_eval_polynomial() {
    let coefficients = scalars(&[42, 1, 1, 0, 1]);
    let polynomial = from_coefficients(coefficients);
    let point = Scalar::from(2u64);
    let result_in_fr = polynomial.evaluate_at(point);
    assert_eq!(result_in_fr, Scalar::from(64u64));
}

#[test]
fn setup_of_degree_zero_has_one_point() {
    let tau = [7u8; 32];
    let kzg = KZG::new(&tau, 0).unwrap();
    assert_eq!(kzg.public_parameter.points_in_g1.len(), 1);
    assert_eq!(kzg.public_parameter.points_in_g1[0], G1Projective::generator());
}

#[test]
fn setup_powers_are_ascending_powers_of_the_secret() {
    let mut tau = [0u8; 32];
    tau[31] = 5;
    let kzg = KZG::new(&tau, 4).unwrap();
    let s = Scalar::from(5u64);
    let mut power = Scalar::from(1u64);
    for point in kzg.public_parameter.points_in_g1.iter() {
        assert_eq!(*point, G1Projective::generator() * power);
        power *= s;
    }
}

#[test]
fn setup_rejects_secret_at_the_order() {
    assert!(matches!(
        KZG::new(&ORDER_BYTES, 3),
        Err(KZGErrors::SecretOutOfRange)
    ));
    assert!(matches!(
        KZG::new(&[0xffu8; 32], 3),
        Err(KZGErrors::SecretOutOfRange)
    ));
}

#[test]
fn setup_accepts_secret_just_below_the_order() {
    let mut below = ORDER_BYTES;
    below[31] = 0x00;
    let kzg = KZG::new(&below, 2).unwrap();
    assert_eq!(kzg.public_parameter.points_in_g1.len(), 3);
}

#[test]
fn random_setup_produces_full_parameters() {
    let kzg = KZG::new_rand(6).unwrap();
    assert_eq!(kzg.public_parameter.points_in_g1.len(), 7);
}

#[test]
fn commit_rejects_oversized_polynomial() {
    let tau = [9u8; 32];
    let kzg = KZG::new(&tau, 1).unwrap();
    let polynomial = from_coefficients(scalars(&[1, 2, 3]));
    assert!(matches!(
        KZG::commit(&kzg.public_parameter, &polynomial),
        Err(KZGErrors::DegreeExceeded)
    ));
}

#[test]
fn commit_to_constant_is_the_scaled_generator() {
    let tau = [11u8; 32];
    let kzg = KZG::new(&tau, 3).unwrap();
    let polynomial = from_coefficients(scalars(&[42]));
    let commitment = KZG::commit(&kzg.public_parameter, &polynomial).unwrap();
    assert_eq!(
        commitment.element,
        G1Projective::generator() * Scalar::from(42u64)
    );
}

#[test]
fn commitments_are_additively_homomorphic() {
    let tau = [23u8; 32];
    let kzg = KZG::new(&tau, 4).unwrap();
    let a = Scalar::from(11u64);
    let p = scalars(&[1, 2, 3]);
    let q = scalars(&[5, 0, 7]);
    let combined: Vec<Scalar> = p.iter().zip(q.iter()).map(|(pc, qc)| a * pc + qc).collect();

    let c_p = KZG::commit(&kzg.public_parameter, &from_coefficients(p)).unwrap();
    let c_q = KZG::commit(&kzg.public_parameter, &from_coefficients(q)).unwrap();
    let c_combined = KZG::commit(&kzg.public_parameter, &from_coefficients(combined)).unwrap();

    assert_eq!(c_combined.element, c_p.element * a + c_q.element);
}

#[test]
fn trailing_zero_coefficients_keep_the_commitment() {
    let tau = [19u8; 32];
    let kzg = KZG::new(&tau, 4).unwrap();
    let short = KZG::commit(&kzg.public_parameter, &from_coefficients(scalars(&[3, 1, 4]))).unwrap();
    let padded =
        KZG::commit(&kzg.public_parameter, &from_coefficients(scalars(&[3, 1, 4, 0, 0]))).unwrap();
    assert_eq!(short.element, padded.element);
}

#[test]
fn quotient_rebuilds_the_dividend() {
    let f = from_coefficients(scalars(&[42, 1, 1, 0, 1]));
    let z = Scalar::from(3u64);
    let divisor = from_coefficients(vec![-z, Scalar::from(1u64)]);
    let quotient = compute_quotient(&f, &divisor).unwrap();
    assert_eq!(quotient.coefficients.len(), 4);

    let f_at_z = f.evaluate_at(z);
    for x in [0u64, 1, 2, 5, 100] {
        let xs = Scalar::from(x);
        let rebuilt = quotient.evaluate_at(xs) * (xs - z) + f_at_z;
        assert_eq!(rebuilt, f.evaluate_at(xs));
    }
}

#[test]
fn general_division_recovers_the_quotient() {
    // dividend = (1 + 2x) * (3 + 2x^2) + (5 + x), a non-monic divisor of
    // degree two with a nonzero remainder
    let dividend = from_coefficients(scalars(&[8, 7, 2, 4]));
    let divisor = from_coefficients(scalars(&[3, 0, 2]));
    let quotient = compute_quotient(&dividend, &divisor).unwrap();
    assert_eq!(quotient.coefficients, scalars(&[1, 2]));
}

#[test]
fn division_by_a_longer_divisor_is_refused() {
    let dividend = from_coefficients(scalars(&[5]));
    let divisor = from_coefficients(scalars(&[1, 1]));
    assert!(matches!(
        compute_quotient(&dividend, &divisor),
        Err(KZGErrors::DivisionError)
    ));
}

#[test]
fn opening_a_constant_polynomial_gives_the_identity_proof() {
    let tau = [13u8; 32];
    let kzg = KZG::new(&tau, 2).unwrap();
    let polynomial = from_coefficients(scalars(&[42]));
    let commitment = KZG::commit(&kzg.public_parameter, &polynomial).unwrap();
    let z = Scalar::from(2u64);
    let opening = commitment.open_at(z).unwrap();
    assert_eq!(opening.value, Scalar::from(42u64));
    assert_eq!(opening.proof_point, G1Projective::identity());
    assert!(opening.verify(&z, &commitment));
}

#[test]
fn opening_carries_the_evaluation() {
    let tau = [29u8; 32];
    let kzg = KZG::new(&tau, 5).unwrap();
    let polynomial = from_coefficients(scalars(&[42, 1, 1, 0, 1]));
    let commitment = KZG::commit(&kzg.public_parameter, &polynomial).unwrap();
    let opening = commitment.open_at(Scalar::from(2u64)).unwrap();
    assert_eq!(opening.value, Scalar::from(64u64));
}

#[test]
fn honest_opening_verifies() {
    let tau = [34u8; 32];
    let kzg = KZG::new(&tau, 10).unwrap();
    let polynomial = from_coefficients(scalars(&[9, 8, 7, 6, 5, 4]));
    let commitment = KZG::commit(&kzg.public_parameter, &polynomial).unwrap();
    let z = Scalar::from(17u64);
    let opening = commitment.open_at(z).unwrap();
    assert!(opening.verify(&z, &commitment));
}

#[test]
fn honest_opening_verifies_under_random_setup() {
    let kzg = KZG::new_rand(8).unwrap();
    let polynomial = from_coefficients(scalars(&[1, 0, 0, 2, 0, 3]));
    let commitment = KZG::commit(&kzg.public_parameter, &polynomial).unwrap();
    let z = Scalar::from(4u64);
    let opening = commitment.open_at(z).unwrap();
    assert!(opening.verify(&z, &commitment));
}

#[test]
fn tampered_value_is_rejected() {
    let tau = [34u8; 32];
    let kzg = KZG::new(&tau, 10).unwrap();
    let polynomial = from_coefficients(scalars(&[9, 8, 7, 6, 5, 4]));
    let commitment = KZG::commit(&kzg.public_parameter, &polynomial).unwrap();
    let z = Scalar::from(17u64);
    let opening = commitment.open_at(z).unwrap();
    for delta in 1u64..8 {
        let tampered = kzg::Opening {
            value: opening.value + Scalar::from(delta),
            proof_point: opening.proof_point,
        };
        assert!(!tampered.verify(&z, &commitment));
    }
}

#[test]
fn tampered_proof_is_rejected() {
    let tau = [34u8; 32];
    let kzg = KZG::new(&tau, 10).unwrap();
    let polynomial = from_coefficients(scalars(&[9, 8, 7, 6, 5, 4]));
    let commitment = KZG::commit(&kzg.public_parameter, &polynomial).unwrap();
    let z = Scalar::from(17u64);
    let opening = commitment.open_at(z).unwrap();
    for delta in 1u64..8 {
        let tampered = kzg::Opening {
            value: opening.value,
            proof_point: opening.proof_point + G1Projective::generator() * Scalar::from(delta),
        };
        assert!(!tampered.verify(&z, &commitment));
    }
}

#[test]
fn verification_fails_at_the_wrong_point() {
    let tau = [34u8; 32];
    let kzg = KZG::new(&tau, 10).unwrap();
    let polynomial = from_coefficients(scalars(&[9, 8, 7, 6, 5, 4]));
    let commitment = KZG::commit(&kzg.public_parameter, &polynomial).unwrap();
    let z = Scalar::from(17u64);
    let opening = commitment.open_at(z).unwrap();
    assert!(!opening.verify(&Scalar::from(18u64), &commitment));
}
