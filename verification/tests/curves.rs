use num_bigint::BigUint;
use plonk_setup::curves::Curve;

#[test]
fn test_get_curve_from_q_bn128() {
    let q = BigUint::parse_bytes(
        b"21888242871839275222246405745257275088696311157297823662689037894645226208583",
        10,
    )
    .unwrap();
    let curve = Curve::from_q(&q.to_bytes_le()).unwrap();
    assert_eq!(curve.f1.n64, 4);
}

#[test]
fn test_get_curve_from_q_bls12381() {
    let q = BigUint::parse_bytes(b"1a0111ea397fe69a4b1ba7b6434bacd764774b84f38512bf6730d2a0f6b0f6241eabfffeb153ffffb9feffffffffaaab", 16).unwrap();
    let curve = Curve::from_q(&q.to_bytes_le()).unwrap();
    assert_eq!(curve.f1.n64, 6);
}

#[test]
fn test_get_curve_from_q_not_supported() {
    let q = BigUint::parse_bytes(b"1234567890123456789012345678901234567890", 16).unwrap();
    let curve = Curve::from_q(&q.to_bytes_le());
    assert!(curve.is_err());
}

#[test]
fn test_curve_identification_round_trip() {
    let c1 = Curve::new();
    let c2 = Curve::from_q(&c1.q).unwrap();
    assert_eq!(c1.q, c2.q);
    assert_eq!(c1.r, c2.r);
    assert_eq!(c1.f1.n64, c2.f1.n64);
    assert_eq!(c1.n8q, c2.n8q);
    assert_eq!(c1.n8r, c2.n8r);
    assert_eq!(c1.n8q, 32);
    assert_eq!(c1.n8r, 32);
}

#[test]
fn test_curve_new_matches_parsed_constants() {
    let r = BigUint::parse_bytes(
        b"21888242871839275222246405745257275088548364400416034343698204186575808495617",
        10,
    )
    .unwrap();
    assert_eq!(BigUint::from_bytes_le(&Curve::r()), r);
}
