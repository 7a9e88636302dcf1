use num_bigint::BigUint;
use plonk_setup::curves::Curve;
use plonk_setup::domain::{get_k1_k2, is_included};

fn fr(x: u64) -> Vec<u8> {
    let mut v = x.to_le_bytes().to_vec();
    v.resize(32, 0);
    v
}

fn big(v: &[u8]) -> BigUint {
    BigUint::from_bytes_le(v)
}

#[test]
fn test_domain_setup_bn254_pow3() {
    // BN254 scalar field, pow = 3, domain 8: k1 = 2, k2 = 3
    let r = Curve::r();
    let (k1, k2) = get_k1_k2(&r, 3, 8).unwrap();
    assert_eq!(k1, fr(2));
    assert_eq!(k2, fr(3));

    // w = 2^((r-1) >> 3) closes the domain: w^8 = 1
    let rv = big(&r);
    let w = BigUint::from(2u32).modpow(&((&rv - 1u32) >> 3), &rv);
    assert_eq!(w.modpow(&BigUint::from(8u32), &rv), BigUint::from(1u32));

    // k1 is outside <w>, k2 outside <w> and outside k1*<w>
    let w_bytes = {
        let mut v = w.to_bytes_le();
        v.resize(32, 0);
        v
    };
    assert!(!is_included(&k1, &Vec::new(), &w_bytes, 8, &r));
    assert!(!is_included(&k2, &vec![k1.clone()], &w_bytes, 8, &r));
    // and they are the smallest such: everything below is included
    assert!(is_included(&fr(1), &Vec::new(), &w_bytes, 8, &r));
    assert!(is_included(&fr(2), &vec![fr(2)], &w_bytes, 8, &r));
}

#[test]
fn test_subgroup_membership_walk() {
    // over BN254, the order-8 subgroup of w contains w^5 but k1 = 2 is not in it
    let r = Curve::r();
    let rv = big(&r);
    let w = BigUint::from(2u32).modpow(&((&rv - 1u32) >> 3), &rv);
    let w5 = w.modpow(&BigUint::from(5u32), &rv);
    let mut w5b = w5.to_bytes_le();
    w5b.resize(32, 0);
    let mut wb = w.to_bytes_le();
    wb.resize(32, 0);
    assert!(is_included(&w5b, &Vec::new(), &wb, 8, &r));
    assert!(!is_included(&fr(2), &Vec::new(), &wb, 8, &r));
    // coset test: 2 * w^3 is in the coset of 2 but (usually) not in <w>
    let x = (BigUint::from(2u32) * w.modpow(&BigUint::from(3u32), &rv)) % &rv;
    let mut xb = x.to_bytes_le();
    xb.resize(32, 0);
    assert!(is_included(&xb, &vec![fr(2)], &wb, 8, &r));
}

#[test]
fn test_domain_setup_unclosed_root() {
    // an odd modulus where 2^((r-1) >> 3) does not have 8th power 1:
    // the setup reports failure instead of returning bogus generators
    let r = {
        let mut v = vec![0u8; 11];
        v[0] = 1;
        v[10] = 1; // r = 2^80 + 1
        v
    };
    assert!(get_k1_k2(&r, 3, 8).is_none());
}
