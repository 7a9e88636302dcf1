use num_bigint::BigUint;
use plonk_setup::curves::Curve;
use plonk_setup::fft::{bit_reverse, FftEngine};

fn fr(x: u64) -> Vec<u8> {
    let mut v = x.to_le_bytes().to_vec();
    v.resize(32, 0);
    v
}

#[test]
fn test_bit_reverse() {
    assert_eq!(bit_reverse(0b001, 3), 0b100);
    assert_eq!(bit_reverse(0b011, 3), 0b110);
    assert_eq!(bit_reverse(0b110, 3), 0b011);
    assert_eq!(bit_reverse(5, 0), 0);
    assert_eq!(bit_reverse(1, 1), 1);
}

#[test]
fn test_fft_engine_tables() {
    let e = FftEngine::new(4).unwrap();
    assert_eq!(e.w.len(), 5);
    assert_eq!(e.wi.len(), 5);
    let r = BigUint::from_bytes_le(&Curve::r());
    // twoinv really is the inverse of two
    let t = BigUint::from_bytes_le(&e.twoinv);
    assert_eq!((BigUint::from(2u32) * t) % &r, BigUint::from(1u32));
    // each table entry is the square of the next
    for i in 0..4 {
        let wi1 = BigUint::from_bytes_le(&e.w[i + 1]);
        assert_eq!(BigUint::from_bytes_le(&e.w[i]), (&wi1 * &wi1) % &r);
    }
    // w[1] is a primitive square root of unity: -1
    assert_eq!(BigUint::from_bytes_le(&e.w[1]), &r - 1u32);
    // w and wi are inverses level by level
    for i in 0..5 {
        let a = BigUint::from_bytes_le(&e.w[i]);
        let b = BigUint::from_bytes_le(&e.wi[i]);
        assert_eq!((a * b) % &r, BigUint::from(1u32));
    }
}

#[test]
fn test_fft_round_trip() {
    let e = FftEngine::new(4).unwrap();
    let input = vec![fr(1), fr(2), fr(3), fr(4)];
    let freq = e.fft(&input);
    assert_eq!(freq.len(), 4);
    let back = e.ifft(&freq);
    assert_eq!(back, input);
}

#[test]
fn test_fft_length_two() {
    let e = FftEngine::new(4).unwrap();
    let input = vec![fr(1), fr(2)];
    let out = e.fft(&input);
    let r = BigUint::from_bytes_le(&Curve::r());
    assert_eq!(BigUint::from_bytes_le(&out[0]), BigUint::from(3u32));
    // 1 - 2 mod r
    assert_eq!(BigUint::from_bytes_le(&out[1]), &r - 1u32);
}
