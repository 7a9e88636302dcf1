use num_bigint::BigUint;
use plonk_setup::container::{read_bin_file, write_container, BinFile};
use plonk_setup::curves::Curve;
use plonk_setup::errors::SetupError;
use plonk_setup::lowering::PlonkAddition;
use plonk_setup::ptau::read_ptau_header;
use plonk_setup::r1cs::{read_constraints, read_r1cs_fd, read_r1cs_header};
use plonk_setup::zkey::{check_zkey_inputs, write_additions, ToMontgomeryBytes};

fn fr(x: u64) -> Vec<u8> {
    let mut v = x.to_le_bytes().to_vec();
    v.resize(32, 0);
    v
}

fn ptau_header_payload(q: &[u8], power: u32, ceremony: u32) -> Vec<u8> {
    let mut p = Vec::new();
    p.extend_from_slice(&(q.len() as u32).to_le_bytes());
    p.extend_from_slice(q);
    p.extend_from_slice(&power.to_le_bytes());
    p.extend_from_slice(&ceremony.to_le_bytes());
    p
}

#[test]
fn test_read_ptau_header_bn254() {
    let q = Curve::q();
    let sections = vec![
        (1u32, ptau_header_payload(&q, 24, 28)),
        (12u32, vec![0u8; 4]),
    ];
    let data = write_container(&b"ptau".to_vec(), 1, &sections);
    let table = read_bin_file(&data, &b"ptau".to_vec(), 1).unwrap();
    let (curve, power, ceremony) = read_ptau_header(&data, &table).unwrap();
    assert_eq!(curve.f1.n64, 4);
    assert_eq!(curve.n8q, 32);
    assert_eq!(power, 24);
    assert_eq!(ceremony, 28);
}

#[test]
fn test_read_ptau_header_errors() {
    let q = Curve::q();
    // no header section
    let data = write_container(&b"ptau".to_vec(), 1, &vec![(2u32, vec![0u8; 4])]);
    let table = read_bin_file(&data, &b"ptau".to_vec(), 1).unwrap();
    assert_eq!(read_ptau_header(&data, &table).unwrap_err(), SetupError::NoSuchSection);

    // duplicated header section
    let h = ptau_header_payload(&q, 24, 28);
    let data = write_container(&b"ptau".to_vec(), 1, &vec![(1u32, h.clone()), (1u32, h.clone())]);
    let table = read_bin_file(&data, &b"ptau".to_vec(), 1).unwrap();
    assert_eq!(read_ptau_header(&data, &table).unwrap_err(), SetupError::DuplicateSection);

    // unknown curve
    let bogus = vec![0x77u8; 32];
    let data = write_container(&b"ptau".to_vec(), 1, &vec![(1u32, ptau_header_payload(&bogus, 24, 28))]);
    let table = read_bin_file(&data, &b"ptau".to_vec(), 1).unwrap();
    assert_eq!(read_ptau_header(&data, &table).unwrap_err(), SetupError::UnsupportedCurve);

    // trailing bytes in the header section
    let mut long = h.clone();
    long.push(0);
    let data = write_container(&b"ptau".to_vec(), 1, &vec![(1u32, long)]);
    let table = read_bin_file(&data, &b"ptau".to_vec(), 1).unwrap();
    assert_eq!(read_ptau_header(&data, &table).unwrap_err(), SetupError::SectionSizeMismatch);
}

fn r1cs_header_payload(prime: &[u8], n_vars: u32, n_out: u32, n_pub: u32, n_cons: u32) -> Vec<u8> {
    let mut p = Vec::new();
    p.extend_from_slice(&(prime.len() as u32).to_le_bytes());
    p.extend_from_slice(prime);
    p.extend_from_slice(&n_vars.to_le_bytes());
    p.extend_from_slice(&n_out.to_le_bytes());
    p.extend_from_slice(&n_pub.to_le_bytes());
    p.extend_from_slice(&0u32.to_le_bytes());
    p.extend_from_slice(&0u64.to_le_bytes());
    p.extend_from_slice(&n_cons.to_le_bytes());
    p
}

fn lc_bytes(terms: &[(u32, u64)]) -> Vec<u8> {
    let mut p = Vec::new();
    p.extend_from_slice(&(terms.len() as u32).to_le_bytes());
    for (w, c) in terms {
        p.extend_from_slice(&w.to_le_bytes());
        p.extend_from_slice(&fr(*c));
    }
    p
}

#[test]
fn test_read_r1cs() {
    let prime = Curve::r();
    let header = r1cs_header_payload(&prime, 6, 0, 1, 1);
    let mut cons = Vec::new();
    cons.extend_from_slice(&lc_bytes(&[(1, 2)]));
    cons.extend_from_slice(&lc_bytes(&[(2, 3)]));
    cons.extend_from_slice(&lc_bytes(&[(3, 1)]));
    let sections = vec![(1u32, header), (2u32, cons)];
    let data = write_container(&b"r1cs".to_vec(), 1, &sections);
    let table = read_bin_file(&data, &b"r1cs".to_vec(), 1).unwrap();

    let h = read_r1cs_header(&data, &table).unwrap();
    assert_eq!(h.n8, 32);
    assert_eq!(BigUint::from_bytes_le(&h.prime), BigUint::from_bytes_le(&prime));
    assert_eq!(h.n_vars, 6);
    assert_eq!(h.n_pub_inputs, 1);
    assert_eq!(h.n_constraints, 1);
    assert!(!h.use_custom_gates);

    let cs = read_constraints(&data, &table, &h).unwrap();
    assert_eq!(cs.len(), 1);
    assert_eq!(cs[0].a.len(), 1);
    assert_eq!(cs[0].a[0].wire, 1);
    assert_eq!(cs[0].a[0].coeff, fr(2));
    assert_eq!(cs[0].b[0].wire, 2);
    assert_eq!(cs[0].c[0].wire, 3);

    let whole = read_r1cs_fd(&data, &table).unwrap();
    assert_eq!(whole.constraints.len(), 1);
}

#[test]
fn test_read_r1cs_custom_gates_flag() {
    let prime = Curve::r();
    let header = r1cs_header_payload(&prime, 2, 0, 0, 0);
    let sections = vec![
        (1u32, header),
        (2u32, Vec::new()),
        (4u32, vec![0u8]),
        (5u32, vec![0u8]),
    ];
    let data = write_container(&b"r1cs".to_vec(), 1, &sections);
    let table = read_bin_file(&data, &b"r1cs".to_vec(), 1).unwrap();
    let h = read_r1cs_header(&data, &table).unwrap();
    assert!(h.use_custom_gates);
}

#[test]
fn test_read_r1cs_size_mismatch() {
    let prime = Curve::r();
    // constraints section declares one constraint but holds extra bytes
    let header = r1cs_header_payload(&prime, 4, 0, 0, 1);
    let mut cons = Vec::new();
    cons.extend_from_slice(&lc_bytes(&[]));
    cons.extend_from_slice(&lc_bytes(&[]));
    cons.extend_from_slice(&lc_bytes(&[(1, 1)]));
    cons.push(0);
    let sections = vec![(1u32, header), (2u32, cons)];
    let data = write_container(&b"r1cs".to_vec(), 1, &sections);
    let table = read_bin_file(&data, &b"r1cs".to_vec(), 1).unwrap();
    let h = read_r1cs_header(&data, &table).unwrap();
    assert_eq!(
        read_constraints(&data, &table, &h).unwrap_err(),
        SetupError::SectionSizeMismatch
    );
}

#[test]
fn test_write_additions_section() {
    let adds = vec![
        PlonkAddition { a: 1, b: 2, v1: fr(1), v2: fr(1) },
        PlonkAddition { a: 3, b: 4, v1: fr(5), v2: fr(7) },
    ];
    let mut fd = BinFile::create(&b"zkey".to_vec(), 1, 14);
    write_additions(&mut fd, 3, 32, &adds).unwrap();
    // the written sections must match the declared count before closing,
    // so close the remaining declared sections as empty
    for id in 0..13u32 {
        fd.start_write_section(100 + id);
        fd.end_write_section();
    }
    let image = fd.finish();
    let table = read_bin_file(&image, &b"zkey".to_vec(), 1).unwrap();
    let sec = table.first(3).unwrap();
    assert_eq!(sec.size as usize, adds.len() * (8 + 2 * 32));
    let payload =
        plonk_setup::container::read_section(&image, &table, 3, None, None).unwrap();
    let mut expected = Vec::new();
    for a in &adds {
        expected.extend_from_slice(&a.a.to_le_bytes());
        expected.extend_from_slice(&a.b.to_le_bytes());
        expected.extend_from_slice(&a.v1.as_montgomery_bytes());
        expected.extend_from_slice(&a.v2.as_montgomery_bytes());
    }
    assert_eq!(payload, expected);
}

#[test]
fn test_check_zkey_inputs() {
    let r = Curve::r();
    let sections = vec![(12u32, vec![0u8; 4])];
    let data = write_container(&b"ptau".to_vec(), 1, &sections);
    let table = read_bin_file(&data, &b"ptau".to_vec(), 1).unwrap();
    assert_eq!(check_zkey_inputs(&r, &r, 10, 24, &table).unwrap(), 4);
    // prime mismatch
    assert_eq!(
        check_zkey_inputs(&fr(7), &r, 10, 24, &table).unwrap_err(),
        SetupError::CurveMismatch
    );
    // circuit too big for the ceremony
    assert_eq!(
        check_zkey_inputs(&r, &r, 1025, 9, &table).unwrap_err(),
        SetupError::CircuitTooBig
    );
    // section 12 absent
    let empty = write_container(&b"ptau".to_vec(), 1, &Vec::new());
    let table2 = read_bin_file(&empty, &b"ptau".to_vec(), 1).unwrap();
    assert_eq!(
        check_zkey_inputs(&r, &r, 10, 24, &table2).unwrap_err(),
        SetupError::PTauNotPrepared
    );
}
