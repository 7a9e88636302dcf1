use plonk_setup::curves::Curve;
use plonk_setup::lowering::{process_constraints, LcTerm};
use plonk_setup::r1cs::{Constraint, R1cs, R1csHeader};

fn fr(x: u64) -> Vec<u8> {
    let mut v = x.to_le_bytes().to_vec();
    v.resize(32, 0);
    v
}

fn term(wire: u32, coeff: u64) -> LcTerm {
    LcTerm { wire, coeff: fr(coeff) }
}

fn header(n_vars: u32, n_outputs: u32, n_pub_inputs: u32, n_constraints: u32) -> R1csHeader {
    R1csHeader {
        n8: 32,
        prime: Curve::r(),
        n_vars,
        n_outputs,
        n_pub_inputs,
        n_prv_inputs: 0,
        n_labels: 0,
        n_constraints,
        use_custom_gates: false,
    }
}

fn r1cs_of(n_vars: u32, n_public: u32, constraints: Vec<Constraint>) -> R1cs {
    R1cs {
        header: header(n_vars, n_public, 0, constraints.len() as u32),
        constraints,
    }
}

#[test]
fn test_trivial_r1cs() {
    // 0 * 0 = w[1]: one sum gate over C, no additions
    let c = Constraint { a: Vec::new(), b: Vec::new(), c: vec![term(1, 1)] };
    let (gates, adds, n_vars) = process_constraints(&r1cs_of(6, 0, vec![c]));
    assert_eq!(gates.len(), 1);
    assert!(adds.is_empty());
    assert_eq!(n_vars, 6);
    let g = &gates[0];
    assert_eq!((g.sl, g.sr, g.so), (1, 0, 0));
    assert_eq!(g.qm, fr(0));
    assert_eq!(g.ql, fr(1));
    assert_eq!(g.qr, fr(0));
    assert_eq!(g.qo, fr(0));
    assert_eq!(g.qc, fr(0));
}

#[test]
fn test_public_input_gates() {
    // n_public = 2: the first two gates bind wires 1 and 2
    let c = Constraint { a: Vec::new(), b: Vec::new(), c: vec![term(3, 1)] };
    let (gates, _adds, _nv) = process_constraints(&r1cs_of(6, 2, vec![c]));
    assert_eq!(gates.len(), 3);
    for i in 0..2u32 {
        let g = &gates[i as usize];
        assert_eq!((g.sl, g.sr, g.so), (i + 1, 0, 0));
        assert_eq!(g.qm, fr(0));
        assert_eq!(g.ql, fr(1));
        assert_eq!(g.qr, fr(0));
        assert_eq!(g.qo, fr(0));
        assert_eq!(g.qc, fr(0));
    }
}

#[test]
fn test_linearization_via_constant() {
    // A = {0: 5}, B = {1:1, 2:1}, C = {3:1}: join(B, 5, C) = {1:5, 2:5, 3:1}
    let c = Constraint {
        a: vec![term(0, 5)],
        b: vec![term(1, 1), term(2, 1)],
        c: vec![term(3, 1)],
    };
    let (gates, adds, n_vars) = process_constraints(&r1cs_of(6, 0, vec![c]));
    assert_eq!(gates.len(), 1);
    assert!(adds.is_empty());
    assert_eq!(n_vars, 6);
    let g = &gates[0];
    assert_eq!((g.sl, g.sr, g.so), (1, 2, 3));
    assert_eq!(g.qm, fr(0));
    assert_eq!(g.ql, fr(5));
    assert_eq!(g.qr, fr(5));
    assert_eq!(g.qo, fr(1));
    assert_eq!(g.qc, fr(0));
}

#[test]
fn test_fan_in_reduction_vanishing_side() {
    // A = {1:1,..,4:1}, B = {}: degenerates to a sum over C = {5:1}
    let c = Constraint {
        a: vec![term(1, 1), term(2, 1), term(3, 1), term(4, 1)],
        b: Vec::new(),
        c: vec![term(5, 1)],
    };
    let (gates, adds, n_vars) = process_constraints(&r1cs_of(6, 0, vec![c]));
    assert_eq!(gates.len(), 1);
    assert!(adds.is_empty());
    assert_eq!(n_vars, 6);
    let g = &gates[0];
    assert_eq!((g.sl, g.sr, g.so), (5, 0, 0));
    assert_eq!(g.ql, fr(1));
}

#[test]
fn test_allocation_path_four_terms() {
    // C = {1:1,..,4:1} with A = B = {}: one merge of (1,1)+(2,1) into the
    // fresh wire n_vars, final gate on (3, 4, n_vars)
    let c = Constraint {
        a: Vec::new(),
        b: Vec::new(),
        c: vec![term(1, 1), term(2, 1), term(3, 1), term(4, 1)],
    };
    let (gates, adds, n_vars) = process_constraints(&r1cs_of(6, 0, vec![c]));
    assert_eq!(adds.len(), 1);
    assert_eq!(n_vars, 7);
    assert_eq!(gates.len(), 2);
    let r_minus_1 = {
        let mut v = Curve::r();
        v[0] -= 1;
        v
    };
    // the binding gate of the addition: w[6] = w[1] + w[2]
    let g0 = &gates[0];
    assert_eq!((g0.sl, g0.sr, g0.so), (1, 2, 6));
    assert_eq!(g0.qm, fr(0));
    assert_eq!(g0.ql, r_minus_1);
    assert_eq!(g0.qr, r_minus_1);
    assert_eq!(g0.qo, fr(1));
    assert_eq!(g0.qc, fr(0));
    let a0 = &adds[0];
    assert_eq!((a0.a, a0.b), (1, 2));
    assert_eq!(a0.v1, fr(1));
    assert_eq!(a0.v2, fr(1));
    // the final sum gate
    let g1 = &gates[1];
    assert_eq!((g1.sl, g1.sr, g1.so), (3, 4, 6));
    assert_eq!(g1.ql, fr(1));
    assert_eq!(g1.qr, fr(1));
    assert_eq!(g1.qo, fr(1));
}

#[test]
fn test_allocation_path_five_terms() {
    // C = {1:1,..,5:1}: two merges, wires 6 then 7, final gate on (5, 6, 7)
    let c = Constraint {
        a: Vec::new(),
        b: Vec::new(),
        c: vec![term(1, 1), term(2, 1), term(3, 1), term(4, 1), term(5, 1)],
    };
    let (gates, adds, n_vars) = process_constraints(&r1cs_of(6, 0, vec![c]));
    assert_eq!(adds.len(), 2);
    assert_eq!(n_vars, 8);
    assert_eq!(gates.len(), 3);
    assert_eq!((adds[0].a, adds[0].b), (1, 2));
    assert_eq!((adds[1].a, adds[1].b), (3, 4));
    assert_eq!((gates[0].sl, gates[0].sr, gates[0].so), (1, 2, 6));
    assert_eq!((gates[1].sl, gates[1].sr, gates[1].so), (3, 4, 7));
    assert_eq!((gates[2].sl, gates[2].sr, gates[2].so), (5, 6, 7));
}

#[test]
fn test_multiplication_gate() {
    // A = {1:2}, B = {2:3}, C = {3:1}: one multiplication gate
    let c = Constraint {
        a: vec![term(1, 2)],
        b: vec![term(2, 3)],
        c: vec![term(3, 1)],
    };
    let (gates, adds, _nv) = process_constraints(&r1cs_of(6, 0, vec![c]));
    assert_eq!(gates.len(), 1);
    assert!(adds.is_empty());
    let g = &gates[0];
    let r_minus_1 = {
        let mut v = Curve::r();
        v[0] -= 1;
        v
    };
    assert_eq!((g.sl, g.sr, g.so), (1, 2, 3));
    assert_eq!(g.qm, fr(6));
    assert_eq!(g.ql, fr(0));
    assert_eq!(g.qr, fr(0));
    assert_eq!(g.qo, r_minus_1);
    assert_eq!(g.qc, fr(0));
}

#[test]
fn test_zero_coefficients_are_dropped() {
    // a zero coefficient on A leaves it vanishing: sum path over C
    let c = Constraint {
        a: vec![term(1, 0)],
        b: vec![term(2, 7)],
        c: vec![term(3, 1)],
    };
    let (gates, adds, _nv) = process_constraints(&r1cs_of(6, 0, vec![c]));
    assert_eq!(gates.len(), 1);
    assert!(adds.is_empty());
    assert_eq!((gates[0].sl, gates[0].sr, gates[0].so), (3, 0, 0));
}

#[test]
fn test_determinism() {
    let build = || {
        let c1 = Constraint {
            a: vec![term(0, 5)],
            b: vec![term(1, 1), term(2, 1)],
            c: vec![term(3, 1)],
        };
        let c2 = Constraint {
            a: Vec::new(),
            b: Vec::new(),
            c: vec![term(1, 1), term(2, 1), term(3, 1), term(4, 1), term(5, 1)],
        };
        r1cs_of(6, 1, vec![c1, c2])
    };
    let (g1, a1, n1) = process_constraints(&build());
    let (g2, a2, n2) = process_constraints(&build());
    assert_eq!(n1, n2);
    assert_eq!(g1.len(), g2.len());
    assert_eq!(a1.len(), a2.len());
    for (x, y) in g1.iter().zip(g2.iter()) {
        assert_eq!((x.sl, x.sr, x.so), (y.sl, y.sr, y.so));
        assert_eq!(x.qm, y.qm);
        assert_eq!(x.ql, y.ql);
        assert_eq!(x.qr, y.qr);
        assert_eq!(x.qo, y.qo);
        assert_eq!(x.qc, y.qc);
    }
    for (x, y) in a1.iter().zip(a2.iter()) {
        assert_eq!((x.a, x.b), (y.a, y.b));
        assert_eq!(x.v1, y.v1);
        assert_eq!(x.v2, y.v2);
    }
}
