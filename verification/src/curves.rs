//! Curve registry: identifies the curve from the base-field modulus `q` and
//! exposes the byte widths and scalar modulus the rest of the pipeline needs.
//!
//! Two curves are recognized, each by exact match of `q`: BN254 (also called
//! BN128) and BLS12-381.  Any other modulus is `UnsupportedCurve`.

use vstd::prelude::*;

use crate::bytes_le::le_val;
use crate::errors::SetupError;
use crate::field::eq_val;

verus! {

/// Base-field word count of a curve.
#[derive(Debug)]
pub struct CustomField {
    pub n64: usize,
}

/// Curve descriptor: base-field modulus `q`, scalar-field modulus `r`, and
/// the byte widths of both fields, all little-endian.
#[derive(Debug)]
pub struct Curve {
    pub f1: CustomField,
    pub q: Vec<u8>,
    pub r: Vec<u8>,
    pub n8q: usize,
    pub n8r: usize,
}

/// BN254 base-field modulus, little-endian.
pub open spec fn bn254_q_bytes() -> Seq<u8> {
    seq![71u8, 253, 124, 216, 22, 140, 32, 60, 141, 202, 113, 104, 145, 106, 129, 151, 93, 88, 129, 129, 182, 69, 80, 184, 41, 160, 49, 225, 114, 78, 100, 48]
}

/// BN254 scalar-field modulus, little-endian.
pub open spec fn bn254_r_bytes() -> Seq<u8> {
    seq![1u8, 0, 0, 240, 147, 245, 225, 67, 145, 112, 185, 121, 72, 232, 51, 40, 93, 88, 129, 129, 182, 69, 80, 184, 41, 160, 49, 225, 114, 78, 100, 48]
}

/// BLS12-381 base-field modulus, little-endian.
pub open spec fn bls12381_q_bytes() -> Seq<u8> {
    seq![171u8, 170, 255, 255, 255, 255, 254, 185, 255, 255, 83, 177, 254, 255, 171, 30, 36, 246, 176, 246, 160, 210, 48, 103, 191, 18, 133, 243, 132, 75, 119, 100, 215, 172, 75, 67, 182, 167, 27, 75, 154, 230, 127, 57, 234, 17, 1, 26]
}

/// BLS12-381 scalar-field modulus, little-endian.
pub open spec fn bls12381_r_bytes() -> Seq<u8> {
    seq![1u8, 0, 0, 0, 255, 255, 255, 255, 254, 91, 254, 255, 2, 164, 189, 83, 5, 216, 161, 9, 8, 216, 57, 51, 72, 125, 157, 41, 83, 167, 237, 115]
}

/// The BN254 base-field modulus as an integer.
pub open spec fn bn254_q_val() -> nat {
    (21888242871839275222246405745257275088696311157297823662689037894645226208583
    ) as nat
}

/// The BN254 scalar-field modulus as an integer.
pub open spec fn bn254_r_val() -> nat {
    (21888242871839275222246405745257275088548364400416034343698204186575808495617
    ) as nat
}

/// The BLS12-381 base-field modulus as an integer.
pub open spec fn bls12381_q_val() -> nat {
    (4002409555221667393417789825735904156556882819939007885332058136124031650490837864442687629129015664037894272559787
    ) as nat
}

/// The BLS12-381 scalar-field modulus as an integer.
pub open spec fn bls12381_r_val() -> nat {
    (52435875175126190479447740508185965837690552500527637822603658699938581184513
    ) as nat
}

#[verifier::rlimit(100)]
proof fn lemma_bn254_q_const()
    ensures
        le_val(bn254_q_bytes()) == bn254_q_val(),
        bn254_q_bytes().len() == 32,
{
    reveal_with_fuel(le_val, 34);
}

#[verifier::rlimit(100)]
proof fn lemma_bn254_r_const()
    ensures
        le_val(bn254_r_bytes()) == bn254_r_val(),
        bn254_r_bytes().len() == 32,
{
    reveal_with_fuel(le_val, 34);
}

#[verifier::rlimit(100)]
proof fn lemma_bls12381_q_const()
    ensures
        le_val(bls12381_q_bytes()) == bls12381_q_val(),
        bls12381_q_bytes().len() == 48,
{
    reveal_with_fuel(le_val, 50);
}

#[verifier::rlimit(100)]
proof fn lemma_bls12381_r_const()
    ensures
        le_val(bls12381_r_bytes()) == bls12381_r_val(),
        bls12381_r_bytes().len() == 32,
{
    reveal_with_fuel(le_val, 34);
}

/// The byte constants really spell the recognized moduli.
pub proof fn lemma_curve_constants()
    ensures
        le_val(bn254_q_bytes()) == bn254_q_val(),
        le_val(bn254_r_bytes()) == bn254_r_val(),
        le_val(bls12381_q_bytes()) == bls12381_q_val(),
        le_val(bls12381_r_bytes()) == bls12381_r_val(),
        bn254_q_bytes().len() == 32,
        bn254_r_bytes().len() == 32,
        bls12381_q_bytes().len() == 48,
        bls12381_r_bytes().len() == 32,
{
    lemma_bn254_q_const();
    lemma_bn254_r_const();
    lemma_bls12381_q_const();
    lemma_bls12381_r_const();
}

/// A well-formed descriptor is one of the two recognized curves.
pub open spec fn curve_wf(c: Curve) -> bool {
    ||| {
        &&& c.q@ == bn254_q_bytes()
        &&& c.r@ == bn254_r_bytes()
        &&& c.f1.n64 == 4
        &&& c.n8q == 32
        &&& c.n8r == 32
    }
    ||| {
        &&& c.q@ == bls12381_q_bytes()
        &&& c.r@ == bls12381_r_bytes()
        &&& c.f1.n64 == 6
        &&& c.n8q == 48
        &&& c.n8r == 32
    }
}

impl Curve {
    /// The BN254 base-field modulus, as little-endian bytes.
    pub fn q() -> (r: Vec<u8>)
        ensures
            r@ == bn254_q_bytes(),
    {
        let v: Vec<u8> = vec![71u8, 253, 124, 216, 22, 140, 32, 60, 141, 202, 113, 104, 145, 106, 129, 151, 93, 88, 129, 129, 182, 69, 80, 184, 41, 160, 49, 225, 114, 78, 100, 48];
        proof {
            assert(v@ =~= bn254_q_bytes());
        }
        v
    }

    /// The BN254 scalar-field modulus, as little-endian bytes.
    pub fn r() -> (r: Vec<u8>)
        ensures
            r@ == bn254_r_bytes(),
    {
        let v: Vec<u8> = vec![1u8, 0, 0, 240, 147, 245, 225, 67, 145, 112, 185, 121, 72, 232, 51, 40, 93, 88, 129, 129, 182, 69, 80, 184, 41, 160, 49, 225, 114, 78, 100, 48];
        proof {
            assert(v@ =~= bn254_r_bytes());
        }
        v
    }

    /// The BN254 descriptor.
    pub fn new() -> (c: Curve)
        ensures
            c.q@ == bn254_q_bytes(),
            c.r@ == bn254_r_bytes(),
            c.f1.n64 == 4,
            c.n8q == 32,
            c.n8r == 32,
            curve_wf(c),
    {
        Curve { f1: CustomField { n64: 4 }, q: Self::q(), r: Self::r(), n8q: 32, n8r: 32 }
    }

    /// The BLS12-381 descriptor.
    pub fn new_bls12381() -> (c: Curve)
        ensures
            c.q@ == bls12381_q_bytes(),
            c.r@ == bls12381_r_bytes(),
            c.f1.n64 == 6,
            c.n8q == 48,
            c.n8r == 32,
            curve_wf(c),
    {
        let q: Vec<u8> = vec![171u8, 170, 255, 255, 255, 255, 254, 185, 255, 255, 83, 177, 254, 255, 171, 30, 36, 246, 176, 246, 160, 210, 48, 103, 191, 18, 133, 243, 132, 75, 119, 100, 215, 172, 75, 67, 182, 167, 27, 75, 154, 230, 127, 57, 234, 17, 1, 26];
        let r: Vec<u8> = vec![1u8, 0, 0, 0, 255, 255, 255, 255, 254, 91, 254, 255, 2, 164, 189, 83, 5, 216, 161, 9, 8, 216, 57, 51, 72, 125, 157, 41, 83, 167, 237, 115];
        proof {
            assert(q@ =~= bls12381_q_bytes());
            assert(r@ =~= bls12381_r_bytes());
        }
        Curve { f1: CustomField { n64: 6 }, q, r, n8q: 48, n8r: 32 }
    }

    /// Identifies the curve whose base-field modulus equals `q`, comparing by
    /// value, and fails with `UnsupportedCurve` on any other modulus.
    pub fn from_q(q: &Vec<u8>) -> (r: Result<Curve, SetupError>)
        ensures
            match r {
                Ok(c) => {
                    &&& curve_wf(c)
                    &&& le_val(q@) == bn254_q_val() || le_val(q@) == bls12381_q_val()
                    &&& le_val(q@) == bn254_q_val() ==> c.q@ == bn254_q_bytes()
                    &&& le_val(q@) == bls12381_q_val() ==> c.q@ == bls12381_q_bytes()
                },
                Err(e) => {
                    &&& e == SetupError::UnsupportedCurve
                    &&& le_val(q@) != bn254_q_val()
                    &&& le_val(q@) != bls12381_q_val()
                },
            },
    {
        proof {
            lemma_curve_constants();
        }
        let bn = Curve::new();
        if eq_val(q, &bn.q) {
            Ok(bn)
        } else {
            let bls = Curve::new_bls12381();
            if eq_val(q, &bls.q) {
                Ok(bls)
            } else {
                Err(SetupError::UnsupportedCurve)
            }
        }
    }
}

/// Curve identification is idempotent: descriptors recognized from the same
/// base-field modulus agree in every field, so re-identifying the curve from
/// a descriptor's own `q` gives the same descriptor back.
pub proof fn lemma_curve_identification(c1: Curve, c2: Curve)
    requires
        curve_wf(c1),
        curve_wf(c2),
        le_val(c1.q@) == le_val(c2.q@),
    ensures
        c1.q@ == c2.q@,
        c1.r@ == c2.r@,
        c1.f1.n64 == c2.f1.n64,
        c1.n8q == c2.n8q,
        c1.n8r == c2.n8r,
{
    lemma_curve_constants();
}

} // verus!
