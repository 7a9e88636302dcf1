//! ZKey writer: emits the additions section (section 3) of a PLONK proving
//! key, the only zkey section produced by the constraint transformation.

use vstd::prelude::*;

use crate::bytes_le::{le_val, u32_le_bytes};
use crate::container::{section_bytes, BinFile, SectionTable};
use crate::errors::SetupError;
use crate::lowering::PlonkAddition;

verus! {

/// The additions payload: for each record, `a` and `b` as little-endian
/// `u32`, then `v1` and `v2` in the on-wire scalar encoding.
pub open spec fn additions_payload(adds: Seq<PlonkAddition>) -> Seq<u8>
    decreases adds.len(),
{
    if adds.len() == 0 {
        Seq::empty()
    } else {
        additions_payload(adds.drop_last()) + u32_le_bytes(adds.last().a) + u32_le_bytes(
            adds.last().b,
        ) + adds.last().v1@ + adds.last().v2@
    }
}

/// The payload length is exactly |additions| * (8 + 2 * n8r) when every
/// scalar has width n8r.
pub proof fn lemma_additions_payload_len(adds: Seq<PlonkAddition>, n8r: nat)
    requires
        forall|i: int|
            0 <= i < adds.len() ==> (#[trigger] adds[i]).v1@.len() == n8r && adds[i].v2@.len()
                == n8r,
    ensures
        additions_payload(adds).len() == adds.len() * (8 + 2 * n8r),
    decreases adds.len(),
{
    if adds.len() > 0 {
        assert(forall|i: int|
            0 <= i < adds.drop_last().len() ==> (#[trigger] adds.drop_last()[i]) == adds[i]);
        lemma_additions_payload_len(adds.drop_last(), n8r);
        assert((adds.len() - 1) * (8 + 2 * n8r) + (8 + 2 * n8r) == adds.len() * (8 + 2 * n8r))
            by (nonlinear_arith);
    }
}

/// Writes the additions section: opens section `section_num`, writes one
/// record per addition in order, and closes the section, so the declared
/// size equals the payload length.
pub fn write_additions(
    fd: &mut BinFile,
    section_num: u32,
    n8r: usize,
    plonk_additions: &Vec<PlonkAddition>,
) -> (r: Result<(), crate::errors::SetupError>)
    requires
        old(fd).wf(),
        !old(fd).in_section,
        old(fd).written < old(fd).n_sections,
        old(fd).buf@.len() >= 12,
        forall|i: int|
            0 <= i < plonk_additions@.len() ==> (#[trigger] plonk_additions@[i]).v1@.len() == n8r
                && plonk_additions@[i].v2@.len() == n8r,
    ensures
        r is Ok,
        final(fd).wf(),
        !final(fd).in_section,
        final(fd).written == old(fd).written + 1,
        final(fd).n_sections == old(fd).n_sections,
        final(fd).buf@ == old(fd).buf@ + section_bytes(
            section_num,
            additions_payload(plonk_additions@),
        ),
{
    let ghost base = fd.buf@;
    fd.start_write_section(section_num);
    let ghost open_prefix = base + u32_le_bytes(section_num) + crate::bytes_le::u64_le_bytes(0);
    let n = plonk_additions.len();
    let mut i: usize = 0;
    proof {
        assert(additions_payload(plonk_additions@.take(0)) =~= Seq::<u8>::empty());
        assert(fd.buf@ =~= open_prefix + additions_payload(plonk_additions@.take(0)));
    }
    while i < n
        invariant
            i <= n,
            n == plonk_additions@.len(),
            fd.wf(),
            fd.in_section,
            fd.section_start == open_prefix.len(),
            fd.written == old(fd).written && fd.n_sections == old(fd).n_sections,
            old(fd).written < old(fd).n_sections,
            open_prefix == base + u32_le_bytes(section_num) + crate::bytes_le::u64_le_bytes(0),
            open_prefix.len() == base.len() + 12,
            base.len() >= 12,
            fd.buf@ == open_prefix + additions_payload(plonk_additions@.take(i as int)),
        decreases n - i,
    {
        let ghost pre = fd.buf@;
        fd.write_u32(plonk_additions[i].a);
        fd.write_u32(plonk_additions[i].b);
        fd.write_bytes(&plonk_additions[i].v1);
        fd.write_bytes(&plonk_additions[i].v2);
        proof {
            assert(plonk_additions@.take(i + 1).drop_last() =~= plonk_additions@.take(i as int));
            assert(plonk_additions@.take(i + 1).last() == plonk_additions@[i as int]);
            assert(fd.buf@ =~= open_prefix + additions_payload(plonk_additions@.take(i + 1)));
        }
        i = i + 1;
    }
    let ghost payload = additions_payload(plonk_additions@);
    proof {
        assert(plonk_additions@.take(n as int) =~= plonk_additions@);
    }
    fd.end_write_section();
    proof {
        crate::bytes_le::lemma_u64_le_bytes_val(0);
        let mid = open_prefix + payload;
        assert(mid.subrange(0, base.len() as int + 4) =~= base + u32_le_bytes(section_num));
        assert(mid.subrange(base.len() as int + 12, mid.len() as int) =~= payload);
        assert(fd.buf@ =~= base + section_bytes(section_num, payload));
    }
    Ok(())
}

/// The canonical on-wire form of a scalar: its fixed-width little-endian
/// bytes, exactly as held.
pub trait ToMontgomeryBytes {
    fn as_montgomery_bytes(&self) -> (r: Vec<u8>)
        ensures
            r@ == self.wire_bytes(),
    ;

    spec fn wire_bytes(&self) -> Seq<u8>;
}

impl ToMontgomeryBytes for Vec<u8> {
    fn as_montgomery_bytes(&self) -> (r: Vec<u8>) {
        crate::lowering::copy_bytes(self)
    }

    open spec fn wire_bytes(&self) -> Seq<u8> {
        self@
    }
}

/// Validates the lowered circuit against the PTau artifact: the R1CS prime
/// must equal the curve's scalar modulus, the circuit power must fit the
/// ceremony power, and the prepared-tables section 12 must be present.
/// Returns the circuit power on success.
pub fn check_zkey_inputs(
    r1cs_prime: &Vec<u8>,
    curve_r: &Vec<u8>,
    n_plonk_constraints: u32,
    ptau_power: u32,
    ptau_sections: &SectionTable,
) -> (r: Result<u32, SetupError>)
    requires
        n_plonk_constraints >= 1,
    ensures
        ({
            let cp = crate::utils::cir_power_spec(n_plonk_constraints as nat);
            match r {
                Ok(p) => {
                    &&& p == cp
                    &&& le_val(r1cs_prime@) == le_val(curve_r@)
                    &&& cp <= ptau_power
                    &&& SectionTable::first_spec(ptau_sections.entries@, 12) is Some
                },
                Err(e) => {
                    if le_val(r1cs_prime@) != le_val(curve_r@) {
                        e == SetupError::CurveMismatch
                    } else if cp > ptau_power {
                        e == SetupError::CircuitTooBig
                    } else {
                        e == SetupError::PTauNotPrepared && SectionTable::first_spec(
                            ptau_sections.entries@,
                            12,
                        ) is None
                    }
                },
            }
        }),
{
    if !crate::field::eq_val(r1cs_prime, curve_r) {
        return Err(SetupError::CurveMismatch);
    }
    let cp = crate::utils::cir_power(n_plonk_constraints);
    if cp > ptau_power {
        return Err(SetupError::CircuitTooBig);
    }
    if !ptau_sections.contains_id(12) {
        return Err(SetupError::PTauNotPrepared);
    }
    Ok(cp)
}

} // verus!
