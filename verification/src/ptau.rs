//! PTau header reader: parses curve and power metadata from section 1 of a
//! `.ptau` container.

use vstd::prelude::*;

use crate::bytes_le::le_val;
use crate::container::SectionTable;
use crate::curves::{curve_wf, Curve};
use crate::errors::SetupError;

verus! {

/// The fields of a PTau header payload: base-field byte width, base-field
/// modulus bytes, power, ceremony power.  `None` when the payload is too
/// short for its own declared width.
pub open spec fn parse_ptau_payload(p: Seq<u8>) -> Option<(u32, Seq<u8>, u32, u32)> {
    if p.len() < 4 {
        None
    } else {
        let n8 = le_val(p.subrange(0, 4));
        if p.len() < 12 + n8 {
            None
        } else {
            Some(
                (
                    n8 as u32,
                    p.subrange(4, 4 + n8 as int),
                    le_val(p.subrange(4 + n8 as int, 8 + n8 as int)) as u32,
                    le_val(p.subrange(8 + n8 as int, 12 + n8 as int)) as u32,
                ),
            )
        }
    }
}

/// Reads the PTau header: locates the unique section 1, parses
/// `n8 | q | power | ceremony_power`, identifies the curve from `q`,
/// validates the width against the curve and the consumed length against
/// the declared section size.
pub fn read_ptau_header(data: &Vec<u8>, sections: &SectionTable) -> (r: Result<
    (Curve, u32, u32),
    SetupError,
>)
    requires
        forall|i: int|
            0 <= i < sections.entries@.len() ==> (#[trigger] sections.entries@[i]).1.offset
                + sections.entries@[i].1.size <= data@.len(),
    ensures
        ({
            let found = SectionTable::first_spec(sections.entries@, 1);
            match r {
                Ok(t) => {
                    &&& found matches Some(sec) && {
                        let p = data@.subrange(sec.offset as int, sec.offset + sec.size);
                        &&& SectionTable::count_spec(sections.entries@, 1) == 1
                        &&& parse_ptau_payload(p) matches Some(h)
                        &&& parse_ptau_payload(p).unwrap().0 + 12 == sec.size
                        &&& curve_wf(t.0)
                        &&& le_val(t.0.q@) == le_val(parse_ptau_payload(p).unwrap().1)
                        &&& t.0.n8q == parse_ptau_payload(p).unwrap().0
                        &&& t.1 == parse_ptau_payload(p).unwrap().2
                        &&& t.2 == parse_ptau_payload(p).unwrap().3
                    }
                },
                Err(e) => {
                    if found is None {
                        e == SetupError::NoSuchSection
                    } else if SectionTable::count_spec(sections.entries@, 1) > 1 {
                        e == SetupError::DuplicateSection
                    } else {
                        let sec = found.unwrap();
                        let p = data@.subrange(sec.offset as int, sec.offset + sec.size);
                        if parse_ptau_payload(p) is None {
                            e == SetupError::Truncated
                        } else {
                            let h = parse_ptau_payload(p).unwrap();
                            if le_val(h.1) != crate::curves::bn254_q_val() && le_val(h.1)
                                != crate::curves::bls12381_q_val() {
                                e == SetupError::UnsupportedCurve
                            } else if (if le_val(h.1) == crate::curves::bn254_q_val() {
                                32int
                            } else {
                                48int
                            }) != h.0 {
                                e == SetupError::CurveMismatch
                            } else {
                                e == SetupError::SectionSizeMismatch && h.0 + 12 != sec.size
                            }
                        }
                    }
                },
            }
        }),
{
    let found = sections.first(1);
    let sec = match found {
        None => {
            return Err(SetupError::NoSuchSection);
        },
        Some(s) => s,
    };
    if sections.count(1) > 1 {
        return Err(SetupError::DuplicateSection);
    }
    proof {
        crate::container::lemma_first_spec_in(sections.entries@, 1);
        let idx = choose|idx: int|
            0 <= idx < sections.entries@.len() && (#[trigger] sections.entries@[idx]).1 == sec
                && sections.entries@[idx].0 == 1;
        assert(sec.offset + sec.size <= data@.len());
    }
    let payload = match crate::container::read_section(data, sections, 1, None, None) {
        Err(e) => {
            return Err(SetupError::Truncated);
        },
        Ok(p) => p,
    };
    let ghost pm = data@.subrange(sec.offset as int, sec.offset + sec.size);
    proof {
        assert(payload@ == pm);
    }
    if payload.len() < 4 {
        return Err(SetupError::Truncated);
    }
    let n8 = crate::bytes_le::read_u32_at(&payload, 0);
    let plen = payload.len();
    if (plen as u64) < n8 as u64 + 12 {
        proof {
            assert(parse_ptau_payload(pm) is None);
        }
        return Err(SetupError::Truncated);
    }
    let n8u = n8 as usize;
    proof {
        assert(n8u as int + 12 <= plen as int);
    }
    let mut q: Vec<u8> = Vec::new();
    let mut i: usize = 4;
    while i < 4 + n8u
        invariant
            4 <= i <= 4 + n8u,
            4 + n8u <= payload@.len(),
            payload@.len() <= usize::MAX,
            q@ == payload@.subrange(4, i as int),
        decreases 4 + n8u - i,
    {
        let ghost pre = q@;
        q.push(payload[i]);
        proof {
            assert(q@ =~= payload@.subrange(4, i + 1));
        }
        i = i + 1;
    }
    let power = crate::bytes_le::read_u32_at(&payload, 4 + n8u);
    let ceremony_power = crate::bytes_le::read_u32_at(&payload, 8 + n8u);
    let curve = match Curve::from_q(&q) {
        Err(_) => {
            return Err(SetupError::UnsupportedCurve);
        },
        Ok(c) => c,
    };
    if curve.n8q != n8u {
        return Err(SetupError::CurveMismatch);
    }
    if sec.size != n8 as u64 + 12 {
        return Err(SetupError::SectionSizeMismatch);
    }
    proof {
        crate::container::lemma_first_count(sections.entries@, 1);
        crate::curves::lemma_curve_constants();
        let h = parse_ptau_payload(pm).unwrap();
        assert(q@ == h.1);
        assert(le_val(curve.q@) == le_val(q@));
        assert(power == h.2 && ceremony_power == h.3);
    }
    Ok((curve, power, ceremony_power))
}

} // verus!
