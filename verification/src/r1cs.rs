//! R1CS data model: the header and the constraint list read from an `.r1cs`
//! container.

use vstd::prelude::*;

use crate::bytes_le::le_val;
use crate::container::SectionTable;
use crate::errors::SetupError;
use crate::lowering::LcTerm;

verus! {

/// The R1CS header, section 1 of the container.
#[derive(Debug)]
pub struct R1csHeader {
    pub n8: u32,
    pub prime: Vec<u8>,
    pub n_vars: u32,
    pub n_outputs: u32,
    pub n_pub_inputs: u32,
    pub n_prv_inputs: u32,
    pub n_labels: u64,
    pub n_constraints: u32,
    pub use_custom_gates: bool,
}

/// One R1CS constraint: three linear combinations asserting
/// <A,w> * <B,w> = <C,w>, held as raw on-disk term lists.
#[derive(Debug)]
pub struct Constraint {
    pub a: Vec<LcTerm>,
    pub b: Vec<LcTerm>,
    pub c: Vec<LcTerm>,
}

/// A materialized R1CS: header plus constraint list.
#[derive(Debug)]
pub struct R1cs {
    pub header: R1csHeader,
    pub constraints: Vec<Constraint>,
}

/// Mathematical view of a header: widths and counts, prime as bytes.
pub struct R1csHeaderModel {
    pub n8: u32,
    pub prime: Seq<u8>,
    pub n_vars: u32,
    pub n_outputs: u32,
    pub n_pub_inputs: u32,
    pub n_prv_inputs: u32,
    pub n_labels: u64,
    pub n_constraints: u32,
}

/// The fields of an R1CS header payload, or `None` when the payload is too
/// short for its own declared width.
pub open spec fn parse_r1cs_payload(p: Seq<u8>) -> Option<R1csHeaderModel> {
    if p.len() < 4 {
        None
    } else {
        let n8 = le_val(p.subrange(0, 4));
        if p.len() < 32 + n8 {
            None
        } else {
            Some(
                R1csHeaderModel {
                    n8: n8 as u32,
                    prime: p.subrange(4, 4 + n8 as int),
                    n_vars: le_val(p.subrange(4 + n8 as int, 8 + n8 as int)) as u32,
                    n_outputs: le_val(p.subrange(8 + n8 as int, 12 + n8 as int)) as u32,
                    n_pub_inputs: le_val(p.subrange(12 + n8 as int, 16 + n8 as int)) as u32,
                    n_prv_inputs: le_val(p.subrange(16 + n8 as int, 20 + n8 as int)) as u32,
                    n_labels: le_val(p.subrange(20 + n8 as int, 28 + n8 as int)) as u64,
                    n_constraints: le_val(p.subrange(28 + n8 as int, 32 + n8 as int)) as u32,
                },
            )
        }
    }
}

impl R1csHeader {
    pub open spec fn model(self) -> R1csHeaderModel {
        R1csHeaderModel {
            n8: self.n8,
            prime: self.prime@,
            n_vars: self.n_vars,
            n_outputs: self.n_outputs,
            n_pub_inputs: self.n_pub_inputs,
            n_prv_inputs: self.n_prv_inputs,
            n_labels: self.n_labels,
            n_constraints: self.n_constraints,
        }
    }
}

/// Reads the R1CS header: locates the unique section 1, parses the fixed
/// layout, records whether both custom-gates sections are present, and
/// checks the consumed length against the declared section size.
pub fn read_r1cs_header(data: &Vec<u8>, sections: &SectionTable) -> (r: Result<
    R1csHeader,
    SetupError,
>)
    requires
        forall|i: int|
            0 <= i < sections.entries@.len() ==> (#[trigger] sections.entries@[i]).1.offset
                + sections.entries@[i].1.size <= data@.len(),
    ensures
        ({
            let found = SectionTable::first_spec(sections.entries@, 1);
            match r {
                Ok(h) => {
                    &&& found matches Some(sec) && {
                        let p = data@.subrange(sec.offset as int, sec.offset + sec.size);
                        &&& SectionTable::count_spec(sections.entries@, 1) == 1
                        &&& parse_r1cs_payload(p) matches Some(m)
                        &&& h.model() == parse_r1cs_payload(p).unwrap()
                        &&& 32 + parse_r1cs_payload(p).unwrap().n8 == sec.size
                        &&& h.use_custom_gates <==> (SectionTable::first_spec(
                            sections.entries@,
                            4,
                        ) is Some && SectionTable::first_spec(sections.entries@, 5) is Some)
                    }
                },
                Err(e) => {
                    if found is None {
                        e == SetupError::NoSuchSection
                    } else if SectionTable::count_spec(sections.entries@, 1) > 1 {
                        e == SetupError::DuplicateSection
                    } else {
                        let sec = found.unwrap();
                        let p = data@.subrange(sec.offset as int, sec.offset + sec.size);
                        if parse_r1cs_payload(p) is None {
                            e == SetupError::Truncated
                        } else {
                            e == SetupError::SectionSizeMismatch && 32 + parse_r1cs_payload(
                                p,
                            ).unwrap().n8 != sec.size
                        }
                    }
                },
            }
        }),
{
    let found = sections.first(1);
    let sec = match found {
        None => {
            return Err(SetupError::NoSuchSection);
        },
        Some(s) => s,
    };
    if sections.count(1) > 1 {
        return Err(SetupError::DuplicateSection);
    }
    proof {
        crate::container::lemma_first_spec_in(sections.entries@, 1);
        let idx = choose|idx: int|
            0 <= idx < sections.entries@.len() && (#[trigger] sections.entries@[idx]).1 == sec
                && sections.entries@[idx].0 == 1;
        assert(sec.offset + sec.size <= data@.len());
    }
    let payload = match crate::container::read_section(data, sections, 1, None, None) {
        Err(e) => {
            return Err(SetupError::Truncated);
        },
        Ok(p) => p,
    };
    let ghost pm = data@.subrange(sec.offset as int, sec.offset + sec.size);
    proof {
        assert(payload@ == pm);
    }
    if payload.len() < 4 {
        return Err(SetupError::Truncated);
    }
    let n8 = crate::bytes_le::read_u32_at(&payload, 0);
    let plen = payload.len();
    if (plen as u64) < n8 as u64 + 32 {
        proof {
            assert(parse_r1cs_payload(pm) is None);
        }
        return Err(SetupError::Truncated);
    }
    let n8u = n8 as usize;
    proof {
        assert(n8u as int + 32 <= plen as int);
    }
    let mut prime: Vec<u8> = Vec::new();
    let mut i: usize = 4;
    while i < 4 + n8u
        invariant
            4 <= i <= 4 + n8u,
            4 + n8u <= payload@.len(),
            payload@.len() <= usize::MAX,
            prime@ == payload@.subrange(4, i as int),
        decreases 4 + n8u - i,
    {
        prime.push(payload[i]);
        proof {
            assert(prime@ =~= payload@.subrange(4, i + 1));
        }
        i = i + 1;
    }
    let n_vars = crate::bytes_le::read_u32_at(&payload, 4 + n8u);
    let n_outputs = crate::bytes_le::read_u32_at(&payload, 8 + n8u);
    let n_pub_inputs = crate::bytes_le::read_u32_at(&payload, 12 + n8u);
    let n_prv_inputs = crate::bytes_le::read_u32_at(&payload, 16 + n8u);
    let n_labels = crate::bytes_le::read_u64_at(&payload, 20 + n8u);
    let n_constraints = crate::bytes_le::read_u32_at(&payload, 28 + n8u);
    let use_custom_gates = sections.contains_id(4) && sections.contains_id(5);
    if sec.size != n8 as u64 + 32 {
        return Err(SetupError::SectionSizeMismatch);
    }
    proof {
        crate::container::lemma_first_count(sections.entries@, 1);
        let m = parse_r1cs_payload(pm).unwrap();
        assert(prime@ == m.prime);
    }
    Ok(
        R1csHeader {
            n8,
            prime,
            n_vars,
            n_outputs,
            n_pub_inputs,
            n_prv_inputs,
            n_labels,
            n_constraints,
            use_custom_gates,
        },
    )
}

/// Mathematical view of a raw term list.
pub open spec fn terms_model(v: Seq<LcTerm>) -> Seq<(u32, Seq<u8>)> {
    v.map(|i: int, t: LcTerm| (t.wire, t.coeff@))
}

/// Parses `k` terms of `wire:u32 coeff:bytes[n8]` starting at `pos`,
/// returning the terms and the position after them.
pub open spec fn parse_terms(p: Seq<u8>, pos: int, n8: nat, k: nat) -> Option<
    (Seq<(u32, Seq<u8>)>, int),
>
    decreases k,
{
    if k == 0 {
        Some((Seq::empty(), pos))
    } else if pos + 4 + n8 > p.len() {
        None
    } else {
        let w = le_val(p.subrange(pos, pos + 4)) as u32;
        let cf = p.subrange(pos + 4, pos + 4 + n8 as int);
        match parse_terms(p, pos + 4 + n8 as int, n8, (k - 1) as nat) {
            None => None,
            Some(rest) => Some((seq![(w, cf)] + rest.0, rest.1)),
        }
    }
}

/// Parses one linear combination: a term count followed by that many terms.
pub open spec fn parse_lc(p: Seq<u8>, pos: int, n8: nat) -> Option<(Seq<(u32, Seq<u8>)>, int)> {
    if pos + 4 > p.len() {
        None
    } else {
        parse_terms(p, pos + 4, n8, le_val(p.subrange(pos, pos + 4)))
    }
}

/// Parses `k` constraints of three linear combinations each.
pub open spec fn parse_cons(p: Seq<u8>, pos: int, n8: nat, k: nat) -> Option<
    (Seq<(Seq<(u32, Seq<u8>)>, Seq<(u32, Seq<u8>)>, Seq<(u32, Seq<u8>)>)>, int),
>
    decreases k,
{
    if k == 0 {
        Some((Seq::empty(), pos))
    } else {
        match parse_lc(p, pos, n8) {
            None => None,
            Some(a) => match parse_lc(p, a.1, n8) {
                None => None,
                Some(b) => match parse_lc(p, b.1, n8) {
                    None => None,
                    Some(c) => match parse_cons(p, c.1, n8, (k - 1) as nat) {
                        None => None,
                        Some(rest) => Some((seq![(a.0, b.0, c.0)] + rest.0, rest.1)),
                    },
                },
            },
        }
    }
}

/// Mathematical view of a constraint: its three raw term lists.
pub open spec fn con_model(c: Constraint) -> (Seq<(u32, Seq<u8>)>, Seq<(u32, Seq<u8>)>, Seq<
    (u32, Seq<u8>),
>) {
    (terms_model(c.a@), terms_model(c.b@), terms_model(c.c@))
}

/// Reads one linear combination at `pos` of the constraints payload.
fn read_lc(p: &Vec<u8>, pos: usize, n8: usize) -> (r: Result<(Vec<LcTerm>, usize), SetupError>)
    requires
        n8 <= u32::MAX,
    ensures
        match r {
            Ok(t) => parse_lc(p@, pos as int, n8 as nat) == Some((terms_model(t.0@), t.1 as int))
                && pos <= t.1 <= p@.len(),
            Err(e) => parse_lc(p@, pos as int, n8 as nat) is None && e == SetupError::Truncated,
        },
{
    let n = p.len();
    if pos > n || n - pos < 4 {
        return Err(SetupError::Truncated);
    }
    let k = crate::bytes_le::read_u32_at(p, pos);
    let mut out: Vec<LcTerm> = Vec::new();
    let mut cur: usize = pos + 4;
    let mut done: u32 = 0;
    proof {
        assert(terms_model(out@) =~= Seq::<(u32, Seq<u8>)>::empty());
    }
    while done < k
        invariant
            done <= k,
            pos + 4 <= cur <= n,
            n == p@.len(),
            n8 <= u32::MAX,
            parse_lc(p@, pos as int, n8 as nat) == parse_terms(p@, pos + 4, n8 as nat, k as nat),
            ({
                let whole = parse_terms(p@, pos + 4, n8 as nat, k as nat);
                let now = parse_terms(p@, cur as int, n8 as nat, (k - done) as nat);
                &&& (whole is Some <==> now is Some)
                &&& (whole is Some ==> whole.unwrap().0 == terms_model(out@) + now.unwrap().0
                    && whole.unwrap().1 == now.unwrap().1)
            }),
        decreases k - done,
    {
        let ghost rem = (k - done) as nat;
        let ghost cur0 = cur as int;
        if n - cur < 4 || n - cur - 4 < n8 {
            proof {
                assert(parse_terms(p@, cur0, n8 as nat, rem) is None);
            }
            return Err(SetupError::Truncated);
        }
        let w = crate::bytes_le::read_u32_at(p, cur);
        let mut cf: Vec<u8> = Vec::new();
        let mut j: usize = cur + 4;
        while j < cur + 4 + n8
            invariant
                cur + 4 <= j <= cur + 4 + n8,
                cur + 4 + n8 <= n,
                n == p@.len(),
                n <= usize::MAX,
                cf@ == p@.subrange(cur + 4, j as int),
            decreases cur + 4 + n8 - j,
        {
            cf.push(p[j]);
            proof {
                assert(cf@ =~= p@.subrange(cur + 4, j + 1));
            }
            j = j + 1;
        }
        let ghost out0 = terms_model(out@);
        out.push(LcTerm { wire: w, coeff: cf });
        cur = cur + 4 + n8;
        done = done + 1;
        proof {
            let head = (w, p@.subrange(cur0 + 4, cur0 + 4 + n8 as int));
            assert(terms_model(out@) =~= out0.push(head));
            let nxt = parse_terms(p@, cur as int, n8 as nat, (rem - 1) as nat);
            assert(parse_terms(p@, cur0, n8 as nat, rem) is Some ==> parse_terms(
                p@,
                cur0,
                n8 as nat,
                rem,
            ).unwrap().0 == seq![head] + nxt.unwrap().0);
            if parse_terms(p@, pos + 4, n8 as nat, k as nat) is Some {
                assert(parse_terms(p@, pos + 4, n8 as nat, k as nat).unwrap().0 =~= terms_model(
                    out@,
                ) + nxt.unwrap().0);
            }
        }
    }
    proof {
        assert(parse_terms(p@, cur as int, n8 as nat, 0) == Some(
            (Seq::<(u32, Seq<u8>)>::empty(), cur as int),
        ));
        if parse_terms(p@, pos + 4, n8 as nat, k as nat) is Some {
            assert(parse_terms(p@, pos + 4, n8 as nat, k as nat).unwrap().0 =~= terms_model(out@));
        }
    }
    Ok((out, cur))
}

/// Reads section 2: exactly `n_constraints` triples of linear combinations,
/// which must consume the whole section.
pub fn read_constraints(data: &Vec<u8>, sections: &SectionTable, r1cs: &R1csHeader) -> (r: Result<
    Vec<Constraint>,
    SetupError,
>)
    requires
        forall|i: int|
            0 <= i < sections.entries@.len() ==> (#[trigger] sections.entries@[i]).1.offset
                + sections.entries@[i].1.size <= data@.len(),
    ensures
        ({
            let found = SectionTable::first_spec(sections.entries@, 2);
            match r {
                Ok(cs) => {
                    &&& found matches Some(sec) && {
                        let p = data@.subrange(sec.offset as int, sec.offset + sec.size);
                        &&& parse_cons(p, 0, r1cs.n8 as nat, r1cs.n_constraints as nat)
                            matches Some(pr) && pr.0 == cs@.map(
                            |i: int, c: Constraint| con_model(c),
                        ) && pr.1 == sec.size
                    }
                },
                Err(e) => {
                    if found is None {
                        e == SetupError::NoSuchSection
                    } else {
                        let sec = found.unwrap();
                        let p = data@.subrange(sec.offset as int, sec.offset + sec.size);
                        if parse_cons(p, 0, r1cs.n8 as nat, r1cs.n_constraints as nat) is None {
                            e == SetupError::Truncated
                        } else {
                            e == SetupError::SectionSizeMismatch && parse_cons(
                                p,
                                0,
                                r1cs.n8 as nat,
                                r1cs.n_constraints as nat,
                            ).unwrap().1 != sec.size
                        }
                    }
                },
            }
        }),
{
    let found = sections.first(2);
    let sec = match found {
        None => {
            return Err(SetupError::NoSuchSection);
        },
        Some(s) => s,
    };
    proof {
        crate::container::lemma_first_spec_in(sections.entries@, 2);
        let idx = choose|idx: int|
            0 <= idx < sections.entries@.len() && (#[trigger] sections.entries@[idx]).1 == sec
                && sections.entries@[idx].0 == 2;
        assert(sec.offset + sec.size <= data@.len());
    }
    let p = match crate::container::read_section(data, sections, 2, None, None) {
        Err(e) => {
            return Err(SetupError::Truncated);
        },
        Ok(b) => b,
    };
    let ghost pm = data@.subrange(sec.offset as int, sec.offset + sec.size);
    proof {
        assert(p@ == pm);
    }
    let n8 = r1cs.n8 as usize;
    let total = r1cs.n_constraints;
    let mut out: Vec<Constraint> = Vec::new();
    let mut cur: usize = 0;
    let mut done: u32 = 0;
    proof {
        assert(out@.map(|i: int, c: Constraint| con_model(c)) =~= Seq::<
            (Seq<(u32, Seq<u8>)>, Seq<(u32, Seq<u8>)>, Seq<(u32, Seq<u8>)>),
        >::empty());
    }
    while done < total
        invariant
            done <= total,
            cur <= p@.len(),
            p@ == pm,
            SectionTable::first_spec(sections.entries@, 2) == Some(sec),
            pm == data@.subrange(sec.offset as int, sec.offset + sec.size),
            n8 == r1cs.n8 as usize,
            n8 <= u32::MAX,
            total == r1cs.n_constraints,
            ({
                let whole = parse_cons(pm, 0, n8 as nat, total as nat);
                let now = parse_cons(pm, cur as int, n8 as nat, (total - done) as nat);
                &&& (whole is Some <==> now is Some)
                &&& (whole is Some ==> whole.unwrap().0 == out@.map(
                    |i: int, c: Constraint| con_model(c),
                ) + now.unwrap().0 && whole.unwrap().1 == now.unwrap().1)
            }),
        decreases total - done,
    {
        let ghost rem = (total - done) as nat;
        let ghost cur0 = cur as int;
        let (a, cur_a) = match read_lc(&p, cur, n8) {
            Err(e) => {
                proof {
                    assert(parse_cons(pm, cur0, n8 as nat, rem) is None);
                }
                return Err(SetupError::Truncated);
            },
            Ok(t) => t,
        };
        let (b, cur_b) = match read_lc(&p, cur_a, n8) {
            Err(e) => {
                proof {
                    assert(parse_cons(pm, cur0, n8 as nat, rem) is None);
                }
                return Err(SetupError::Truncated);
            },
            Ok(t) => t,
        };
        let (c, cur_c) = match read_lc(&p, cur_b, n8) {
            Err(e) => {
                proof {
                    assert(parse_cons(pm, cur0, n8 as nat, rem) is None);
                }
                return Err(SetupError::Truncated);
            },
            Ok(t) => t,
        };
        let ghost out0 = out@.map(|i: int, c2: Constraint| con_model(c2));
        let ghost head = (terms_model(a@), terms_model(b@), terms_model(c@));
        out.push(Constraint { a, b, c });
        cur = cur_c;
        done = done + 1;
        proof {
            assert(out@.map(|i: int, c2: Constraint| con_model(c2)) =~= out0.push(head));
            let nxt = parse_cons(pm, cur as int, n8 as nat, (rem - 1) as nat);
            assert(parse_cons(pm, cur0, n8 as nat, rem) is Some ==> parse_cons(
                pm,
                cur0,
                n8 as nat,
                rem,
            ).unwrap().0 == seq![head] + nxt.unwrap().0);
            if parse_cons(pm, 0, n8 as nat, total as nat) is Some {
                assert(parse_cons(pm, 0, n8 as nat, total as nat).unwrap().0 =~= out@.map(
                    |i: int, c2: Constraint| con_model(c2),
                ) + nxt.unwrap().0);
            }
        }
    }
    proof {
        assert(parse_cons(pm, cur as int, n8 as nat, 0) == Some(
            (
                Seq::<(Seq<(u32, Seq<u8>)>, Seq<(u32, Seq<u8>)>, Seq<(u32, Seq<u8>)>)>::empty(),
                cur as int,
            ),
        ));
        if parse_cons(pm, 0, n8 as nat, total as nat) is Some {
            assert(parse_cons(pm, 0, n8 as nat, total as nat).unwrap().0 =~= out@.map(
                |i: int, c2: Constraint| con_model(c2),
            ));
        }
    }
    if (cur as u64) != sec.size {
        return Err(SetupError::SectionSizeMismatch);
    }
    Ok(out)
}

/// A successful constraint parse returns exactly the asked-for number of
/// constraints.
pub proof fn lemma_parse_cons_len(p: Seq<u8>, pos: int, n8: nat, k: nat)
    ensures
        parse_cons(p, pos, n8, k) matches Some(pr) ==> pr.0.len() == k,
    decreases k,
{
    if k > 0 && parse_lc(p, pos, n8) is Some {
        let a = parse_lc(p, pos, n8).unwrap();
        if parse_lc(p, a.1, n8) is Some {
            let b = parse_lc(p, a.1, n8).unwrap();
            if parse_lc(p, b.1, n8) is Some {
                let c = parse_lc(p, b.1, n8).unwrap();
                lemma_parse_cons_len(p, c.1, n8, (k - 1) as nat);
            }
        }
    }
}

/// Materializes a whole R1CS: header, then constraints.
pub fn read_r1cs_fd(data: &Vec<u8>, sections: &SectionTable) -> (r: Result<R1cs, SetupError>)
    requires
        forall|i: int|
            0 <= i < sections.entries@.len() ==> (#[trigger] sections.entries@[i]).1.offset
                + sections.entries@[i].1.size <= data@.len(),
    ensures
        r matches Ok(z) ==> {
            &&& SectionTable::first_spec(sections.entries@, 1) matches Some(sec) && {
                let p = data@.subrange(sec.offset as int, sec.offset + sec.size);
                &&& SectionTable::count_spec(sections.entries@, 1) == 1
                &&& parse_r1cs_payload(p) matches Some(m) && z.header.model() == m
                &&& 32 + parse_r1cs_payload(p).unwrap().n8 == sec.size
                &&& z.header.use_custom_gates <==> (SectionTable::first_spec(
                    sections.entries@,
                    4,
                ) is Some && SectionTable::first_spec(sections.entries@, 5) is Some)
            }
            &&& SectionTable::first_spec(sections.entries@, 2) matches Some(sec2) && {
                let p2 = data@.subrange(sec2.offset as int, sec2.offset + sec2.size);
                &&& parse_cons(p2, 0, z.header.n8 as nat, z.header.n_constraints as nat)
                    matches Some(pr) && pr.0 == z.constraints@.map(
                    |i: int, c: Constraint| con_model(c),
                ) && pr.1 == sec2.size
                &&& z.constraints@.len() == z.header.n_constraints
            }
        },
        r matches Err(e) ==> {
            let found1 = SectionTable::first_spec(sections.entries@, 1);
            if found1 is None {
                e == SetupError::NoSuchSection
            } else if SectionTable::count_spec(sections.entries@, 1) > 1 {
                e == SetupError::DuplicateSection
            } else {
                let sec = found1.unwrap();
                let p = data@.subrange(sec.offset as int, sec.offset + sec.size);
                if parse_r1cs_payload(p) is None {
                    e == SetupError::Truncated
                } else if 32 + parse_r1cs_payload(p).unwrap().n8 != sec.size {
                    e == SetupError::SectionSizeMismatch
                } else {
                    // the header read succeeded; the failure is the
                    // constraints read's, propagated unchanged
                    let m = parse_r1cs_payload(p).unwrap();
                    let found2 = SectionTable::first_spec(sections.entries@, 2);
                    if found2 is None {
                        e == SetupError::NoSuchSection
                    } else {
                        let sec2 = found2.unwrap();
                        let p2 = data@.subrange(sec2.offset as int, sec2.offset + sec2.size);
                        if parse_cons(p2, 0, m.n8 as nat, m.n_constraints as nat) is None {
                            e == SetupError::Truncated
                        } else {
                            e == SetupError::SectionSizeMismatch && parse_cons(
                                p2,
                                0,
                                m.n8 as nat,
                                m.n_constraints as nat,
                            ).unwrap().1 != sec2.size
                        }
                    }
                }
            }
        },
{
    let header = match read_r1cs_header(data, sections) {
        Err(e) => {
            return Err(e);
        },
        Ok(h) => h,
    };
    let constraints = match read_constraints(data, sections, &header) {
        Err(e) => {
            return Err(e);
        },
        Ok(cs) => cs,
    };
    proof {
        let found2 = SectionTable::first_spec(sections.entries@, 2);
        let sec2 = found2.unwrap();
        let p2 = data@.subrange(sec2.offset as int, sec2.offset + sec2.size);
        lemma_parse_cons_len(p2, 0, header.n8 as nat, header.n_constraints as nat);
    }
    Ok(R1cs { header, constraints })
}

} // verus!
