//! The constraint lowerer: translates R1CS triples `(A, B, C)` into PLONK
//! gates, allocating auxiliary wires to reduce linear combinations of
//! arbitrary fan-in to the fan-in-3 of a PLONK gate.
//!
//! A linear combination is held as a vector of terms sorted by strictly
//! ascending wire index, with coefficients reduced below the scalar modulus;
//! that order pins down which pairs the reduction consumes first, so the
//! whole lowering is a function of its input, stated here as spec functions
//! (`reduce_spec`, `process_spec`, `lower_spec`) that the executable code is
//! proved to follow exactly.

use vstd::prelude::*;

use crate::bytes_le::le_val;
use crate::field::fr_wf;

verus! {

/// One term of a linear combination: a wire index and a little-endian
/// coefficient.
#[derive(Debug)]
pub struct LcTerm {
    pub wire: u32,
    pub coeff: Vec<u8>,
}

/// One PLONK gate: three wire selectors and five little-endian coefficient
/// selectors, asserting qm*w[sl]*w[sr] + ql*w[sl] + qr*w[sr] + qo*w[so] + qc = 0.
#[derive(Debug)]
pub struct Gate {
    pub sl: u32,
    pub sr: u32,
    pub so: u32,
    pub qm: Vec<u8>,
    pub ql: Vec<u8>,
    pub qr: Vec<u8>,
    pub qo: Vec<u8>,
    pub qc: Vec<u8>,
}

/// One addition record `(a, b, v1, v2)`: the witness extension rule
/// w[fresh] = v1*w[a] + v2*w[b] that accompanies an auxiliary wire.
#[derive(Debug)]
pub struct PlonkAddition {
    pub a: u32,
    pub b: u32,
    pub v1: Vec<u8>,
    pub v2: Vec<u8>,
}

/// Mathematical view of a gate: wire indices and coefficient values.
pub struct GateModel {
    pub sl: nat,
    pub sr: nat,
    pub so: nat,
    pub qm: nat,
    pub ql: nat,
    pub qr: nat,
    pub qo: nat,
    pub qc: nat,
}

/// Mathematical view of an addition record.
pub struct AddModel {
    pub a: nat,
    pub b: nat,
    pub v1: nat,
    pub v2: nat,
}

impl Gate {
    pub open spec fn model(self) -> GateModel {
        GateModel {
            sl: self.sl as nat,
            sr: self.sr as nat,
            so: self.so as nat,
            qm: le_val(self.qm@),
            ql: le_val(self.ql@),
            qr: le_val(self.qr@),
            qo: le_val(self.qo@),
            qc: le_val(self.qc@),
        }
    }

    /// All five selectors are well-formed scalars of the modulus `m`.
    pub open spec fn wf(self, m: Seq<u8>) -> bool {
        fr_wf(self.qm@, m) && fr_wf(self.ql@, m) && fr_wf(self.qr@, m) && fr_wf(self.qo@, m)
            && fr_wf(self.qc@, m)
    }
}

impl PlonkAddition {
    pub open spec fn model(self) -> AddModel {
        AddModel { a: self.a as nat, b: self.b as nat, v1: le_val(self.v1@), v2: le_val(self.v2@) }
    }

    pub open spec fn wf(self, m: Seq<u8>) -> bool {
        fr_wf(self.v1@, m) && fr_wf(self.v2@, m)
    }
}

/// Mathematical view of a linear combination: wire, coefficient value.
pub open spec fn lc_model(v: Seq<LcTerm>) -> Seq<(nat, nat)> {
    v.map(|i: int, t: LcTerm| (t.wire as nat, le_val(t.coeff@)))
}

/// Wires strictly ascending.
pub open spec fn lc_sorted(lc: Seq<(nat, nat)>) -> bool {
    forall|i: int, j: int| 0 <= i < j < lc.len() ==> lc[i].0 < lc[j].0
}

/// Wires strictly ascending, coefficient values below the modulus.
pub open spec fn lc_wf(lc: Seq<(nat, nat)>, m: nat) -> bool {
    &&& lc_sorted(lc)
    &&& forall|i: int| 0 <= i < lc.len() ==> (#[trigger] lc[i]).1 < m
}

/// Exec-side well-formedness: the model is well-formed and every coefficient
/// has the modulus width.
pub open spec fn lc_exec_wf(v: Seq<LcTerm>, m: Seq<u8>) -> bool {
    &&& lc_wf(lc_model(v), le_val(m))
    &&& forall|i: int| 0 <= i < v.len() ==> (#[trigger] v[i]).coeff@.len() == m.len()
}

/// Drops zero-coefficient terms, keeping the order.
pub open spec fn lc_norm(lc: Seq<(nat, nat)>) -> Seq<(nat, nat)>
    decreases lc.len(),
{
    if lc.len() == 0 {
        Seq::empty()
    } else if lc[0].1 == 0 {
        lc_norm(lc.skip(1))
    } else {
        seq![lc[0]] + lc_norm(lc.skip(1))
    }
}

/// The constant part: the coefficient of wire 0, which sits first when the
/// combination is sorted.
pub open spec fn lc_const(lc: Seq<(nat, nat)>) -> nat {
    if lc.len() > 0 && lc[0].0 == 0 {
        lc[0].1
    } else {
        0
    }
}

/// The non-constant part: everything but a leading wire-0 term.
pub open spec fn lc_nonconst(lc: Seq<(nat, nat)>) -> Seq<(nat, nat)> {
    if lc.len() > 0 && lc[0].0 == 0 {
        lc.skip(1)
    } else {
        lc
    }
}

/// Classification tag of a normalized linear combination.
#[derive(Clone, Copy, Debug, PartialEq, Eq, Structural)]
pub enum LcTag {
    /// No terms survive normalization.
    Zero,
    /// Only the constant wire-0 term survives.
    Constant,
    /// The number of surviving non-constant terms.
    Many(usize),
}

/// Tag of a (normalized) linear combination.
pub open spec fn lc_tag_spec(lc: Seq<(nat, nat)>) -> LcTag {
    if lc_nonconst(lc).len() > 0 {
        LcTag::Many(lc_nonconst(lc).len() as usize)
    } else if lc_const(lc) != 0 {
        LcTag::Constant
    } else {
        LcTag::Zero
    }
}

/// The additive inverse of v modulo m.
pub open spec fn neg_mod(v: nat, m: nat) -> nat {
    (((m - v % m) as int) % (m as int)) as nat
}

/// One-step fan-in reduction, mirroring the executable loop: while more than
/// `max_c` terms remain, merge the first two into a fresh wire, emitting the
/// binding gate and the addition record.
pub open spec fn reduce_spec(cs: Seq<(nat, nat)>, max_c: nat, nv: nat, m: nat) -> (Seq<GateModel>,
    Seq<AddModel>,
    Seq<(nat, nat)>,
)
    decreases cs.len(),
{
    if cs.len() <= max_c || cs.len() < 2 {
        (Seq::empty(), Seq::empty(), cs)
    } else {
        let c1 = cs[0];
        let c2 = cs[1];
        let g = GateModel {
            sl: c1.0,
            sr: c2.0,
            so: nv,
            qm: 0,
            ql: neg_mod(c1.1, m),
            qr: neg_mod(c2.1, m),
            qo: 1,
            qc: 0,
        };
        let a = AddModel { a: c1.0, b: c2.0, v1: c1.1, v2: c2.1 };
        let rec = reduce_spec(cs.skip(2).push((nv, 1)), max_c, nv + 1, m);
        (seq![g] + rec.0, seq![a] + rec.1, rec.2)
    }
}

/// Right-pads with inert (wire 0, coefficient 0) entries to exactly `max_c`.
pub open spec fn pad_cs(cs: Seq<(nat, nat)>, max_c: nat) -> Seq<(nat, nat)> {
    cs + Seq::new((max_c - cs.len()) as nat, |i: int| (0nat, 0nat))
}

/// The gates, additions and next free wire after lowering one sum
/// constraint <lc, w> = 0.
pub open spec fn sum_gate_spec(lc: Seq<(nat, nat)>, nv: nat, m: nat) -> (Seq<GateModel>, Seq<
    AddModel,
>, nat) {
    let k = lc_const(lc);
    let red = reduce_spec(lc_nonconst(lc), 3, nv, m);
    let p = pad_cs(red.2, 3);
    let fin = GateModel {
        sl: p[0].0,
        sr: p[1].0,
        so: p[2].0,
        qm: 0,
        ql: p[0].1,
        qr: p[1].1,
        qo: p[2].1,
        qc: k,
    };
    (red.0.push(fin), red.1, nv + red.1.len())
}

/// The gates, additions and next free wire after lowering one
/// multiplication constraint <a,w>*<b,w> = <c,w>.
pub open spec fn mul_gate_spec(
    a: Seq<(nat, nat)>,
    b: Seq<(nat, nat)>,
    c: Seq<(nat, nat)>,
    nv: nat,
    m: nat,
) -> (Seq<GateModel>, Seq<AddModel>, nat) {
    let ka = lc_const(a);
    let ra = reduce_spec(lc_nonconst(a), 1, nv, m);
    let pa = pad_cs(ra.2, 1);
    let nv1 = nv + ra.1.len();
    let kb = lc_const(b);
    let rb = reduce_spec(lc_nonconst(b), 1, nv1, m);
    let pb = pad_cs(rb.2, 1);
    let nv2 = nv1 + rb.1.len();
    let kc = lc_const(c);
    let rc = reduce_spec(lc_nonconst(c), 1, nv2, m);
    let pc = pad_cs(rc.2, 1);
    let nv3 = nv2 + rc.1.len();
    let fin = GateModel {
        sl: pa[0].0,
        sr: pb[0].0,
        so: pc[0].0,
        qm: (pa[0].1 * pb[0].1) % m,
        ql: (pa[0].1 * kb) % m,
        qr: (ka * pb[0].1) % m,
        qo: neg_mod(pc[0].1, m),
        qc: (((ka * kb + m) - kc) as int % (m as int)) as nat,
    };
    ((ra.0 + rb.0 + rc.0).push(fin), ra.1 + rb.1 + rc.1, nv3)
}

/// k * coefficient for every term of a scaled combination.
pub open spec fn merge_scaled(l1: Seq<(nat, nat)>, l2: Seq<(nat, nat)>, k: nat, m: nat) -> Seq<
    (nat, nat),
>
    decreases l1.len() + l2.len(),
{
    if l1.len() == 0 {
        l2
    } else if l2.len() == 0 {
        seq![(l1[0].0, (k * l1[0].1) % m)] + merge_scaled(l1.skip(1), l2, k, m)
    } else if l1[0].0 < l2[0].0 {
        seq![(l1[0].0, (k * l1[0].1) % m)] + merge_scaled(l1.skip(1), l2, k, m)
    } else if l1[0].0 > l2[0].0 {
        seq![l2[0]] + merge_scaled(l1, l2.skip(1), k, m)
    } else {
        seq![(l1[0].0, (k * l1[0].1 + l2[0].1) % m)] + merge_scaled(l1.skip(1), l2.skip(1), k, m)
    }
}

/// join(l1, k, l2) = k*l1 + l2 as combinations, normalized.
pub open spec fn join_spec(l1: Seq<(nat, nat)>, k: nat, l2: Seq<(nat, nat)>, m: nat) -> Seq<
    (nat, nat),
> {
    lc_norm(merge_scaled(l1, l2, k, m))
}

/// Per-constraint dispatch: a vanishing side degenerates the constraint to a
/// sum over C; a constant side linearizes it through `join`; otherwise a
/// true multiplication gate is emitted.
pub open spec fn process_spec(
    a: Seq<(nat, nat)>,
    b: Seq<(nat, nat)>,
    c: Seq<(nat, nat)>,
    nv: nat,
    m: nat,
) -> (Seq<GateModel>, Seq<AddModel>, nat) {
    let a1 = lc_norm(a);
    let b1 = lc_norm(b);
    let ta = lc_tag_spec(a1);
    let tb = lc_tag_spec(b1);
    if ta == LcTag::Zero || tb == LcTag::Zero {
        sum_gate_spec(lc_norm(c), nv, m)
    } else if ta == LcTag::Constant {
        sum_gate_spec(join_spec(b1, lc_const(a1), c, m), nv, m)
    } else if tb == LcTag::Constant {
        sum_gate_spec(join_spec(a1, lc_const(b1), c, m), nv, m)
    } else {
        mul_gate_spec(a1, b1, c, nv, m)
    }
}

/// One prologue row binding wire `s` of the public section.
pub open spec fn public_gate(s: nat) -> GateModel {
    GateModel { sl: s, sr: 0, so: 0, qm: 0, ql: 1, qr: 0, qo: 0, qc: 0 }
}

/// The public-input prologue: one gate per wire 1..=n_public.
pub open spec fn public_gates(n_public: nat) -> Seq<GateModel> {
    Seq::new(n_public, |i: int| public_gate((i + 1) as nat))
}

/// Lowers a list of (A, B, C) triples in order, threading the wire counter.
pub open spec fn lower_cons_spec(cons: Seq<(Seq<(nat, nat)>, Seq<(nat, nat)>, Seq<(nat, nat)>)>,
    nv: nat,
    m: nat,
) -> (Seq<GateModel>, Seq<AddModel>, nat)
    decreases cons.len(),
{
    if cons.len() == 0 {
        (Seq::empty(), Seq::empty(), nv)
    } else {
        let pre = lower_cons_spec(cons.drop_last(), nv, m);
        let last = cons.last();
        let one = process_spec(last.0, last.1, last.2, pre.2, m);
        (pre.0 + one.0, pre.1 + one.1, one.2)
    }
}

/// The whole lowering: public-input gates first, then the lowered
/// constraints, starting the wire counter at the R1CS variable count.
pub open spec fn lower_spec(
    cons: Seq<(Seq<(nat, nat)>, Seq<(nat, nat)>, Seq<(nat, nat)>)>,
    n_vars: nat,
    n_public: nat,
    m: nat,
) -> (Seq<GateModel>, Seq<AddModel>, nat) {
    let body = lower_cons_spec(cons, n_vars, m);
    (public_gates(n_public) + body.0, body.1, body.2)
}

/// Sorted insertion with overwrite: how a combination is built from the
/// on-disk term list, later terms for the same wire replacing earlier ones.
pub open spec fn lc_insert(lc: Seq<(nat, nat)>, w: nat, v: nat) -> Seq<(nat, nat)>
    decreases lc.len(),
{
    if lc.len() == 0 {
        seq![(w, v)]
    } else if w < lc[0].0 {
        seq![(w, v)] + lc
    } else if w == lc[0].0 {
        seq![(w, v)] + lc.skip(1)
    } else {
        seq![lc[0]] + lc_insert(lc.skip(1), w, v)
    }
}

/// The sorted combination built from raw on-disk terms, coefficients reduced
/// modulo m, duplicates resolved last-wins.
pub open spec fn conv_spec(raw: Seq<LcTerm>, m: nat) -> Seq<(nat, nat)>
    decreases raw.len(),
{
    if raw.len() == 0 {
        Seq::empty()
    } else {
        lc_insert(
            conv_spec(raw.drop_last(), m),
            raw.last().wire as nat,
            le_val(raw.last().coeff@) % m,
        )
    }
}

/// The binding gate of one fan-in reduction step, for record `a` and fresh
/// wire `so`: it asserts w[so] = v1*w[a.a] + v2*w[a.b].
pub open spec fn add_gate(a: AddModel, so: nat, m: nat) -> GateModel {
    GateModel {
        sl: a.a,
        sr: a.b,
        so: so,
        qm: 0,
        ql: neg_mod(a.v1, m),
        qr: neg_mod(a.v2, m),
        qo: 1,
        qc: 0,
    }
}

/// Normalization distributes over concatenation.
pub proof fn lemma_lc_norm_append(a: Seq<(nat, nat)>, b: Seq<(nat, nat)>)
    ensures
        lc_norm(a + b) == lc_norm(a) + lc_norm(b),
    decreases a.len(),
{
    if a.len() == 0 {
        assert(a + b =~= b);
        assert(lc_norm(a) + lc_norm(b) =~= lc_norm(b));
    } else {
        lemma_lc_norm_append(a.skip(1), b);
        assert((a + b).skip(1) =~= a.skip(1) + b);
        if a[0].1 == 0 {
        } else {
            assert(seq![(a + b)[0]] + (lc_norm(a.skip(1)) + lc_norm(b)) =~= (seq![a[0]] + lc_norm(
                a.skip(1),
            )) + lc_norm(b));
        }
    }
}

/// Normalizing a sorted combination keeps it sorted and never grows it;
/// every surviving term is a term of the input with a non-zero coefficient.
pub proof fn lemma_lc_norm_props(lc: Seq<(nat, nat)>)
    requires
        lc_sorted(lc),
    ensures
        lc_sorted(lc_norm(lc)),
        lc_norm(lc).len() <= lc.len(),
        lc_norm(lc).len() > 0 && lc.len() > 0 ==> lc_norm(lc)[0].0 >= lc[0].0,
        forall|i: int| 0 <= i < lc_norm(lc).len() ==> (#[trigger] lc_norm(lc)[i]).1 != 0,
        forall|i: int|
            0 <= i < lc_norm(lc).len() ==> exists|j: int|
                0 <= j < lc.len() && #[trigger] lc_norm(lc)[i] == lc[j],
    decreases lc.len(),
{
    if lc.len() > 0 {
        let tl = lc.skip(1);
        assert(lc_sorted(tl)) by {
            assert(forall|i: int| 0 <= i < tl.len() ==> tl[i] == lc[i + 1]);
        }
        lemma_lc_norm_props(tl);
        assert forall|i: int| 0 <= i < lc_norm(tl).len() implies exists|j: int|
            0 <= j < lc.len() && #[trigger] lc_norm(tl)[i] == lc[j] by {
            let j0 = choose|j0: int| 0 <= j0 < tl.len() && lc_norm(tl)[i] == tl[j0];
            assert(lc_norm(tl)[i] == lc[j0 + 1]);
        }
        if lc[0].1 != 0 {
            let r = seq![lc[0]] + lc_norm(tl);
            assert forall|i: int, j: int| 0 <= i < j < r.len() implies r[i].0 < r[j].0 by {
                if i == 0 {
                    if lc_norm(tl)[j - 1].0 > lc_norm(tl)[0].0 || j - 1 == 0 {
                    }
                    assert(lc_norm(tl)[0].0 >= tl[0].0);
                    assert(tl[0] == lc[1]);
                }
            }
        }
    }
}

/// How many terms each part of a reduction holds: gates and additions come
/// in pairs, and the leftover list has exactly `max_c` entries unless the
/// input was already short enough.
pub proof fn lemma_reduce_counts(cs: Seq<(nat, nat)>, max_c: nat, nv: nat, m: nat)
    requires
        max_c >= 1,
    ensures
        reduce_spec(cs, max_c, nv, m).0.len() == reduce_spec(cs, max_c, nv, m).1.len(),
        reduce_spec(cs, max_c, nv, m).2.len() == if cs.len() <= max_c {
            cs.len()
        } else {
            max_c
        },
        reduce_spec(cs, max_c, nv, m).1.len() == cs.len() - reduce_spec(cs, max_c, nv, m).2.len(),
    decreases cs.len(),
{
    if cs.len() <= max_c || cs.len() < 2 {
    } else {
        lemma_reduce_counts(cs.skip(2).push((nv, 1)), max_c, nv + 1, m);
    }
}

/// Every value a reduction emits stays below the modulus, provided the
/// input coefficients do.
pub proof fn lemma_reduce_wf(cs: Seq<(nat, nat)>, max_c: nat, nv: nat, m: nat)
    requires
        max_c >= 1,
        m >= 2,
        forall|i: int| 0 <= i < cs.len() ==> (#[trigger] cs[i]).1 < m,
    ensures
        forall|i: int|
            0 <= i < reduce_spec(cs, max_c, nv, m).2.len() ==> (#[trigger] reduce_spec(
                cs,
                max_c,
                nv,
                m,
            ).2[i]).1 < m,
        forall|j: int|
            0 <= j < reduce_spec(cs, max_c, nv, m).1.len() ==> (#[trigger] reduce_spec(
                cs,
                max_c,
                nv,
                m,
            ).1[j]).v1 < m && reduce_spec(cs, max_c, nv, m).1[j].v2 < m,
    decreases cs.len(),
{
    if cs.len() <= max_c || cs.len() < 2 {
    } else {
        let next = cs.skip(2).push((nv, 1));
        assert(forall|i: int| 0 <= i < next.len() ==> (#[trigger] next[i]).1 < m) by {
            assert(forall|i: int|
                0 <= i < cs.skip(2).len() ==> #[trigger] cs.skip(2)[i] == cs[i + 2]);
        }
        lemma_reduce_wf(next, max_c, nv + 1, m);
        let r = reduce_spec(cs, max_c, nv, m);
        let rec = reduce_spec(next, max_c, nv + 1, m);
        assert forall|j: int| 0 <= j < r.1.len() implies (#[trigger] r.1[j]).v1 < m
            && r.1[j].v2 < m by {
            if j > 0 {
                assert(r.1[j] == rec.1[j - 1]);
            }
        }
    }
}

/// The j-th gate of a reduction is exactly the addition gate of the j-th
/// record, allocating wire nv + j: wires are handed out consecutively
/// starting from the wire counter.
pub proof fn lemma_reduce_gates(cs: Seq<(nat, nat)>, max_c: nat, nv: nat, m: nat)
    requires
        max_c >= 1,
    ensures
        forall|j: int|
            0 <= j < reduce_spec(cs, max_c, nv, m).1.len() ==> #[trigger] reduce_spec(
                cs,
                max_c,
                nv,
                m,
            ).0[j] == add_gate(reduce_spec(cs, max_c, nv, m).1[j], (nv + j) as nat, m),
    decreases cs.len(),
{
    lemma_reduce_counts(cs, max_c, nv, m);
    if cs.len() <= max_c || cs.len() < 2 {
    } else {
        let next = cs.skip(2).push((nv, 1));
        lemma_reduce_gates(next, max_c, nv + 1, m);
        lemma_reduce_counts(next, max_c, nv + 1, m);
        let r = reduce_spec(cs, max_c, nv, m);
        let rec = reduce_spec(next, max_c, nv + 1, m);
        assert forall|j: int| 0 <= j < r.1.len() implies #[trigger] r.0[j] == add_gate(
            r.1[j],
            (nv + j) as nat,
            m,
        ) by {
            if j > 0 {
                assert(r.0[j] == rec.0[j - 1]);
                assert(r.1[j] == rec.1[j - 1]);
            }
        }
    }
}

/// Copies a byte vector; spelled out so the copy's contents are known.
pub fn copy_bytes(src: &Vec<u8>) -> (r: Vec<u8>)
    ensures
        r@ == src@,
{
    let n = src.len();
    let mut out: Vec<u8> = Vec::new();
    let mut i: usize = 0;
    while i < n
        invariant
            i <= n,
            n == src@.len(),
            out@ =~= src@.subrange(0, i as int),
        decreases n - i,
    {
        out.push(src[i]);
        i = i + 1;
    }
    proof {
        assert(out@ =~= src@);
    }
    out
}

/// Copies one term.
pub fn copy_term(t: &LcTerm) -> (r: LcTerm)
    ensures
        r.wire == t.wire,
        r.coeff@ == t.coeff@,
{
    LcTerm { wire: t.wire, coeff: copy_bytes(&t.coeff) }
}

/// Drops zero-coefficient terms, keeping the order: the executable
/// counterpart of `lc_norm`.
pub fn normalize_lc(lc: &mut Vec<LcTerm>)
    ensures
        lc_model(final(lc)@) == lc_norm(lc_model(old(lc)@)),
        forall|i: int|
            0 <= i < final(lc)@.len() ==> exists|j: int|
                0 <= j < old(lc)@.len() && (#[trigger] final(lc)@[i]).coeff@ == old(lc)@[j].coeff@,
{
    let n = lc.len();
    let mut out: Vec<LcTerm> = Vec::new();
    let mut i: usize = 0;
    while i < n
        invariant
            i <= n,
            n == lc@.len(),
            lc_model(out@) =~= lc_norm(lc_model(lc@.take(i as int))),
            forall|p: int|
                0 <= p < out@.len() ==> exists|j: int|
                    0 <= j < lc@.len() && (#[trigger] out@[p]).coeff@ == lc@[j].coeff@,
        decreases n - i,
    {
        let ghost pre = lc_model(lc@.take(i as int));
        let ghost one = lc_model(seq![lc@[i as int]]);
        let ghost out_pre = lc_model(out@);
        proof {
            lemma_lc_norm_append(pre, one);
            assert(lc_model(lc@.take(i + 1)) =~= pre + one);
            assert(one.len() == 1 && one[0] == ((lc@[i as int].wire as nat), le_val(
                lc@[i as int].coeff@,
            )));
            assert(one.skip(1) =~= Seq::<(nat, nat)>::empty());
            assert(lc_norm(one.skip(1)) == Seq::<(nat, nat)>::empty());
        }
        let zero = crate::field::is_zero_bytes(&lc[i].coeff);
        if !zero {
            let t = copy_term(&lc[i]);
            out.push(t);
            proof {
                assert(lc_norm(one) =~= one);
                assert(lc_model(out@) =~= out_pre + one);
                assert(lc_model(out@) =~= lc_norm(lc_model(lc@.take(i + 1))));
            }
        } else {
            proof {
                assert(lc_norm(one) =~= Seq::<(nat, nat)>::empty());
                assert(lc_model(out@) =~= lc_norm(lc_model(lc@.take(i + 1))));
            }
        }
        i = i + 1;
    }
    proof {
        assert(lc@.take(n as int) =~= lc@);
    }
    *lc = out;
}

/// Normalizes a combination in place and returns its classification tag:
/// the executable counterpart of `lc_tag_spec` after `lc_norm`.
pub fn get_lc_type(lc: &mut Vec<LcTerm>) -> (t: LcTag)
    requires
        lc_sorted(lc_model(old(lc)@)),
    ensures
        lc_model(final(lc)@) == lc_norm(lc_model(old(lc)@)),
        forall|i: int|
            0 <= i < final(lc)@.len() ==> exists|j: int|
                0 <= j < old(lc)@.len() && (#[trigger] final(lc)@[i]).coeff@ == old(lc)@[j].coeff@,
        t == lc_tag_spec(lc_model(final(lc)@)),
        lc_sorted(lc_model(final(lc)@)),
{
    proof {
        lemma_lc_norm_props(lc_model(lc@));
    }
    normalize_lc(lc);
    let ghost model = lc_model(lc@);
    if lc.len() == 0 {
        LcTag::Zero
    } else if lc[0].wire == 0 {
        proof {
            assert(model[0].0 == 0);
            assert(model[0].1 != 0);
            assert(lc_nonconst(model) =~= model.skip(1));
        }
        if lc.len() == 1 {
            LcTag::Constant
        } else {
            LcTag::Many(lc.len() - 1)
        }
    } else {
        proof {
            assert(model[0].0 != 0);
            assert(lc_nonconst(model) =~= model);
        }
        LcTag::Many(lc.len())
    }
}

/// Inserting into a sorted combination keeps it sorted; every term of the
/// result is a term of the input or the inserted pair.
pub proof fn lemma_lc_insert_props(lc: Seq<(nat, nat)>, w: nat, v: nat)
    requires
        lc_sorted(lc),
    ensures
        lc_sorted(lc_insert(lc, w, v)),
        lc_insert(lc, w, v).len() <= lc.len() + 1,
        lc_insert(lc, w, v).len() >= 1,
        lc_insert(lc, w, v)[0].0 == if lc.len() > 0 && lc[0].0 < w {
            lc[0].0
        } else {
            w
        },
        forall|i: int|
            0 <= i < lc_insert(lc, w, v).len() ==> (#[trigger] lc_insert(lc, w, v)[i]) == (w, v)
                || exists|j: int| 0 <= j < lc.len() && lc_insert(lc, w, v)[i] == lc[j],
    decreases lc.len(),
{
    if lc.len() == 0 {
    } else if w < lc[0].0 {
    } else if w == lc[0].0 {
        assert(forall|i: int| 0 <= i < lc.skip(1).len() ==> lc.skip(1)[i] == lc[i + 1]);
    } else {
        let tl = lc.skip(1);
        assert(lc_sorted(tl)) by {
            assert(forall|i: int| 0 <= i < tl.len() ==> tl[i] == lc[i + 1]);
        }
        lemma_lc_insert_props(tl, w, v);
        let r = seq![lc[0]] + lc_insert(tl, w, v);
        assert forall|i: int, j: int| 0 <= i < j < r.len() implies r[i].0 < r[j].0 by {
            if i == 0 {
                if lc_insert(tl, w, v)[j - 1].0 > lc_insert(tl, w, v)[0].0 || j - 1 == 0 {
                }
                if tl.len() > 0 && tl[0].0 < w {
                    assert(tl[0] == lc[1]);
                }
            }
        }
        assert forall|i: int|
            0 <= i < r.len() implies (#[trigger] r[i]) == (w, v) || exists|j: int|
                0 <= j < lc.len() && r[i] == lc[j] by {
            if i > 0 {
                if r[i] == (w, v) {
                } else if exists|j: int| 0 <= j < tl.len() && lc_insert(tl, w, v)[i - 1] == tl[j] {
                    let j0 = choose|j0: int|
                        0 <= j0 < tl.len() && lc_insert(tl, w, v)[i - 1] == tl[j0];
                    assert(r[i] == lc[j0 + 1]);
                }
            }
        }
    }
}

/// Where the linear scan stops is where `lc_insert` places the new term.
pub proof fn lemma_lc_insert_at(lc: Seq<(nat, nat)>, w: nat, v: nat, j: int)
    requires
        lc_sorted(lc),
        0 <= j <= lc.len(),
        forall|i: int| 0 <= i < j ==> (#[trigger] lc[i]).0 < w,
        j < lc.len() ==> lc[j].0 >= w,
    ensures
        lc_insert(lc, w, v) == if j < lc.len() && lc[j].0 == w {
            lc.take(j) + seq![(w, v)] + lc.skip(j + 1)
        } else {
            lc.take(j) + seq![(w, v)] + lc.skip(j)
        },
    decreases lc.len(),
{
    if lc.len() == 0 {
        assert(lc_insert(lc, w, v) =~= lc.take(0) + seq![(w, v)] + lc.skip(0));
    } else if w < lc[0].0 {
        assert(j == 0);
        assert(lc_insert(lc, w, v) =~= lc.take(0) + seq![(w, v)] + lc.skip(0));
    } else if w == lc[0].0 {
        assert(j == 0);
        assert(lc_insert(lc, w, v) =~= lc.take(0) + seq![(w, v)] + lc.skip(1));
    } else {
        assert(j >= 1);
        let tl = lc.skip(1);
        assert(lc_sorted(tl)) by {
            assert(forall|i: int| 0 <= i < tl.len() ==> tl[i] == lc[i + 1]);
        }
        assert(forall|i: int| 0 <= i < j - 1 ==> (#[trigger] tl[i]).0 < w) by {
            assert(forall|i: int| 0 <= i < tl.len() ==> tl[i] == lc[i + 1]);
        }
        assert(j - 1 < tl.len() ==> tl[j - 1].0 >= w);
        lemma_lc_insert_at(tl, w, v, j - 1);
        if j < lc.len() && lc[j].0 == w {
            assert(tl[j - 1] == lc[j]);
            assert(seq![lc[0]] + (tl.take(j - 1) + seq![(w, v)] + tl.skip(j)) =~= lc.take(j)
                + seq![(w, v)] + lc.skip(j + 1));
        } else {
            assert(seq![lc[0]] + (tl.take(j - 1) + seq![(w, v)] + tl.skip(j - 1)) =~= lc.take(j)
                + seq![(w, v)] + lc.skip(j));
        }
    }
}

/// Builds the sorted, reduced combination from raw on-disk terms: the
/// executable counterpart of `conv_spec`.
pub fn convert_lc(raw: &Vec<LcTerm>, m: &Vec<u8>) -> (r: Vec<LcTerm>)
    requires
        le_val(m@) > 0,
    ensures
        lc_model(r@) == conv_spec(raw@, le_val(m@)),
        lc_exec_wf(r@, m@),
        r@.len() <= raw@.len(),
{
    let ghost mv = le_val(m@);
    let n = raw.len();
    let mut out: Vec<LcTerm> = Vec::new();
    let mut i: usize = 0;
    while i < n
        invariant
            i <= n,
            n == raw@.len(),
            le_val(m@) == mv && mv > 0,
            lc_model(out@) =~= conv_spec(raw@.take(i as int), mv),
            lc_exec_wf(out@, m@),
            out@.len() <= i,
        decreases n - i,
    {
        let w = raw[i].wire;
        let c = crate::bigint::big_rem(&raw[i].coeff, m);
        let ghost pre = lc_model(out@);
        proof {
            assert(raw@.take(i + 1).drop_last() =~= raw@.take(i as int));
            assert(raw@.take(i + 1).last() == raw@[i as int]);
            lemma_lc_insert_props(pre, w as nat, le_val(c@));
        }
        // find the insertion point
        let mut j: usize = 0;
        while j < out.len() && out[j].wire < w
            invariant
                0 <= j <= out@.len(),
                forall|p: int| 0 <= p < j ==> (#[trigger] lc_model(out@)[p]).0 < w as nat,
                lc_model(out@) == pre,
            decreases out@.len() - j,
        {
            j = j + 1;
        }
        proof {
            lemma_lc_insert_at(pre, w as nat, le_val(c@), j as int);
        }
        if j < out.len() && out[j].wire == w {
            out.set(j, LcTerm { wire: w, coeff: c });
            proof {
                assert(lc_model(out@) =~= pre.take(j as int) + seq![(w as nat, le_val(c@))]
                    + pre.skip(j + 1));
            }
        } else {
            out.insert(j, LcTerm { wire: w, coeff: c });
            proof {
                assert(lc_model(out@) =~= pre.take(j as int) + seq![(w as nat, le_val(c@))]
                    + pre.skip(j as int));
            }
        }
        proof {
            assert(lc_model(out@) =~= conv_spec(raw@.take(i + 1), mv));
            assert(lc_sorted(lc_model(out@)));
        }
        i = i + 1;
    }
    proof {
        assert(raw@.take(n as int) =~= raw@);
    }
    out
}

/// Merging keeps the sort order and stays within the modulus; the head wire
/// comes from one of the two heads.
pub proof fn lemma_merge_props(l1: Seq<(nat, nat)>, l2: Seq<(nat, nat)>, k: nat, m: nat)
    requires
        m >= 1,
        lc_sorted(l1),
        lc_sorted(l2),
        forall|i: int| 0 <= i < l2.len() ==> (#[trigger] l2[i]).1 < m,
    ensures
        lc_sorted(merge_scaled(l1, l2, k, m)),
        merge_scaled(l1, l2, k, m).len() <= l1.len() + l2.len(),
        forall|i: int|
            0 <= i < merge_scaled(l1, l2, k, m).len() ==> (#[trigger] merge_scaled(
                l1,
                l2,
                k,
                m,
            )[i]).1 < m,
        merge_scaled(l1, l2, k, m).len() > 0 ==> ((l1.len() > 0 && merge_scaled(l1, l2, k, m)[0].0
            >= l1[0].0) || (l2.len() > 0 && merge_scaled(l1, l2, k, m)[0].0 >= l2[0].0)),
    decreases l1.len() + l2.len(),
{
    let r = merge_scaled(l1, l2, k, m);
    if l1.len() == 0 {
    } else {
        let t1 = l1.skip(1);
        assert(lc_sorted(t1)) by {
            assert(forall|i: int| 0 <= i < t1.len() ==> t1[i] == l1[i + 1]);
        }
        if l2.len() == 0 || l1[0].0 < l2[0].0 {
            lemma_merge_props(t1, l2, k, m);
            let rec = merge_scaled(t1, l2, k, m);
            assert forall|i: int, j: int| 0 <= i < j < r.len() implies r[i].0 < r[j].0 by {
                if i == 0 {
                    if rec[j - 1].0 > rec[0].0 || j - 1 == 0 {
                    }
                    if t1.len() > 0 {
                        assert(t1[0] == l1[1]);
                    }
                }
            }
        } else {
            let t2 = l2.skip(1);
            assert(lc_sorted(t2)) by {
                assert(forall|i: int| 0 <= i < t2.len() ==> t2[i] == l2[i + 1]);
            }
            assert(forall|i: int| 0 <= i < t2.len() ==> (#[trigger] t2[i]).1 < m) by {
                assert(forall|i: int| 0 <= i < t2.len() ==> t2[i] == l2[i + 1]);
            }
            if l1[0].0 > l2[0].0 {
                lemma_merge_props(l1, t2, k, m);
                let rec = merge_scaled(l1, t2, k, m);
                assert forall|i: int, j: int| 0 <= i < j < r.len() implies r[i].0 < r[j].0 by {
                    if i == 0 {
                        if rec[j - 1].0 > rec[0].0 || j - 1 == 0 {
                        }
                        if t2.len() > 0 {
                            assert(t2[0] == l2[1]);
                        }
                    }
                }
            } else {
                lemma_merge_props(t1, t2, k, m);
                let rec = merge_scaled(t1, t2, k, m);
                assert forall|i: int, j: int| 0 <= i < j < r.len() implies r[i].0 < r[j].0 by {
                    if i == 0 {
                        if rec[j - 1].0 > rec[0].0 || j - 1 == 0 {
                        }
                        if t1.len() > 0 {
                            assert(t1[0] == l1[1]);
                        }
                        if t2.len() > 0 {
                            assert(t2[0] == l2[1]);
                        }
                    }
                }
            }
        }
    }
}

/// join(l1, k, l2) = k*l1 + l2, normalized: the executable counterpart of
/// `join_spec`, merging two sorted combinations.
pub fn join_lc(l1: &Vec<LcTerm>, k: &Vec<u8>, l2: &Vec<LcTerm>, m: &Vec<u8>) -> (r: Vec<LcTerm>)
    requires
        le_val(m@) > 0,
        lc_sorted(lc_model(l1@)),
        lc_exec_wf(l2@, m@),
        forall|i: int| 0 <= i < l1@.len() ==> (#[trigger] l1@[i]).coeff@.len() == m@.len(),
    ensures
        lc_model(r@) == join_spec(lc_model(l1@), le_val(k@), lc_model(l2@), le_val(m@)),
        lc_exec_wf(r@, m@),
        r@.len() <= l1@.len() + l2@.len(),
{
    let ghost mv = le_val(m@);
    let ghost s1 = lc_model(l1@);
    let ghost s2 = lc_model(l2@);
    let n1 = l1.len();
    let n2 = l2.len();
    let mut out: Vec<LcTerm> = Vec::new();
    let mut i: usize = 0;
    let mut j: usize = 0;
    proof {
        lemma_merge_props(s1, s2, le_val(k@), mv);
        assert(s1.skip(0) =~= s1);
        assert(s2.skip(0) =~= s2);
        assert(lc_model(out@) =~= Seq::<(nat, nat)>::empty());
    }
    while i < n1 || j < n2
        invariant
            i <= n1 && j <= n2,
            n1 == l1@.len() && n2 == l2@.len(),
            le_val(m@) == mv && mv > 0,
            s1 == lc_model(l1@) && s2 == lc_model(l2@),
            lc_sorted(s1),
            lc_exec_wf(l2@, m@),
            forall|p: int| 0 <= p < l1@.len() ==> (#[trigger] l1@[p]).coeff@.len() == m@.len(),
            merge_scaled(s1, s2, le_val(k@), mv) =~= lc_model(out@) + merge_scaled(
                s1.skip(i as int),
                s2.skip(j as int),
                le_val(k@),
                mv,
            ),
            out@.len() <= i + j,
            forall|p: int| 0 <= p < out@.len() ==> (#[trigger] out@[p]).coeff@.len() == m@.len(),
        decreases (n1 - i) + (n2 - j),
    {
        let ghost r1 = s1.skip(i as int);
        let ghost r2 = s2.skip(j as int);
        let ghost pre = lc_model(out@);
        proof {
            if i < n1 {
                assert(r1.len() > 0 && r1[0] == s1[i as int]);
                assert(r1.skip(1) =~= s1.skip(i + 1));
            }
            if j < n2 {
                assert(r2.len() > 0 && r2[0] == s2[j as int]);
                assert(r2.skip(1) =~= s2.skip(j + 1));
            }
        }
        if j >= n2 || (i < n1 && l1[i].wire < l2[j].wire) {
            let c = crate::bigint::big_mul_mod(k, &l1[i].coeff, m);
            out.push(LcTerm { wire: l1[i].wire, coeff: c });
            proof {
                assert(lc_model(out@) =~= pre + seq![(s1[i as int].0, (le_val(k@) * s1[i as int].1)
                    % (mv as int) as nat)]);
            }
            i = i + 1;
        } else if i >= n1 || l1[i].wire > l2[j].wire {
            let t = copy_term(&l2[j]);
            out.push(t);
            proof {
                assert(lc_model(out@) =~= pre + seq![(s2[j as int].0, s2[j as int].1)]);
                assert((s2[j as int].0, s2[j as int].1) == s2[j as int]);
            }
            j = j + 1;
        } else {
            let p = crate::bigint::big_mul_mod(k, &l1[i].coeff, m);
            let c = crate::bigint::big_add_mod(&p, &l2[j].coeff, m);
            proof {
                vstd::arithmetic::div_mod::lemma_add_mod_noop(
                    (le_val(k@) * s1[i as int].1) as int,
                    s2[j as int].1 as int,
                    mv as int,
                );
                vstd::arithmetic::div_mod::lemma_small_mod(s2[j as int].1, mv);
            }
            out.push(LcTerm { wire: l1[i].wire, coeff: c });
            proof {
                assert(lc_model(out@) =~= pre + seq![(s1[i as int].0, ((le_val(k@)
                    * s1[i as int].1 + s2[j as int].1) as int % (mv as int)) as nat)]);
            }
            i = i + 1;
            j = j + 1;
        }
    }
    proof {
        assert(s1.skip(n1 as int) =~= Seq::<(nat, nat)>::empty());
        assert(s2.skip(n2 as int) =~= Seq::<(nat, nat)>::empty());
        assert(lc_model(out@) =~= merge_scaled(s1, s2, le_val(k@), mv));
        lemma_lc_norm_props(lc_model(out@));
    }
    let mut res = out;
    normalize_lc(&mut res);
    proof {
        assert(forall|p: int|
            0 <= p < res@.len() ==> (#[trigger] res@[p]).coeff@.len() == m@.len());
        assert forall|p: int|
            0 <= p < lc_model(res@).len() implies (#[trigger] lc_model(res@)[p]).1 < mv by {
            let q = choose|q: int|
                0 <= q < merge_scaled(s1, s2, le_val(k@), mv).len() && lc_model(res@)[p]
                    == merge_scaled(s1, s2, le_val(k@), mv)[q];
        }
    }
    res
}

/// The lowerer state: the scalar modulus, the next free wire index and the
/// two append-only output lists.
pub struct Lowerer {
    pub m: Vec<u8>,
    pub plonk_n_vars: u32,
    pub plonk_constraints: Vec<Gate>,
    pub plonk_additions: Vec<PlonkAddition>,
}

impl Lowerer {
    /// The modulus is a genuine modulus and every emitted value is a
    /// well-formed scalar of it.
    pub open spec fn wf(self) -> bool {
        &&& le_val(self.m@) >= 2
        &&& self.m@.len() >= 8
        &&& forall|i: int|
            0 <= i < self.plonk_constraints@.len() ==> (#[trigger] self.plonk_constraints@[i]).wf(
                self.m@,
            )
        &&& forall|i: int|
            0 <= i < self.plonk_additions@.len() ==> (#[trigger] self.plonk_additions@[i]).wf(
                self.m@,
            )
    }

    pub open spec fn gates_model(self) -> Seq<GateModel> {
        self.plonk_constraints@.map(|i: int, g: Gate| g.model())
    }

    pub open spec fn adds_model(self) -> Seq<AddModel> {
        self.plonk_additions@.map(|i: int, a: PlonkAddition| a.model())
    }

    /// The wire-allocation primitive: splits `lc` into its constant part and
    /// the non-constant terms, merges leading pairs into fresh wires while
    /// more than `max_c` terms remain, and returns the constant together
    /// with exactly `max_c` wires and coefficients, padded with inert zero
    /// entries.
    fn reduce_coefs(&mut self, lc: &Vec<LcTerm>, max_c: usize) -> (r: (Vec<u8>, Vec<u32>, Vec<
        Vec<u8>,
    >))
        requires
            old(self).wf(),
            1 <= max_c,
            lc_exec_wf(lc@, old(self).m@),
            old(self).plonk_n_vars + lc@.len() <= u32::MAX,
        ensures
            ({
                let red = reduce_spec(
                    lc_nonconst(lc_model(lc@)),
                    max_c as nat,
                    old(self).plonk_n_vars as nat,
                    le_val(old(self).m@),
                );
                &&& final(self).m@ == old(self).m@
                &&& final(self).wf()
                &&& final(self).gates_model() == old(self).gates_model() + red.0
                &&& final(self).adds_model() == old(self).adds_model() + red.1
                &&& final(self).plonk_n_vars == old(self).plonk_n_vars + red.1.len()
                &&& le_val(r.0@) == lc_const(lc_model(lc@))
                &&& r.0@.len() == old(self).m@.len()
                &&& le_val(r.0@) < le_val(old(self).m@)
                &&& r.1@.len() == max_c
                &&& r.2@.len() == max_c
                &&& forall|i: int|
                    0 <= i < max_c ==> ((#[trigger] r.1@[i]) as nat) == pad_cs(
                        red.2,
                        max_c as nat,
                    )[i].0
                &&& forall|i: int|
                    0 <= i < max_c ==> le_val((#[trigger] r.2@[i])@) == pad_cs(
                        red.2,
                        max_c as nat,
                    )[i].1
                &&& forall|i: int|
                    0 <= i < max_c ==> (#[trigger] r.2@[i])@.len() == old(self).m@.len()
                &&& forall|i: int|
                    0 <= i < max_c ==> le_val((#[trigger] r.2@[i])@) < le_val(old(self).m@)
            }),
    {
        let ghost m0 = self.m@;
        let ghost mv = le_val(self.m@);
        let ghost nv0 = self.plonk_n_vars as nat;
        let ghost gates0 = self.gates_model();
        let ghost adds0 = self.adds_model();
        let mlen = self.m.len();

        // Split off the constant part: the wire-0 term can only sit first.
        let k: Vec<u8>;
        let mut start: usize = 0;
        if lc.len() > 0 && lc[0].wire == 0 {
            k = copy_bytes(&lc[0].coeff);
            start = 1;
        } else {
            k = crate::field::zero_bytes(mlen);
        }
        let n = lc.len();
        let mut cs: Vec<LcTerm> = Vec::new();
        let mut i: usize = start;
        while i < n
            invariant
                start <= i <= n,
                n == lc@.len(),
                lc_exec_wf(lc@, m0),
                mlen == m0.len(),
                lc_model(cs@) =~= lc_model(lc@).subrange(start as int, i as int),
                forall|p: int| 0 <= p < cs@.len() ==> (#[trigger] cs@[p]).coeff@.len() == mlen,
            decreases n - i,
        {
            let ghost pre = lc_model(cs@);
            let t = copy_term(&lc[i]);
            cs.push(t);
            proof {
                assert(lc_model(cs@) =~= pre + seq![lc_model(lc@)[i as int]]);
                assert(lc_model(cs@) =~= lc_model(lc@).subrange(start as int, i + 1));
            }
            i = i + 1;
        }
        let ghost cs0 = lc_model(cs@);
        proof {
            assert(cs0 =~= lc_nonconst(lc_model(lc@)));
        }
        let ghost orig = reduce_spec(cs0, max_c as nat, nv0, mv);
        proof {
            assert forall|p: int| 0 <= p < cs@.len() implies le_val(
                (#[trigger] cs@[p]).coeff@,
            ) < mv by {
                assert(lc_model(cs@)[p] == lc_model(lc@)[start + p]);
                assert(lc_model(cs@)[p].1 == le_val(cs@[p].coeff@));
            }
        }

        while cs.len() > max_c
            invariant
                self.m@ == m0,
                le_val(m0) == mv && mv >= 2 && m0.len() >= 8 && mlen == m0.len(),
                self.wf(),
                max_c >= 1,
                forall|p: int| 0 <= p < cs@.len() ==> (#[trigger] cs@[p]).coeff@.len() == mlen,
                forall|p: int| 0 <= p < cs@.len() ==> le_val((#[trigger] cs@[p]).coeff@) < mv,
                orig == reduce_spec(cs0, max_c as nat, nv0, mv),
                gates0 + orig.0 =~= self.gates_model() + reduce_spec(
                    lc_model(cs@),
                    max_c as nat,
                    self.plonk_n_vars as nat,
                    mv,
                ).0,
                adds0 + orig.1 =~= self.adds_model() + reduce_spec(
                    lc_model(cs@),
                    max_c as nat,
                    self.plonk_n_vars as nat,
                    mv,
                ).1,
                orig.2 =~= reduce_spec(
                    lc_model(cs@),
                    max_c as nat,
                    self.plonk_n_vars as nat,
                    mv,
                ).2,
                self.plonk_n_vars + cs@.len() == nv0 + cs0.len(),
                nv0 + cs0.len() <= u32::MAX,
            decreases cs@.len(),
        {
            let ghost csm = lc_model(cs@);
            let ghost nvh = self.plonk_n_vars as nat;
            let ghost now = reduce_spec(csm, max_c as nat, nvh, mv);
            let c1 = cs.remove(0);
            let c2 = cs.remove(0);
            let so = self.plonk_n_vars;
            self.plonk_n_vars = so + 1;
            let zero_m = crate::field::zero_bytes(mlen);
            let zero_c = crate::field::zero_bytes(mlen);
            let one = crate::field::u64_to_fr(1, &self.m);
            let ql = crate::bigint::big_sub_mod(&zero_m, &c1.coeff, &self.m);
            let qr = crate::bigint::big_sub_mod(&zero_m, &c2.coeff, &self.m);
            proof {
                vstd::arithmetic::div_mod::lemma_small_mod(le_val(c1.coeff@), mv);
                vstd::arithmetic::div_mod::lemma_small_mod(le_val(c2.coeff@), mv);
                vstd::arithmetic::div_mod::lemma_small_mod(1nat, mv);
                vstd::arithmetic::div_mod::lemma_small_mod(0nat, mv);
            }
            let ghost gates_pre = self.gates_model();
            let ghost adds_pre = self.adds_model();
            let g = Gate {
                sl: c1.wire,
                sr: c2.wire,
                so: so,
                qm: zero_m,
                ql: ql,
                qr: qr,
                qo: one,
                qc: zero_c,
            };
            self.plonk_constraints.push(g);
            self.plonk_additions.push(
                PlonkAddition { a: c1.wire, b: c2.wire, v1: c1.coeff, v2: c2.coeff },
            );
            let one2 = crate::field::u64_to_fr(1, &self.m);
            cs.push(LcTerm { wire: so, coeff: one2 });
            proof {
                let gm = GateModel {
                    sl: csm[0].0,
                    sr: csm[1].0,
                    so: nvh,
                    qm: 0,
                    ql: neg_mod(csm[0].1, mv),
                    qr: neg_mod(csm[1].1, mv),
                    qo: 1,
                    qc: 0,
                };
                let am = AddModel { a: csm[0].0, b: csm[1].0, v1: csm[0].1, v2: csm[1].1 };
                assert(self.gates_model() =~= gates_pre.push(gm));
                assert(self.adds_model() =~= adds_pre.push(am));
                assert(lc_model(cs@) =~= csm.skip(2).push((nvh, 1)));
                let rec = reduce_spec(
                    lc_model(cs@),
                    max_c as nat,
                    self.plonk_n_vars as nat,
                    mv,
                );
                assert(now.0 =~= seq![gm] + rec.0);
                assert(now.1 =~= seq![am] + rec.1);
                assert(gates0 + orig.0 =~= self.gates_model() + rec.0);
                assert(adds0 + orig.1 =~= self.adds_model() + rec.1);
            }
        }
        proof {
            let now = reduce_spec(lc_model(cs@), max_c as nat, self.plonk_n_vars as nat, mv);
            assert(now.0 =~= Seq::<GateModel>::empty());
            assert(now.1 =~= Seq::<AddModel>::empty());
            assert(self.gates_model() =~= gates0 + orig.0);
            assert(self.adds_model() =~= adds0 + orig.1);
            assert(orig.2 =~= lc_model(cs@));
            lemma_reduce_counts(cs0, max_c as nat, nv0, mv);
        }

        // Right-pad to exactly max_c entries.
        let ghost rest = lc_model(cs@);
        let cn = cs.len();
        let mut s: Vec<u32> = Vec::new();
        let mut coefs: Vec<Vec<u8>> = Vec::new();
        let mut p: usize = 0;
        while p < cn
            invariant
                p <= cn,
                cn == cs@.len(),
                rest == lc_model(cs@),
                mlen == m0.len(),
                le_val(m0) == mv && mv >= 2,
                forall|q: int| 0 <= q < cs@.len() ==> (#[trigger] cs@[q]).coeff@.len() == mlen,
                forall|q: int| 0 <= q < cs@.len() ==> le_val((#[trigger] cs@[q]).coeff@) < mv,
                s@.len() == p && coefs@.len() == p,
                forall|q: int| 0 <= q < p ==> ((#[trigger] s@[q]) as nat) == rest[q].0,
                forall|q: int| 0 <= q < p ==> le_val((#[trigger] coefs@[q])@) == rest[q].1,
                forall|q: int| 0 <= q < p ==> (#[trigger] coefs@[q])@.len() == mlen,
            decreases cn - p,
        {
            s.push(cs[p].wire);
            let cb = copy_bytes(&cs[p].coeff);
            coefs.push(cb);
            p = p + 1;
        }
        while s.len() < max_c
            invariant
                cn <= s@.len() <= max_c,
                cn == cs@.len(),
                rest == lc_model(cs@) && rest.len() == cn,
                mlen == m0.len(),
                le_val(m0) == mv && mv >= 2,
                coefs@.len() == s@.len(),
                forall|q: int|
                    0 <= q < s@.len() ==> ((#[trigger] s@[q]) as nat) == pad_cs(
                        rest,
                        max_c as nat,
                    )[q].0,
                forall|q: int|
                    0 <= q < s@.len() ==> le_val((#[trigger] coefs@[q])@) == pad_cs(
                        rest,
                        max_c as nat,
                    )[q].1,
                forall|q: int| 0 <= q < s@.len() ==> (#[trigger] coefs@[q])@.len() == mlen,
            decreases max_c - s@.len(),
        {
            s.push(0);
            let zb = crate::field::zero_bytes(mlen);
            coefs.push(zb);
        }
        proof {
            assert(forall|q: int|
                0 <= q < cn ==> pad_cs(rest, max_c as nat)[q] == (#[trigger] rest[q]));
        }
        (k, s, coefs)
    }
}

/// Normalization never grows a combination.
pub proof fn lemma_lc_norm_len(lc: Seq<(nat, nat)>)
    ensures
        lc_norm(lc).len() <= lc.len(),
    decreases lc.len(),
{
    if lc.len() > 0 {
        lemma_lc_norm_len(lc.skip(1));
    }
}

/// Normalization keeps every coefficient below any bound the input obeys.
pub proof fn lemma_lc_norm_vals(lc: Seq<(nat, nat)>, m: nat)
    requires
        forall|i: int| 0 <= i < lc.len() ==> (#[trigger] lc[i]).1 < m,
    ensures
        forall|i: int| 0 <= i < lc_norm(lc).len() ==> (#[trigger] lc_norm(lc)[i]).1 < m,
    decreases lc.len(),
{
    if lc.len() > 0 {
        let tl = lc.skip(1);
        assert(forall|i: int| 0 <= i < tl.len() ==> (#[trigger] tl[i]).1 < m) by {
            assert(forall|i: int| 0 <= i < tl.len() ==> tl[i] == lc[i + 1]);
        }
        lemma_lc_norm_vals(tl, m);
        if lc[0].1 != 0 {
            let r = seq![lc[0]] + lc_norm(tl);
            assert forall|i: int| 0 <= i < r.len() implies (#[trigger] r[i]).1 < m by {
                if i > 0 {
                    assert(r[i] == lc_norm(tl)[i - 1]);
                }
            }
        }
    }
}

/// A sum constraint allocates at most one wire per term and moves the wire
/// counter by exactly its addition count.
pub proof fn lemma_sum_counts(lc: Seq<(nat, nat)>, nv: nat, m: nat)
    ensures
        sum_gate_spec(lc, nv, m).1.len() <= lc.len(),
        sum_gate_spec(lc, nv, m).2 == nv + sum_gate_spec(lc, nv, m).1.len(),
{
    lemma_reduce_counts(lc_nonconst(lc), 3, nv, m);
}

/// A multiplication constraint allocates at most one wire per term of its
/// three sides.
pub proof fn lemma_mul_counts(
    a: Seq<(nat, nat)>,
    b: Seq<(nat, nat)>,
    c: Seq<(nat, nat)>,
    nv: nat,
    m: nat,
)
    ensures
        mul_gate_spec(a, b, c, nv, m).1.len() <= a.len() + b.len() + c.len(),
        mul_gate_spec(a, b, c, nv, m).2 == nv + mul_gate_spec(a, b, c, nv, m).1.len(),
{
    let ra = reduce_spec(lc_nonconst(a), 1, nv, m);
    lemma_reduce_counts(lc_nonconst(a), 1, nv, m);
    let rb = reduce_spec(lc_nonconst(b), 1, nv + ra.1.len(), m);
    lemma_reduce_counts(lc_nonconst(b), 1, nv + ra.1.len(), m);
    lemma_reduce_counts(lc_nonconst(c), 1, nv + ra.1.len() + rb.1.len(), m);
}

/// Lowering one constraint allocates at most one wire per input term and
/// moves the wire counter by exactly its addition count.
pub proof fn lemma_process_counts(
    a: Seq<(nat, nat)>,
    b: Seq<(nat, nat)>,
    c: Seq<(nat, nat)>,
    nv: nat,
    m: nat,
)
    requires
        m >= 1,
        lc_wf(a, m),
        lc_wf(b, m),
        lc_wf(c, m),
    ensures
        process_spec(a, b, c, nv, m).1.len() <= a.len() + b.len() + c.len(),
        process_spec(a, b, c, nv, m).2 == nv + process_spec(a, b, c, nv, m).1.len(),
{
    let a1 = lc_norm(a);
    let b1 = lc_norm(b);
    lemma_lc_norm_len(a);
    lemma_lc_norm_len(b);
    lemma_lc_norm_len(c);
    let ta = lc_tag_spec(a1);
    let tb = lc_tag_spec(b1);
    lemma_lc_norm_props(a);
    lemma_lc_norm_props(b);
    if ta == LcTag::Zero || tb == LcTag::Zero {
        lemma_sum_counts(lc_norm(c), nv, m);
    } else if ta == LcTag::Constant {
        lemma_merge_props(b1, c, lc_const(a1), m);
        lemma_lc_norm_len(merge_scaled(b1, c, lc_const(a1), m));
        lemma_sum_counts(join_spec(b1, lc_const(a1), c, m), nv, m);
    } else if tb == LcTag::Constant {
        lemma_merge_props(a1, c, lc_const(b1), m);
        lemma_lc_norm_len(merge_scaled(a1, c, lc_const(b1), m));
        lemma_sum_counts(join_spec(a1, lc_const(b1), c, m), nv, m);
    } else {
        lemma_mul_counts(a1, b1, c, nv, m);
    }
}

impl Lowerer {
    /// Lowers one sum constraint <lc, w> = 0: reduces the fan-in to 3 and
    /// emits the final sum gate.
    fn add_constraint_sum(&mut self, lc: &Vec<LcTerm>)
        requires
            old(self).wf(),
            lc_exec_wf(lc@, old(self).m@),
            old(self).plonk_n_vars + lc@.len() <= u32::MAX,
        ensures
            ({
                let one = sum_gate_spec(
                    lc_model(lc@),
                    old(self).plonk_n_vars as nat,
                    le_val(old(self).m@),
                );
                &&& final(self).m@ == old(self).m@
                &&& final(self).wf()
                &&& final(self).gates_model() == old(self).gates_model() + one.0
                &&& final(self).adds_model() == old(self).adds_model() + one.1
                &&& final(self).plonk_n_vars == one.2
            }),
    {
        let ghost mv = le_val(self.m@);
        let ghost nv0 = self.plonk_n_vars as nat;
        let ghost model = lc_model(lc@);
        proof {
            lemma_reduce_counts(lc_nonconst(model), 3, nv0, mv);
        }
        let r = self.reduce_coefs(lc, 3);
        let (k, s, mut coefs) = r;
        let ql = coefs.remove(0);
        let qr = coefs.remove(0);
        let qo = coefs.remove(0);
        let mlen = self.m.len();
        let qm = crate::field::zero_bytes(mlen);
        let ghost gates_pre = self.gates_model();
        let g = Gate { sl: s[0], sr: s[1], so: s[2], qm: qm, ql: ql, qr: qr, qo: qo, qc: k };
        self.plonk_constraints.push(g);
        proof {
            vstd::arithmetic::div_mod::lemma_small_mod(0nat, mv);
            let one = sum_gate_spec(model, nv0, mv);
            assert(g.model() == one.0.last());
            assert(self.gates_model() =~= gates_pre.push(g.model()));
            let red = reduce_spec(lc_nonconst(model), 3, nv0, mv);
            assert(gates_pre =~= old(self).gates_model() + red.0);
            assert(self.gates_model() =~= old(self).gates_model() + one.0);
        }
    }

    /// Lowers one multiplication constraint <a,w>*<b,w> = <c,w>: reduces
    /// each side to fan-in 1 and emits the combined multiplication gate.
    fn add_constraint_mul(&mut self, a: &Vec<LcTerm>, b: &Vec<LcTerm>, c: &Vec<LcTerm>)
        requires
            old(self).wf(),
            lc_exec_wf(a@, old(self).m@),
            lc_exec_wf(b@, old(self).m@),
            lc_exec_wf(c@, old(self).m@),
            old(self).plonk_n_vars + a@.len() + b@.len() + c@.len() <= u32::MAX,
        ensures
            ({
                let one = mul_gate_spec(
                    lc_model(a@),
                    lc_model(b@),
                    lc_model(c@),
                    old(self).plonk_n_vars as nat,
                    le_val(old(self).m@),
                );
                &&& final(self).m@ == old(self).m@
                &&& final(self).wf()
                &&& final(self).gates_model() == old(self).gates_model() + one.0
                &&& final(self).adds_model() == old(self).adds_model() + one.1
                &&& final(self).plonk_n_vars == one.2
            }),
    {
        let ghost mv = le_val(self.m@);
        let ghost nv0 = self.plonk_n_vars as nat;
        let ghost ma = lc_model(a@);
        let ghost mb = lc_model(b@);
        let ghost mc = lc_model(c@);
        proof {
            lemma_reduce_counts(lc_nonconst(ma), 1, nv0, mv);
        }
        let ra = self.reduce_coefs(a, 1);
        let (ka, sa, ca) = ra;
        let ghost nv1 = self.plonk_n_vars as nat;
        proof {
            lemma_reduce_counts(lc_nonconst(mb), 1, nv1, mv);
        }
        let rb = self.reduce_coefs(b, 1);
        let (kb, sb, cb) = rb;
        let ghost nv2 = self.plonk_n_vars as nat;
        proof {
            lemma_reduce_counts(lc_nonconst(mc), 1, nv2, mv);
        }
        let rc = self.reduce_coefs(c, 1);
        let (kc, sc, cc) = rc;
        let mlen = self.m.len();
        let qm = crate::bigint::big_mul_mod(&ca[0], &cb[0], &self.m);
        let ql = crate::bigint::big_mul_mod(&ca[0], &kb, &self.m);
        let qr = crate::bigint::big_mul_mod(&ka, &cb[0], &self.m);
        let zero_m = crate::field::zero_bytes(mlen);
        let qo = crate::bigint::big_sub_mod(&zero_m, &cc[0], &self.m);
        let t = crate::bigint::big_mul_mod(&ka, &kb, &self.m);
        let qc = crate::bigint::big_sub_mod(&t, &kc, &self.m);
        let ghost gates_pre = self.gates_model();
        let g = Gate { sl: sa[0], sr: sb[0], so: sc[0], qm: qm, ql: ql, qr: qr, qo: qo, qc: qc };
        self.plonk_constraints.push(g);
        proof {
            let one = mul_gate_spec(ma, mb, mc, nv0, mv);
            let kav = lc_const(ma);
            let kbv = lc_const(mb);
            let kcv = lc_const(mc);
            vstd::arithmetic::div_mod::lemma_small_mod(le_val(cc[0]@), mv);
            vstd::arithmetic::div_mod::lemma_small_mod(kcv, mv);
            assert(le_val(qc@) == ((((kav * kbv) as int % (mv as int)) + mv - kcv) as int) % (
            mv as int));
            assert(le_val(qc@) == (((kav * kbv + mv) - kcv) as int) % (mv as int)) by {
                vstd::arithmetic::div_mod::lemma_add_mod_noop(
                    ((kav * kbv) as int) % (mv as int),
                    (mv - kcv) as int,
                    mv as int,
                );
                vstd::arithmetic::div_mod::lemma_mod_twice((kav * kbv) as int, mv as int);
                vstd::arithmetic::div_mod::lemma_add_mod_noop(
                    (kav * kbv) as int,
                    (mv - kcv) as int,
                    mv as int,
                );
            }
            assert(g.model() == one.0.last());
            assert(self.gates_model() =~= gates_pre.push(g.model()));
            assert(gates_pre =~= old(self).gates_model() + (reduce_spec(lc_nonconst(ma), 1, nv0, mv).0
                + reduce_spec(lc_nonconst(mb), 1, nv1, mv).0 + reduce_spec(
                lc_nonconst(mc),
                1,
                nv2,
                mv,
            ).0));
            assert(self.gates_model() =~= old(self).gates_model() + one.0);
            assert(self.adds_model() =~= old(self).adds_model() + one.1);
        }
    }

    /// Per-constraint dispatch, mirroring `process_spec`: classify A and B
    /// (normalizing them in place), then choose the sum, linearized-sum or
    /// multiplication lowering.
    fn process(&mut self, a: Vec<LcTerm>, b: Vec<LcTerm>, c: Vec<LcTerm>)
        requires
            old(self).wf(),
            lc_exec_wf(a@, old(self).m@),
            lc_exec_wf(b@, old(self).m@),
            lc_exec_wf(c@, old(self).m@),
            old(self).plonk_n_vars + a@.len() + b@.len() + c@.len() <= u32::MAX,
        ensures
            ({
                let one = process_spec(
                    lc_model(a@),
                    lc_model(b@),
                    lc_model(c@),
                    old(self).plonk_n_vars as nat,
                    le_val(old(self).m@),
                );
                &&& final(self).m@ == old(self).m@
                &&& final(self).wf()
                &&& final(self).gates_model() == old(self).gates_model() + one.0
                &&& final(self).adds_model() == old(self).adds_model() + one.1
                &&& final(self).plonk_n_vars == one.2
            }),
    {
        let ghost mv = le_val(self.m@);
        let ghost m0 = self.m@;
        let ghost ma = lc_model(a@);
        let ghost mb = lc_model(b@);
        let ghost mc = lc_model(c@);
        let mut a = a;
        let mut b = b;
        let mut c = c;
        let ghost a_pre = a@;
        let ghost b_pre = b@;
        let ghost c_pre = c@;
        proof {
            lemma_lc_norm_props(ma);
            lemma_lc_norm_props(mb);
        }
        let ta = get_lc_type(&mut a);
        let tb = get_lc_type(&mut b);
        proof {
            assert(lc_exec_wf(a@, m0)) by {
                assert forall|p: int| 0 <= p < a@.len() implies (#[trigger] a@[p]).coeff@.len()
                    == m0.len() by {
                    let j = choose|j: int|
                        0 <= j < a_pre.len() && a@[p].coeff@ == a_pre[j].coeff@;
                }
                assert forall|p: int| 0 <= p < lc_model(a@).len() implies (#[trigger] lc_model(
                    a@,
                )[p]).1 < mv by {
                    let q = choose|q: int| 0 <= q < ma.len() && lc_model(a@)[p] == ma[q];
                }
            }
            assert(lc_exec_wf(b@, m0)) by {
                assert forall|p: int| 0 <= p < b@.len() implies (#[trigger] b@[p]).coeff@.len()
                    == m0.len() by {
                    let j = choose|j: int|
                        0 <= j < b_pre.len() && b@[p].coeff@ == b_pre[j].coeff@;
                }
                assert forall|p: int| 0 <= p < lc_model(b@).len() implies (#[trigger] lc_model(
                    b@,
                )[p]).1 < mv by {
                    let q = choose|q: int| 0 <= q < mb.len() && lc_model(b@)[p] == mb[q];
                }
            }
        }
        let zero_a = matches!(ta, LcTag::Zero);
        let zero_b = matches!(tb, LcTag::Zero);
        if zero_a || zero_b {
            proof {
                lemma_lc_norm_props(mc);
            }
            normalize_lc(&mut c);
            proof {
                assert(lc_exec_wf(c@, m0)) by {
                    assert forall|p: int| 0 <= p < c@.len() implies (#[trigger] c@[p]).coeff@.len()
                        == m0.len() by {
                        let j = choose|j: int|
                            0 <= j < c_pre.len() && c@[p].coeff@ == c_pre[j].coeff@;
                    }
                    assert forall|p: int| 0 <= p < lc_model(c@).len() implies (#[trigger] lc_model(
                        c@,
                    )[p]).1 < mv by {
                        let q = choose|q: int| 0 <= q < mc.len() && lc_model(c@)[p] == mc[q];
                    }
                }
                lemma_lc_norm_len(mc);
            }
            self.add_constraint_sum(&c);
        } else if matches!(ta, LcTag::Constant) {
            let k = copy_bytes(&a[0].coeff);
            proof {
                assert(lc_model(a@)[0] == (0nat, le_val(k@)));
                assert(le_val(k@) == lc_const(lc_norm(ma)));
            }
            let cc = join_lc(&b, &k, &c, &self.m);
            self.add_constraint_sum(&cc);
        } else if matches!(tb, LcTag::Constant) {
            let k = copy_bytes(&b[0].coeff);
            proof {
                assert(lc_model(b@)[0] == (0nat, le_val(k@)));
                assert(le_val(k@) == lc_const(lc_norm(mb)));
            }
            let cc = join_lc(&a, &k, &c, &self.m);
            self.add_constraint_sum(&cc);
        } else {
            self.add_constraint_mul(&a, &b, &c);
        }
    }
}

/// The three converted combinations of each constraint.
pub open spec fn cons_models(cons: Seq<crate::r1cs::Constraint>, m: nat) -> Seq<
    (Seq<(nat, nat)>, Seq<(nat, nat)>, Seq<(nat, nat)>),
> {
    cons.map(
        |i: int, c: crate::r1cs::Constraint|
            (conv_spec(c.a@, m), conv_spec(c.b@, m), conv_spec(c.c@, m)),
    )
}

/// Total number of raw terms over all constraints: a bound on how many
/// auxiliary wires lowering can allocate.
pub open spec fn total_terms(cons: Seq<crate::r1cs::Constraint>) -> nat
    decreases cons.len(),
{
    if cons.len() == 0 {
        0
    } else {
        total_terms(cons.drop_last()) + cons.last().a@.len() + cons.last().b@.len()
            + cons.last().c@.len()
    }
}

/// Translates every R1CS constraint into PLONK gates: first one gate per
/// public wire, then the lowered constraints in order.  Returns the gates,
/// the addition records and the final wire count, exactly as `lower_spec`
/// describes them.
pub fn process_constraints(r1cs: &crate::r1cs::R1cs) -> (r: (Vec<Gate>, Vec<PlonkAddition>, u32))
    requires
        le_val(r1cs.header.prime@) >= 2,
        r1cs.header.prime@.len() >= 8,
        r1cs.header.n_outputs + r1cs.header.n_pub_inputs <= u32::MAX,
        r1cs.header.n_vars + total_terms(r1cs.constraints@) <= u32::MAX,
    ensures
        ({
            let mv = le_val(r1cs.header.prime@);
            let lo = lower_spec(
                cons_models(r1cs.constraints@, mv),
                r1cs.header.n_vars as nat,
                (r1cs.header.n_outputs + r1cs.header.n_pub_inputs) as nat,
                mv,
            );
            &&& r.0@.map(|i: int, g: Gate| g.model()) == lo.0
            &&& r.1@.map(|i: int, a: PlonkAddition| a.model()) == lo.1
            &&& r.2 == lo.2
            &&& forall|i: int|
                0 <= i < r.0@.len() ==> (#[trigger] r.0@[i]).wf(r1cs.header.prime@)
            &&& forall|i: int|
                0 <= i < r.1@.len() ==> (#[trigger] r.1@[i]).wf(r1cs.header.prime@)
        }),
{
    let ghost mv = le_val(r1cs.header.prime@);
    let ghost prime = r1cs.header.prime@;
    let m = copy_bytes(&r1cs.header.prime);
    let mlen = m.len();
    let mut low = Lowerer {
        m: m,
        plonk_n_vars: r1cs.header.n_vars,
        plonk_constraints: Vec::new(),
        plonk_additions: Vec::new(),
    };
    let n_public: u64 = r1cs.header.n_outputs as u64 + r1cs.header.n_pub_inputs as u64;
    let ghost np = (r1cs.header.n_outputs + r1cs.header.n_pub_inputs) as nat;

    // Public-input prologue: bind each public wire with its own gate.
    let mut s: u64 = 1;
    proof {
        assert(low.gates_model() =~= Seq::<GateModel>::empty());
        assert(low.adds_model() =~= Seq::<AddModel>::empty());
        vstd::arithmetic::div_mod::lemma_small_mod(0nat, mv);
        vstd::arithmetic::div_mod::lemma_small_mod(1nat, mv);
    }
    while s <= n_public
        invariant
            1 <= s <= n_public + 1,
            n_public == np && np <= u32::MAX,
            low.m@ == prime,
            le_val(prime) == mv && mv >= 2 && prime.len() >= 8 && mlen == prime.len(),
            low.wf(),
            low.plonk_n_vars == r1cs.header.n_vars,
            low.adds_model() =~= Seq::<AddModel>::empty(),
            low.gates_model() =~= public_gates((s - 1) as nat),
        decreases n_public + 1 - s,
    {
        let ghost gates_pre = low.gates_model();
        let one = crate::field::u64_to_fr(1, &low.m);
        let g = Gate {
            sl: s as u32,
            sr: 0,
            so: 0,
            qm: crate::field::zero_bytes(mlen),
            ql: one,
            qr: crate::field::zero_bytes(mlen),
            qo: crate::field::zero_bytes(mlen),
            qc: crate::field::zero_bytes(mlen),
        };
        low.plonk_constraints.push(g);
        proof {
            assert(g.model() == public_gate(s as nat));
            assert(low.gates_model() =~= gates_pre.push(g.model()));
            assert(low.gates_model() =~= public_gates(s as nat));
        }
        s = s + 1;
    }
    let ghost pubg = low.gates_model();
    proof {
        assert(pubg =~= public_gates(np));
    }

    // Lower the constraints in order.
    let ghost cons = r1cs.constraints@;
    let ghost nv0 = r1cs.header.n_vars as nat;
    let nc = r1cs.constraints.len();
    let mut i: usize = 0;
    proof {
        assert(cons_models(cons.take(0), mv) =~= Seq::<
            (Seq<(nat, nat)>, Seq<(nat, nat)>, Seq<(nat, nat)>),
        >::empty());
        assert(total_terms(cons.take(0)) == 0);
        assert(cons.take(nc as int) =~= cons);
        lemma_total_terms_split(cons, 0);
    }
    while i < nc
        invariant
            0 <= i <= nc,
            nc == cons.len(),
            cons == r1cs.constraints@,
            low.m@ == prime,
            le_val(prime) == mv && mv >= 2 && prime.len() >= 8 && mlen == prime.len(),
            low.wf(),
            pubg == public_gates(np),
            ({
                let pre = lower_cons_spec(cons_models(cons.take(i as int), mv), nv0, mv);
                &&& low.gates_model() =~= pubg + pre.0
                &&& low.adds_model() =~= pre.1
                &&& low.plonk_n_vars == pre.2
            }),
            low.plonk_n_vars + total_terms(cons.skip(i as int)) <= u32::MAX,
        decreases nc - i,
    {
        let ghost pre = lower_cons_spec(cons_models(cons.take(i as int), mv), nv0, mv);
        let ghost nvh = low.plonk_n_vars as nat;
        let a = convert_lc(&r1cs.constraints[i].a, &low.m);
        let b = convert_lc(&r1cs.constraints[i].b, &low.m);
        let c = convert_lc(&r1cs.constraints[i].c, &low.m);
        proof {
            lemma_total_terms_split(cons, i as int);
            lemma_total_terms_split(cons, i + 1);
            assert(cons.skip(i as int).drop_first() =~= cons.skip(i + 1));
            assert(cons.skip(i as int)[0] == cons[i as int]);
            lemma_total_terms_first(cons.skip(i as int));
        }
        let ghost ma = lc_model(a@);
        let ghost mb = lc_model(b@);
        let ghost mc = lc_model(c@);
        let ghost gates_h = low.gates_model();
        let ghost adds_h = low.adds_model();
        low.process(a, b, c);
        proof {
            let one = process_spec(ma, mb, mc, nvh, mv);
            lemma_process_counts(ma, mb, mc, nvh, mv);
            assert(cons_models(cons.take(i + 1), mv) =~= cons_models(cons.take(i as int), mv).push(
                (ma, mb, mc),
            ));
            let next = lower_cons_spec(cons_models(cons.take(i + 1), mv), nv0, mv);
            assert(cons_models(cons.take(i + 1), mv).drop_last() =~= cons_models(
                cons.take(i as int),
                mv,
            ));
            assert(next.0 =~= pre.0 + one.0);
            assert(next.1 =~= pre.1 + one.1);
            assert(low.gates_model() =~= pubg + next.0);
            assert(low.adds_model() =~= next.1);
        }
        i = i + 1;
    }
    proof {
        assert(cons.take(nc as int) =~= cons);
        assert(cons.skip(nc as int) =~= Seq::<crate::r1cs::Constraint>::empty());
    }
    let out = (low.plonk_constraints, low.plonk_additions, low.plonk_n_vars);
    proof {
        assert(out.0@.map(|q: int, g: Gate| g.model()) =~= pubg + lower_cons_spec(
            cons_models(cons, mv),
            nv0,
            mv,
        ).0);
        assert(out.1@.map(|q: int, a2: PlonkAddition| a2.model()) =~= lower_cons_spec(
            cons_models(cons, mv),
            nv0,
            mv,
        ).1);
    }
    out
}

/// Splitting the term count at any point.
pub proof fn lemma_total_terms_split(cons: Seq<crate::r1cs::Constraint>, i: int)
    requires
        0 <= i <= cons.len(),
    ensures
        total_terms(cons) == total_terms(cons.take(i)) + total_terms(cons.skip(i)),
    decreases cons.len() - i,
{
    if i == cons.len() {
        assert(cons.take(i) =~= cons);
        assert(total_terms(cons.skip(i)) == 0);
    } else {
        lemma_total_terms_split(cons, i + 1);
        assert(cons.take(i + 1).drop_last() =~= cons.take(i));
        assert(cons.take(i + 1).last() == cons[i]);
        lemma_total_terms_push_front(cons.skip(i), cons.skip(i + 1));
    }
}

/// The head of a non-empty tail contributes its own three term counts.
pub proof fn lemma_total_terms_push_front(s: Seq<crate::r1cs::Constraint>,
    t: Seq<crate::r1cs::Constraint>,
)
    requires
        s.len() > 0,
        t =~= s.skip(1),
    ensures
        total_terms(s) == s[0].a@.len() + s[0].b@.len() + s[0].c@.len() + total_terms(t),
    decreases s.len(),
{
    reveal_with_fuel(total_terms, 3);
    if s.len() == 1 {
        assert(s.drop_last() =~= Seq::<crate::r1cs::Constraint>::empty());
        assert(total_terms(t) == 0);
        assert(s.last() == s[0]);
        assert(total_terms(s) == s[0].a@.len() + s[0].b@.len() + s[0].c@.len() + total_terms(t));
    } else {
        assert(s.drop_last().skip(1) =~= t.drop_last());
        lemma_total_terms_push_front(s.drop_last(), t.drop_last());
        assert(s.drop_last()[0] == s[0]);
        assert(t.last() == s.last());
        assert(total_terms(s) == total_terms(s.drop_last()) + s.last().a@.len()
            + s.last().b@.len() + s.last().c@.len());
        assert(total_terms(t) == total_terms(t.drop_last()) + t.last().a@.len()
            + t.last().b@.len() + t.last().c@.len());
        assert(total_terms(s) == s[0].a@.len() + s[0].b@.len() + s[0].c@.len() + total_terms(t));
    }
}

/// The first constraint of a non-empty list bounds one lowering step.
pub proof fn lemma_total_terms_first(s: Seq<crate::r1cs::Constraint>)
    requires
        s.len() > 0,
    ensures
        total_terms(s) == s[0].a@.len() + s[0].b@.len() + s[0].c@.len() + total_terms(
            s.drop_first(),
        ),
{
    assert(s.drop_first() =~= s.skip(1));
    lemma_total_terms_push_front(s, s.skip(1));
}

/// The value of wire `i` under witness `w`; wires beyond the witness read 0.
pub open spec fn wire_value(w: Seq<nat>, i: nat) -> nat {
    if i < w.len() {
        w[i as int]
    } else {
        0
    }
}

/// The inner product <lc, w> modulo m.
pub open spec fn lc_eval(lc: Seq<(nat, nat)>, w: Seq<nat>, m: nat) -> nat
    decreases lc.len(),
{
    if lc.len() == 0 {
        0
    } else {
        ((lc[0].1 * wire_value(w, lc[0].0) + lc_eval(lc.skip(1), w, m)) as int % (m as int)) as nat
    }
}

/// Dropping zero-coefficient terms does not change the inner product.
pub proof fn lemma_lc_eval_norm(lc: Seq<(nat, nat)>, w: Seq<nat>, m: nat)
    requires
        m >= 1,
    ensures
        lc_eval(lc_norm(lc), w, m) == lc_eval(lc, w, m),
        lc_eval(lc, w, m) < m,
    decreases lc.len(),
{
    if lc.len() == 0 {
    } else {
        lemma_lc_eval_norm(lc.skip(1), w, m);
        if lc[0].1 == 0 {
            vstd::arithmetic::div_mod::lemma_small_mod(lc_eval(lc.skip(1), w, m), m);
        } else {
            let r = seq![lc[0]] + lc_norm(lc.skip(1));
            assert(r[0] == lc[0]);
            assert(r.skip(1) =~= lc_norm(lc.skip(1)));
        }
    }
}

/// Classification soundness: a combination tagged `Zero` evaluates to zero
/// under every witness; one tagged `Constant` evaluates to its constant,
/// whenever wire 0 carries the constant one; and a `Many(n)` tag counts
/// exactly the non-zero non-constant terms.
pub proof fn lemma_classification_sound(lc: Seq<(nat, nat)>, w: Seq<nat>, m: nat)
    requires
        m >= 2,
        lc_wf(lc, m),
        lc.len() <= usize::MAX,
        wire_value(w, 0) == 1,
    ensures
        lc_tag_spec(lc_norm(lc)) == LcTag::Zero ==> lc_eval(lc, w, m) == 0,
        lc_tag_spec(lc_norm(lc)) == LcTag::Constant ==> lc_eval(lc, w, m) == lc_const(
            lc_norm(lc),
        ),
        forall|n: usize|
            lc_tag_spec(lc_norm(lc)) == LcTag::Many(n) ==> n == lc_nonconst(lc_norm(lc)).len(),
{
    let nm = lc_norm(lc);
    lemma_lc_norm_props(lc);
    lemma_lc_eval_norm(lc, w, m);
    assert(lc_nonconst(nm).len() <= nm.len());
    if lc_tag_spec(nm) == LcTag::Zero {
        if nm.len() > 0 {
            if nm[0].0 == 0 {
                assert(lc_nonconst(nm) =~= nm.skip(1));
                assert(nm.len() == 1);
                assert(lc_const(nm) == nm[0].1);
                assert(false);
            } else {
                assert(lc_nonconst(nm) =~= nm);
                assert(false);
            }
        }
        assert(lc_eval(nm, w, m) == 0);
    }
    if lc_tag_spec(nm) == LcTag::Constant {
        assert(nm.len() > 0 && nm[0].0 == 0 && nm.len() == 1) by {
            if nm.len() == 0 {
                assert(lc_const(nm) == 0);
            } else if nm[0].0 != 0 {
                assert(lc_nonconst(nm) =~= nm);
            } else {
                assert(lc_nonconst(nm) =~= nm.skip(1));
            }
        }
        let k = nm[0].1;
        assert(k < m) by {
            lemma_lc_norm_vals(lc, m);
        }
        assert(nm.skip(1) =~= Seq::<(nat, nat)>::empty());
        assert(lc_eval(nm, w, m) == ((k * 1 + 0) as int % (m as int)) as nat) by {
            reveal_with_fuel(lc_eval, 3);
        }
        vstd::arithmetic::div_mod::lemma_small_mod(k, m);
    }
}

/// The first `n_public` gates of a lowering bind exactly the public wires:
/// gate i is (sl = i+1, sr = 0, so = 0, qm = 0, ql = 1, qr = qo = qc = 0).
pub proof fn lemma_public_input_gates(
    cons: Seq<(Seq<(nat, nat)>, Seq<(nat, nat)>, Seq<(nat, nat)>)>,
    n_vars: nat,
    n_public: nat,
    m: nat,
)
    ensures
        lower_spec(cons, n_vars, n_public, m).0.len() >= n_public,
        forall|i: int|
            0 <= i < n_public ==> lower_spec(cons, n_vars, n_public, m).0[i] == public_gate(
                (i + 1) as nat,
            ),
{
    let lo = lower_spec(cons, n_vars, n_public, m);
    assert forall|i: int| 0 <= i < n_public implies lo.0[i] == public_gate((i + 1) as nat) by {
        assert(lo.0[i] == public_gates(n_public)[i]);
    }
}

/// The wire counter always moves by exactly the number of additions.
pub proof fn lemma_process_nv(
    a: Seq<(nat, nat)>,
    b: Seq<(nat, nat)>,
    c: Seq<(nat, nat)>,
    nv: nat,
    m: nat,
)
    ensures
        process_spec(a, b, c, nv, m).2 == nv + process_spec(a, b, c, nv, m).1.len(),
{
    let a1 = lc_norm(a);
    let b1 = lc_norm(b);
    let ta = lc_tag_spec(a1);
    let tb = lc_tag_spec(b1);
    if ta == LcTag::Zero || tb == LcTag::Zero {
        lemma_sum_counts(lc_norm(c), nv, m);
    } else if ta == LcTag::Constant {
        lemma_sum_counts(join_spec(b1, lc_const(a1), c, m), nv, m);
    } else if tb == LcTag::Constant {
        lemma_sum_counts(join_spec(a1, lc_const(b1), c, m), nv, m);
    } else {
        lemma_mul_counts(a1, b1, c, nv, m);
    }
}

/// Addition correctness for one sum lowering: the j-th addition's gate sits
/// among the emitted gates, binding wire nv + j.
pub proof fn lemma_sum_adds(lc: Seq<(nat, nat)>, nv: nat, m: nat)
    ensures
        forall|j: int| #![trigger sum_gate_spec(lc, nv, m).1[j]]
            0 <= j < sum_gate_spec(lc, nv, m).1.len() ==> sum_gate_spec(lc, nv, m).0.contains(
                add_gate(sum_gate_spec(lc, nv, m).1[j], (nv + j) as nat, m),
            ),
{
    let red = reduce_spec(lc_nonconst(lc), 3, nv, m);
    lemma_reduce_gates(lc_nonconst(lc), 3, nv, m);
    lemma_reduce_counts(lc_nonconst(lc), 3, nv, m);
    let one = sum_gate_spec(lc, nv, m);
    assert forall|j: int| #![trigger one.1[j]] 0 <= j < one.1.len() implies one.0.contains(
        add_gate(one.1[j], (nv + j) as nat, m),
    ) by {
        assert(one.0[j] == red.0[j]);
        assert(one.0[j] == add_gate(one.1[j], (nv + j) as nat, m));
    }
}

/// Addition correctness for one multiplication lowering.
#[verifier::spinoff_prover]
#[verifier::rlimit(100)]
pub proof fn lemma_mul_adds(
    a: Seq<(nat, nat)>,
    b: Seq<(nat, nat)>,
    c: Seq<(nat, nat)>,
    nv: nat,
    m: nat,
)
    ensures
        forall|j: int| #![trigger mul_gate_spec(a, b, c, nv, m).1[j]]
            0 <= j < mul_gate_spec(a, b, c, nv, m).1.len() ==> mul_gate_spec(a, b, c, nv, m).0.contains(
                add_gate(mul_gate_spec(a, b, c, nv, m).1[j], (nv + j) as nat, m),
            ),
{
    let ra = reduce_spec(lc_nonconst(a), 1, nv, m);
    let nv1 = nv + ra.1.len();
    let rb = reduce_spec(lc_nonconst(b), 1, nv1, m);
    let nv2 = nv1 + rb.1.len();
    let rc = reduce_spec(lc_nonconst(c), 1, nv2, m);
    let one = mul_gate_spec(a, b, c, nv, m);
    let cat = ra.0 + rb.0 + rc.0;
    let pa = pad_cs(ra.2, 1);
    let pb = pad_cs(rb.2, 1);
    let pc = pad_cs(rc.2, 1);
    let fin = GateModel {
        sl: pa[0].0,
        sr: pb[0].0,
        so: pc[0].0,
        qm: (pa[0].1 * pb[0].1) % m,
        ql: (pa[0].1 * lc_const(b)) % m,
        qr: (lc_const(a) * pb[0].1) % m,
        qo: neg_mod(pc[0].1, m),
        qc: (((lc_const(a) * lc_const(b) + m) - lc_const(c)) as int % (m as int)) as nat,
    };
    assert(one.0 == cat.push(fin));
    assert(one.1 == ra.1 + rb.1 + rc.1);
    lemma_gates_push_facts(cat, fin);
    assert(one.0.len() == cat.len() + 1);
    assert(one.0.drop_last() == cat);
    lemma_reduce_counts(lc_nonconst(a), 1, nv, m);
    lemma_reduce_gates(lc_nonconst(a), 1, nv, m);
    lemma_reduce_counts(lc_nonconst(b), 1, nv1, m);
    lemma_reduce_gates(lc_nonconst(b), 1, nv1, m);
    lemma_reduce_counts(lc_nonconst(c), 1, nv2, m);
    lemma_reduce_gates(lc_nonconst(c), 1, nv2, m);
    assert forall|j: int| #![trigger one.1[j]] 0 <= j < one.1.len() implies one.0.contains(
        add_gate(one.1[j], (nv + j) as nat, m),
    ) by {
        assert(one.0[j] == one.0.drop_last()[j]);
        assert(one.0[j] == cat[j]);
        if j < ra.1.len() {
            assert(cat[j] == ra.0[j]);
            assert(one.1[j] == ra.1[j]);
            assert(one.0[j] == add_gate(one.1[j], (nv + j) as nat, m));
        } else if j < ra.1.len() + rb.1.len() {
            let j2 = j - ra.1.len();
            assert(cat[j] == rb.0[j2]);
            assert(one.1[j] == rb.1[j2]);
            assert(one.0[j] == add_gate(one.1[j], (nv + j) as nat, m));
        } else {
            let j3 = j - ra.1.len() - rb.1.len();
            assert(cat[j] == rc.0[j3]);
            assert(one.1[j] == rc.1[j3]);
            assert(one.0[j] == add_gate(one.1[j], (nv + j) as nat, m));
        }
    }
}

/// Addition correctness for one constraint lowering.
pub proof fn lemma_process_adds(
    a: Seq<(nat, nat)>,
    b: Seq<(nat, nat)>,
    c: Seq<(nat, nat)>,
    nv: nat,
    m: nat,
)
    ensures
        forall|j: int| #![trigger process_spec(a, b, c, nv, m).1[j]]
            0 <= j < process_spec(a, b, c, nv, m).1.len() ==> process_spec(a, b, c, nv, m).0.contains(
                add_gate(process_spec(a, b, c, nv, m).1[j], (nv + j) as nat, m),
            ),
{
    let a1 = lc_norm(a);
    let b1 = lc_norm(b);
    let ta = lc_tag_spec(a1);
    let tb = lc_tag_spec(b1);
    if ta == LcTag::Zero || tb == LcTag::Zero {
        lemma_sum_adds(lc_norm(c), nv, m);
    } else if ta == LcTag::Constant {
        lemma_sum_adds(join_spec(b1, lc_const(a1), c, m), nv, m);
    } else if tb == LcTag::Constant {
        lemma_sum_adds(join_spec(a1, lc_const(b1), c, m), nv, m);
    } else {
        lemma_mul_adds(a1, b1, c, nv, m);
    }
}

/// Wire monotonicity and addition correctness over a whole constraint list:
/// auxiliary wires are handed out consecutively from `nv`, the counter ends
/// at nv + |additions|, and the j-th addition's binding gate
/// (ql = -v1, qr = -v2, qo = 1, qm = qc = 0, so = nv + j) is among the
/// emitted gates.
pub proof fn lemma_lower_cons_adds(
    cons: Seq<(Seq<(nat, nat)>, Seq<(nat, nat)>, Seq<(nat, nat)>)>,
    nv: nat,
    m: nat,
)
    ensures
        lower_cons_spec(cons, nv, m).2 == nv + lower_cons_spec(cons, nv, m).1.len(),
        forall|j: int| #![trigger lower_cons_spec(cons, nv, m).1[j]]
            0 <= j < lower_cons_spec(cons, nv, m).1.len() ==> lower_cons_spec(cons, nv, m).0.contains(
                add_gate(lower_cons_spec(cons, nv, m).1[j], (nv + j) as nat, m),
            ),
    decreases cons.len(),
{
    if cons.len() > 0 {
        lemma_lower_cons_adds(cons.drop_last(), nv, m);
        let pre = lower_cons_spec(cons.drop_last(), nv, m);
        let last = cons.last();
        let one = process_spec(last.0, last.1, last.2, pre.2, m);
        lemma_process_nv(last.0, last.1, last.2, pre.2, m);
        lemma_process_adds(last.0, last.1, last.2, pre.2, m);
        let lo = lower_cons_spec(cons, nv, m);
        assert forall|j: int| #![trigger lo.1[j]] 0 <= j < lo.1.len() implies lo.0.contains(
            add_gate(lo.1[j], (nv + j) as nat, m),
        ) by {
            if j < pre.1.len() {
                assert(lo.1[j] == pre.1[j]);
                let x = add_gate(pre.1[j], (nv + j) as nat, m);
                assert(pre.0.contains(x));
                let i0 = choose|i0: int| 0 <= i0 < pre.0.len() && pre.0[i0] == x;
                assert(lo.0[i0] == pre.0[i0]);
                assert(lo.0.contains(x));
            } else {
                let j2 = j - pre.1.len();
                assert(lo.1[j] == one.1[j2]);
                let x = add_gate(one.1[j2], (pre.2 + j2) as nat, m);
                assert(one.0.contains(x));
                let i0 = choose|i0: int| 0 <= i0 < one.0.len() && one.0[i0] == x;
                assert(lo.0[pre.0.len() + i0] == one.0[i0]);
                assert(lo.0.contains(x));
                assert(x == add_gate(lo.1[j], (nv + j) as nat, m));
            }
        }
    }
}

/// Wire monotonicity and addition correctness for the whole lowering,
/// public-input prologue included: the final wire counter is the initial
/// one plus the number of addition records, and for every addition record
/// j, allocating wire n_vars + j, its binding gate is among the emitted
/// gates.
pub proof fn lemma_lowering_additions(
    cons: Seq<(Seq<(nat, nat)>, Seq<(nat, nat)>, Seq<(nat, nat)>)>,
    n_vars: nat,
    n_public: nat,
    m: nat,
)
    ensures
        lower_spec(cons, n_vars, n_public, m).2 == n_vars + lower_spec(
            cons,
            n_vars,
            n_public,
            m,
        ).1.len(),
        forall|j: int| #![trigger lower_spec(cons, n_vars, n_public, m).1[j]]
            0 <= j < lower_spec(cons, n_vars, n_public, m).1.len() ==> lower_spec(
                cons,
                n_vars,
                n_public,
                m,
            ).0.contains(
                add_gate(lower_spec(cons, n_vars, n_public, m).1[j], (n_vars + j) as nat, m),
            ),
{
    lemma_lower_cons_adds(cons, n_vars, m);
    let body = lower_cons_spec(cons, n_vars, m);
    let lo = lower_spec(cons, n_vars, n_public, m);
    assert forall|j: int| #![trigger lo.1[j]] 0 <= j < lo.1.len() implies lo.0.contains(
        add_gate(lo.1[j], (n_vars + j) as nat, m),
    ) by {
        let x = add_gate(body.1[j], (n_vars + j) as nat, m);
        assert(body.0.contains(x));
        let i0 = choose|i0: int| 0 <= i0 < body.0.len() && body.0[i0] == x;
        assert(lo.0[public_gates(n_public).len() + i0] == body.0[i0]);
        assert(lo.0.contains(x));
    }
}

/// Determinism: the lowering is a function of the constraint system alone,
/// so any two runs on the same input agree gate for gate, record for
/// record, and on the final wire count.
pub proof fn lemma_lowering_deterministic(
    r1: (Seq<GateModel>, Seq<AddModel>, nat),
    r2: (Seq<GateModel>, Seq<AddModel>, nat),
    cons: Seq<(Seq<(nat, nat)>, Seq<(nat, nat)>, Seq<(nat, nat)>)>,
    n_vars: nat,
    n_public: nat,
    m: nat,
)
    requires
        r1 == lower_spec(cons, n_vars, n_public, m),
        r2 == lower_spec(cons, n_vars, n_public, m),
    ensures
        r1 == r2,
{
}

/// Two gates with equal values and the modulus width are byte-identical:
/// with fixed-width canonical coefficients, value equality is byte equality.
pub proof fn lemma_gate_bytes_deterministic(g1: Gate, g2: Gate, m: Seq<u8>)
    requires
        g1.wf(m),
        g2.wf(m),
        g1.model() == g2.model(),
    ensures
        g1.sl == g2.sl && g1.sr == g2.sr && g1.so == g2.so,
        g1.qm@ == g2.qm@ && g1.ql@ == g2.ql@ && g1.qr@ == g2.qr@ && g1.qo@ == g2.qo@ && g1.qc@
            == g2.qc@,
{
    crate::bytes_le::lemma_le_val_injective(g1.qm@, g2.qm@);
    crate::bytes_le::lemma_le_val_injective(g1.ql@, g2.ql@);
    crate::bytes_le::lemma_le_val_injective(g1.qr@, g2.qr@);
    crate::bytes_le::lemma_le_val_injective(g1.qo@, g2.qo@);
    crate::bytes_le::lemma_le_val_injective(g1.qc@, g2.qc@);
}

/// Two addition records with equal values and the modulus width are
/// byte-identical.
pub proof fn lemma_addition_bytes_deterministic(a1: PlonkAddition, a2: PlonkAddition, m: Seq<u8>)
    requires
        a1.wf(m),
        a2.wf(m),
        a1.model() == a2.model(),
    ensures
        a1.a == a2.a && a1.b == a2.b,
        a1.v1@ == a2.v1@ && a1.v2@ == a2.v2@,
{
    crate::bytes_le::lemma_le_val_injective(a1.v1@, a2.v1@);
    crate::bytes_le::lemma_le_val_injective(a1.v2@, a2.v2@);
}

/// Appending one gate grows the list by one and keeps the prefix.
proof fn lemma_gates_push_facts(s: Seq<GateModel>, g: GateModel)
    ensures
        s.push(g).len() == s.len() + 1,
        s.push(g).drop_last() == s,
        forall|i: int| 0 <= i < s.len() ==> #[trigger] s.push(g)[i] == s[i],
{
    assert(s.push(g).drop_last() =~= s);
}

} // verus!
