//! PLONK evaluation-domain setup: the root of unity `w = 2^((r-1) >> pow)`
//! and the coset generators `k1`, `k2`, the smallest integers whose cosets
//! avoid the subgroup generated by `w`.

use vstd::arithmetic::div_mod::{
    lemma_mul_mod_noop_general, lemma_small_mod,
};
use vstd::arithmetic::power::{lemma_pow_adds, pow};
use vstd::arithmetic::power2::pow2;
use vstd::prelude::*;

use crate::bigint::{big_modpow, big_mul_mod, big_shr, big_sub_mod};
use crate::bytes_le::le_val;
use crate::field::{eq_val, fr_wf, u64_to_fr, zero_bytes};

verus! {

/// b^e mod m.
pub open spec fn pow_mod(b: nat, e: nat, m: nat) -> nat {
    (pow(b as int, e) % (m as int)) as nat
}

/// Membership in the subgroup generated by `w`, walked to `size` powers.
pub open spec fn in_subgroup(x: nat, w: nat, size: nat, m: nat) -> bool {
    exists|i: nat| i < size && x == pow_mod(w, i, m)
}

/// Membership in the coset `k * <w>`.
pub open spec fn in_coset(x: nat, k: nat, w: nat, size: nat, m: nat) -> bool {
    exists|i: nat| i < size && x == ((k * pow_mod(w, i, m)) as int) % (m as int)
}

/// Powers of a natural base are non-negative.
pub proof fn lemma_pow_nonneg(b: nat, e: nat)
    ensures
        pow(b as int, e) >= 0,
    decreases e,
{
    reveal(pow);
    if e > 0 {
        lemma_pow_nonneg(b, (e - 1) as nat);
        vstd::arithmetic::mul::lemma_mul_nonnegative(b as int, pow(b as int, (e - 1) as nat));
    }
}

/// Powers multiply: w^(a+b) = w^a * w^b, modulo m.
pub proof fn lemma_pow_mod_adds(w: nat, a: nat, b: nat, m: nat)
    requires
        m >= 2,
    ensures
        pow_mod(w, a + b, m) == ((pow_mod(w, a, m) * pow_mod(w, b, m)) as int) % (m as int),
{
    lemma_pow_adds(w as int, a, b);
    lemma_pow_nonneg(w, a);
    lemma_pow_nonneg(w, b);
    lemma_mul_mod_noop_general(pow(w as int, a), pow(w as int, b), m as int);
}

/// When w^size = 1, every exponent below 2*size lands in the walked range:
/// returns the reduced exponent.
pub proof fn lemma_pow_mod_wraps(w: nat, e: nat, size: nat, m: nat) -> (i: nat)
    requires
        m >= 2,
        size >= 1,
        e < 2 * size,
        pow_mod(w, size, m) == 1,
    ensures
        i < size,
        pow_mod(w, e, m) == pow_mod(w, i, m),
{
    if e < size {
        e
    } else {
        let i = (e - size) as nat;
        lemma_pow_mod_adds(w, size, i, m);
        lemma_pow_nonneg(w, i);
        vstd::arithmetic::div_mod::lemma_mod_bound(pow(w as int, i), m as int);
        lemma_small_mod(pow_mod(w, i, m), m);
        assert(pow_mod(w, e, m) == ((pow_mod(w, size, m) * pow_mod(w, i, m)) as int) % (m as int));
        assert(pow_mod(w, e, m) == ((1 * pow_mod(w, i, m)) as int) % (m as int));
        assert(pow_mod(w, e, m) == pow_mod(w, i, m));
        i
    }
}

/// Exhibiting one power places an element in the subgroup.
pub proof fn lemma_in_subgroup_intro(x: nat, w: nat, i: nat, size: nat, m: nat)
    requires
        i < size,
        x == pow_mod(w, i, m),
    ensures
        in_subgroup(x, w, size, m),
{
}

/// Exhibiting one power places an element in the coset.
pub proof fn lemma_in_coset_intro(x: nat, k: nat, w: nat, i: nat, size: nat, m: nat)
    requires
        i < size,
        x == ((k * pow_mod(w, i, m)) as int) % (m as int),
    ensures
        in_coset(x, k, w, size, m),
{
}

/// If x = k * w^j (mod m) for exponents in range, then x stays in k's coset
/// even after multiplying by another power: the step that transports a
/// common element back to the generator.
proof fn lemma_transport(k: nat, w: nat, i: nat, j: nat, size: nat, m: nat)
    requires
        m >= 2,
        size >= 1,
        i < size,
        j < size,
        k < m,
        pow_mod(w, size, m) == 1,
        pow_mod(w, i, m) == ((k * pow_mod(w, j, m)) as int) % (m as int),
    ensures
        in_subgroup(k, w, size, m),
{
    let c = pow_mod(w, (size - j) as nat, m);
    lemma_pow_nonneg(w, (size - j) as nat);
    vstd::arithmetic::div_mod::lemma_mod_bound(pow(w as int, (size - j) as nat), m as int);
    lemma_small_mod(c, m);
    // multiply both sides by w^(size-j)
    lemma_mul_mod_noop_general(pow(w as int, i), pow(w as int, (size - j) as nat), m as int);
    lemma_pow_mod_adds(w, i, (size - j) as nat, m);
    assert(((pow_mod(w, i, m) * c) as int) % (m as int) == pow_mod(w, (i + size - j) as nat, m)) by {
        lemma_pow_adds(w as int, i, (size - j) as nat);
        lemma_pow_nonneg(w, i);
        lemma_pow_nonneg(w, (size - j) as nat);
        lemma_mul_mod_noop_general(pow(w as int, i), pow(w as int, (size - j) as nat), m as int);
    }
    let rhs = ((k * pow_mod(w, j, m)) as int) % (m as int);
    assert(((rhs * c) as int) % (m as int) == (k * (((pow_mod(w, j, m) * c) as int) % (m as int))) % (m as int)) by {
        lemma_mul_mod_noop_general((k * pow_mod(w, j, m)) as int, c as int, m as int);
        vstd::arithmetic::mul::lemma_mul_is_associative(
            k as int,
            pow_mod(w, j, m) as int,
            c as int,
        );
        lemma_mul_mod_noop_general(k as int, (pow_mod(w, j, m) * c) as int, m as int);
        lemma_small_mod(k, m);
    }
    assert(((pow_mod(w, j, m) * c) as int) % (m as int) == pow_mod(w, (j + (size - j)) as nat, m)) by {
        lemma_pow_mod_adds(w, j, (size - j) as nat, m);
    }
    assert(pow_mod(w, (j + (size - j)) as nat, m) == 1);
    assert(((rhs * c) as int) % (m as int) == ((k * 1nat) as int) % (m as int));
    lemma_small_mod(k, m);
    assert(((rhs * c) as int) % (m as int) == k);
    assert(pow_mod(w, (i + size - j) as nat, m) == k);
    let i2 = lemma_pow_mod_wraps(w, (i + size - j) as nat, size, m);
    assert(k == pow_mod(w, i2, m));
    lemma_in_subgroup_intro(k, w, i2, size, m);
}

/// Domain coset non-overlap: with w^size = 1 and k1, k2 outside the
/// subgroup and k2 outside k1's coset, the three sets <w>, k1*<w>, k2*<w>
/// are pairwise disjoint.
pub proof fn lemma_coset_disjoint(w: nat, size: nat, m: nat, k1: nat, k2: nat)
    requires
        m >= 2,
        size >= 1,
        k1 < m,
        k2 < m,
        pow_mod(w, size, m) == 1,
        !in_subgroup(k1, w, size, m),
        !in_subgroup(k2, w, size, m),
        !in_coset(k2, k1, w, size, m),
    ensures
        forall|i: nat, j: nat| #![trigger pow_mod(w, i, m), pow_mod(w, j, m)]
            i < size && j < size ==> pow_mod(w, i, m) != ((k1 * pow_mod(w, j, m)) as int) % (
            m as int),
        forall|i: nat, j: nat| #![trigger pow_mod(w, i, m), pow_mod(w, j, m)]
            i < size && j < size ==> pow_mod(w, i, m) != ((k2 * pow_mod(w, j, m)) as int) % (
            m as int),
        forall|i: nat, j: nat| #![trigger pow_mod(w, i, m), pow_mod(w, j, m)]
            i < size && j < size ==> ((k1 * pow_mod(w, i, m)) as int) % (m as int) != ((k2
                * pow_mod(w, j, m)) as int) % (m as int),
{
    assert forall|i: nat, j: nat| #![trigger pow_mod(w, i, m), pow_mod(w, j, m)]
        i < size && j < size implies pow_mod(w, i, m) != ((k1 * pow_mod(w, j, m)) as int) % (
    m as int) by {
        if pow_mod(w, i, m) == ((k1 * pow_mod(w, j, m)) as int) % (m as int) {
            lemma_transport(k1, w, i, j, size, m);
        }
    }
    assert forall|i: nat, j: nat| #![trigger pow_mod(w, i, m), pow_mod(w, j, m)]
        i < size && j < size implies pow_mod(w, i, m) != ((k2 * pow_mod(w, j, m)) as int) % (
    m as int) by {
        if pow_mod(w, i, m) == ((k2 * pow_mod(w, j, m)) as int) % (m as int) {
            lemma_transport(k2, w, i, j, size, m);
        }
    }
    assert forall|i: nat, j: nat| #![trigger pow_mod(w, i, m), pow_mod(w, j, m)]
        i < size && j < size implies ((k1 * pow_mod(w, i, m)) as int) % (m as int) != ((k2
        * pow_mod(w, j, m)) as int) % (m as int) by {
        if ((k1 * pow_mod(w, i, m)) as int) % (m as int) == ((k2 * pow_mod(w, j, m)) as int) % (m as int) {
            lemma_coset_transport(k1, k2, w, i, j, size, m);
        }
    }
}

/// If k2 * w^j = k1 * w^i (mod m), then k2 lies in k1's coset.
proof fn lemma_coset_transport(k1: nat, k2: nat, w: nat, i: nat, j: nat, size: nat, m: nat)
    requires
        m >= 2,
        size >= 1,
        i < size,
        j < size,
        k1 < m,
        k2 < m,
        pow_mod(w, size, m) == 1,
        ((k1 * pow_mod(w, i, m)) as int) % (m as int) == ((k2 * pow_mod(w, j, m)) as int) % (m as int),
    ensures
        in_coset(k2, k1, w, size, m),
{
    let c = pow_mod(w, (size - j) as nat, m);
    lemma_pow_nonneg(w, (size - j) as nat);
    vstd::arithmetic::div_mod::lemma_mod_bound(pow(w as int, (size - j) as nat), m as int);
    lemma_small_mod(c, m);
    let lhs = ((k1 * pow_mod(w, i, m)) as int) % (m as int);
    assert(((lhs * c) as int) % (m as int) == ((k1 * pow_mod(w, (i + size - j) as nat, m)) as int) % (m as int))
        by {
        lemma_mul_mod_noop_general((k1 * pow_mod(w, i, m)) as int, c as int, m as int);
        vstd::arithmetic::mul::lemma_mul_is_associative(
            k1 as int,
            pow_mod(w, i, m) as int,
            c as int,
        );
        lemma_mul_mod_noop_general(k1 as int, (pow_mod(w, i, m) * c) as int, m as int);
        lemma_small_mod(k1, m);
        assert(((pow_mod(w, i, m) * c) as int) % (m as int) == pow_mod(w, (i + size - j) as nat, m)) by {
            lemma_pow_mod_adds(w, i, (size - j) as nat, m);
        }
    }
    let rhs = ((k2 * pow_mod(w, j, m)) as int) % (m as int);
    assert(((rhs * c) as int) % (m as int) == k2) by {
        lemma_mul_mod_noop_general((k2 * pow_mod(w, j, m)) as int, c as int, m as int);
        vstd::arithmetic::mul::lemma_mul_is_associative(
            k2 as int,
            pow_mod(w, j, m) as int,
            c as int,
        );
        lemma_mul_mod_noop_general(k2 as int, (pow_mod(w, j, m) * c) as int, m as int);
        lemma_small_mod(k2, m);
        assert(((pow_mod(w, j, m) * c) as int) % (m as int) == pow_mod(w, (j + (size - j)) as nat, m)) by {
            lemma_pow_mod_adds(w, j, (size - j) as nat, m);
        }
        assert(pow_mod(w, (j + (size - j)) as nat, m) == 1);
        lemma_small_mod(k2, m);
    }
    let i2 = lemma_pow_mod_wraps(w, (i + size - j) as nat, size, m);
    assert(k2 == ((k1 * pow_mod(w, i2, m)) as int) % (m as int)) by {
        lemma_mul_mod_noop_general(k1 as int, pow_mod(w, (i + size - j) as nat, m) as int, m as int);
        lemma_mul_mod_noop_general(k1 as int, pow_mod(w, i2, m) as int, m as int);
    }
    lemma_in_coset_intro(k2, k1, w, i2, size, m);
}

/// The values of the first `k` powers of `w`, as a set.
pub open spec fn walk_set(w: nat, k: nat, m: nat) -> Set<nat>
    decreases k,
{
    if k == 0 {
        Set::empty()
    } else {
        walk_set(w, (k - 1) as nat, m).insert(pow_mod(w, (k - 1) as nat, m))
    }
}

/// The walked subgroup is finite, holds at most `k` values, and contains
/// exactly the powers with exponent below `k`.
pub proof fn lemma_walk_set(w: nat, k: nat, m: nat)
    ensures
        walk_set(w, k, m).finite(),
        walk_set(w, k, m).len() <= k,
        forall|x: nat| #![trigger walk_set(w, k, m).contains(x)]
            walk_set(w, k, m).contains(x) <==> exists|i: nat| i < k && x == pow_mod(w, i, m),
    decreases k,
{
    if k > 0 {
        lemma_walk_set(w, (k - 1) as nat, m);
        let prev = walk_set(w, (k - 1) as nat, m);
        vstd::set::axiom_set_insert_len(prev, pow_mod(w, (k - 1) as nat, m));
        assert forall|x: nat| walk_set(w, k, m).contains(x) implies exists|i: nat|
            i < k && x == pow_mod(w, i, m) by {
            if prev.contains(x) {
                let i = choose|i: nat| i < (k - 1) as nat && x == pow_mod(w, i, m);
                assert(i < k && x == pow_mod(w, i, m));
            } else {
                assert(((k - 1) as nat) < k && x == pow_mod(w, (k - 1) as nat, m));
            }
        }
        assert forall|x: nat| (exists|i: nat| i < k && x == pow_mod(w, i, m)) implies walk_set(
            w,
            k,
            m,
        ).contains(x) by {
            let i = choose|i: nat| i < k && x == pow_mod(w, i, m);
            if i < (k - 1) as nat {
                assert(prev.contains(x));
            }
        }
    }
}

/// The union of the walked subgroup and its `k1`-coset, as a set.
pub open spec fn excl_set(k1: nat, w: nat, k: nat, m: nat) -> Set<nat>
    decreases k,
{
    if k == 0 {
        Set::empty()
    } else {
        excl_set(k1, w, (k - 1) as nat, m).insert(pow_mod(w, (k - 1) as nat, m)).insert(
            (((k1 * pow_mod(w, (k - 1) as nat, m)) as int) % (m as int)) as nat,
        )
    }
}

/// The walked subgroup with its coset is finite, holds at most `2 * k`
/// values, and contains exactly the powers and coset values with exponent
/// below `k`.
pub proof fn lemma_excl_set(k1: nat, w: nat, k: nat, m: nat)
    ensures
        excl_set(k1, w, k, m).finite(),
        excl_set(k1, w, k, m).len() <= 2 * k,
        forall|x: nat| #![trigger excl_set(k1, w, k, m).contains(x)]
            excl_set(k1, w, k, m).contains(x) <==> exists|i: nat|
                i < k && (x == pow_mod(w, i, m) || x == (((k1 * pow_mod(w, i, m)) as int) % (
                m as int)) as nat),
    decreases k,
{
    if k > 0 {
        lemma_excl_set(k1, w, (k - 1) as nat, m);
        let prev = excl_set(k1, w, (k - 1) as nat, m);
        let pw = pow_mod(w, (k - 1) as nat, m);
        let cw = (((k1 * pw) as int) % (m as int)) as nat;
        vstd::set::axiom_set_insert_len(prev, pw);
        vstd::set::axiom_set_insert_len(prev.insert(pw), cw);
        assert forall|x: nat| excl_set(k1, w, k, m).contains(x) implies exists|i: nat|
            i < k && (x == pow_mod(w, i, m) || x == (((k1 * pow_mod(w, i, m)) as int) % (
            m as int)) as nat) by {
            if prev.contains(x) {
                let i = choose|i: nat|
                    i < (k - 1) as nat && (x == pow_mod(w, i, m) || x == (((k1 * pow_mod(
                        w,
                        i,
                        m,
                    )) as int) % (m as int)) as nat);
                assert(i < k && (x == pow_mod(w, i, m) || x == (((k1 * pow_mod(w, i, m)) as int)
                    % (m as int)) as nat));
            } else {
                assert(((k - 1) as nat) < k && (x == pow_mod(w, (k - 1) as nat, m) || x == (((
                k1 * pow_mod(w, (k - 1) as nat, m)) as int) % (m as int)) as nat));
            }
        }
        assert forall|x: nat|
            (exists|i: nat|
                i < k && (x == pow_mod(w, i, m) || x == (((k1 * pow_mod(w, i, m)) as int) % (
                m as int)) as nat)) implies excl_set(k1, w, k, m).contains(x) by {
            let i = choose|i: nat|
                i < k && (x == pow_mod(w, i, m) || x == (((k1 * pow_mod(w, i, m)) as int) % (
                m as int)) as nat);
            if i < (k - 1) as nat {
                assert(prev.contains(x));
            }
        }
    }
}

/// The `n` consecutive integers starting at `lo`, as a set.
pub open spec fn range_set(lo: nat, n: nat) -> Set<nat>
    decreases n,
{
    if n == 0 {
        Set::empty()
    } else {
        range_set(lo, (n - 1) as nat).insert((lo + n - 1) as nat)
    }
}

/// A range of `n` integers has exactly `n` elements.
pub proof fn lemma_range_set(lo: nat, n: nat)
    ensures
        range_set(lo, n).finite(),
        range_set(lo, n).len() == n,
        forall|x: nat| #![trigger range_set(lo, n).contains(x)]
            range_set(lo, n).contains(x) <==> lo <= x < lo + n,
    decreases n,
{
    if n > 0 {
        lemma_range_set(lo, (n - 1) as nat);
        vstd::set::axiom_set_insert_len(range_set(lo, (n - 1) as nat), (lo + n - 1) as nat);
    }
}

/// Pigeonhole: among `n` consecutive integers, at least one escapes a
/// finite set of fewer than `n` values.
pub proof fn lemma_pigeonhole_range(lo: nat, n: nat, s: Set<nat>)
    requires
        s.finite(),
        s.len() < n,
    ensures
        exists|c: nat| lo <= c < lo + n && !s.contains(c),
{
    if forall|c: nat| lo <= c < lo + n ==> #[trigger] s.contains(c) {
        lemma_range_set(lo, n);
        assert forall|x: nat| range_set(lo, n).contains(x) implies s.contains(x) by {
            assert(lo <= x < lo + n);
        }
        assert(range_set(lo, n).subset_of(s));
        vstd::set_lib::lemma_len_subset(range_set(lo, n), s);
    }
}

/// Walks the subgroup `1, w, w^2, ...` for `domain_size` steps, testing
/// whether `k` equals a power or `e` times a power for some `e` in
/// `existing`: membership in `<w>` or in one of the listed cosets.
pub fn is_included(
    k: &Vec<u8>,
    existing: &Vec<Vec<u8>>,
    w: &Vec<u8>,
    domain_size: u64,
    m: &Vec<u8>,
) -> (r: bool)
    requires
        le_val(m@) >= 2,
        m@.len() >= 8,
    ensures
        r <==> (in_subgroup(le_val(k@), le_val(w@), domain_size as nat, le_val(m@)) || exists|
            e: int,
        |
            0 <= e < existing@.len() && in_coset(
                le_val(k@),
                le_val((#[trigger] existing@[e])@),
                le_val(w@),
                domain_size as nat,
                le_val(m@),
            )),
{
    let ghost mv = le_val(m@);
    let ghost wv = le_val(w@);
    let ghost kv = le_val(k@);
    let ghost size = domain_size as nat;
    let mut cur = u64_to_fr(1, m);
    proof {
        vstd::arithmetic::power::lemma_pow0(wv as int);
        lemma_small_mod(1nat, mv);
        assert(le_val(cur@) == pow_mod(wv, 0, mv));
    }
    let mut i: u64 = 0;
    while i < domain_size
        invariant
            0 <= i <= domain_size,
            le_val(m@) == mv && mv >= 2 && m@.len() >= 8,
            le_val(w@) == wv,
            le_val(k@) == kv,
            size == domain_size as nat,
            le_val(cur@) == pow_mod(wv, i as nat, mv),
            forall|j: nat| j < i as nat ==> kv != pow_mod(wv, j, mv),
            forall|e: int, j: nat| #![trigger existing@[e], pow_mod(wv, j, mv)]
                0 <= e < existing@.len() && j < i as nat ==> kv != ((le_val(
                    existing@[e]@,
                ) * pow_mod(wv, j, mv)) as int) % (mv as int),
        decreases domain_size - i,
    {
        if eq_val(k, &cur) {
            proof {
                lemma_in_subgroup_intro(kv, wv, i as nat, size, mv);
            }
            return true;
        }
        let ne = existing.len();
        let mut e: usize = 0;
        while e < ne
            invariant
                0 <= e <= ne,
                ne == existing@.len(),
                le_val(m@) == mv && mv >= 2,
                le_val(k@) == kv,
                le_val(cur@) == pow_mod(wv, i as nat, mv),
                i < domain_size && size == domain_size as nat,
                le_val(w@) == wv,
                forall|e2: int|
                    0 <= e2 < e ==> kv != ((le_val((#[trigger] existing@[e2])@) * pow_mod(
                        wv,
                        i as nat,
                        mv,
                    )) as int) % (mv as int),
            decreases ne - e,
        {
            let t = big_mul_mod(&existing[e], &cur, m);
            if eq_val(k, &t) {
                proof {
                    lemma_in_coset_intro(kv, le_val(existing@[e as int]@), wv, i as nat, size, mv);
                }
                return true;
            }
            e = e + 1;
        }
        let next = big_mul_mod(&cur, w, m);
        proof {
            lemma_pow_nonneg(wv, i as nat);
            lemma_mul_mod_noop_general(pow(wv as int, i as nat), wv as int, mv as int);
            vstd::arithmetic::power::lemma_pow1(wv as int);
            lemma_pow_adds(wv as int, i as nat, 1);
            assert(le_val(next@) == pow_mod(wv, (i + 1) as nat, mv));
        }
        cur = next;
        i = i + 1;
    }
    proof {
        if in_subgroup(kv, wv, size, mv) {
            let j = choose|j: nat| j < size && kv == #[trigger] pow_mod(wv, j, mv);
            assert(false);
        }
        if exists|e: int|
            0 <= e < existing@.len() && in_coset(
                kv,
                le_val((#[trigger] existing@[e])@),
                wv,
                size,
                mv,
            ) {
            let e = choose|e: int|
                0 <= e < existing@.len() && in_coset(
                    kv,
                    le_val((#[trigger] existing@[e])@),
                    wv,
                    size,
                    mv,
                );
            let j = choose|j: nat|
                j < size && kv == ((le_val(existing@[e]@) * #[trigger] pow_mod(wv, j, mv)) as int)
                    % (mv as int);
            assert(false);
        }
    }
    false
}

/// Finds the two coset generators: the root of unity `w = 2^((r-1) >> pow)`,
/// then the smallest `k1 >= 2` outside `<w>`, then the smallest `k2 > k1`
/// outside `<w>` and outside `k1 * <w>`.  Success is owed whenever `w`
/// closes the domain: by the pigeonhole lemmas, a subgroup walked to
/// `domain_size` powers cannot swallow every candidate, so `None` means the
/// `domain_size`-th power of `w` is not 1 (or a domain too large for the
/// `u64` search space), and neither holds for the recognized scalar fields.
pub fn get_k1_k2(r: &Vec<u8>, pow_exp: usize, domain_size: u64) -> (res: Option<(Vec<u8>, Vec<u8>)>)
    requires
        r@.len() >= 8,
        le_val(r@) > u64::MAX,
    ensures
        res is None ==> ({
            let mv = le_val(r@);
            let wv = pow_mod(2, ((le_val(r@) - 1) as nat) / pow2(pow_exp as nat), mv);
            ||| pow_mod(wv, domain_size as nat, mv) != 1
            ||| 3 * (domain_size as nat) + 4 > u64::MAX
        }),
        res matches Some(p) ==> ({
            let mv = le_val(r@);
            let wv = pow_mod(2, ((le_val(r@) - 1) as nat) / pow2(pow_exp as nat), mv);
            let size = domain_size as nat;
            &&& pow_mod(wv, size, mv) == 1
            &&& fr_wf(p.0@, r@)
            &&& fr_wf(p.1@, r@)
            &&& 2 <= le_val(p.0@) < le_val(p.1@)
            &&& !in_subgroup(le_val(p.0@), wv, size, mv)
            &&& forall|c: nat| 2 <= c < le_val(p.0@) ==> in_subgroup(c, wv, size, mv)
            &&& !in_subgroup(le_val(p.1@), wv, size, mv)
            &&& !in_coset(le_val(p.1@), le_val(p.0@), wv, size, mv)
            &&& forall|c: nat|
                le_val(p.0@) < c < le_val(p.1@) ==> (in_subgroup(c, wv, size, mv) || in_coset(
                    c,
                    le_val(p.0@),
                    wv,
                    size,
                    mv,
                ))
        }),
{
    let ghost mv = le_val(r@);
    let mlen = r.len();
    let zero = zero_bytes(mlen);
    let one = u64_to_fr(1, r);
    let m_minus_1 = big_sub_mod(&zero, &one, r);
    proof {
        lemma_small_mod((mv - 1) as nat, mv);
    }
    let exp = big_shr(&m_minus_1, pow_exp);
    let two = u64_to_fr(2, r);
    let w = big_modpow(&two, &exp, r);
    let ghost wv = le_val(w@);
    let ghost size = domain_size as nat;
    let size_fr = u64_to_fr(domain_size, r);
    let ws = big_modpow(&w, &size_fr, r);
    if !eq_val(&ws, &one) {
        proof {
            assert(pow_mod(wv, size, mv) != 1);
        }
        return None;
    }
    proof {
        assert(pow_mod(wv, size, mv) == 1);
    }
    let mut cand: u64 = 2;
    let empty: Vec<Vec<u8>> = Vec::new();
    while cand < u64::MAX
        invariant
            2 <= cand,
            le_val(r@) == mv && mv > u64::MAX && r@.len() >= 8 && mlen == r@.len(),
            le_val(w@) == wv,
            wv == pow_mod(2, ((mv - 1) as nat) / pow2(pow_exp as nat), mv),
            size == domain_size as nat,
            pow_mod(wv, size, mv) == 1,
            empty@.len() == 0,
            forall|c: nat| 2 <= c < cand as nat ==> in_subgroup(c, wv, size, mv),
        decreases u64::MAX - cand,
    {
        let k1 = u64_to_fr(cand, r);
        if !is_included(&k1, &empty, &w, domain_size, r) {
            // k1 found; search k2 from k1 + 1
            let ghost k1v = le_val(k1@);
            let mut existing: Vec<Vec<u8>> = Vec::new();
            existing.push(crate::lowering::copy_bytes(&k1));
            let mut cand2: u64 = cand + 1;
            while cand2 < u64::MAX
                invariant
                    cand < cand2,
                    le_val(r@) == mv && mv > u64::MAX && r@.len() >= 8 && mlen == r@.len(),
                    le_val(w@) == wv,
                    wv == pow_mod(2, ((mv - 1) as nat) / pow2(pow_exp as nat), mv),
                    size == domain_size as nat,
                    pow_mod(wv, size, mv) == 1,
                    k1v == le_val(k1@) && k1v == cand as nat && 2 <= k1v,
                    fr_wf(k1@, r@),
                    !in_subgroup(k1v, wv, size, mv),
                    forall|c: nat| 2 <= c < k1v ==> in_subgroup(c, wv, size, mv),
                    existing@.len() == 1 && existing@[0]@ == k1@,
                    forall|c: nat|
                        k1v < c < cand2 as nat ==> (in_subgroup(c, wv, size, mv) || in_coset(
                            c,
                            k1v,
                            wv,
                            size,
                            mv,
                        )),
                decreases u64::MAX - cand2,
            {
                let k2 = u64_to_fr(cand2, r);
                if !is_included(&k2, &existing, &w, domain_size, r) {
                    proof {
                        assert(!in_coset(le_val(k2@), k1v, wv, size, mv)) by {
                            if in_coset(le_val(k2@), k1v, wv, size, mv) {
                                assert(0 <= 0 < existing@.len() && in_coset(
                                    le_val(k2@),
                                    le_val(existing@[0]@),
                                    wv,
                                    size,
                                    mv,
                                ));
                            }
                        }
                    }
                    return Some((k1, k2));
                }
                proof {
                    let c2v = cand2 as nat;
                    if !in_subgroup(c2v, wv, size, mv) {
                        let e = choose|e: int|
                            0 <= e < existing@.len() && in_coset(
                                c2v,
                                le_val((#[trigger] existing@[e])@),
                                wv,
                                size,
                                mv,
                            );
                        assert(e == 0);
                        assert(in_coset(c2v, k1v, wv, size, mv));
                    }
                }
                cand2 = cand2 + 1;
            }
            proof {
                if 3 * size + 4 <= u64::MAX {
                    lemma_walk_set(wv, size, mv);
                    let sub = walk_set(wv, size, mv);
                    assert(k1v <= size + 2) by {
                        if k1v > size + 2 {
                            lemma_pigeonhole_range(2, (size + 1) as nat, sub);
                            let c = choose|c: nat|
                                2 <= c < 2 + (size + 1) && !sub.contains(c);
                            assert(in_subgroup(c, wv, size, mv));
                            assert(sub.contains(c));
                        }
                    }
                    lemma_excl_set(k1v, wv, size, mv);
                    let ex = excl_set(k1v, wv, size, mv);
                    lemma_pigeonhole_range((k1v + 1) as nat, (2 * size + 1) as nat, ex);
                    let c = choose|c: nat|
                        k1v + 1 <= c < k1v + 1 + (2 * size + 1) && !ex.contains(c);
                    assert(c < u64::MAX);
                    assert(in_subgroup(c, wv, size, mv) || in_coset(c, k1v, wv, size, mv));
                    if in_subgroup(c, wv, size, mv) {
                        let i = choose|i: nat| i < size && c == pow_mod(wv, i, mv);
                        assert(i < size && (c == pow_mod(wv, i, mv) || c == (((k1v * pow_mod(
                            wv,
                            i,
                            mv,
                        )) as int) % (mv as int)) as nat));
                        assert(ex.contains(c));
                    } else {
                        let i = choose|i: nat|
                            i < size && c == ((k1v * pow_mod(wv, i, mv)) as int) % (mv as int);
                        assert(i < size && (c == pow_mod(wv, i, mv) || c == (((k1v * pow_mod(
                            wv,
                            i,
                            mv,
                        )) as int) % (mv as int)) as nat));
                        assert(ex.contains(c));
                    }
                }
            }
            return None;
        }
        cand = cand + 1;
    }
    proof {
        if 3 * size + 4 <= u64::MAX {
            lemma_walk_set(wv, size, mv);
            let sub = walk_set(wv, size, mv);
            lemma_pigeonhole_range(2, (size + 1) as nat, sub);
            let c = choose|c: nat| 2 <= c < 2 + (size + 1) && !sub.contains(c);
            assert(c < u64::MAX);
            assert(in_subgroup(c, wv, size, mv));
            assert(sub.contains(c));
        }
    }
    None
}

} // verus!
