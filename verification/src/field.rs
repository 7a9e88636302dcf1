//! Verified helpers for scalars held as fixed-width little-endian bytes.
//!
//! A scalar of the field with modulus `m` is a byte vector of exactly
//! `m.len()` bytes whose value is below `le_val(m)`; `fr_wf` is that
//! invariant.  Equality, the zero test and small-integer injection need no
//! outside help and are verified here; the modular operations come from the
//! wrappers in `bigint`.

use vstd::prelude::*;

use crate::bytes_le::{le_val, lemma_le_val_injective, lemma_le_val_push_zero};

verus! {

/// Well-formed scalar for the modulus held as bytes `m`.
pub open spec fn fr_wf(s: Seq<u8>, m: Seq<u8>) -> bool {
    s.len() == m.len() && le_val(s) < le_val(m)
}

/// A byte string is zero-valued exactly when all its bytes are zero.
pub proof fn lemma_le_val_zero(s: Seq<u8>)
    ensures
        (le_val(s) == 0) <==> (forall|i: int| 0 <= i < s.len() ==> s[i] == 0),
    decreases s.len(),
{
    if s.len() > 0 {
        lemma_le_val_zero(s.skip(1));
        if le_val(s) == 0 {
            assert forall|i: int| 0 <= i < s.len() implies s[i] == 0 by {
                if i >= 1 {
                    assert(s.skip(1)[i - 1] == s[i]);
                }
            }
        }
        if forall|i: int| 0 <= i < s.len() ==> s[i] == 0 {
            assert forall|i: int| 0 <= i < s.skip(1).len() implies s.skip(1)[i] == 0 by {
                assert(s.skip(1)[i] == s[i + 1]);
            }
        }
    }
}

/// True exactly when the byte string holds the value zero.
pub fn is_zero_bytes(a: &Vec<u8>) -> (r: bool)
    ensures
        r <==> le_val(a@) == 0,
{
    let n = a.len();
    let mut i: usize = 0;
    while i < n
        invariant
            i <= n,
            n == a@.len(),
            forall|j: int| 0 <= j < i ==> a@[j] == 0,
        decreases n - i,
    {
        if a[i] != 0 {
            proof {
                lemma_le_val_zero(a@);
            }
            return false;
        }
        i = i + 1;
    }
    proof {
        lemma_le_val_zero(a@);
    }
    true
}

/// Appending zero bytes keeps the value.
pub proof fn lemma_le_val_pad(s: Seq<u8>, n: nat)
    requires
        s.len() <= n,
    ensures
        le_val(pad_zeros(s, n)) == le_val(s),
        pad_zeros(s, n).len() == n,
    decreases n - s.len(),
{
    if s.len() < n {
        lemma_le_val_push_zero(s);
        lemma_le_val_pad(s.push(0), n);
    }
}

/// `s` extended with zero bytes to length `n`.
pub open spec fn pad_zeros(s: Seq<u8>, n: nat) -> Seq<u8>
    decreases n - s.len(),
{
    if s.len() >= n {
        s
    } else {
        pad_zeros(s.push(0), n)
    }
}

pub proof fn lemma_pad_zeros_index(s: Seq<u8>, n: nat)
    requires
        s.len() <= n,
    ensures
        forall|i: int|
            0 <= i < n ==> #[trigger] pad_zeros(s, n)[i] == if i < s.len() {
                s[i]
            } else {
                0
            },
    decreases n - s.len(),
{
    if s.len() < n {
        lemma_pad_zeros_index(s.push(0), n);
        assert forall|i: int|
            0 <= i < n implies #[trigger] pad_zeros(s, n)[i] == if i < s.len() {
                s[i]
            } else {
                0
            } by {
            assert(pad_zeros(s, n) == pad_zeros(s.push(0), n));
            assert(pad_zeros(s.push(0), n)[i] == if i < s.push(0).len() {
                s.push(0)[i]
            } else {
                0
            });
        }
    }
}

/// True exactly when the two byte strings hold the same value, whatever
/// their widths.
pub fn eq_val(a: &Vec<u8>, b: &Vec<u8>) -> (r: bool)
    ensures
        r <==> le_val(a@) == le_val(b@),
{
    let na = a.len();
    let nb = b.len();
    let n = if na > nb {
        na
    } else {
        nb
    };
    let ghost pa = pad_zeros(a@, n as nat);
    let ghost pb = pad_zeros(b@, n as nat);
    proof {
        lemma_le_val_pad(a@, n as nat);
        lemma_le_val_pad(b@, n as nat);
        lemma_pad_zeros_index(a@, n as nat);
        lemma_pad_zeros_index(b@, n as nat);
    }
    let mut i: usize = 0;
    while i < n
        invariant
            i <= n,
            na == a@.len() && nb == b@.len(),
            n == if na > nb { na } else { nb },
            pa == pad_zeros(a@, n as nat) && pb == pad_zeros(b@, n as nat),
            pa.len() == n && pb.len() == n,
            le_val(pa) == le_val(a@) && le_val(pb) == le_val(b@),
            forall|j: int| 0 <= j < n ==> pa[j] == if j < a@.len() { a@[j] } else { 0 },
            forall|j: int| 0 <= j < n ==> pb[j] == if j < b@.len() { b@[j] } else { 0 },
            forall|j: int| 0 <= j < i ==> pa[j] == pb[j],
        decreases n - i,
    {
        let x: u8 = if i < na {
            a[i]
        } else {
            0
        };
        let y: u8 = if i < nb {
            b[i]
        } else {
            0
        };
        if x != y {
            proof {
                if le_val(a@) == le_val(b@) {
                    lemma_le_val_injective(pa, pb);
                }
            }
            return false;
        }
        i = i + 1;
    }
    proof {
        assert(pa =~= pb);
    }
    true
}

/// A vector of `n` zero bytes.
pub fn zero_bytes(n: usize) -> (r: Vec<u8>)
    ensures
        r@.len() == n,
        le_val(r@) == 0,
        forall|i: int| 0 <= i < n ==> r@[i] == 0,
{
    let mut out: Vec<u8> = Vec::new();
    let mut i: usize = 0;
    while i < n
        invariant
            i <= n,
            out@.len() == i,
            forall|j: int| 0 <= j < i ==> out@[j] == 0,
        decreases n - i,
    {
        out.push(0);
        i = i + 1;
    }
    proof {
        lemma_le_val_zero(out@);
    }
    out
}

/// The value `x`, injected as a scalar of the same width as `m`.
pub fn u64_to_fr(x: u64, m: &Vec<u8>) -> (r: Vec<u8>)
    requires
        m@.len() >= 8,
        le_val(m@) > x,
    ensures
        r@.len() == m@.len(),
        le_val(r@) == x,
        fr_wf(r@, m@),
{
    let mut out: Vec<u8> = Vec::new();
    crate::bytes_le::push_u64_le(&mut out, x);
    proof {
        crate::bytes_le::lemma_u64_le_bytes_val(x);
        assert(out@ =~= crate::bytes_le::u64_le_bytes(x));
    }
    let mut i: usize = 8;
    let n = m.len();
    while i < n
        invariant
            8 <= i <= n,
            out@.len() == i,
            le_val(out@) == x,
        decreases n - i,
    {
        proof {
            lemma_le_val_push_zero(out@);
        }
        out.push(0);
        i = i + 1;
    }
    out
}

} // verus!
