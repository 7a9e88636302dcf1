//! Little-endian byte strings as unsigned integers.
//!
//! Every scalar and every multi-byte integer in the container format is a
//! little-endian byte string; `le_val` is the single interpretation the whole
//! crate states its contracts over.

use vstd::prelude::*;

verus! {

/// Value of a little-endian byte string: byte 0 is the least significant.
pub open spec fn le_val(s: Seq<u8>) -> nat
    decreases s.len(),
{
    if s.len() == 0 {
        0
    } else {
        (s[0] + 256 * le_val(s.skip(1))) as nat
    }
}

/// 256^n, the number of values representable in n bytes.
pub open spec fn pow256(n: nat) -> nat
    decreases n,
{
    if n == 0 {
        1
    } else {
        256 * pow256((n - 1) as nat)
    }
}

pub proof fn lemma_pow256_pos(n: nat)
    ensures
        pow256(n) >= 1,
    decreases n,
{
    if n > 0 {
        lemma_pow256_pos((n - 1) as nat);
    }
}

/// A byte string of length n holds a value below 256^n.
pub proof fn lemma_le_val_bound(s: Seq<u8>)
    ensures
        le_val(s) < pow256(s.len()),
    decreases s.len(),
{
    if s.len() > 0 {
        lemma_le_val_bound(s.skip(1));
    }
}

/// Concatenation splits the value at the byte boundary.
pub proof fn lemma_le_val_append(s: Seq<u8>, t: Seq<u8>)
    ensures
        le_val(s + t) == le_val(s) + pow256(s.len()) * le_val(t),
    decreases s.len(),
{
    if s.len() == 0 {
        assert(s + t =~= t);
    } else {
        let k = (s.len() - 1) as nat;
        lemma_le_val_append(s.skip(1), t);
        assert((s + t).skip(1) =~= s.skip(1) + t);
        assert(le_val(s + t) == s[0] + 256 * le_val(s.skip(1) + t));
        assert(le_val(s) == s[0] + 256 * le_val(s.skip(1)));
        assert(pow256(s.len()) == 256 * pow256(k));
        assert(256 * (pow256(k) * le_val(t)) == (256 * pow256(k)) * le_val(t))
            by (nonlinear_arith);
    }
}

/// Trailing zero bytes do not change the value.
pub proof fn lemma_le_val_push_zero(s: Seq<u8>)
    ensures
        le_val(s.push(0)) == le_val(s),
{
    reveal_with_fuel(le_val, 3);
    lemma_le_val_append(s, seq![0u8]);
    lemma_pow256_pos(s.len());
    assert(seq![0u8].skip(1) =~= Seq::<u8>::empty());
    assert(s.push(0) =~= s + seq![0u8]);
}

/// At a fixed length, the little-endian encoding is injective.
pub proof fn lemma_le_val_injective(s: Seq<u8>, t: Seq<u8>)
    requires
        s.len() == t.len(),
        le_val(s) == le_val(t),
    ensures
        s =~= t,
    decreases s.len(),
{
    if s.len() > 0 {
        assert(le_val(s) % 256 == s[0]) by {
            lemma_le_val_bound(s.skip(1));
        }
        assert(le_val(t) % 256 == t[0]) by {
            lemma_le_val_bound(t.skip(1));
        }
        assert(le_val(s) / 256 == le_val(s.skip(1)));
        assert(le_val(t) / 256 == le_val(t.skip(1)));
        lemma_le_val_injective(s.skip(1), t.skip(1));
        assert(s =~= seq![s[0]] + s.skip(1));
        assert(t =~= seq![t[0]] + t.skip(1));
    }
}

/// Reads the little-endian `u32` at `pos`.
pub fn read_u32_at(data: &Vec<u8>, pos: usize) -> (r: u32)
    requires
        pos + 4 <= data@.len(),
    ensures
        r == le_val(data@.subrange(pos as int, pos + 4)),
{
    let n = data.len();
    assert(pos + 4 <= n);
    let b0 = data[pos] as u32;
    let b1 = data[pos + 1] as u32;
    let b2 = data[pos + 2] as u32;
    let b3 = data[pos + 3] as u32;
    proof {
        reveal_with_fuel(le_val, 5);
        let s = data@.subrange(pos as int, pos + 4);
        assert(s.skip(1) =~= data@.subrange(pos + 1, pos + 4));
        assert(s.skip(1).skip(1) =~= data@.subrange(pos + 2, pos + 4));
        assert(s.skip(1).skip(1).skip(1) =~= data@.subrange(pos + 3, pos + 4));
        assert(s.skip(1).skip(1).skip(1).skip(1) =~= Seq::<u8>::empty());
    }
    b0 + b1 * 0x100 + b2 * 0x10000 + b3 * 0x1000000
}

/// Reads the little-endian `u64` at `pos`.
pub fn read_u64_at(data: &Vec<u8>, pos: usize) -> (r: u64)
    requires
        pos + 8 <= data@.len(),
    ensures
        r == le_val(data@.subrange(pos as int, pos + 8)),
{
    let n = data.len();
    assert(pos + 8 <= n);
    let lo = read_u32_at(data, pos) as u64;
    let hi = read_u32_at(data, pos + 4) as u64;
    proof {
        let s = data@.subrange(pos as int, pos + 8);
        let a = data@.subrange(pos as int, pos + 4);
        let b = data@.subrange(pos + 4, pos + 8);
        assert(s =~= a + b);
        lemma_le_val_append(a, b);
        lemma_le_val_bound(b);
        assert(pow256(4) == 0x100000000) by {
            reveal_with_fuel(pow256, 5);
        }
        assert(le_val(s) == le_val(a) + 0x100000000 * le_val(b));
        assert(lo == le_val(a) && hi == le_val(b));
    }
    lo + hi * 0x100000000
}

/// Appends the 4 little-endian bytes of `x`.
pub fn push_u32_le(out: &mut Vec<u8>, x: u32)
    ensures
        final(out)@ == old(out)@ + u32_le_bytes(x),
{
    let ghost pre = out@;
    out.push((x % 0x100) as u8);
    out.push((x / 0x100 % 0x100) as u8);
    out.push((x / 0x10000 % 0x100) as u8);
    out.push((x / 0x1000000) as u8);
    proof {
        assert(out@ =~= pre + u32_le_bytes(x));
    }
}

/// The 4 little-endian bytes of a `u32`.
pub open spec fn u32_le_bytes(x: u32) -> Seq<u8> {
    seq![
        (x % 0x100) as u8,
        (x / 0x100 % 0x100) as u8,
        (x / 0x10000 % 0x100) as u8,
        (x / 0x1000000) as u8,
    ]
}

/// The 8 little-endian bytes of a `u64`.
pub open spec fn u64_le_bytes(x: u64) -> Seq<u8> {
    u32_le_bytes((x % 0x100000000) as u32) + u32_le_bytes((x / 0x100000000) as u32)
}

pub proof fn lemma_u32_le_bytes_val(x: u32)
    ensures
        u32_le_bytes(x).len() == 4,
        le_val(u32_le_bytes(x)) == x,
{
    reveal_with_fuel(le_val, 5);
    let s = u32_le_bytes(x);
    assert(s.skip(1) =~= seq![s[1], s[2], s[3]]);
    assert(s.skip(1).skip(1) =~= seq![s[2], s[3]]);
    assert(s.skip(1).skip(1).skip(1) =~= seq![s[3]]);
    assert(seq![s[3]].skip(1) =~= Seq::<u8>::empty());
    assert(x % 0x100 + 0x100 * (x / 0x100 % 0x100 + 0x100 * (x / 0x10000 % 0x100 + 0x100 * (x
        / 0x1000000))) == x) by (bit_vector);
}

pub proof fn lemma_u64_le_bytes_val(x: u64)
    ensures
        u64_le_bytes(x).len() == 8,
        le_val(u64_le_bytes(x)) == x,
{
    let lo = (x % 0x100000000) as u32;
    let hi = (x / 0x100000000) as u32;
    lemma_u32_le_bytes_val(lo);
    lemma_u32_le_bytes_val(hi);
    lemma_le_val_append(u32_le_bytes(lo), u32_le_bytes(hi));
    assert(pow256(4) == 0x100000000) by {
        reveal_with_fuel(pow256, 5);
    }
    assert(lo == x % 0x100000000);
    assert(hi == x / 0x100000000);
    assert(x == x % 0x100000000 + 0x100000000 * (x / 0x100000000));
}

/// Appends the 8 little-endian bytes of `x`.
pub fn push_u64_le(out: &mut Vec<u8>, x: u64)
    ensures
        final(out)@ == old(out)@ + u64_le_bytes(x),
{
    let ghost pre = out@;
    push_u32_le(out, (x % 0x100000000) as u32);
    push_u32_le(out, (x / 0x100000000) as u32);
    proof {
        assert(out@ =~= pre + u64_le_bytes(x));
    }
}

} // verus!
