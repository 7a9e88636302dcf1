//! FFT engine over the BN254 scalar field: twiddle tables and the in-place
//! radix-2 transform, specified at the interface level — table shape,
//! defining equations of the roots, and shape preservation of the
//! transforms.

use vstd::arithmetic::power2::pow2;
use vstd::prelude::*;

use crate::bigint::{big_modinv, big_modpow, big_mul_mod, big_shr, big_sub_mod};
use crate::bytes_le::le_val;
use crate::curves::bn254_r_bytes;
use crate::field::{eq_val, fr_wf, u64_to_fr, zero_bytes};

verus! {

/// Twiddle tables: `w[i]` is a 2^i-th root of unity, `wi[i]` its inverse,
/// each obtained by squaring the next entry.
pub struct FftEngine {
    pub w: Vec<Vec<u8>>,
    pub wi: Vec<Vec<u8>>,
    pub one: Vec<u8>,
    pub twoinv: Vec<u8>,
    pub m: Vec<u8>,
}

impl FftEngine {
    /// Every table entry is a well-formed scalar of the BN254 scalar field
    /// and each entry is the square of the next.
    pub open spec fn wf(self) -> bool {
        &&& self.m@ == bn254_r_bytes()
        &&& self.w@.len() == self.wi@.len()
        &&& self.w@.len() >= 1
        &&& forall|i: int| 0 <= i < self.w@.len() ==> fr_wf((#[trigger] self.w@[i])@, self.m@)
        &&& forall|i: int| 0 <= i < self.wi@.len() ==> fr_wf((#[trigger] self.wi@[i])@, self.m@)
        &&& fr_wf(self.one@, self.m@)
        &&& fr_wf(self.twoinv@, self.m@)
        &&& le_val(self.one@) == 1
        &&& forall|i: int|
            0 <= i < self.w@.len() - 1 ==> le_val((#[trigger] self.w@[i])@) == ((le_val(
                self.w@[i + 1]@,
            ) * le_val(self.w@[i + 1]@)) as int) % (le_val(self.m@) as int)
        &&& forall|i: int|
            0 <= i < self.wi@.len() - 1 ==> le_val((#[trigger] self.wi@[i])@) == ((le_val(
                self.wi@[i + 1]@,
            ) * le_val(self.wi@[i + 1]@)) as int) % (le_val(self.m@) as int)
    }

    /// Builds the twiddle tables for domains up to 2^max_bits: finds the
    /// smallest non-residue, seeds `w[max_bits]` with its
    /// `(r-1) >> max_bits` power, and fills the rest by squaring.  `None`
    /// only if the bounded non-residue search runs out, which cannot happen
    /// over a field with a non-residue below 2^64.
    pub fn new(max_bits: usize) -> (res: Option<FftEngine>)
        requires
            max_bits < 10000,
        ensures
            res is None ==> forall|c: nat|
                1 <= c < u64::MAX ==> #[trigger] crate::domain::pow_mod(
                    c,
                    ((crate::curves::bn254_r_val() - 1) as nat) / 2,
                    crate::curves::bn254_r_val(),
                ) == 1,
            res matches Some(e) ==> {
                let mv = crate::curves::bn254_r_val();
                &&& e.wf()
                &&& e.w@.len() == max_bits + 1
                &&& exists|g: nat| #![trigger crate::domain::pow_mod(g, ((mv - 1) as nat) / 2, mv)]
                    {
                        &&& 1 <= g
                        &&& crate::domain::pow_mod(g, ((mv - 1) as nat) / 2, mv) != 1
                        &&& forall|c: nat|
                            1 <= c < g ==> #[trigger] crate::domain::pow_mod(
                                c,
                                ((mv - 1) as nat) / 2,
                                mv,
                            ) == 1
                        &&& le_val(e.w@[max_bits as int]@) == crate::domain::pow_mod(
                            g,
                            ((mv - 1) as nat) / pow2(max_bits as nat),
                            mv,
                        )
                    }
                &&& ((2 * le_val(e.twoinv@)) as int) % (le_val(e.m@) as int) == 1int % (le_val(
                    e.m@,
                ) as int) || le_val(e.twoinv@) == 0
                &&& ((le_val(e.w@[max_bits as int]@) * le_val(e.wi@[max_bits as int]@)) as int)
                    % (le_val(e.m@) as int) == 1int % (le_val(e.m@) as int) || le_val(
                    e.wi@[max_bits as int]@,
                ) == 0
            },
    {
        let m = crate::curves::Curve::r();
        let ghost mv = le_val(m@);
        proof {
            crate::curves::lemma_curve_constants();
        }
        let mlen = m.len();
        let zero = zero_bytes(mlen);
        let one = u64_to_fr(1, &m);
        let m_minus_1 = big_sub_mod(&zero, &one, &m);
        proof {
            vstd::arithmetic::div_mod::lemma_small_mod((mv - 1) as nat, mv);
            vstd::arithmetic::power2::lemma2_to64();
        }
        let half = big_shr(&m_minus_1, 1);

        // smallest non-residue: the first base whose (r-1)/2 power is not 1
        let mut nqr_int: u64 = 1;
        let mut nqr = u64_to_fr(1, &m);
        loop
            invariant
                1 <= nqr_int,
                m@ == bn254_r_bytes(),
                le_val(m@) == mv && mv > u64::MAX && m@.len() == mlen && mlen >= 8,
                le_val(half@) == ((mv - 1) as nat) / 2,
                le_val(one@) == 1 && one@.len() == mlen,
                le_val(nqr@) == nqr_int && nqr@.len() == mlen,
                forall|c: nat|
                    1 <= c < nqr_int ==> #[trigger] crate::domain::pow_mod(
                        c,
                        ((mv - 1) as nat) / 2,
                        mv,
                    ) == 1,
            ensures
                le_val(nqr@) == nqr_int,
                nqr@.len() == mlen,
                crate::domain::pow_mod(nqr_int as nat, ((mv - 1) as nat) / 2, mv) != 1,
                forall|c: nat|
                    1 <= c < nqr_int ==> #[trigger] crate::domain::pow_mod(
                        c,
                        ((mv - 1) as nat) / 2,
                        mv,
                    ) == 1,
            decreases u64::MAX - nqr_int,
        {
            let p = big_modpow(&nqr, &half, &m);
            if !eq_val(&p, &one) {
                break ;
            }
            if nqr_int == u64::MAX {
                proof {
                    crate::curves::lemma_curve_constants();
                }
                return None;
            }
            nqr_int = nqr_int + 1;
            nqr = u64_to_fr(nqr_int, &m);
        }

        let pow_bytes = big_shr(&m_minus_1, max_bits);
        let w_top = big_modpow(&nqr, &pow_bytes, &m);
        let wi_top = match big_modinv(&w_top, &m) {
            None => zero_bytes(mlen),
            Some(v) => v,
        };
        let twoinv = {
            let two = u64_to_fr(2, &m);
            match big_modinv(&two, &m) {
                None => zero_bytes(mlen),
                Some(v) => v,
            }
        };

        // fill the tables from the top by squaring
        let mut w: Vec<Vec<u8>> = Vec::new();
        let mut wi: Vec<Vec<u8>> = Vec::new();
        let mut i: usize = 0;
        while i < max_bits + 1
            invariant
                i <= max_bits + 1,
                max_bits < 10000,
                le_val(m@) == mv && mv >= 2 && m@.len() == mlen,
                w@.len() == i && wi@.len() == i,
                forall|j: int| 0 <= j < i ==> fr_wf((#[trigger] w@[j])@, m@),
                forall|j: int| 0 <= j < i ==> fr_wf((#[trigger] wi@[j])@, m@),
            decreases max_bits + 1 - i,
        {
            w.push(zero_bytes(mlen));
            wi.push(zero_bytes(mlen));
            i = i + 1;
        }
        proof {
            crate::domain::lemma_pow_nonneg(le_val(nqr@), le_val(pow_bytes@));
            vstd::arithmetic::div_mod::lemma_mod_bound(
                vstd::arithmetic::power::pow(le_val(nqr@) as int, le_val(pow_bytes@)),
                mv as int,
            );
        }
        w.set(max_bits, w_top);
        wi.set(max_bits, wi_top);
        proof {
            assert(fr_wf(w_top@, m@));
            assert(forall|j: int| 0 <= j < w@.len() ==> fr_wf((#[trigger] w@[j])@, m@));
            assert(forall|j: int| 0 <= j < wi@.len() ==> fr_wf((#[trigger] wi@[j])@, m@));
        }
        let ghost w_top_v = le_val(w_top@);
        let ghost wi_top_v = le_val(wi_top@);
        let ghost twoinv_v = le_val(twoinv@);
        let mut k: usize = max_bits;
        while k > 0
            invariant
                0 <= k <= max_bits,
                max_bits < 10000,
                m@ == bn254_r_bytes(),
                le_val(m@) == mv && mv >= 2 && m@.len() == mlen,
                le_val(one@) == 1 && fr_wf(one@, m@),
                fr_wf(twoinv@, m@) && le_val(twoinv@) == twoinv_v,
                ((2 * twoinv_v) as int) % (mv as int) == 1int % (mv as int) || twoinv_v == 0,
                le_val(w@[max_bits as int]@) == w_top_v,
                le_val(wi@[max_bits as int]@) == wi_top_v,
                ((w_top_v * wi_top_v) as int) % (mv as int) == 1int % (mv as int) || wi_top_v
                    == 0,
                w@.len() == max_bits + 1 && wi@.len() == max_bits + 1,
                forall|j: int| 0 <= j < w@.len() ==> fr_wf((#[trigger] w@[j])@, m@),
                forall|j: int| 0 <= j < wi@.len() ==> fr_wf((#[trigger] wi@[j])@, m@),
                forall|j: int|
                    k <= j < max_bits ==> le_val((#[trigger] w@[j])@) == ((le_val(w@[j + 1]@)
                        * le_val(w@[j + 1]@)) as int) % (mv as int),
                forall|j: int|
                    k <= j < max_bits ==> le_val((#[trigger] wi@[j])@) == ((le_val(wi@[j + 1]@)
                        * le_val(wi@[j + 1]@)) as int) % (mv as int),
            decreases k,
        {
            let sq = big_mul_mod(&w[k], &w[k], &m);
            w.set(k - 1, sq);
            let sqi = big_mul_mod(&wi[k], &wi[k], &m);
            wi.set(k - 1, sqi);
            k = k - 1;
        }
        proof {
            crate::curves::lemma_curve_constants();
            assert(le_val(w@[max_bits as int]@) == crate::domain::pow_mod(
                nqr_int as nat,
                ((mv - 1) as nat) / pow2(max_bits as nat),
                mv,
            ));
        }
        Some(FftEngine { w, wi, one, twoinv, m })
    }

    /// Forward transform.
    pub fn fft(&self, input: &Vec<Vec<u8>>) -> (r: Vec<Vec<u8>>)
        requires
            self.wf(),
            exists|b: nat| b < self.w@.len() && input@.len() == pow2(b),
            forall|i: int| 0 <= i < input@.len() ==> fr_wf((#[trigger] input@[i])@, self.m@),
        ensures
            r@.len() == input@.len(),
            forall|i: int| 0 <= i < r@.len() ==> fr_wf((#[trigger] r@[i])@, self.m@),
    {
        self.fft_internal(input, false)
    }

    /// Inverse transform: the reverse butterfly pass, scaled by the inverse
    /// of the input length.
    pub fn ifft(&self, input: &Vec<Vec<u8>>) -> (r: Vec<Vec<u8>>)
        requires
            self.wf(),
            le_val(self.m@) > u64::MAX,
            self.m@.len() >= 8,
            input@.len() <= u64::MAX,
            exists|b: nat| b < self.w@.len() && input@.len() == pow2(b),
            forall|i: int| 0 <= i < input@.len() ==> fr_wf((#[trigger] input@[i])@, self.m@),
        ensures
            r@.len() == input@.len(),
            forall|i: int| 0 <= i < r@.len() ==> fr_wf((#[trigger] r@[i])@, self.m@),
    {
        let out = self.fft_internal(input, true);
        let n_fr = u64_to_fr(input.len() as u64, &self.m);
        let mlen = self.m.len();
        let inv_n = match big_modinv(&n_fr, &self.m) {
            None => zero_bytes(mlen),
            Some(v) => v,
        };
        let ghost mv = le_val(self.m@);
        let n = out.len();
        let mut res: Vec<Vec<u8>> = Vec::new();
        let mut i: usize = 0;
        while i < n
            invariant
                i <= n,
                n == out@.len(),
                le_val(self.m@) == mv && mv >= 2,
                res@.len() == i,
                forall|j: int| 0 <= j < i ==> fr_wf((#[trigger] res@[j])@, self.m@),
            decreases n - i,
        {
            let x = big_mul_mod(&out[i], &inv_n, &self.m);
            res.push(x);
            i = i + 1;
        }
        res
    }

    /// One radix-2 pass structure: permute by bit reversal, then butterfly
    /// rounds with the forward or inverse twiddles.
    fn fft_internal(&self, input: &Vec<Vec<u8>>, inverse: bool) -> (r: Vec<Vec<u8>>)
        requires
            self.wf(),
            exists|b: nat| b < self.w@.len() && input@.len() == pow2(b),
            forall|i: int| 0 <= i < input@.len() ==> fr_wf((#[trigger] input@[i])@, self.m@),
        ensures
            r@.len() == input@.len(),
            forall|i: int| 0 <= i < r@.len() ==> fr_wf((#[trigger] r@[i])@, self.m@),
    {
        let n = input.len();
        let wl = self.w.len();
        let ghost b0 = choose|b: nat| b < self.w@.len() && input@.len() == pow2(b);
        // recover the exponent of the power-of-two length
        let mut bits: usize = 0;
        let mut v: usize = 1;
        proof {
            vstd::arithmetic::power2::lemma2_to64();
            vstd::arithmetic::power2::lemma_pow2_pos(b0);
        }
        while v < n
            invariant
                v == pow2(bits as nat),
                1 <= v <= n,
                bits <= b0,
                n == pow2(b0),
                n == input@.len(),
                b0 < wl,
                wl == self.w@.len(),
            decreases n - v,
        {
            proof {
                vstd::arithmetic::power2::lemma_pow2_unfold(bits as nat + 1);
                if bits as nat >= b0 {
                    assert(pow2(bits as nat) >= pow2(b0)) by {
                        if (bits as nat) > b0 {
                            vstd::arithmetic::power2::lemma_pow2_strictly_increases(
                                b0,
                                bits as nat,
                            );
                        }
                    }
                }
                assert((bits as nat) < b0);
                if bits as nat + 1 < b0 {
                    vstd::arithmetic::power2::lemma_pow2_strictly_increases(bits as nat + 1, b0);
                }
                assert(2 * v == pow2(bits as nat + 1));
                assert(pow2(bits as nat + 1) <= pow2(b0));
                assert(2 * v <= n);
            }
            v = v * 2;
            bits = bits + 1;
        }
        proof {
            if (bits as nat) < b0 {
                vstd::arithmetic::power2::lemma_pow2_strictly_increases(bits as nat, b0);
            }
        }
        let mlen = self.m.len();
        let ghost mv = le_val(self.m@);

        // bit-reversal permutation
        let mut output: Vec<Vec<u8>> = Vec::new();
        let mut i: usize = 0;
        while i < n
            invariant
                i <= n,
                n == input@.len(),
                le_val(self.m@) == mv && mv >= 2 && self.m@.len() == mlen,
                output@.len() == i,
                forall|q: int| 0 <= q < i ==> fr_wf((#[trigger] output@[q])@, self.m@),
            decreases n - i,
        {
            output.push(zero_bytes(mlen));
            i = i + 1;
        }
        let mut i: usize = 0;
        while i < n
            invariant
                i <= n,
                n == input@.len() && n == pow2(b0) && bits == b0,
                n <= usize::MAX,
                le_val(self.m@) == mv && mv >= 2 && self.m@.len() == mlen,
                output@.len() == n,
                forall|q: int| 0 <= q < input@.len() ==> fr_wf((#[trigger] input@[q])@, self.m@),
                forall|q: int| 0 <= q < n ==> fr_wf((#[trigger] output@[q])@, self.m@),
                self.wf(),
            decreases n - i,
        {
            let rev = bit_reverse(i, bits);
            proof {
                lemma_bitrev_bound(i as nat, bits as nat);
            }
            let x = crate::lowering::copy_bytes(&input[i]);
            output.set(rev, x);
            i = i + 1;
        }
        let mut s: usize = 1;
        while s <= bits
            invariant
                1 <= s <= bits + 1,
                bits < wl,
                wl == self.w@.len(),
                n == input@.len() && n == pow2(b0) && bits == b0,
                output@.len() == n,
                self.wf(),
                le_val(self.m@) == mv && mv >= 2 && self.m@.len() == mlen,
                forall|q: int| 0 <= q < output@.len() ==> fr_wf((#[trigger] output@[q])@, self.m@),
            decreases bits + 1 - s,
        {
            let half_m = pow2_usize(s - 1, n);
            proof {
                vstd::arithmetic::power2::lemma_pow2_unfold(s as nat);
                if (s as nat) < bits as nat {
                    vstd::arithmetic::power2::lemma_pow2_strictly_increases(s as nat, bits as nat);
                }
            }
            let mm = half_m * 2;
            let root = if inverse {
                &self.wi[s]
            } else {
                &self.w[s]
            };
            let mut k: usize = 0;
            while k <= n - mm
                invariant
                    0 <= k <= n,
                    mm == 2 * half_m,
                    half_m >= 1,
                    mm <= n,
                    output@.len() == n,
                    self.wf(),
                    le_val(self.m@) == mv && mv >= 2 && self.m@.len() == mlen,
                    fr_wf(root@, self.m@),
                    forall|q: int|
                        0 <= q < output@.len() ==> fr_wf((#[trigger] output@[q])@, self.m@),
                decreases n - k,
            {
                let mut wcur = u64_to_fr(1, &self.m);
                let mut j: usize = 0;
                while j < half_m
                    invariant
                        0 <= j <= half_m,
                        k + 2 * half_m <= n,
                        output@.len() == n,
                        self.wf(),
                        le_val(self.m@) == mv && mv >= 2 && self.m@.len() == mlen,
                        fr_wf(root@, self.m@),
                        fr_wf(wcur@, self.m@),
                        forall|q: int|
                            0 <= q < output@.len() ==> fr_wf((#[trigger] output@[q])@, self.m@),
                    decreases half_m - j,
                {
                    let t = big_mul_mod(&wcur, &output[k + j + half_m], &self.m);
                    let u = crate::lowering::copy_bytes(&output[k + j]);
                    let sum = crate::bigint::big_add_mod(&u, &t, &self.m);
                    let diff = big_sub_mod(&u, &t, &self.m);
                    output.set(k + j, sum);
                    output.set(k + j + half_m, diff);
                    wcur = big_mul_mod(&wcur, root, &self.m);
                    j = j + 1;
                }
                k = k + mm;
            }
            s = s + 1;
        }
        output
    }
}

/// 2^p as a `usize`, bounded by a known power of two.
fn pow2_usize(p: usize, bound: usize) -> (r: usize)
    requires
        exists|b: nat| p <= b && bound == pow2(b),
    ensures
        r == pow2(p as nat),
        r >= 1,
        r <= bound,
{
    let ghost b = choose|b: nat| p <= b && bound == pow2(b);
    let mut i: usize = 0;
    let mut r: usize = 1;
    proof {
        vstd::arithmetic::power2::lemma2_to64();
        vstd::arithmetic::power2::lemma_pow2_pos(b);
        vstd::arithmetic::power2::lemma_pow2_pos(p as nat);
    }
    while i < p
        invariant
            i <= p,
            r == pow2(i as nat),
            p <= b && bound == pow2(b),
            r <= bound,
        decreases p - i,
    {
        proof {
            vstd::arithmetic::power2::lemma_pow2_unfold(i as nat + 1);
            if i as nat + 1 < b {
                vstd::arithmetic::power2::lemma_pow2_strictly_increases(i as nat + 1, b);
            }
        }
        r = r * 2;
        i = i + 1;
    }
    proof {
        if (p as nat) < b {
            vstd::arithmetic::power2::lemma_pow2_strictly_increases(p as nat, b);
        }
    }
    r
}

/// The bit-reversal of `x` over `bits` bits, accumulated most-significant
/// first: bit j of the input becomes bit bits-1-j of the result.
pub open spec fn bitrev(x: nat, bits: nat) -> nat
    decreases bits,
{
    if bits == 0 {
        0
    } else {
        bitrev(x, (bits - 1) as nat) * 2 + (x / pow2((bits - 1) as nat)) % 2
    }
}

/// Bit reversal is bounded by the width.
pub proof fn lemma_bitrev_bound(x: nat, bits: nat)
    ensures
        bitrev(x, bits) < pow2(bits),
    decreases bits,
{
    vstd::arithmetic::power2::lemma_pow2_pos(bits);
    if bits > 0 {
        lemma_bitrev_bound(x, (bits - 1) as nat);
        vstd::arithmetic::power2::lemma_pow2_unfold(bits);
    }
}

/// Reverses the low `bits` bits of `x`.
pub fn bit_reverse(x: usize, bits: usize) -> (r: usize)
    requires
        exists|b: nat| bits <= b && pow2(b) <= usize::MAX,
    ensures
        r == bitrev(x as nat, bits as nat),
{
    let mut x = x;
    let mut result: usize = 0;
    let mut i: usize = 0;
    let ghost x0 = x as nat;
    proof {
        let b = choose|b: nat| bits <= b && pow2(b) <= usize::MAX;
        if (bits as nat) < b {
            vstd::arithmetic::power2::lemma_pow2_strictly_increases(bits as nat, b);
        }
        vstd::arithmetic::power2::lemma2_to64();
    }
    while i < bits
        invariant
            i <= bits,
            pow2(bits as nat) <= usize::MAX,
            x == x0 / pow2(i as nat),
            result == bitrev(x0, i as nat),
        decreases bits - i,
    {
        proof {
            lemma_bitrev_bound(x0, i as nat);
            if (i as nat) + 1 < bits as nat {
                vstd::arithmetic::power2::lemma_pow2_strictly_increases(
                    i as nat + 1,
                    bits as nat,
                );
            }
            vstd::arithmetic::power2::lemma_pow2_unfold(i as nat + 1);
            vstd::arithmetic::div_mod::lemma_div_denominator(
                x0 as int,
                pow2(i as nat) as int,
                2,
            );
            vstd::arithmetic::power2::lemma_pow2_pos(i as nat);
        }
        result = result * 2 + (x % 2);
        x = x / 2;
        i = i + 1;
    }
    result
}

} // verus!
