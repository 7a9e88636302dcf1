//! Small integer helpers: base-2 logarithms and the circuit-power rule.

use vstd::arithmetic::power2::pow2;
use vstd::prelude::*;

verus! {

/// Floor of the base-2 logarithm: the largest p with 2^p <= v.
pub fn log2_floor(v: u32) -> (r: u32)
    requires
        v >= 1,
    ensures
        pow2(r as nat) <= v < pow2(r as nat + 1),
        r <= 31,
{
    let mut x: u32 = v;
    let mut p: u32 = 0;
    proof {
        vstd::arithmetic::power2::lemma2_to64();
    }
    while x >= 2
        invariant
            1 <= x <= v,
            p <= 31,
            pow2(p as nat) * x <= v < pow2(p as nat) * (x + 1),
        decreases x,
    {
        proof {
            assert(pow2(p as nat + 1) == 2 * pow2(p as nat)) by {
                vstd::arithmetic::power2::lemma_pow2_unfold(p as nat + 1);
            }
            assert(pow2(p as nat + 1) * (x / 2) as nat <= pow2(p as nat) * x) by (nonlinear_arith)
                requires
                    x >= 2,
                    pow2(p as nat + 1) == 2 * pow2(p as nat),
            ;
            assert(pow2(p as nat) * (x + 1) <= pow2(p as nat + 1) * ((x / 2) + 1))
                by (nonlinear_arith)
                requires
                    x >= 2,
                    pow2(p as nat + 1) == 2 * pow2(p as nat),
            ;
            assert(p < 31) by {
                vstd::arithmetic::power2::lemma2_to64();
                if p >= 31 {
                    assert(pow2(31) == 0x80000000);
                    assert(pow2(p as nat) * x >= pow2(31) * 2) by (nonlinear_arith)
                        requires
                            x >= 2,
                            pow2(p as nat) >= pow2(31),
                    ;
                }
            }
        }
        x = x / 2;
        p = p + 1;
    }
    proof {
        assert(pow2(p as nat) * 1 == pow2(p as nat)) by (nonlinear_arith);
        assert(pow2(p as nat) * 2 == pow2(p as nat + 1)) by {
            vstd::arithmetic::power2::lemma_pow2_unfold(p as nat + 1);
        }
    }
    p
}

/// Ceiling of the base-2 logarithm: the smallest p with 2^p >= v.
pub fn ceil_log2(v: u32) -> (r: u32)
    requires
        v >= 1,
    ensures
        pow2(r as nat) >= v,
        r > 0 ==> pow2((r - 1) as nat) < v,
        r <= 32,
{
    let f = log2_floor(v);
    let ghost fp = pow2(f as nat);
    if pow2_u32(f) == v {
        proof {
            if f > 0 {
                vstd::arithmetic::power2::lemma_pow2_strictly_increases(
                    (f - 1) as nat,
                    f as nat,
                );
            }
        }
        f
    } else {
        proof {
            vstd::arithmetic::power2::lemma_pow2_strictly_increases(f as nat, f as nat + 1);
        }
        f + 1
    }
}

/// 2^p as a `u32`.
pub fn pow2_u32(p: u32) -> (r: u32)
    requires
        p <= 31,
    ensures
        r == pow2(p as nat),
{
    let mut i: u32 = 0;
    let mut r: u32 = 1;
    proof {
        vstd::arithmetic::power2::lemma2_to64();
    }
    while i < p
        invariant
            i <= p <= 31,
            r == pow2(i as nat),
        decreases p - i,
    {
        proof {
            vstd::arithmetic::power2::lemma2_to64();
            vstd::arithmetic::power2::lemma_pow2_unfold(i as nat + 1);
            if i as nat + 1 < 32 {
                vstd::arithmetic::power2::lemma_pow2_strictly_increases(i as nat + 1, 32);
            }
        }
        r = r * 2;
        i = i + 1;
    }
    r
}

/// The evaluation-domain power for a lowered circuit: the ceiling base-2
/// logarithm of one less than the number of gates, floored at 3.
pub open spec fn cir_power_spec(n: nat) -> nat {
    if n <= 1 {
        3
    } else {
        let c = clog2((n - 1) as nat);
        if c < 3 {
            3
        } else {
            c
        }
    }
}

/// Smallest p with 2^p >= v.
pub open spec fn clog2(v: nat) -> nat
    decreases v,
{
    if v <= 1 {
        0
    } else {
        1 + clog2(((v + 1) / 2) as nat)
    }
}

/// 2^p >= v and p is the least such exponent.
pub proof fn lemma_clog2(v: nat)
    requires
        v >= 1,
    ensures
        pow2(clog2(v)) >= v,
        clog2(v) > 0 ==> pow2((clog2(v) - 1) as nat) < v,
    decreases v,
{
    vstd::arithmetic::power2::lemma2_to64();
    if v > 1 {
        let h = ((v + 1) / 2) as nat;
        lemma_clog2(h);
        vstd::arithmetic::power2::lemma_pow2_unfold(clog2(v));
        assert(pow2(clog2(v)) == 2 * pow2(clog2(h)));
        assert(2 * pow2(clog2(h)) >= 2 * h);
        assert(2 * h >= v);
        if clog2(h) == 0 {
            assert(pow2(clog2(h)) == 1);
        } else {
            vstd::arithmetic::power2::lemma_pow2_unfold(clog2(h));
            assert(pow2(clog2(h)) == 2 * pow2((clog2(h) - 1) as nat));
            assert(pow2((clog2(h) - 1) as nat) < h);
            assert(2 * h <= v + 1);
        }
    }
}

/// Computes `max(ceil_log2(n_gates - 1), 3)`, the power the evaluation
/// domain must reach for a circuit with `n_gates` PLONK gates.
pub fn cir_power(n_gates: u32) -> (r: u32)
    requires
        n_gates >= 1,
    ensures
        r == cir_power_spec(n_gates as nat),
        3 <= r <= 32,
{
    if n_gates <= 1 {
        return 3;
    }
    let c = ceil_log2(n_gates - 1);
    proof {
        lemma_clog2((n_gates - 1) as nat);
        assert(c == clog2((n_gates - 1) as nat)) by {
            let cl = clog2((n_gates - 1) as nat);
            if (c as nat) < cl {
                vstd::arithmetic::power2::lemma_pow2_strictly_increases(c as nat, cl);
                assert(cl > 0 && pow2((cl - 1) as nat) < n_gates - 1);
                if (c as nat) < cl - 1 {
                    vstd::arithmetic::power2::lemma_pow2_strictly_increases(
                        c as nat,
                        (cl - 1) as nat,
                    );
                }
            }
            if (c as nat) > cl {
                if cl < c as nat - 1 {
                    vstd::arithmetic::power2::lemma_pow2_strictly_increases(cl, (c - 1) as nat);
                }
            }
        }
    }
    if c < 3 {
        3
    } else {
        c
    }
}

} // verus!
