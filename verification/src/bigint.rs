//! Trusted wrappers around `num_bigint` for modular arithmetic on
//! little-endian byte strings.
//!
//! Scalars travel through the crate as little-endian byte vectors; each
//! wrapper converts its arguments with `BigUint::from_bytes_le`, performs one
//! modular operation, and converts back with `to_bytes_le`, padded with zero
//! bytes to the modulus width.  Because every result is reduced below the
//! modulus `m`, and `le_val(m) < 256^m.len()`, the minimal encoding never
//! exceeds `m.len()` bytes and the padding never truncates.

use vstd::arithmetic::power::pow;
use vstd::prelude::*;

use crate::bytes_le::le_val;
use num_bigint::BigUint;

verus! {

/// Relies on `num_bigint::BigUint` `+` and `%`: returns (a + b) mod m as
/// `m.len()` little-endian bytes.
#[verifier::external_body]
pub(crate) fn big_add_mod(a: &Vec<u8>, b: &Vec<u8>, m: &Vec<u8>) -> (r: Vec<u8>)
    requires
        le_val(m@) > 0,
    ensures
        r@.len() == m@.len(),
        le_val(r@) == ((le_val(a@) + le_val(b@)) as int) % (le_val(m@) as int),
{
    let x = (BigUint::from_bytes_le(a) + BigUint::from_bytes_le(b)) % BigUint::from_bytes_le(m);
    let mut out = x.to_bytes_le();
    out.resize(m.len(), 0);
    out
}

/// Relies on `num_bigint::BigUint` `+`, `-` and `%`: returns (a + m - b) mod m
/// as `m.len()` little-endian bytes.  Requiring b <= m keeps the inner
/// subtraction from underflowing, which `BigUint` would refuse.
#[verifier::external_body]
pub(crate) fn big_sub_mod(a: &Vec<u8>, b: &Vec<u8>, m: &Vec<u8>) -> (r: Vec<u8>)
    requires
        le_val(m@) > 0,
        le_val(b@) <= le_val(m@),
    ensures
        r@.len() == m@.len(),
        le_val(r@) == (le_val(a@) + le_val(m@) - le_val(b@)) % (le_val(m@) as int),
{
    let mb = BigUint::from_bytes_le(m);
    let x = (BigUint::from_bytes_le(a) + &mb - BigUint::from_bytes_le(b)) % &mb;
    let mut out = x.to_bytes_le();
    out.resize(m.len(), 0);
    out
}

/// Relies on `num_bigint::BigUint` `*` and `%`: returns (a * b) mod m as
/// `m.len()` little-endian bytes.
#[verifier::external_body]
pub(crate) fn big_mul_mod(a: &Vec<u8>, b: &Vec<u8>, m: &Vec<u8>) -> (r: Vec<u8>)
    requires
        le_val(m@) > 0,
    ensures
        r@.len() == m@.len(),
        le_val(r@) == ((le_val(a@) * le_val(b@)) as int) % (le_val(m@) as int),
{
    let x = (BigUint::from_bytes_le(a) * BigUint::from_bytes_le(b)) % BigUint::from_bytes_le(m);
    let mut out = x.to_bytes_le();
    out.resize(m.len(), 0);
    out
}

/// Relies on `num_bigint::BigUint` `%`: returns a mod m as `m.len()`
/// little-endian bytes.
#[verifier::external_body]
pub(crate) fn big_rem(a: &Vec<u8>, m: &Vec<u8>) -> (r: Vec<u8>)
    requires
        le_val(m@) > 0,
    ensures
        r@.len() == m@.len(),
        le_val(r@) == (le_val(a@) as int) % (le_val(m@) as int),
{
    let x = BigUint::from_bytes_le(a) % BigUint::from_bytes_le(m);
    let mut out = x.to_bytes_le();
    out.resize(m.len(), 0);
    out
}

/// Relies on `num_bigint::BigUint::modpow`: returns a^e mod m as `m.len()`
/// little-endian bytes.  `modpow` panics on a zero modulus, which the
/// precondition rules out.
#[verifier::external_body]
pub(crate) fn big_modpow(a: &Vec<u8>, e: &Vec<u8>, m: &Vec<u8>) -> (r: Vec<u8>)
    requires
        le_val(m@) > 0,
    ensures
        r@.len() == m@.len(),
        le_val(r@) == pow(le_val(a@) as int, le_val(e@)) % (le_val(m@) as int),
{
    let x = BigUint::from_bytes_le(a).modpow(
        &BigUint::from_bytes_le(e),
        &BigUint::from_bytes_le(m),
    );
    let mut out = x.to_bytes_le();
    out.resize(m.len(), 0);
    out
}

/// Relies on `num_bigint::BigUint::modinv`: when it returns a value, that
/// value lies in [0, m) and satisfies a * v = 1 (mod m).  `modinv` panics on
/// a zero modulus, which the precondition rules out.
#[verifier::external_body]
pub(crate) fn big_modinv(a: &Vec<u8>, m: &Vec<u8>) -> (r: Option<Vec<u8>>)
    requires
        le_val(m@) > 0,
    ensures
        r matches Some(v) ==> {
            &&& v@.len() == m@.len()
            &&& le_val(v@) < le_val(m@)
            &&& ((le_val(a@) * le_val(v@)) as int) % (le_val(m@) as int) == 1int % (le_val(
                m@,
            ) as int)
        },
{
    match BigUint::from_bytes_le(a).modinv(&BigUint::from_bytes_le(m)) {
        None => None,
        Some(x) => {
            let mut out = x.to_bytes_le();
            out.resize(m.len(), 0);
            Some(out)
        },
    }
}

/// Relies on `num_bigint::BigUint` `>>`: returns a >> k, that is a / 2^k, as
/// `a.len()` little-endian bytes.
#[verifier::external_body]
pub(crate) fn big_shr(a: &Vec<u8>, k: usize) -> (r: Vec<u8>)
    ensures
        r@.len() == a@.len(),
        le_val(r@) == le_val(a@) / vstd::arithmetic::power2::pow2(k as nat),
{
    let x = BigUint::from_bytes_le(a) >> k;
    let mut out = x.to_bytes_le();
    out.resize(a.len(), 0);
    out
}

} // verus!
