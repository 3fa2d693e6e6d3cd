//! The prime field all circuit values live in.
//!
//! Elements are held as `u64` representatives; every operation returns the
//! canonical representative below [`MODULUS`].

use vstd::prelude::*;

verus! {

/// The field's modulus, the prime `2^64 - 2^32 + 1`.
pub const MODULUS: u64 = 0xFFFF_FFFF_0000_0001;

/// The canonical representative of `x`.
pub open spec fn reduced(x: int) -> int {
    x % (MODULUS as int)
}

/// Field addition on representatives.
pub open spec fn fadd_spec(a: u64, b: u64) -> u64 {
    reduced(a as int + b as int) as u64
}

/// Field multiplication on representatives.
pub open spec fn fmul_spec(a: u64, b: u64) -> u64 {
    reduced(a as int * b as int) as u64
}

/// Brings a representative below the modulus.
pub fn reduce(x: u64) -> (r: u64)
    ensures
        r as int == reduced(x as int),
        r < MODULUS,
        x < MODULUS ==> r == x,
{
    x % MODULUS
}

/// Adds two field elements.
pub fn fadd(a: u64, b: u64) -> (r: u64)
    ensures
        r == fadd_spec(a, b),
        r < MODULUS,
        (a as int) + (b as int) < (MODULUS as int) ==> (r as int) == (a as int) + (b as int),
{
    let wide: u128 = a as u128 + b as u128;
    (wide % (MODULUS as u128)) as u64
}

/// Multiplies two field elements.
pub fn fmul(a: u64, b: u64) -> (r: u64)
    ensures
        r == fmul_spec(a, b),
        r < MODULUS,
{
    assert(a as int * b as int <= 0xFFFF_FFFF_FFFF_FFFF * 0xFFFF_FFFF_FFFF_FFFF) by (nonlinear_arith)
        requires
            a <= 0xFFFF_FFFF_FFFF_FFFF,
            b <= 0xFFFF_FFFF_FFFF_FFFF,
    ;
    assert(0 <= a as int * b as int) by (nonlinear_arith);
    let wide: u128 = (a as u128) * (b as u128);
    (wide % (MODULUS as u128)) as u64
}

} // verus!
