//! Modular exponentiation by square-and-multiply, as used for the
//! Diffie-Hellman key agreement that the chat front end performs.

use vstd::prelude::*;
use vstd::arithmetic::power::{pow, lemma_pow_mod_noop, lemma_pow_multiplies, lemma_square_is_pow2};
use vstd::arithmetic::div_mod::{group_mod_properties, lemma_mul_mod_noop_general};
use vstd::arithmetic::mul::lemma_mul_is_associative;

verus! {

/// Absorbing one factor of the base into the accumulator preserves the
/// running product `res * b^e (mod m)`.
proof fn lemma_absorb_base(res: int, b: int, e: nat, m: int)
    requires
        m >= 2,
        0 <= res,
        0 <= b,
        e >= 1,
    ensures
        (((res * b) % m) * pow(b, (e - 1) as nat)) % m == (res * pow(b, e)) % m,
{
    broadcast use group_mod_properties;

    vstd::arithmetic::power::lemma_pow_adds(b, 1, (e - 1) as nat);
    vstd::arithmetic::power::lemma_pow1(b);
    assert(pow(b, e) == b * pow(b, (e - 1) as nat));
    lemma_mul_mod_noop_general(res * b, pow(b, (e - 1) as nat), m);
    lemma_mul_is_associative(res, b, pow(b, (e - 1) as nat));
}

/// Squaring the base and halving the exponent preserves the running
/// product `res * b^e (mod m)`.
proof fn lemma_square_base(res: int, b: int, e2: nat, m: int)
    requires
        m >= 2,
        0 <= res,
        0 <= b,
    ensures
        (res * pow((b * b) % m, e2)) % m == (res * pow(b, 2 * e2)) % m,
{
    broadcast use group_mod_properties;

    lemma_pow_mod_noop(b * b, e2, m);
    lemma_square_is_pow2(b);
    lemma_pow_multiplies(b, 2, e2);
    assert(pow(b * b, e2) == pow(b, 2 * e2));
    lemma_mul_mod_noop_general(res, pow((b * b) % m, e2), m);
    lemma_mul_mod_noop_general(res, pow(b * b, e2), m);
    assert((res * (pow((b * b) % m, e2) % m)) % m == (res * pow((b * b) % m, e2)) % m);
    assert(pow((b * b) % m, e2) % m == pow(b * b, e2) % m);
}

/// Raise `base` to the `exp`-th power modulo `modulus`, by
/// square-and-multiply. The modulus must be at least 2 (so the result is a
/// genuine residue) and at most 2^64 (so the result fits in 64 bits and no
/// intermediate product overflows).
pub fn mod_exp(base: u128, exp: u64, modulus: u128) -> (r: u64)
    requires
        2 <= modulus <= 0x1_0000_0000_0000_0000u128,
    ensures
        r as int == pow(base as int, exp as nat) % (modulus as int),
{
    let ghost m = modulus as int;
    let ghost k = pow((base as int) % m, exp as nat) % m;
    let mut res: u128 = 1;
    let mut b: u128 = base % modulus;
    let mut e: u64 = exp;
    proof {
        broadcast use group_mod_properties;

        assert(pow(b as int, e as nat) % m == k);
        assert((res * pow(b as int, e as nat)) % m == k);
    }
    while e > 0
        invariant
            m == modulus as int,
            2 <= m <= 0x1_0000_0000_0000_0000,
            res < modulus,
            b < modulus,
            (res as int * pow(b as int, e as nat)) % m == k,
        decreases e,
    {
        if e % 2 == 1 {
            proof {
                broadcast use group_mod_properties;

                assert((res as int) * (b as int) <= u128::MAX as int) by (nonlinear_arith)
                    requires
                        res < modulus,
                        b < modulus,
                        modulus <= 0x1_0000_0000_0000_0000u128,
                ;
                lemma_absorb_base(res as int, b as int, e as nat, m);
            }
            res = (res * b) % modulus;
        }
        proof {
            broadcast use group_mod_properties;

            assert((b as int) * (b as int) <= u128::MAX as int) by (nonlinear_arith)
                requires
                    b < modulus,
                    modulus <= 0x1_0000_0000_0000_0000u128,
            ;
            lemma_square_base(res as int, b as int, (e / 2) as nat, m);
            assert(2 * ((e / 2) as nat) == if e % 2 == 1 { (e - 1) as int } else { e as int });
        }
        b = (b * b) % modulus;
        e = e / 2;
    }
    proof {
        broadcast use group_mod_properties;
        broadcast use vstd::arithmetic::power::lemma_pow0;

        assert(pow(b as int, 0) == 1);
        assert((res as int * 1) % m == res as int % m);
        vstd::arithmetic::div_mod::lemma_small_mod(res as nat, m as nat);
        assert(res as int % m == res as int);
        lemma_pow_mod_noop(base as int, exp as nat, m);
    }
    res as u64
}

} // verus!
