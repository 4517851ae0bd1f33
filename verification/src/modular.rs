//! Arithmetic modulo the hash modulus.

use vstd::arithmetic::div_mod::lemma_mul_mod_noop_general;
use vstd::arithmetic::power::{lemma_pow0, lemma_pow1, lemma_pow_adds, lemma_pow_multiplies, pow};
use vstd::prelude::*;

verus! {

/// The modulus of every hash value.
pub const MODULUS: u64 = 1_000_000_007;

/// The base of the polynomial hash.
pub const BASE: u64 = 100;

/// `base` to the power `exponent`, reduced modulo [`MODULUS`].
pub open spec fn pow_mod(base: nat, exponent: nat) -> nat {
    (pow(base as int, exponent) % (MODULUS as int)) as nat
}

/// `b^(2k) == (b*b)^k`.
proof fn lemma_pow_of_square(b: int, k: nat)
    ensures
        pow(b, 2 * k) == pow(b * b, k),
{
    lemma_pow_multiplies(b, 2, k);
    lemma_pow_adds(b, 1, 1);
    lemma_pow1(b);
}

/// `b^(n+1) == b * b^n`.
pub proof fn lemma_pow_succ(b: int, n: nat)
    ensures
        pow(b, n + 1) == b * pow(b, n),
{
    lemma_pow_adds(b, 1, n);
    lemma_pow1(b);
}

/// One round of square-and-multiply keeps `acc * base^exp` unchanged modulo
/// `m`.
proof fn lemma_modpow_step(acc: int, base: int, exp: nat, m: int)
    requires
        0 < m,
        exp > 0,
    ensures
        exp % 2 == 1 ==> (((acc * base) % m) * pow((base * base) % m, exp / 2)) % m == (acc * pow(
            base,
            exp,
        )) % m,
        exp % 2 == 0 ==> (acc * pow((base * base) % m, exp / 2)) % m == (acc * pow(base, exp)) % m,
{
    let half = exp / 2;
    let sq = base * base;
    // pow(sq % m, half) is congruent to pow(sq, half) == pow(base, 2 * half).
    vstd::arithmetic::power::lemma_pow_mod_noop(sq, half, m);
    lemma_pow_of_square(base, half);
    let p = pow(base, 2 * half);
    let q = pow(sq % m, half);
    if exp % 2 == 1 {
        lemma_pow_succ(base, 2 * half);
        lemma_mul_mod_noop_general(acc * base, q, m);
        lemma_mul_mod_noop_general(acc * base, p, m);
        assert((acc * base) * p == acc * (base * p)) by (nonlinear_arith);
    } else {
        lemma_mul_mod_noop_general(acc, q, m);
        lemma_mul_mod_noop_general(acc, p, m);
    }
}

/// Computes `base^exponent mod MODULUS` by repeated squaring.
pub fn modpow(base: usize, exponent: usize) -> (result: usize)
    ensures
        result == pow_mod(base as nat, exponent as nat),
        result < MODULUS,
{
    let mut result: u64 = 1;
    let mut base_cur: u64 = (base as u64) % MODULUS;
    let mut exp_cur: usize = exponent;
    proof {
        vstd::arithmetic::power::lemma_pow_mod_noop(base as int, exponent as nat, MODULUS as int);
    }
    while exp_cur > 0
        invariant
            result < MODULUS,
            base_cur < MODULUS,
            (result * pow(base_cur as int, exp_cur as nat)) % (MODULUS as int) == pow_mod(
                base as nat,
                exponent as nat,
            ),
        decreases exp_cur,
    {
        proof {
            lemma_modpow_step(result as int, base_cur as int, exp_cur as nat, MODULUS as int);
            assert(result * base_cur < MODULUS * MODULUS) by (nonlinear_arith)
                requires
                    result < MODULUS,
                    base_cur < MODULUS,
            ;
            assert(base_cur * base_cur < MODULUS * MODULUS) by (nonlinear_arith)
                requires
                    base_cur < MODULUS,
            ;
        }
        if exp_cur % 2 == 1 {
            result = (result * base_cur) % MODULUS;
        }
        base_cur = (base_cur * base_cur) % MODULUS;
        exp_cur = exp_cur / 2;
    }
    proof {
        lemma_pow0(base_cur as int);
    }
    result as usize
}

} // verus!
