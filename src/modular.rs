use vstd::arithmetic::power::*;
use vstd::arithmetic::div_mod::*;
use vstd::prelude::*;

verus! {

/// Square-and-multiply step: folding one bit of the exponent into the
/// accumulator keeps `acc * base^e` fixed modulo `m`.
proof fn lemma_square_step(acc: int, base: int, e: nat, m: int)
    requires
        m > 0,
        acc >= 0,
        base >= 0,
    ensures
        ({
            let acc2 = if e % 2 == 1 { (acc * base) % m } else { acc };
            let base2 = (base * base) % m;
            (acc2 * pow(base2, e / 2)) % m == (acc * pow(base, e)) % m
        }),
{
    let half = e / 2;
    let bb = base * base;
    assert(e == 2 * half + e % 2);
    lemma_pow_multiplies(base, 2, half);
    assert(pow(base, 2) == bb) by {
        lemma_pow1(base);
        lemma_pow_adds(base, 1, 1);
    }
    assert(pow(base, (2 * half) as nat) == pow(bb, half));
    lemma_pow_mod_noop(bb, half, m);
    lemma_mul_mod_noop_right(acc, pow(bb % m, half), m);
    lemma_mul_mod_noop_right(acc, pow(bb, half), m);
    if e % 2 == 1 {
        lemma_pow_adds(base, (2 * half) as nat, 1);
        lemma_pow1(base);
        assert(pow(base, e) == pow(bb, half) * base);
        lemma_mul_mod_noop_left(acc * base, pow(bb % m, half), m);
        lemma_mul_mod_noop_right(acc * base, pow(bb, half), m);
        lemma_mul_mod_noop_right(acc * base, pow(bb % m, half), m);
        assert((acc * base) * pow(bb, half) == acc * (pow(bb, half) * base)) by (nonlinear_arith);
    } else {
        assert(pow(base, e) == pow(bb, half));
    }
}

/// `(a * b) mod m`, with the product taken in 128 bits so that it cannot
/// overflow.
pub fn mul_mod(a: usize, b: usize, m: usize) -> (r: usize)
    requires
        m > 0,
    ensures
        r as int == (a as int * b as int) % (m as int),
        r < m,
{
    proof {
        assert(a as int * b as int <= 0xffff_ffff_ffff_ffffint * 0xffff_ffff_ffff_ffffint) by (nonlinear_arith)
            requires 0 <= a <= 0xffff_ffff_ffff_ffffint, 0 <= b <= 0xffff_ffff_ffff_ffffint;
    }
    let prod: u128 = (a as u128) * (b as u128);
    let r = prod % (m as u128);
    proof {
        lemma_mod_pos_bound(prod as int, m as int);
    }
    r as usize
}

/// `base^exp mod modulus`, by repeated squaring.
pub fn powermod(base: usize, exp: usize, modulus: usize) -> (r: usize)
    requires
        modulus > 0,
    ensures
        r as int == pow(base as int, exp as nat) % (modulus as int),
{
    let m = Ghost(modulus as int);
    let mut result: usize = 1 % modulus;
    let mut b: usize = base % modulus;
    let mut e: usize = exp;
    proof {
        lemma_pow_mod_noop(base as int, exp as nat, m@);
        lemma_mul_mod_noop_left(1, pow(b as int, e as nat), m@);
    }
    while e > 0
        invariant
            m@ == modulus as int,
            m@ > 0,
            result < modulus,
            b < modulus,
            (result as int * pow(b as int, e as nat)) % m@ == pow(base as int, exp as nat) % m@,
        decreases e,
    {
        proof {
            lemma_square_step(result as int, b as int, e as nat, m@);
        }
        if e % 2 == 1 {
            result = mul_mod(result, b, modulus);
        }
        b = mul_mod(b, b, modulus);
        e = e / 2;
    }
    proof {
        lemma_pow0(b as int);
        lemma_small_mod(result as nat, modulus as nat);
    }
    result
}

} // verus!
