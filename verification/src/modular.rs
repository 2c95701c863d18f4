//! Congruence modulo a positive integer, and the rules by which sums,
//! differences, products and powers respect it.

use vstd::arithmetic::div_mod::*;
use vstd::arithmetic::mul::*;
use vstd::arithmetic::power::*;
use vstd::prelude::*;

verus! {

/// `a` and `b` leave the same remainder modulo `m`.
pub open spec fn cong(a: int, b: int, m: int) -> bool {
    a % m == b % m
}

pub proof fn lemma_cong_mod(a: int, m: int)
    requires
        m > 0,
    ensures
        cong(a % m, a, m),
        0 <= a % m < m,
{
    lemma_mod_twice(a, m);
    lemma_mod_bound(a, m);
}

pub proof fn lemma_cong_add(a: int, a2: int, b: int, b2: int, m: int)
    requires
        m > 0,
        cong(a, a2, m),
        cong(b, b2, m),
    ensures
        cong(a + b, a2 + b2, m),
{
    lemma_add_mod_noop(a, b, m);
    lemma_add_mod_noop(a2, b2, m);
}

pub proof fn lemma_cong_sub(a: int, a2: int, b: int, b2: int, m: int)
    requires
        m > 0,
        cong(a, a2, m),
        cong(b, b2, m),
    ensures
        cong(a - b, a2 - b2, m),
{
    lemma_sub_mod_noop(a, b, m);
    lemma_sub_mod_noop(a2, b2, m);
}

pub proof fn lemma_cong_mul(a: int, a2: int, b: int, b2: int, m: int)
    requires
        m > 0,
        cong(a, a2, m),
        cong(b, b2, m),
    ensures
        cong(a * b, a2 * b2, m),
{
    lemma_mul_mod_noop(a, b, m);
    lemma_mul_mod_noop(a2, b2, m);
}

pub proof fn lemma_cong_pow(a: int, a2: int, e: nat, m: int)
    requires
        m > 0,
        cong(a, a2, m),
    ensures
        cong(pow(a, e), pow(a2, e), m),
{
    lemma_pow_mod_noop(a, e, m);
    lemma_pow_mod_noop(a2, e, m);
}

/// A multiple of the modulus is congruent to zero.
pub proof fn lemma_cong_multiple(a: int, k: int, m: int)
    requires
        m > 0,
    ensures
        cong(a + k * m, a, m),
{
    lemma_mod_multiples_vanish(k, a, m);
    lemma_mul_is_commutative(k, m);
    assert(a + k * m == m * k + a);
}

} // verus!
