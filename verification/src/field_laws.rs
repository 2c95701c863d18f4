//! The laws of a commutative ring, for the arithmetic on residues modulo
//! any positive modulus.

use crate::field::fadd;
use crate::field::fmul;
use crate::field::fneg;
use crate::field::fsub;
use crate::modular::lemma_cong_add;
use crate::modular::lemma_cong_mod;
use vstd::arithmetic::div_mod::*;
use vstd::arithmetic::mul::*;
use vstd::prelude::*;

verus! {

/// Addition and multiplication are commutative.
pub proof fn lemma_commutative(a: int, b: int, m: int)
    requires
        m > 0,
    ensures
        fadd(a, b, m) == fadd(b, a, m),
        fmul(a, b, m) == fmul(b, a, m),
{
    lemma_mul_is_commutative(a, b);
}

/// Addition is associative.
pub proof fn lemma_add_associative(a: int, b: int, c: int, m: int)
    requires
        m > 0,
    ensures
        fadd(fadd(a, b, m), c, m) == fadd(a, fadd(b, c, m), m),
{
    lemma_cong_mod(a + b, m);
    lemma_cong_add(fadd(a, b, m), a + b, c, c, m);
    lemma_add_mod_noop_right(a, b + c, m);
}

/// Multiplication is associative.
pub proof fn lemma_mul_associative(a: int, b: int, c: int, m: int)
    requires
        m > 0,
    ensures
        fmul(fmul(a, b, m), c, m) == fmul(a, fmul(b, c, m), m),
{
    lemma_mul_mod_noop_left(a * b, c, m);
    lemma_mul_mod_noop_right(a, b * c, m);
    lemma_mul_is_associative(a, b, c);
}

/// Multiplication distributes over addition.
pub proof fn lemma_distributive(a: int, b: int, c: int, m: int)
    requires
        m > 0,
    ensures
        fmul(a, fadd(b, c, m), m) == fadd(fmul(a, b, m), fmul(a, c, m), m),
{
    lemma_mul_mod_noop_right(a, b + c, m);
    lemma_add_mod_noop(a * b, a * c, m);
    lemma_mul_is_distributive_add(a, b, c);
}

/// Zero and one are neutral, for residues in range.
pub proof fn lemma_neutral(a: int, m: int)
    requires
        m > 1,
        0 <= a < m,
    ensures
        fadd(a, 0, m) == a,
        fmul(a, 1, m) == a,
        fmul(a, 0, m) == 0,
{
    lemma_small_mod(a as nat, m as nat);
    lemma_mul_basics(a);
}

/// A residue and its negative add up to zero, and subtraction adds the
/// negative.
pub proof fn lemma_negative(a: int, b: int, m: int)
    requires
        m > 0,
    ensures
        fadd(a, fneg(a, m), m) == 0,
        fsub(a, b, m) == fadd(a, fneg(b, m), m),
{
    lemma_add_mod_noop_right(a, -a, m);
    lemma_add_mod_noop_right(a, -b, m);
    assert(a + (-a) == 0);
    lemma_small_mod(0, m as nat);
}

} // verus!
