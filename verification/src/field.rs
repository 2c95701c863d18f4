//! Arithmetic modulo a 32-bit modulus.
//!
//! Elements are carried as plain `u32` values. Every operation accepts any
//! `u32` and returns the canonical representative in `[0, MODULUS)`, so a
//! value that is not reduced is read as its residue.

use vstd::arithmetic::div_mod::*;
use vstd::arithmetic::mul::*;
use vstd::arithmetic::power2::*;
use vstd::arithmetic::power::*;
use vstd::prelude::*;

verus! {

/// Sum of two residues.
pub open spec fn fadd(a: int, b: int, m: int) -> int {
    (a + b) % m
}

/// Difference of two residues.
pub open spec fn fsub(a: int, b: int, m: int) -> int {
    (a - b) % m
}

/// Additive inverse of a residue.
pub open spec fn fneg(a: int, m: int) -> int {
    (-a) % m
}

/// Product of two residues.
pub open spec fn fmul(a: int, b: int, m: int) -> int {
    (a * b) % m
}

/// `b` raised to `e`, reduced.
pub open spec fn fpow(b: int, e: nat, m: int) -> int {
    pow(b, e) % m
}

/// The inverse that the field computes: `a` raised to `m - 2`. It is the
/// multiplicative inverse whenever `m` is prime and `a` is not a multiple
/// of `m`.
pub open spec fn finv(a: int, m: int) -> int {
    fpow(a, (m - 2) as nat, m)
}

/// Number of bits needed to write `x`: the least `k` with `x < 2^k`.
pub open spec fn bit_length(x: nat) -> nat
    decreases x,
{
    if x == 0 {
        0
    } else {
        1 + bit_length(x / 2)
    }
}

/// The integers modulo `MODULUS`, with `u32` as the representation. The
/// modulus is expected to be prime; the arithmetic contracts hold for every
/// modulus of at least two.
#[derive(Debug, Clone, PartialEq, Eq)]
pub struct U32Field<const MODULUS: u32>;

/// The prime `15 * 2^27 + 1`.
pub const TEST_FIELD_MODULUS: u32 = 2013265921;

/// The prime `15 * 2^27 + 1` as a mathematical integer.
pub open spec fn p() -> int {
    TEST_FIELD_MODULUS as int
}

/// The field of order `15 * 2^27 + 1`.
pub type U32TestField = U32Field<2013265921>;

impl<const MODULUS: u32> U32Field<MODULUS> {
    /// The modulus as a mathematical integer.
    pub open spec fn modulus() -> int {
        MODULUS as int
    }

    /// Whether `MODULUS` can serve as a modulus at all.
    pub open spec fn valid() -> bool {
        MODULUS >= 2
    }

    pub fn add(a: &u32, b: &u32) -> (r: u32)
        requires
            Self::valid(),
        ensures
            r == fadd(*a as int, *b as int, MODULUS as int),
            r < MODULUS,
    {
        ((*a as u64 + *b as u64) % (MODULUS as u64)) as u32
    }

    pub fn sub(a: &u32, b: &u32) -> (r: u32)
        requires
            Self::valid(),
        ensures
            r == fsub(*a as int, *b as int, MODULUS as int),
            r < MODULUS,
    {
        let m: u64 = MODULUS as u64;
        let x: u64 = *a as u64 % m;
        let y: u64 = *b as u64 % m;
        let r: u64 = (x + m - y) % m;
        proof {
            let (ai, bi, mi) = (*a as int, *b as int, MODULUS as int);
            lemma_sub_mod_noop(ai, bi, mi);
            lemma_mod_add_multiples_vanish(x as int - y as int, mi);
        }
        r as u32
    }

    pub fn neg(a: &u32) -> (r: u32)
        requires
            Self::valid(),
        ensures
            r == fneg(*a as int, MODULUS as int),
            r < MODULUS,
    {
        let m: u32 = MODULUS;
        let x: u32 = *a % m;
        let r: u32 = (m - x) % m;
        proof {
            let (ai, mi) = (*a as int, MODULUS as int);
            lemma_sub_mod_noop(0, ai, mi);
            lemma_mod_add_multiples_vanish(-(x as int), mi);
        }
        r
    }

    pub fn mul(a: &u32, b: &u32) -> (r: u32)
        requires
            Self::valid(),
        ensures
            r == fmul(*a as int, *b as int, MODULUS as int),
            r < MODULUS,
    {
        proof {
            lemma_mul_upper_bound(*a as int, u32::MAX as int, *b as int, u32::MAX as int);
        }
        ((*a as u64 * *b as u64) % (MODULUS as u64)) as u32
    }

    /// `a` raised to `exponent` by binary exponentiation.
    pub fn pow(a: &u32, exponent: u64) -> (r: u32)
        requires
            Self::valid(),
        ensures
            r == fpow(*a as int, exponent as nat, MODULUS as int),
            r < MODULUS,
    {
        let ghost m = MODULUS as int;
        let ghost a0 = *a as int;
        let mut result: u32 = 1 % MODULUS;
        let mut base: u32 = *a % MODULUS;
        let mut e: u64 = exponent;
        proof {
            lemma_pow0(a0);
            lemma_pow1(a0);
            lemma_pow1(base as int);
            lemma_mod_twice(a0, m);
            lemma_pow_mod_noop(a0, e as nat, m);
            assert(pow(base as int, e as nat) % m == pow(a0, exponent as nat) % m);
            lemma_mul_basics(pow(base as int, e as nat));
            lemma_mul_mod_noop_left(1, pow(base as int, e as nat), m);
        }
        while e != 0
            invariant
                MODULUS >= 2,
                m == MODULUS as int,
                result < MODULUS,
                base < MODULUS,
                (result as int * pow(base as int, e as nat)) % m == pow(a0, exponent as nat) % m,
            decreases e,
        {
            let ghost (r0, b0, e0) = (result as int, base as int, e as nat);
            if e % 2 == 1 {
                result = Self::mul(&result, &base);
                proof {
                    // r0 * b0^e0 = (r0 * b0) * b0^(e0 - 1)
                    lemma_pow_adds(b0, 1, (e0 - 1) as nat);
                    lemma_pow1(b0);
                    let rest = pow(b0, (e0 - 1) as nat);
                    lemma_mul_is_associative(r0, b0, rest);
                    lemma_mul_mod_noop_left(r0 * b0, rest, m);
                }
            }
            let ghost r1 = result as int;
            let ghost e1 = if e0 % 2 == 1 { (e0 - 1) as nat } else { e0 };
            assert((r1 * pow(b0, e1)) % m == pow(a0, exponent as nat) % m);
            base = Self::mul(&base, &base);
            e = e / 2;
            proof {
                // b0^e1 = (b0 * b0)^(e1 / 2)
                assert(e1 == 2 * (e as nat));
                lemma_pow_multiplies(b0, 2, e as nat);
                lemma_square_is_pow2(b0);
                lemma_pow_mod_noop(b0 * b0, e as nat, m);
                lemma_pow_mod_noop(base as int, e as nat, m);
                lemma_mul_mod_noop_right(r1, pow(b0 * b0, e as nat), m);
                lemma_mul_mod_noop_right(r1, pow(base as int, e as nat), m);
            }
        }
        proof {
            lemma_pow0(base as int);
            lemma_small_mod(result as nat, MODULUS as nat);
        }
        result
    }

    /// The inverse of `a`, as `a` raised to `MODULUS - 2`.
    pub fn inv(a: &u32) -> (r: u32)
        requires
            Self::valid(),
            *a != 0,
        ensures
            r == finv(*a as int, MODULUS as int),
            r < MODULUS,
    {
        Self::pow(a, (MODULUS - 2) as u64)
    }

    pub fn div(a: &u32, b: &u32) -> (r: u32)
        requires
            Self::valid(),
            *b != 0,
        ensures
            r == fmul(*a as int, finv(*b as int, MODULUS as int), MODULUS as int),
            r < MODULUS,
    {
        let b_inv = Self::inv(b);
        Self::mul(a, &b_inv)
    }

    /// Whether `a` and `b` stand for the same residue.
    pub fn eq(a: &u32, b: &u32) -> (r: bool)
        requires
            Self::valid(),
        ensures
            r == (*a as int % (MODULUS as int) == *b as int % (MODULUS as int)),
    {
        Self::from_base_type(*a) == Self::from_base_type(*b)
    }

    pub fn zero() -> (r: u32)
        ensures
            r == 0,
    {
        0
    }

    pub fn one() -> (r: u32)
        ensures
            r == 1,
    {
        1
    }

    pub fn from_u64(x: u64) -> (r: u32)
        requires
            Self::valid(),
        ensures
            r == x as int % (MODULUS as int),
    {
        (x % (MODULUS as u64)) as u32
    }

    pub fn from_base_type(x: u32) -> (r: u32)
        requires
            Self::valid(),
        ensures
            r == x as int % (MODULUS as int),
    {
        x % MODULUS
    }

    /// The canonical integer that `a` stands for.
    pub fn representative(a: &u32) -> (r: u32)
        requires
            Self::valid(),
        ensures
            r == *a as int % (MODULUS as int),
    {
        *a % MODULUS
    }

    /// How many bits the largest element, `MODULUS - 1`, takes.
    pub fn field_bit_size() -> (r: usize)
        requires
            Self::valid(),
        ensures
            r == bit_length((MODULUS - 1) as nat),
            1 <= r <= 32,
    {
        let mut x: u32 = MODULUS - 1;
        let mut bits: usize = 0;
        proof {
            lemma2_to64();
        }
        while x != 0
            invariant
                bits + bit_length(x as nat) == bit_length((MODULUS - 1) as nat),
                bits <= 32,
                (x as int) < pow2((32 - bits) as nat),
            decreases x,
        {
            proof {
                if bits == 32 {
                    lemma2_to64();
                }
                lemma_pow2_unfold((32 - bits) as nat);
            }
            x = x / 2;
            bits = bits + 1;
        }
        bits
    }
}

} // verus!
