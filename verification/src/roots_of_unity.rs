//! Roots of unity of two-power order in the field of order `15 * 2^27 + 1`,
//! and the tables of twiddle factors that the transforms consume.

use crate::bit_reverse::bit_reverse;
use crate::bit_reverse::bit_reverse_permute;
use crate::bit_reverse::bitrev_permutation;
use crate::errors::FFTError;
use crate::fft_inverse::inverse_tables;
use crate::fft_meaning::bit_reversed_powers;
use crate::fft_meaning::primitive_root;
use crate::field::TEST_FIELD_MODULUS;
use crate::field::U32TestField;
use crate::field::fpow;
use crate::field::p;
use crate::modular::lemma_cong_mul;
use vstd::arithmetic::div_mod::*;
use vstd::arithmetic::mul::*;
use vstd::arithmetic::power2::*;
use vstd::arithmetic::power::*;
use vstd::prelude::*;

verus! {

/// The largest `k` for which the field holds a root of unity of order `2^k`.
pub const TWO_ADICITY: u64 = 27;

/// A root of unity of order `2^27`: the fifteenth power of the generator 31.
pub const TWO_ADIC_PRIMITVE_ROOT_OF_UNITY: u32 = 440564289;

/// The order in which a table of twiddle factors lists the powers of a root.
#[derive(Debug, Clone, Copy, PartialEq, Eq, Structural)]
pub enum RootsConfig {
    /// Powers of the root, by rising exponent.
    Natural,
    /// Powers of the inverse root, by rising exponent.
    NaturalInversed,
    /// Powers of the root, the exponent of entry `i` being `i` bit-reversed.
    BitReverse,
    /// Powers of the inverse root, in bit-reversed order.
    BitReverseInversed,
}

/// The root of unity of order `2^order` that the field designates, for
/// `order` up to the two-adicity.
pub open spec fn root_of_unity(order: nat) -> int {
    fpow(TWO_ADIC_PRIMITVE_ROOT_OF_UNITY as int, pow2((TWO_ADICITY - order) as nat), p())
}

/// The inverse of `root_of_unity(order)`: its power of exponent `2^order - 1`.
pub open spec fn inverse_root_of_unity(order: nat) -> int {
    fpow(root_of_unity(order), (pow2(order) - 1) as nat, p())
}

/// The table of `2^(order - 1)` twiddle factors in the ordering `config`
/// (no factor at all for order zero).
pub open spec fn twiddles_spec(order: nat, config: RootsConfig) -> Seq<u32> {
    let len = pow2(order) / 2;
    let bits = (order - 1) as nat;
    Seq::new(
        len,
        |i: int|
            match config {
                RootsConfig::Natural => fpow(root_of_unity(order), i as nat, p()) as u32,
                RootsConfig::NaturalInversed => fpow(
                    inverse_root_of_unity(order),
                    i as nat,
                    p(),
                ) as u32,
                RootsConfig::BitReverse => fpow(
                    root_of_unity(order),
                    bit_reverse(i as nat, bits),
                    p(),
                ) as u32,
                RootsConfig::BitReverseInversed => fpow(
                    inverse_root_of_unity(order),
                    bit_reverse(i as nat, bits),
                    p(),
                ) as u32,
            },
    )
}

/// Powers compose: `(b^e1)^e2 = b^(e1 * e2)` on residues.
pub proof fn lemma_fpow_fpow(b: int, e1: nat, e2: nat)
    ensures
        fpow(fpow(b, e1, p()), e2, p()) == fpow(b, e1 * e2, p()),
{
    lemma_pow_mod_noop(pow(b, e1), e2, p());
    lemma_pow_multiplies(b, e1, e2);
}

/// Powers multiply: `b^e1 * b^e2 = b^(e1 + e2)` on residues.
pub proof fn lemma_fpow_adds(b: int, e1: nat, e2: nat)
    ensures
        (fpow(b, e1, p()) * fpow(b, e2, p())) % p() == fpow(b, e1 + e2, p()),
{
    lemma_mul_mod_noop(pow(b, e1), pow(b, e2), p());
    lemma_pow_adds(b, e1, e2);
}

proof fn lemma_root_square(i: nat, c: int, c2: int)
    requires
        fpow(TWO_ADIC_PRIMITVE_ROOT_OF_UNITY as int, pow2(i), p()) == c,
        (c * c) % p() == c2,
    ensures
        fpow(TWO_ADIC_PRIMITVE_ROOT_OF_UNITY as int, pow2(i + 1), p()) == c2,
{
    let r = TWO_ADIC_PRIMITVE_ROOT_OF_UNITY as int;
    lemma_pow2_unfold(i + 1);
    lemma_fpow_adds(r, pow2(i), pow2(i));
}

/// The designated root of order `2^27` has the square root of unity other
/// than one, `p - 1`, as its power of exponent `2^26`.
pub proof fn lemma_root_half_order()
    ensures
        fpow(TWO_ADIC_PRIMITVE_ROOT_OF_UNITY as int, pow2(26), p()) == p() - 1,
{
    lemma2_to64();
    lemma_pow1(TWO_ADIC_PRIMITVE_ROOT_OF_UNITY as int);
    lemma_root_square(0, 440564289, 975630072);
    lemma_root_square(1, 975630072, 1149491290);
    lemma_root_square(2, 1149491290, 1003846038);
    lemma_root_square(3, 1003846038, 1267047229);
    lemma_root_square(4, 1267047229, 570250684);
    lemma_root_square(5, 570250684, 414040701);
    lemma_root_square(6, 414040701, 195061667);
    lemma_root_square(7, 195061667, 1049899240);
    lemma_root_square(8, 1049899240, 1559589183);
    lemma_root_square(9, 1559589183, 1286330022);
    lemma_root_square(10, 1286330022, 1421947380);
    lemma_root_square(11, 1421947380, 2009781145);
    lemma_root_square(12, 2009781145, 1657000625);
    lemma_root_square(13, 1657000625, 298008106);
    lemma_root_square(14, 298008106, 1282623253);
    lemma_root_square(15, 1282623253, 1340477990);
    lemma_root_square(16, 1340477990, 341742893);
    lemma_root_square(17, 341742893, 1753498361);
    lemma_root_square(18, 1753498361, 1732600167);
    lemma_root_square(19, 1732600167, 397765732);
    lemma_root_square(20, 397765732, 1721589904);
    lemma_root_square(21, 1721589904, 760005850);
    lemma_root_square(22, 760005850, 196396260);
    lemma_root_square(23, 196396260, 1592366214);
    lemma_root_square(24, 1592366214, 1728404513);
    lemma_root_square(25, 1728404513, 2013265920);
}

/// `root_of_unity(order)` has order exactly `2^order`: its power of
/// exponent `2^order` is one, and for a positive order its power of exponent
/// `2^(order - 1)` is `p - 1`.
pub proof fn lemma_root_of_unity_order(order: nat)
    requires
        order <= TWO_ADICITY,
    ensures
        fpow(root_of_unity(order), pow2(order), p()) == 1,
        order >= 1 ==> fpow(root_of_unity(order), pow2((order - 1) as nat), p()) == p() - 1,
        0 <= root_of_unity(order) < p(),
{
    let r = TWO_ADIC_PRIMITVE_ROOT_OF_UNITY as int;
    let rest = (TWO_ADICITY - order) as nat;
    lemma_root_half_order();
    lemma_mod_bound(pow(r, pow2(rest)), p());
    // r^(2^27) = (r^(2^26))^2 = (p - 1)^2 = 1
    lemma_pow2_unfold(27);
    lemma_fpow_adds(r, pow2(26), pow2(26));
    assert((2013265920int * 2013265920int) % 2013265921int == 1);
    lemma_fpow_fpow(r, pow2(rest), pow2(order));
    lemma_pow2_adds(rest, order);
    if order >= 1 {
        lemma_fpow_fpow(r, pow2(rest), pow2((order - 1) as nat));
        lemma_pow2_adds(rest, (order - 1) as nat);
    }
}

/// The inverse root is the inverse of the root.
pub proof fn lemma_inverse_root(order: nat)
    requires
        order <= TWO_ADICITY,
    ensures
        (root_of_unity(order) * inverse_root_of_unity(order)) % p() == 1,
        0 <= inverse_root_of_unity(order) < p(),
{
    let w = root_of_unity(order);
    lemma_root_of_unity_order(order);
    lemma_pow2_pos(order);
    lemma_mod_bound(pow(w, (pow2(order) - 1) as nat), p());
    lemma_fpow_adds(w, 1, (pow2(order) - 1) as nat);
    lemma_pow1(w);
    lemma_small_mod(w as nat, p() as nat);
}

/// `2^k` as a machine integer.
pub fn pow2_u64(k: u64) -> (r: u64)
    requires
        k < 64,
    ensures
        r == pow2(k as nat),
{
    let mut r: u64 = 1;
    let mut i: u64 = 0;
    proof {
        lemma2_to64();
    }
    while i < k
        invariant
            i <= k,
            k < 64,
            r == pow2(i as nat),
        decreases k - i,
    {
        proof {
            lemma_pow2_unfold((i + 1) as nat);
            lemma2_to64_rest();
            if i + 1 < 63 {
                lemma_pow2_strictly_increases((i + 1) as nat, 63);
            }
        }
        r = 2 * r;
        i = i + 1;
    }
    r
}

/// The designated root of unity of order `2^order`. An order above the
/// two-adicity of the field is reported as `RootOfUnityError`.
pub fn get_primitive_root_of_unity(order: u64) -> (r: Result<u32, FFTError>)
    ensures
        r is Ok <==> order <= TWO_ADICITY,
        r matches Err(e) ==> e == FFTError::RootOfUnityError(order),
        r matches Ok(w) ==> w == root_of_unity(order as nat) && w < TEST_FIELD_MODULUS,
{
    if order > TWO_ADICITY {
        return Err(FFTError::RootOfUnityError(order));
    }
    let exponent = pow2_u64(TWO_ADICITY - order);
    Ok(U32TestField::pow(&TWO_ADIC_PRIMITVE_ROOT_OF_UNITY, exponent))
}

/// The first `count` powers of `base`, by rising exponent.
pub fn powers_of(base: u32, count: usize) -> (r: Vec<u32>)
    ensures
        r@.len() == count,
        forall|i: int| 0 <= i < count ==> r@[i] == fpow(base as int, i as nat, p()),
{
    let mut out: Vec<u32> = Vec::new();
    let mut cur: u32 = 1;
    let mut i: usize = 0;
    proof {
        lemma_pow0(base as int);
    }
    while i < count
        invariant
            i <= count,
            out@.len() == i,
            cur == fpow(base as int, i as nat, p()),
            forall|j: int| 0 <= j < i ==> out@[j] == fpow(base as int, j as nat, p()),
        decreases count - i,
    {
        out.push(cur);
        proof {
            lemma_fpow_adds(base as int, i as nat, 1);
            lemma_pow1(base as int);
            lemma_cong_mul(
                fpow(base as int, i as nat, p()),
                fpow(base as int, i as nat, p()),
                fpow(base as int, 1, p()),
                base as int,
                p(),
            );
        }
        cur = U32TestField::mul(&cur, &base);
        i = i + 1;
    }
    out
}

/// The table of `2^(order - 1)` twiddle factors for transforms of size
/// `2^order`, in the ordering `config`. An order above the two-adicity of
/// the field is reported as `RootOfUnityError`.
pub fn gen_twiddles(order: u64, config: RootsConfig) -> (r: Result<Vec<u32>, FFTError>)
    ensures
        r is Ok <==> order <= TWO_ADICITY,
        r matches Err(e) ==> e == FFTError::RootOfUnityError(order),
        r matches Ok(t) ==> t@ == twiddles_spec(order as nat, config),
{
    let root = match get_primitive_root_of_unity(order) {
        Ok(w) => w,
        Err(e) => {
            return Err(e);
        },
    };
    proof {
        lemma2_to64();
    }
    if order == 0 {
        let empty: Vec<u32> = Vec::new();
        assert(empty@ =~= twiddles_spec(0, config));
        return Ok(empty);
    }
    let size: u64 = pow2_u64(order);
    proof {
        lemma_pow2_unfold(order as nat);
        lemma_pow2_pos((order - 1) as nat);
        if order < 27 {
            lemma_pow2_strictly_increases(order as nat, 27);
        }
    }
    let len: usize = (size / 2) as usize;
    let base: u32 = match config {
        RootsConfig::Natural | RootsConfig::BitReverse => root,
        RootsConfig::NaturalInversed | RootsConfig::BitReverseInversed => U32TestField::pow(
            &root,
            size - 1,
        ),
    };
    let natural = powers_of(base, len);
    match config {
        RootsConfig::Natural | RootsConfig::NaturalInversed => {
            assert(natural@ =~= twiddles_spec(order as nat, config));
            Ok(natural)
        },
        RootsConfig::BitReverse | RootsConfig::BitReverseInversed => {
            proof {
                assert(is_pow2(len as int)) by {
                    is_pow2_equiv(len as int);
                    lemma_pow2((order - 1) as nat);
                    assert(pow(2, (order - 1) as nat) == len as int);
                }
            }
            match bitrev_permutation(natural.as_slice()) {
                Ok(t) => {
                    proof {
                        let k = choose|k: nat|
                            natural.len() == pow2(k) && t@ == bit_reverse_permute(natural@, k);
                        lemma_pow2_injective(k, (order - 1) as nat);
                        assert forall|i: int| 0 <= i < len implies t@[i] == twiddles_spec(
                            order as nat,
                            config,
                        )[i] by {
                            crate::bit_reverse::lemma_bit_reverse_bound(i as nat, k);
                        }
                        assert(t@ =~= twiddles_spec(order as nat, config));
                    }
                    Ok(t)
                },
                Err(e) => Err(e),
            }
        },
    }
}

/// Distinct exponents give distinct powers of two.
pub proof fn lemma_pow2_injective(a: nat, b: nat)
    requires
        pow2(a) == pow2(b),
    ensures
        a == b,
{
    if a < b {
        lemma_pow2_strictly_increases(a, b);
    } else if b < a {
        lemma_pow2_strictly_increases(b, a);
    }
}

/// The table in bit-reversed order lists the powers of the designated
/// root, which has the order that the transform asks for.
pub proof fn lemma_twiddles_bit_reversed(order: nat)
    requires
        order <= TWO_ADICITY,
    ensures
        bit_reversed_powers(
            twiddles_spec(order, RootsConfig::BitReverse),
            root_of_unity(order),
            order,
        ),
        primitive_root(root_of_unity(order), order),
{
    lemma_root_of_unity_order(order);
}

/// The two tables in bit-reversed order are inverse to each other, entry
/// by entry.
pub proof fn lemma_twiddles_inverse(order: nat)
    requires
        order <= TWO_ADICITY,
    ensures
        inverse_tables(
            twiddles_spec(order, RootsConfig::BitReverse),
            twiddles_spec(order, RootsConfig::BitReverseInversed),
            pow2(order) / 2,
        ),
{
    let m = p();
    let w = root_of_unity(order);
    let wi = inverse_root_of_unity(order);
    let tw = twiddles_spec(order, RootsConfig::BitReverse);
    let twi = twiddles_spec(order, RootsConfig::BitReverseInversed);
    lemma_inverse_root(order);
    assert forall|g: int| 0 <= g < pow2(order) / 2 implies (#[trigger] tw[g] as int * twi[g] as int)
        % m == 1 by {
        let e = bit_reverse(g as nat, (order - 1) as nat);
        lemma_mod_bound(pow(w, e), m);
        lemma_mod_bound(pow(wi, e), m);
        lemma_mul_mod_noop(pow(w, e), pow(wi, e), m);
        lemma_pow_distributes(w, wi, e);
        lemma_pow_mod_noop(w * wi, e, m);
        lemma1_pow(e);
    }
}

} // verus!
