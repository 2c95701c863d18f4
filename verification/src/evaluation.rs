//! Evaluation of a polynomial, given by its coefficients, at one point, on
//! the powers of a root of unity and on a coset of them; and interpolation
//! from such values.

use crate::bit_reverse::log2_exact;
use crate::errors::FFTError;
use crate::fft::fft;
use crate::fft::fft_spec;
use crate::fft::inverse_fft;
use crate::fft::inverse_fft_spec;
use crate::fft::lemma_log2_pow2;
use crate::fft::log2;
use crate::fft_inverse::lemma_fft_of_inverse_fft;
use crate::fft_inverse::lemma_inverse_fft_of_fft;
use crate::fft_inverse::lemma_levels_canonical;
use crate::fft_inverse::lemma_permute_canonical;
use crate::fft_meaning::lemma_fft_evaluates;
use crate::field::TEST_FIELD_MODULUS;
use crate::field::U32TestField;
use crate::field::fmul;
use crate::field::fpow;
use crate::field::p;
use crate::modular::lemma_cong_mul;
use crate::poly_eval::canonical;
use crate::poly_eval::poly_eval;
use crate::poly_eval::reduce;
use crate::poly_eval::scale;
use crate::roots_of_unity::RootsConfig;
use crate::roots_of_unity::TWO_ADICITY;
use crate::roots_of_unity::gen_twiddles;
use crate::roots_of_unity::lemma_fpow_adds;
use crate::roots_of_unity::lemma_twiddles_bit_reversed;
use crate::roots_of_unity::lemma_twiddles_inverse;
use crate::roots_of_unity::root_of_unity;
use crate::roots_of_unity::twiddles_spec;
use vstd::arithmetic::div_mod::*;
use vstd::arithmetic::mul::*;
use vstd::arithmetic::power2::*;
use vstd::arithmetic::power::*;
use vstd::prelude::*;

verus! {

/// Whether a transform of `len` entries exists: `len` is a power of two
/// that the two-adicity of the field covers.
pub open spec fn transform_size(len: nat) -> bool {
    is_pow2(len as int) && log2(len) <= TWO_ADICITY
}

/// The error that a transform of `len` entries fails with.
pub open spec fn transform_error(len: nat) -> FFTError {
    if is_pow2(len as int) {
        FFTError::RootOfUnityError(log2(len) as u64)
    } else {
        FFTError::InputError(len as usize)
    }
}

/// The point of index `j` of the coset of offset `h` in the subgroup of
/// order `len`: `h * w^j`, where `w` is the designated root of that order.
pub open spec fn coset_point(len: nat, h: int, j: nat) -> int {
    fmul(h, fpow(root_of_unity(log2(len)), j, p()), p())
}

/// The value of the polynomial with coefficients `coeffs` at `x`, by
/// Horner's rule.
pub fn evaluate(coeffs: &[u32], x: u32) -> (r: u32)
    ensures
        r == poly_eval(coeffs@, x as int),
        r < TEST_FIELD_MODULUS,
{
    let n: usize = coeffs.len();
    let mut acc: u32 = 0;
    let mut i: usize = n;
    assert(coeffs@.subrange(n as int, n as int).len() == 0);
    while i > 0
        invariant
            i <= n,
            n == coeffs.len(),
            acc < TEST_FIELD_MODULUS,
            acc == poly_eval(coeffs@.subrange(i as int, n as int), x as int),
        decreases i,
    {
        i = i - 1;
        let ghost tail = coeffs@.subrange(i as int, n as int);
        let xa: u32 = U32TestField::mul(&x, &acc);
        proof {
            assert(tail.drop_first() =~= coeffs@.subrange(i + 1, n as int));
            lemma_add_mod_noop_right(coeffs@[i as int] as int, x as int * acc as int, p());
        }
        acc = U32TestField::add(&coeffs[i], &xa);
    }
    assert(coeffs@.subrange(0, n as int) == coeffs@);
    acc
}

/// The values of the polynomial at each of `points`.
pub fn evaluate_slice(coeffs: &[u32], points: &[u32]) -> (r: Vec<u32>)
    ensures
        r@.len() == points@.len(),
        forall|i: int| 0 <= i < points@.len() ==> r@[i] == poly_eval(coeffs@, points@[i] as int),
{
    let mut out: Vec<u32> = Vec::new();
    let mut i: usize = 0;
    while i < points.len()
        invariant
            i <= points.len(),
            out@.len() == i,
            forall|j: int| 0 <= j < i ==> out@[j] == poly_eval(coeffs@, points@[j] as int),
        decreases points.len() - i,
    {
        out.push(evaluate(coeffs, points[i]));
        i = i + 1;
    }
    out
}

/// The coefficients `coeffs[j] * s^j` of the polynomial `X -> P(s * X)`.
pub fn scale_coefficients(coeffs: &[u32], s: u32) -> (r: Vec<u32>)
    ensures
        r@ == scale(coeffs@, s as int),
{
    let mut out: Vec<u32> = Vec::new();
    let mut cur: u32 = 1;
    let mut i: usize = 0;
    proof {
        lemma_pow0(s as int);
    }
    while i < coeffs.len()
        invariant
            i <= coeffs.len(),
            out@.len() == i,
            cur == fpow(s as int, i as nat, p()),
            forall|j: int| 0 <= j < i ==> out@[j] == scale(coeffs@, s as int)[j],
        decreases coeffs.len() - i,
    {
        out.push(U32TestField::mul(&coeffs[i], &cur));
        proof {
            lemma_fpow_adds(s as int, i as nat, 1);
            lemma_pow1(s as int);
            lemma_cong_mul(cur as int, cur as int, fpow(s as int, 1, p()), s as int, p());
        }
        cur = U32TestField::mul(&cur, &s);
        i = i + 1;
    }
    assert(out@ =~= scale(coeffs@, s as int));
    out
}

/// The values of the polynomial on the subgroup of order `coeffs.len()`:
/// entry `j` is the value at the `j`-th power of the designated root of
/// that order. The length must be a power of two that the field's
/// two-adicity covers.
pub fn evaluate_fft(coeffs: &[u32]) -> (r: Result<Vec<u32>, FFTError>)
    ensures
        r is Ok <==> transform_size(coeffs@.len()),
        r matches Err(e) ==> e == transform_error(coeffs@.len()),
        r matches Ok(out) ==> {
            &&& out@.len() == coeffs@.len()
            &&& canonical(out@)
            &&& out@ == fft_spec(
                coeffs@,
                twiddles_spec(log2(coeffs@.len()), RootsConfig::BitReverse),
            )
            &&& forall|j: int|
                0 <= j < out@.len() ==> out@[j] == poly_eval(
                    coeffs@,
                    fpow(root_of_unity(log2(coeffs@.len())), j as nat, p()),
                )
        },
{
    let n: usize = coeffs.len();
    let k: u32 = match log2_exact(n) {
        Some(k) => k,
        None => {
            return Err(FFTError::InputError(n));
        },
    };
    proof {
        lemma_log2_pow2(k as nat);
        lemma_pow2_unfold_or_zero(k as nat);
    }
    let twiddles = match gen_twiddles(k as u64, RootsConfig::BitReverse) {
        Ok(t) => t,
        Err(e) => {
            return Err(e);
        },
    };
    match fft(coeffs, twiddles.as_slice()) {
        Ok(out) => {
            proof {
                lemma_twiddles_bit_reversed(k as nat);
                assert forall|j: int| 0 <= j < coeffs@.len() implies fft_spec(
                    coeffs@,
                    twiddles@,
                )[j] as int == poly_eval(
                    coeffs@,
                    fpow(root_of_unity(k as nat), j as nat, p()),
                ) by {
                    lemma_fft_evaluates(coeffs@, twiddles@, root_of_unity(k as nat), k as nat, j);
                }
                lemma_fft_canonical(coeffs@, twiddles@, k as nat);
            }
            Ok(out)
        },
        Err(e) => Err(e),
    }
}

/// The coefficients of the polynomial of degree below `evals.len()` that
/// takes the value `evals[j]` at the `j`-th power of the designated root
/// of order `evals.len()`. The length must be a power of two that the
/// field's two-adicity covers.
pub fn interpolate_fft(evals: &[u32]) -> (r: Result<Vec<u32>, FFTError>)
    ensures
        r is Ok <==> transform_size(evals@.len()),
        r matches Err(e) ==> e == transform_error(evals@.len()),
        r matches Ok(out) ==> {
            &&& out@.len() == evals@.len()
            &&& canonical(out@)
            &&& out@ == inverse_fft_spec(
                evals@,
                twiddles_spec(log2(evals@.len()), RootsConfig::BitReverseInversed),
            )
            &&& forall|j: int|
                0 <= j < out@.len() ==> poly_eval(
                    out@,
                    fpow(root_of_unity(log2(evals@.len())), j as nat, p()),
                ) == evals@[j] as int % p()
        },
{
    let n: usize = evals.len();
    let k: u32 = match log2_exact(n) {
        Some(k) => k,
        None => {
            return Err(FFTError::InputError(n));
        },
    };
    proof {
        lemma_log2_pow2(k as nat);
        lemma_pow2_unfold_or_zero(k as nat);
    }
    let twiddles_inv = match gen_twiddles(k as u64, RootsConfig::BitReverseInversed) {
        Ok(t) => t,
        Err(e) => {
            return Err(e);
        },
    };
    match inverse_fft(evals, twiddles_inv.as_slice()) {
        Ok(out) => {
            proof {
                lemma_interpolation(evals@, k as nat);
            }
            Ok(out)
        },
        Err(e) => Err(e),
    }
}

/// The table of `2^(k - 1)` factors has half as many entries as the
/// transform.
pub proof fn lemma_pow2_unfold_or_zero(k: nat)
    ensures
        pow2(k) / 2 == (if k == 0 {
            0
        } else {
            pow2((k - 1) as nat)
        }),
        pow2(k) >= 1,
{
    lemma2_to64();
    lemma_pow2_pos(k);
    if k > 0 {
        lemma_pow2_unfold(k);
    }
}

/// The transform leaves canonical residues and keeps the length.
pub proof fn lemma_fft_canonical(a: Seq<u32>, tw: Seq<u32>, k: nat)
    requires
        a.len() == pow2(k),
    ensures
        canonical(fft_spec(a, tw)),
        fft_spec(a, tw).len() == a.len(),
        canonical(inverse_fft_spec(a, tw)),
        inverse_fft_spec(a, tw).len() == a.len(),
{
    let r = reduce(a);
    lemma_log2_pow2(k);
    assert forall|x: int| 0 <= x < r.len() implies (#[trigger] r[x] as int) < p() by {
        lemma_mod_bound(a[x] as int, p());
    }
    lemma_levels_canonical(r, tw, a.len());
    lemma_permute_canonical(crate::fft::fft_levels(r, tw, r.len()), k);
    lemma_permute_canonical(r, k);
    lemma_levels_canonical(crate::bit_reverse::bit_reverse_permute(r, k), tw, a.len());
}

/// The inverse transform interpolates: the polynomial whose coefficients
/// it returns takes the given values at the powers of the designated root.
pub proof fn lemma_interpolation(evals: Seq<u32>, k: nat)
    requires
        evals.len() == pow2(k),
        k <= TWO_ADICITY,
    ensures
        ({
            let c = inverse_fft_spec(evals, twiddles_spec(k, RootsConfig::BitReverseInversed));
            &&& c.len() == evals.len()
            &&& canonical(c)
            &&& forall|j: int|
                0 <= j < evals.len() ==> poly_eval(c, fpow(root_of_unity(k), j as nat, p()))
                    == evals[j] as int % p()
        }),
{
    let tw = twiddles_spec(k, RootsConfig::BitReverse);
    let twi = twiddles_spec(k, RootsConfig::BitReverseInversed);
    let r = reduce(evals);
    let c = inverse_fft_spec(evals, twi);
    lemma_fft_canonical(evals, twi, k);
    assert forall|x: int| 0 <= x < r.len() implies (#[trigger] r[x] as int) < p() by {
        lemma_mod_bound(evals[x] as int, p());
    }
    lemma_permute_canonical(r, k);
    assert(inverse_fft_spec(r, twi) == c);
    lemma_twiddles_inverse(k);
    lemma_twiddles_bit_reversed(k);
    lemma_fft_of_inverse_fft(r, tw, twi, k);
    assert forall|j: int| 0 <= j < evals.len() implies poly_eval(
        c,
        fpow(root_of_unity(k), j as nat, p()),
    ) == evals[j] as int % p() by {
        lemma_fft_evaluates(c, tw, root_of_unity(k), k, j);
    }
}

/// The inverse transform undoes the transform: for a sequence `v` of
/// `2^k` canonical residues, with `k` within the two-adicity of the field,
/// the inverse transform of the transform of `v`, each under its table of
/// twiddle factors, is `v`.
pub proof fn lemma_fft_round_trip(v: Seq<u32>, k: nat)
    requires
        v.len() == pow2(k),
        k <= TWO_ADICITY,
        canonical(v),
    ensures
        inverse_fft_spec(
            fft_spec(v, twiddles_spec(k, RootsConfig::BitReverse)),
            twiddles_spec(k, RootsConfig::BitReverseInversed),
        ) == v,
        fft_spec(
            inverse_fft_spec(v, twiddles_spec(k, RootsConfig::BitReverseInversed)),
            twiddles_spec(k, RootsConfig::BitReverse),
        ) == v,
{
    lemma_twiddles_inverse(k);
    lemma_inverse_fft_of_fft(
        v,
        twiddles_spec(k, RootsConfig::BitReverse),
        twiddles_spec(k, RootsConfig::BitReverseInversed),
        k,
    );
    lemma_fft_of_inverse_fft(
        v,
        twiddles_spec(k, RootsConfig::BitReverse),
        twiddles_spec(k, RootsConfig::BitReverseInversed),
        k,
    );
}

/// What a back end leaves in bit-reversed order is, once permuted, the
/// ordered transform; and the ordered transform, permuted, is what the
/// back end leaves: for an input of `2^k` entries and any table of
/// twiddle factors.
pub proof fn lemma_back_end_equivalence(v: Seq<u32>, tw: Seq<u32>, k: nat)
    requires
        v.len() == pow2(k),
    ensures
        fft_spec(v, tw) == crate::bit_reverse::bit_reverse_permute(
            crate::fft::fft_levels(reduce(v), tw, v.len()),
            k,
        ),
        crate::bit_reverse::bit_reverse_permute(fft_spec(v, tw), k) == crate::fft::fft_levels(
            reduce(v),
            tw,
            v.len(),
        ),
{
    let r = reduce(v);
    lemma_log2_pow2(k);
    assert forall|x: int| 0 <= x < r.len() implies (#[trigger] r[x] as int) < p() by {
        lemma_mod_bound(v[x] as int, p());
    }
    lemma_levels_canonical(r, tw, v.len());
    crate::bit_reverse::lemma_bit_reverse_permute_involution(
        crate::fft::fft_levels(r, tw, v.len()),
        k,
    );
}

} // verus!
