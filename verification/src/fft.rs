//! Radix-2 fast Fourier transform over the field of order `15 * 2^27 + 1`,
//! and its inverse.
//!
//! The transform is a network of butterflies that runs in place, from
//! natural to bit-reversed order, followed by a bit-reverse permutation. The
//! inverse undoes the network stage by stage.

use crate::bit_reverse::bit_reverse_permute;
use crate::bit_reverse::bitrev_permutation;
use crate::bit_reverse::log2_exact;
use crate::errors::FFTError;
use crate::field::U32TestField;
use crate::field::fadd;
use crate::field::fmul;
use crate::field::fsub;
use crate::field::p;
use crate::poly_eval::reduce;
use vstd::arithmetic::div_mod::*;
use vstd::arithmetic::mul::*;
use vstd::arithmetic::power2::*;
use vstd::prelude::*;

verus! {

/// The inverse of two: `(p + 1) / 2`.
pub const INVERSE_OF_TWO: u32 = 1006632961;

/// The exponent of the largest power of two that is at most `n`.
pub open spec fn log2(n: nat) -> nat
    decreases n,
{
    if n <= 1 {
        0
    } else {
        1 + log2(n / 2)
    }
}

/// One stage of butterflies on groups of `size` entries. In each group the
/// entry `x` at offset `j` of the first half and the entry `y` at offset `j`
/// of the second half become `x + w * y` and `x - w * y`, where `w` is the
/// twiddle factor of the group.
pub open spec fn butterfly_stage(a: Seq<u32>, tw: Seq<u32>, size: nat) -> Seq<u32> {
    let half = size / 2;
    Seq::new(
        a.len(),
        |i: int|
            {
                let w = tw[i / (size as int)] as int;
                if i % (size as int) < half {
                    fadd(a[i] as int, fmul(w, a[i + half] as int, p()), p()) as u32
                } else {
                    fsub(a[i - half] as int, fmul(w, a[i] as int, p()), p()) as u32
                }
            },
    )
}

/// All stages from groups of `size` entries down to groups of one.
pub open spec fn fft_levels(a: Seq<u32>, tw: Seq<u32>, size: nat) -> Seq<u32>
    decreases size,
{
    if size <= 1 {
        a
    } else {
        fft_levels(butterfly_stage(a, tw, size), tw, size / 2)
    }
}

/// The transform of `a` under the twiddle factors `tw`, in natural order.
pub open spec fn fft_spec(a: Seq<u32>, tw: Seq<u32>) -> Seq<u32> {
    bit_reverse_permute(fft_levels(reduce(a), tw, a.len()), log2(a.len()))
}

/// The stage that undoes `butterfly_stage`, given the inverses `twi` of the
/// twiddle factors: `u` and `v` become `(u + v) / 2` and `(u - v) / (2 * w)`.
pub open spec fn inverse_stage(b: Seq<u32>, twi: Seq<u32>, size: nat) -> Seq<u32> {
    let half = size / 2;
    Seq::new(
        b.len(),
        |i: int|
            {
                let wi = twi[i / (size as int)] as int;
                if i % (size as int) < half {
                    fmul(fadd(b[i] as int, b[i + half] as int, p()), INVERSE_OF_TWO as int, p()) as u32
                } else {
                    fmul(
                        fmul(fsub(b[i - half] as int, b[i] as int, p()), INVERSE_OF_TWO as int, p()),
                        wi,
                        p(),
                    ) as u32
                }
            },
    )
}

/// All inverse stages from groups of two entries up to groups of `size`.
pub open spec fn inverse_levels(b: Seq<u32>, twi: Seq<u32>, size: nat) -> Seq<u32>
    decreases size,
{
    if size <= 1 {
        b
    } else {
        inverse_stage(inverse_levels(b, twi, size / 2), twi, size)
    }
}

/// The inverse transform of `b` under the inverse twiddle factors `twi`.
pub open spec fn inverse_fft_spec(b: Seq<u32>, twi: Seq<u32>) -> Seq<u32> {
    inverse_levels(bit_reverse_permute(reduce(b), log2(b.len())), twi, b.len())
}

pub proof fn lemma_log2_pow2(k: nat)
    ensures
        log2(pow2(k)) == k,
    decreases k,
{
    lemma2_to64();
    if k > 0 {
        lemma_pow2_unfold(k);
        lemma_pow2_pos((k - 1) as nat);
        lemma_log2_pow2((k - 1) as nat);
    }
}

/// Position of an entry inside its group.
pub proof fn lemma_group_index(g: int, j: int, size: int)
    requires
        0 <= j < size,
        0 <= g,
    ensures
        (g * size + j) / size == g,
        (g * size + j) % size == j,
{
    lemma_fundamental_div_mod_converse(g * size + j, size, g, j);
}

/// Which entries a stage that is under way has already replaced: those
/// below `i`, and those of the second half of the current group that lie
/// below `i + half`.
pub open spec fn stage_progress(
    cur: Seq<u32>,
    before: Seq<u32>,
    after: Seq<u32>,
    i: int,
    half: int,
    first: int,
) -> bool {
    &&& cur.len() == before.len()
    &&& forall|idx: int|
        0 <= idx < cur.len() ==> #[trigger] cur[idx] == (if idx < i || (first + half <= idx < i
            + half) {
            after[idx]
        } else {
            before[idx]
        })
}

/// Runs the butterfly network on `input` in place. The result is in
/// bit-reversed order.
pub fn in_place_nr_2radix_fft(input: &mut Vec<u32>, twiddles: &[u32])
    requires
        is_pow2(old(input).len() as int),
        twiddles.len() >= old(input).len() / 2,
    ensures
        final(input)@ == fft_levels(old(input)@, twiddles@, old(input).len() as nat),
        final(input).len() == old(input).len(),
{
    let n: usize = input.len();
    let ghost orig = input@;
    let mut group_count: usize = 1;
    let mut group_size: usize = n;
    proof {
        lemma_mul_basics(n as int);
    }
    while group_count < n
        invariant
            input.len() == n,
            twiddles.len() >= n / 2,
            group_count * group_size == n,
            group_count >= 1,
            is_pow2(group_size as int),
            fft_levels(input@, twiddles@, group_size as nat) == fft_levels(orig, twiddles@, n as nat),
        decreases group_size,
    {
        let ghost before = input@;
        let ghost after = butterfly_stage(before, twiddles@, group_size as nat);
        proof {
            reveal(is_pow2);
            if group_size <= 1 {
                assert(group_count * group_size == group_count) by (nonlinear_arith)
                    requires
                        group_size == 1,
                ;
            }
            assert(group_count * group_size == (2 * group_count) * (group_size / 2))
                by (nonlinear_arith)
                requires
                    group_size % 2 == 0,
            ;
            assert(group_count <= n / 2) by (nonlinear_arith)
                requires
                    group_count * group_size == n,
                    group_size >= 2,
                    group_count >= 1,
            ;
        }
        let half: usize = group_size / 2;
        let mut group: usize = 0;
        while group < group_count
            invariant
                input.len() == n,
                before.len() == n,
                twiddles.len() >= n / 2,
                group_count <= n / 2,
                group_count * group_size == n,
                group_size == 2 * half,
                half >= 1,
                group <= group_count,
                after == butterfly_stage(before, twiddles@, group_size as nat),
                stage_progress(
                    input@,
                    before,
                    after,
                    group * group_size,
                    half as int,
                    group * group_size,
                ),
            decreases group_count - group,
        {
            proof {
                assert(group * group_size + group_size <= n) by (nonlinear_arith)
                    requires
                        group < group_count,
                        group_count * group_size == n,
                ;
                assert((group + 1) * group_size == group * group_size + group_size)
                    by (nonlinear_arith);
            }
            let first: usize = group * group_size;
            let w: u32 = twiddles[group];
            let mut i: usize = first;
            while i < first + half
                invariant
                    input.len() == n,
                    before.len() == n,
                    group < twiddles.len(),
                    w == twiddles@[group as int],
                    first == group * group_size,
                    first + group_size <= n,
                    group_size == 2 * half,
                    first <= i <= first + half,
                    after == butterfly_stage(before, twiddles@, group_size as nat),
                    stage_progress(input@, before, after, i as int, half as int, first as int),
                decreases first + half - i,
            {
                proof {
                    lemma_group_index(group as int, i - first, group_size as int);
                    lemma_group_index(group as int, i - first + half, group_size as int);
                }
                let x: u32 = input[i];
                let y: u32 = input[i + half];
                let wy: u32 = U32TestField::mul(&w, &y);
                let y0: u32 = U32TestField::add(&x, &wy);
                let y1: u32 = U32TestField::sub(&x, &wy);
                input.set(i, y0);
                input.set(i + half, y1);
                i = i + 1;
            }
            group = group + 1;
        }
        proof {
            assert(input@ =~= after);
        }
        group_count = group_count * 2;
        group_size = half;
    }
    proof {
        reveal(is_pow2);
        if group_size >= 2 {
            assert(group_count * group_size >= 2 * group_count) by (nonlinear_arith)
                requires
                    group_size >= 2,
                    group_count >= 1,
            ;
        }
    }
}

/// Runs the inverse butterfly network in place, on input in bit-reversed
/// order. The result is in natural order.
pub fn in_place_rn_2radix_ifft(input: &mut Vec<u32>, twiddles_inv: &[u32])
    requires
        is_pow2(old(input).len() as int),
        twiddles_inv.len() >= old(input).len() / 2,
    ensures
        final(input)@ == inverse_levels(old(input)@, twiddles_inv@, old(input).len() as nat),
        final(input).len() == old(input).len(),
{
    let n: usize = input.len();
    let ghost orig = input@;
    let mut group_count: usize = n;
    let mut done: usize = 1;
    proof {
        lemma_mul_basics(n as int);
        reveal(is_pow2);
    }
    while done < n
        invariant
            input.len() == n,
            twiddles_inv.len() >= n / 2,
            group_count * done == n,
            done >= 1,
            is_pow2(group_count as int),
            input@ == inverse_levels(orig, twiddles_inv@, done as nat),
        decreases n - done,
    {
        let ghost before = input@;
        let ghost after = inverse_stage(before, twiddles_inv@, (2 * done) as nat);
        proof {
            reveal(is_pow2);
            if group_count <= 1 {
                assert(group_count * done == done) by (nonlinear_arith)
                    requires
                        group_count == 1,
                ;
            }
            assert(group_count * done == (group_count / 2) * (2 * done)) by (nonlinear_arith)
                requires
                    group_count % 2 == 0,
            ;
            assert(2 * done <= n) by (nonlinear_arith)
                requires
                    group_count * done == n,
                    group_count >= 2,
                    done >= 1,
            ;
            assert(group_count / 2 <= n / 2) by (nonlinear_arith)
                requires
                    (group_count / 2) * (2 * done) == n,
                    done >= 1,
                    group_count >= 2,
            ;
        }
        let half: usize = done;
        let group_size: usize = 2 * done;
        group_count = group_count / 2;
        let mut group: usize = 0;
        while group < group_count
            invariant
                input.len() == n,
                before.len() == n,
                twiddles_inv.len() >= n / 2,
                group_count <= n / 2,
                group_count * group_size == n,
                group_size == 2 * half,
                half >= 1,
                group <= group_count,
                after == inverse_stage(before, twiddles_inv@, group_size as nat),
                stage_progress(
                    input@,
                    before,
                    after,
                    group * group_size,
                    half as int,
                    group * group_size,
                ),
            decreases group_count - group,
        {
            proof {
                assert(group * group_size + group_size <= n) by (nonlinear_arith)
                    requires
                        group < group_count,
                        group_count * group_size == n,
                ;
                assert((group + 1) * group_size == group * group_size + group_size)
                    by (nonlinear_arith);
            }
            let first: usize = group * group_size;
            let wi: u32 = twiddles_inv[group];
            let mut i: usize = first;
            while i < first + half
                invariant
                    input.len() == n,
                    before.len() == n,
                    group < twiddles_inv.len(),
                    wi == twiddles_inv@[group as int],
                    first == group * group_size,
                    first + group_size <= n,
                    group_size == 2 * half,
                    first <= i <= first + half,
                    after == inverse_stage(before, twiddles_inv@, group_size as nat),
                    stage_progress(input@, before, after, i as int, half as int, first as int),
                decreases first + half - i,
            {
                proof {
                    lemma_group_index(group as int, i - first, group_size as int);
                    lemma_group_index(group as int, i - first + half, group_size as int);
                }
                let u: u32 = input[i];
                let v: u32 = input[i + half];
                let sum: u32 = U32TestField::add(&u, &v);
                let diff: u32 = U32TestField::sub(&u, &v);
                let x: u32 = U32TestField::mul(&sum, &INVERSE_OF_TWO);
                let halved: u32 = U32TestField::mul(&diff, &INVERSE_OF_TWO);
                let y: u32 = U32TestField::mul(&halved, &wi);
                input.set(i, x);
                input.set(i + half, y);
                i = i + 1;
            }
            group = group + 1;
        }
        proof {
            assert(input@ =~= after);
            assert((2 * done) / 2 == done);
        }
        done = group_size;
    }
    proof {
        reveal(is_pow2);
        if group_count >= 2 {
            assert(group_count * done >= 2 * done) by (nonlinear_arith)
                requires
                    group_count >= 2,
                    done >= 1,
            ;
        }
        lemma_mul_basics(done as int);
    }
}

/// A copy of `input` with every entry reduced to its canonical residue.
pub fn reduce_elements(input: &[u32]) -> (r: Vec<u32>)
    ensures
        r@ == reduce(input@),
{
    let mut out: Vec<u32> = Vec::new();
    let mut i: usize = 0;
    while i < input.len()
        invariant
            i <= input.len(),
            out@.len() == i,
            forall|j: int| 0 <= j < i ==> out@[j] == (input@[j] as int % p()) as u32,
        decreases input.len() - i,
    {
        out.push(U32TestField::representative(&input[i]));
        i = i + 1;
    }
    assert(out@ =~= reduce(input@));
    out
}

/// The transform of `input`, in natural order, under twiddle factors that
/// are given in bit-reversed order. An input whose length is no power of
/// two is reported as `InputError`, whatever the twiddle factors are; for
/// one whose length is a power of two, half as many twiddle factors as
/// inputs are needed.
pub fn fft(input: &[u32], twiddles: &[u32]) -> (r: Result<Vec<u32>, FFTError>)
    requires
        is_pow2(input.len() as int) ==> twiddles.len() >= input.len() / 2,
    ensures
        r is Ok <==> is_pow2(input.len() as int),
        r matches Err(e) ==> e == FFTError::InputError(input.len()),
        r matches Ok(out) ==> out@ == fft_spec(input@, twiddles@),
{
    match log2_exact(input.len()) {
        None => Err(FFTError::InputError(input.len())),
        Some(k) => {
            let mut work = reduce_elements(input);
            in_place_nr_2radix_fft(&mut work, twiddles);
            proof {
                lemma_log2_pow2(k as nat);
            }
            match bitrev_permutation(work.as_slice()) {
                Ok(out) => {
                    proof {
                        let k2 = choose|k2: nat|
                            work.len() == pow2(k2) && out@ == bit_reverse_permute(work@, k2);
                        lemma_log2_pow2(k2);
                    }
                    Ok(out)
                },
                Err(e) => Err(e),
            }
        },
    }
}

/// The inverse transform of `input`, in natural order, under the inverses
/// of the twiddle factors, given in bit-reversed order. An input whose
/// length is no power of two is reported as `InputError`, whatever the
/// twiddle factors are.
pub fn inverse_fft(input: &[u32], twiddles_inv: &[u32]) -> (r: Result<Vec<u32>, FFTError>)
    requires
        is_pow2(input.len() as int) ==> twiddles_inv.len() >= input.len() / 2,
    ensures
        r is Ok <==> is_pow2(input.len() as int),
        r matches Err(e) ==> e == FFTError::InputError(input.len()),
        r matches Ok(out) ==> out@ == inverse_fft_spec(input@, twiddles_inv@),
{
    let reduced = reduce_elements(input);
    match bitrev_permutation(reduced.as_slice()) {
        Err(e) => Err(FFTError::InputError(input.len())),
        Ok(permuted) => {
            let mut work = permuted;
            proof {
                let k = choose|k: nat|
                    reduced.len() == pow2(k) && work@ == bit_reverse_permute(reduced@, k);
                lemma_log2_pow2(k);
            }
            in_place_rn_2radix_ifft(&mut work, twiddles_inv);
            Ok(work)
        },
    }
}

} // verus!
