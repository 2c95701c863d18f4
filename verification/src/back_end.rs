//! The plan by which a device runs the butterfly network: what it is
//! asked to do in each stage, and which kernel fills a table of twiddle
//! factors. The device itself is not part of the library.

use crate::bit_reverse::log2_exact;
use crate::errors::FFTError;
use crate::roots_of_unity::RootsConfig;
use crate::roots_of_unity::TWO_ADICITY;
use crate::roots_of_unity::pow2_u64;
use vstd::arithmetic::div_mod::*;
use vstd::arithmetic::power2::*;
use vstd::prelude::*;

verus! {

/// The work of one stage of the network: the number of groups, each with
/// its own twiddle factor, and the number of butterflies in each group.
#[derive(Debug, Clone, Copy, PartialEq, Eq, Structural)]
pub struct StageDispatch {
    pub group_count: u64,
    pub group_size: u64,
    pub butterflies_per_group: u64,
}

/// The number of stages of the network on an input of `len` entries: the
/// exponent of `len`. A length that is no power of two is reported as
/// `InputError`.
pub fn stage_count(len: usize) -> (r: Result<u32, FFTError>)
    ensures
        r is Ok <==> is_pow2(len as int),
        r matches Ok(k) ==> len == pow2(k as nat),
        r matches Err(e) ==> e == FFTError::InputError(len),
{
    match log2_exact(len) {
        Some(k) => Ok(k),
        None => Err(FFTError::InputError(len)),
    }
}

/// The work of stage `stage` on an input of `2^order` entries: `2^stage`
/// groups of `2^(order - stage)` entries, with half as many butterflies in
/// each.
pub fn stage_dispatch(order: u32, stage: u32) -> (r: StageDispatch)
    requires
        stage < order,
        order < 64,
    ensures
        r.group_count == pow2(stage as nat),
        r.group_size == pow2((order - stage) as nat),
        r.butterflies_per_group == pow2((order - stage - 1) as nat),
        r.group_count * r.group_size == pow2(order as nat),
{
    let group_count: u64 = pow2_u64(stage as u64);
    let group_size: u64 = pow2_u64((order - stage) as u64);
    proof {
        lemma_pow2_unfold((order - stage) as nat);
        lemma_pow2_adds(stage as nat, (order - stage) as nat);
    }
    StageDispatch { group_count, group_size, butterflies_per_group: group_size / 2 }
}

/// The number of twiddle factors for transforms of `2^order` entries.
pub fn twiddle_count(order: u64) -> (r: Result<usize, FFTError>)
    ensures
        r is Ok <==> order <= TWO_ADICITY,
        r matches Ok(n) ==> n == pow2(order as nat) / 2,
        r matches Err(e) ==> e == FFTError::RootOfUnityError(order),
{
    if order > TWO_ADICITY {
        return Err(FFTError::RootOfUnityError(order));
    }
    let size: u64 = pow2_u64(order);
    proof {
        lemma2_to64();
        if order < 27 {
            lemma_pow2_strictly_increases(order as nat, 27);
        }
    }
    Ok((size / 2) as usize)
}

/// The name of the kernel that fills a table in the ordering `config`,
/// without the name of the field that follows it.
pub fn twiddle_kernel(config: RootsConfig) -> (r: &'static str)
    ensures
        r@ == (match config {
            RootsConfig::Natural => "calc_twiddles_"@,
            RootsConfig::NaturalInversed => "calc_twiddles_inv_"@,
            RootsConfig::BitReverse => "calc_twiddles_bitrev_"@,
            RootsConfig::BitReverseInversed => "calc_twiddles_bitrev_inv_"@,
        }),
{
    match config {
        RootsConfig::Natural => "calc_twiddles_",
        RootsConfig::NaturalInversed => "calc_twiddles_inv_",
        RootsConfig::BitReverse => "calc_twiddles_bitrev_",
        RootsConfig::BitReverseInversed => "calc_twiddles_bitrev_inv_",
    }
}

} // verus!
