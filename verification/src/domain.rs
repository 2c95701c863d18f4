//! The domains of a proof: the subgroup on which the trace is
//! interpolated, and the coset on which the low-degree extensions live.

use crate::air::AirContext;
use crate::air::AirContextView;
use crate::bit_reverse::log2_exact;
use crate::coset::Coset;
use crate::coset::invertible;
use crate::errors::FFTError;
use crate::errors::StarkError;
use crate::fft::lemma_log2_pow2;
use crate::field::TEST_FIELD_MODULUS;
use crate::field::U32TestField;
use crate::field::finv;
use crate::field::p;
use crate::roots_of_unity::get_primitive_root_of_unity;
use crate::roots_of_unity::root_of_unity;
use vstd::arithmetic::power2::*;
use vstd::prelude::*;

verus! {

/// The domains that belong to a context.
#[derive(Clone, Copy, Debug)]
pub struct Domain {
    /// The exponent of the trace length.
    pub trace_order: u64,
    /// The exponent of the blowup factor.
    pub blowup_order: u64,
    /// The trace length `N`.
    pub trace_length: usize,
    /// The blowup factor `b`.
    pub blowup: usize,
    /// The designated root of unity of order `N`.
    pub trace_generator: u32,
    /// The evaluation domain: a coset of `N * b` points.
    pub lde: Coset,
}

/// The offset of the evaluation domain that the context asks for, as a
/// residue.
pub open spec fn context_offset(ctx: AirContextView) -> int {
    ctx.options.coset_offset as int % p()
}

impl Domain {
    /// The fields agree with each other.
    pub open spec fn wf(&self) -> bool {
        &&& self.lde.wf()
        &&& self.trace_order >= 1
        &&& self.blowup_order >= 1
        &&& self.lde.order == self.trace_order + self.blowup_order
        &&& self.trace_length == pow2(self.trace_order as nat)
        &&& self.blowup == pow2(self.blowup_order as nat)
        &&& self.trace_generator == root_of_unity(self.trace_order as nat)
        &&& self.lde.size == self.trace_length * self.blowup
    }

    /// The domains are those of the context `ctx`.
    pub open spec fn of(&self, ctx: AirContextView) -> bool {
        &&& self.wf()
        &&& self.trace_order == ctx.trace_order()
        &&& self.blowup_order == ctx.blowup_order()
        &&& self.trace_length == ctx.trace_length
        &&& self.blowup == ctx.options.blowup_factor
        &&& self.lde.offset == context_offset(ctx)
        &&& self.lde.offset_inv == finv(context_offset(ctx), p())
    }

    /// The domains of the context. A context that is not valid is refused
    /// with its defect, an offset without an inverse with
    /// `DomainCreationError`.
    pub fn new(ctx: &AirContext) -> (r: Result<Domain, StarkError>)
        ensures
            r is Ok <==> ctx@.valid() && invertible(ctx@.options.coset_offset as int),
            r matches Err(e) ==> e == (if ctx@.valid() {
                StarkError::DomainCreationError(
                    FFTError::OffsetError((ctx@.options.coset_offset as int % p()) as u32),
                )
            } else {
                ctx@.defect().unwrap()
            }),
            r matches Ok(d) ==> d.of(ctx@),
    {
        match ctx.validate() {
            Ok(()) => {},
            Err(e) => {
                return Err(e);
            },
        }
        let kt: u32 = match log2_exact(ctx.trace_length) {
            Some(k) => k,
            None => {
                return Err(StarkError::NonPowerOfTwoLength);
            },
        };
        let kb: u32 = match log2_exact(ctx.options.blowup_factor as usize) {
            Some(k) => k,
            None => {
                return Err(StarkError::NonPowerOfTwoLength);
            },
        };
        proof {
            lemma_log2_pow2(kt as nat);
            lemma_log2_pow2(kb as nat);
            lemma2_to64();
            lemma_pow2_adds(kt as nat, kb as nat);
            crate::modular::lemma_cong_mod(ctx@.options.coset_offset as int, p());
        }
        let offset: u32 = U32TestField::from_u64(ctx.options.coset_offset);
        let lde = match Coset::new(kt as u64 + kb as u64, offset) {
            Ok(c) => c,
            Err(e) => {
                return Err(StarkError::DomainCreationError(e));
            },
        };
        let trace_generator = match get_primitive_root_of_unity(kt as u64) {
            Ok(g) => g,
            Err(e) => {
                return Err(StarkError::DomainCreationError(e));
            },
        };
        proof {
            lemma_small_mod_u32(offset);
        }
        Ok(
            Domain {
                trace_order: kt as u64,
                blowup_order: kb as u64,
                trace_length: ctx.trace_length,
                blowup: ctx.options.blowup_factor as usize,
                trace_generator,
                lde,
            },
        )
    }
}

/// A canonical residue is its own remainder.
pub proof fn lemma_small_mod_u32(a: u32)
    requires
        a < TEST_FIELD_MODULUS,
    ensures
        a as int % p() == a,
{
    vstd::arithmetic::div_mod::lemma_small_mod(a as nat, p() as nat);
}

} // verus!
