//! What the prover computes, step by step, as a function of the
//! computation and of its trace.

use crate::air::AIR;
use crate::air::AirContextView;
use crate::air::FRAME_ROWS;
use crate::constraints::coefficient_count;
use crate::constraints::join_halves;
use crate::domain::context_offset;
use crate::errors::StarkError;
use crate::fft::inverse_fft_spec;
use crate::field::finv;
use crate::field::fmul;
use crate::field::fpow;
use crate::field::p;
use crate::fri::FriInput;
use crate::fri::coset_evals;
use crate::fri::honest_paths;
use crate::merkle::Proof;
use crate::merkle::leaf_level;
use crate::merkle::merkle_root;
use crate::merkle::path_of;
use crate::poly_eval::evens;
use crate::poly_eval::odds;
use crate::poly_eval::poly_eval;
use crate::poly_eval::scale;
use crate::roots_of_unity::RootsConfig;
use crate::roots_of_unity::root_of_unity;
use crate::roots_of_unity::twiddles_spec;
use crate::stark_proof::ProofHeader;
use crate::stark_proof::QueryOpening;
use crate::stark_proof::StarkQueryProof;
use crate::stark_proof::out_of_domain;
use crate::stark_proof::window_position;
use crate::stark_prover::composition_on_domain;
use crate::stark_prover::deep_on_domain;
use crate::stark_prover::vanishes_from;
use vstd::prelude::*;

verus! {

/// The coefficients of the polynomial of degree below `2^order` that takes
/// the values `evals` on the subgroup of order `2^order`.
pub open spec fn interpolated_on_subgroup(evals: Seq<u32>, order: nat) -> Seq<u32> {
    inverse_fft_spec(evals, twiddles_spec(order, RootsConfig::BitReverseInversed))
}

/// The coefficients of the polynomial of degree below `2^order` that takes
/// the values `evals` on the coset of `2^order` points whose offset has
/// the inverse `h_inv`.
pub open spec fn interpolated_on(evals: Seq<u32>, order: nat, h_inv: int) -> Seq<u32> {
    scale(interpolated_on_subgroup(evals, order), h_inv)
}

/// The values that an honest run of the prover goes through.
pub struct ProverRun {
    /// The coefficients of the trace polynomials, column by column.
    pub polys: Seq<Seq<u32>>,
    /// The extended trace, column after column.
    pub lde: Seq<u32>,
    /// The coefficients of the composition polynomial's terms.
    pub coeffs: Seq<u32>,
    /// The values of the composition polynomial on the evaluation domain.
    pub h_evals: Seq<u32>,
    /// Its coefficients.
    pub h_coeffs: Seq<u32>,
    pub even_coeffs: Seq<u32>,
    pub odd_coeffs: Seq<u32>,
    pub even_evals: Seq<u32>,
    pub odd_evals: Seq<u32>,
    /// The out-of-domain point.
    pub z: u32,
    /// The coefficients of the DEEP composition polynomial's terms.
    pub gammas: Seq<u32>,
    /// The values of the DEEP composition polynomial on the evaluation
    /// domain.
    pub deep: Seq<u32>,
    /// Its coefficients.
    pub deep_coeffs: Seq<u32>,
    /// What FRI starts from.
    pub fri: FriInput,
    /// The part of the proof that the challenges follow from.
    pub header: ProofHeader,
}

/// The honest run of the prover on the computation `air` and the columns
/// of its trace.
pub open spec fn honest_run<A: AIR>(air: &A, trace: Seq<Seq<u32>>) -> ProverRun {
    let ctx = air.context_view();
    let cols = ctx.trace_columns as int;
    let n = ctx.lde_size() as int;
    let big_n = ctx.trace_length as int;
    let k = ctx.lde_order();
    let h = context_offset(ctx);
    let h_inv = finv(h, p());
    let omega = root_of_unity(ctx.trace_order());
    let count = coefficient_count(ctx, air.boundary_view());
    let polys = Seq::new(
        cols as nat,
        |c: int| interpolated_on_subgroup(trace[c], ctx.trace_order()),
    );
    let lde = Seq::new(
        (cols * n) as nat,
        |i: int| coset_evals(polys[i / n], n as nat, h)[i % n],
    );
    let trace_root = merkle_root(lde);
    let first = ProofHeader {
        trace_root,
        even_root: 0,
        odd_root: 0,
        trace_ood: Seq::empty(),
        even_ood: 0,
        odd_ood: 0,
        fri_roots: Seq::empty(),
        fri_last: 0,
    };
    let coeffs = first.coefficients(count);
    let h_evals = Seq::new(n as nat, |i: int| composition_on_domain(air, lde, coeffs, i) as u32);
    let h_coeffs = interpolated_on(h_evals, k, h_inv);
    let low = h_coeffs.subrange(0, 2 * big_n);
    let even_coeffs = evens(low);
    let odd_coeffs = odds(low);
    let even_evals = coset_evals(even_coeffs, (n / 2) as nat, fmul(h, h, p()));
    let odd_evals = coset_evals(odd_coeffs, (n / 2) as nat, fmul(h, h, p()));
    let second = ProofHeader {
        trace_root,
        even_root: merkle_root(even_evals),
        odd_root: merkle_root(odd_evals),
        trace_ood: Seq::empty(),
        even_ood: 0,
        odd_ood: 0,
        fri_roots: Seq::empty(),
        fri_last: 0,
    };
    let z = second.z(count, ctx);
    let trace_ood = Seq::new(
        (FRAME_ROWS * cols) as nat,
        |t: int|
            poly_eval(polys[t % cols], fmul(z as int, fpow(omega, (t / cols) as nat, p()), p())) as u32,
    );
    let even_ood = poly_eval(even_coeffs, fmul(z as int, z as int, p())) as u32;
    let odd_ood = poly_eval(odd_coeffs, fmul(z as int, z as int, p())) as u32;
    let third = ProofHeader {
        trace_root,
        even_root: merkle_root(even_evals),
        odd_root: merkle_root(odd_evals),
        trace_ood,
        even_ood,
        odd_ood,
        fri_roots: Seq::empty(),
        fri_last: 0,
    };
    let gammas = third.gammas(count, ctx);
    let hz = join_halves(even_ood as int, odd_ood as int, z as int);
    let deep = Seq::new(
        n as nat,
        |i: int|
            deep_on_domain(lde, even_evals, odd_evals, trace_ood, hz, z as int, gammas, ctx, i) as u32,
    );
    let deep_coeffs = interpolated_on(deep, k, h_inv);
    let fri = FriInput {
        coeffs: deep_coeffs,
        order: k,
        offset: h,
        offset_inv: h_inv,
        state: third.stage_fri(count, ctx),
    };
    let header = ProofHeader {
        trace_root,
        even_root: merkle_root(even_evals),
        odd_root: merkle_root(odd_evals),
        trace_ood,
        even_ood,
        odd_ood,
        fri_roots: fri.roots(),
        fri_last: fri.last_value(),
    };
    ProverRun {
        polys,
        lde,
        coeffs,
        h_evals,
        h_coeffs,
        even_coeffs,
        odd_coeffs,
        even_evals,
        odd_evals,
        z,
        gammas,
        deep,
        deep_coeffs,
        fri,
        header,
    }
}

/// The error with which an honest run ends, if it does not end with a
/// proof: the composition polynomial has `2 * N` coefficients or more, or
/// every point drawn for the out-of-domain evaluations fell into the
/// evaluation domain, or the DEEP composition polynomial has `2 * N`
/// coefficients or more.
pub open spec fn run_failure(run: ProverRun, ctx: AirContextView) -> Option<StarkError> {
    if !vanishes_from(run.h_coeffs, 2 * (ctx.trace_length as int)) {
        Some(StarkError::ConstraintDegreeMismatch)
    } else if !out_of_domain(ctx, run.z as int) {
        Some(StarkError::OutOfDomainViolation)
    } else if !vanishes_from(run.deep_coeffs, 2 * (ctx.trace_length as int)) {
        Some(StarkError::FriLastLayerInvalid)
    } else {
        None
    }
}

/// `pr` is the inclusion proof of position `pos` in the tree over
/// `values`.
pub open spec fn is_opening_of(pr: Proof, values: Seq<u32>, pos: int) -> bool {
    &&& pr.value == values[pos]
    &&& pr.index == pos
    &&& pr.merkle_path@ == path_of(leaf_level(values), pos)
}

/// `o` holds the openings that an honest run gives for the query of index
/// `q`.
pub open spec fn honest_opening(run: ProverRun, ctx: AirContextView, q: int, o: QueryOpening) -> bool {
    let cols = ctx.trace_columns;
    let half = ctx.lde_size() as int / 2;
    let tp = o.trace_lde_poly_inclusion_proofs@;
    &&& tp.len() == FRAME_ROWS * cols
    &&& forall|t: int|
        0 <= t < tp.len() ==> is_opening_of(#[trigger] tp[t], run.lde, window_position(ctx, q, t))
    &&& is_opening_of(o.composition_even_proof, run.even_evals, q % half)
    &&& is_opening_of(o.composition_odd_proof, run.odd_evals, q % half)
    &&& honest_paths(run.fri, q as nat, o.fri_decommitment.layer_merkle_paths@)
}

/// `pf` is the proof that an honest run gives for the computation `air`
/// and its trace.
pub open spec fn honest_proof<A: AIR>(air: &A, trace: Seq<Seq<u32>>, pf: StarkQueryProof) -> bool {
    let ctx = air.context_view();
    let run = honest_run(air, trace);
    let count = coefficient_count(ctx, air.boundary_view());
    &&& pf.header() == run.header
    &&& pf.query_openings@.len() == ctx.options.fri_number_of_queries
    &&& forall|i: int|
        0 <= i < pf.query_openings@.len() ==> honest_opening(
            run,
            ctx,
            run.header.query_index(count, ctx, i as nat, ctx.lde_size()) as int,
            #[trigger] pf.query_openings@[i],
        )
}

} // verus!
