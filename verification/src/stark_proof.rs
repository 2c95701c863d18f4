//! The proof, the challenges that follow from it, and the conditions under
//! which it is accepted.

use crate::air::AIR;
use crate::air::AirContextView;
use crate::air::FRAME_ROWS;
use crate::air::boundary_in_range;
use crate::constraints::coefficient_count;
use crate::constraints::composition_value;
use crate::constraints::deep_value;
use crate::constraints::join_halves;
use crate::coset::invertible;
use crate::domain::context_offset;
use crate::errors::StarkError;
use crate::evaluation::coset_point;
use crate::field::finv;
use crate::field::fpow;
use crate::field::p;
use crate::fri::FriDecommitment;
use crate::fri::betas_from_roots;
use crate::fri::fri_query_accepts;
use crate::fri::state_after_roots;
use crate::merkle::Proof;
use crate::merkle::proof_leads_to;
use crate::merkle::tree_height;
use crate::roots_of_unity::root_of_unity;
use crate::transcript::absorb_element;
use crate::transcript::absorb_elements;
use crate::transcript::field_challenge;
use crate::transcript::field_challenges;
use crate::transcript::index_challenge;
use crate::transcript::squeezed;
use crate::transcript::squeezed_times;
use vstd::prelude::*;

verus! {

/// What one query opens: the trace in a window of `FRAME_ROWS` rows that
/// starts at the queried point, the two halves of the composition
/// polynomial at the square of the point, and the layers of FRI.
#[derive(Debug, Clone, PartialEq, Eq)]
pub struct QueryOpening {
    /// The inclusion proofs of the trace values, row by row of the window.
    pub trace_lde_poly_inclusion_proofs: Vec<Proof>,
    pub composition_even_proof: Proof,
    pub composition_odd_proof: Proof,
    pub fri_decommitment: FriDecommitment,
}

/// A proof.
#[derive(Debug, Clone, PartialEq, Eq)]
pub struct StarkQueryProof {
    /// The root of the tree over the low-degree extension of the trace,
    /// column after column.
    pub trace_lde_poly_root: u32,
    /// The roots of the trees over the even and the odd half of the
    /// composition polynomial.
    pub composition_even_root: u32,
    pub composition_odd_root: u32,
    /// The values of the trace polynomials at the out-of-domain points,
    /// row by row of the window.
    pub trace_ood_evaluations: Vec<u32>,
    /// The values of the two halves of the composition polynomial at the
    /// square of the out-of-domain point.
    pub composition_even_ood: u32,
    pub composition_odd_ood: u32,
    pub fri_layers_merkle_roots: Vec<u32>,
    pub fri_last_value: u32,
    pub query_openings: Vec<QueryOpening>,
}

/// Number of coefficients of the DEEP composition polynomial: one for each
/// entry of a window of the trace, and one for the composition polynomial.
pub open spec fn gamma_count(cols: nat) -> nat {
    (FRAME_ROWS * cols + 1) as nat
}

/// The part of a proof that the challenges follow from.
pub struct ProofHeader {
    pub trace_root: u32,
    pub even_root: u32,
    pub odd_root: u32,
    pub trace_ood: Seq<u32>,
    pub even_ood: u32,
    pub odd_ood: u32,
    pub fri_roots: Seq<u32>,
    pub fri_last: u32,
}

impl StarkQueryProof {
    /// The part of the proof that the challenges follow from.
    pub open spec fn header(&self) -> ProofHeader {
        ProofHeader {
            trace_root: self.trace_lde_poly_root,
            even_root: self.composition_even_root,
            odd_root: self.composition_odd_root,
            trace_ood: self.trace_ood_evaluations@,
            even_ood: self.composition_even_ood,
            odd_ood: self.composition_odd_ood,
            fri_roots: self.fri_layers_merkle_roots@,
            fri_last: self.fri_last_value,
        }
    }
}

impl ProofHeader {
    /// The transcript after the trace root.
    pub open spec fn stage_trace(self) -> Seq<u8> {
        absorb_element(Seq::empty(), self.trace_root)
    }

    /// The coefficients of the composition polynomial.
    pub open spec fn coefficients(self, count: nat) -> Seq<u32> {
        field_challenges(self.stage_trace(), count)
    }

    /// The transcript after the roots of the composition polynomial.
    pub open spec fn stage_composition(self, count: nat) -> Seq<u8> {
        absorb_element(
            absorb_element(squeezed_times(self.stage_trace(), count), self.even_root),
            self.odd_root,
        )
    }

    /// The transcript from which the out-of-domain point is drawn: the
    /// points that lie in the domain have been drawn and given up.
    pub open spec fn stage_point(self, count: nat, ctx: AirContextView) -> Seq<u8> {
        point_state(self.stage_composition(count), ctx, (MAX_POINT_DRAWS - 1) as nat)
    }

    /// The out-of-domain point: the first point drawn that lies outside the
    /// domain; the last one drawn, if all of them lie in the domain.
    pub open spec fn z(self, count: nat, ctx: AirContextView) -> u32 {
        field_challenge(self.stage_point(count, ctx))
    }

    /// The transcript after the out-of-domain evaluations.
    pub open spec fn stage_ood(self, count: nat, ctx: AirContextView) -> Seq<u8> {
        absorb_element(
            absorb_element(
                absorb_elements(squeezed(self.stage_point(count, ctx)), self.trace_ood),
                self.even_ood,
            ),
            self.odd_ood,
        )
    }

    /// The coefficients of the DEEP composition polynomial.
    pub open spec fn gammas(self, count: nat, ctx: AirContextView) -> Seq<u32> {
        field_challenges(self.stage_ood(count, ctx), gamma_count(ctx.trace_columns as nat))
    }

    /// The transcript with which FRI begins.
    pub open spec fn stage_fri(self, count: nat, ctx: AirContextView) -> Seq<u8> {
        squeezed_times(self.stage_ood(count, ctx), gamma_count(ctx.trace_columns as nat))
    }

    /// The folding coefficients of FRI.
    pub open spec fn fri_betas(self, count: nat, ctx: AirContextView) -> Seq<u32> {
        betas_from_roots(self.fri_roots, self.stage_fri(count, ctx))
    }

    /// The transcript from which the queries are drawn.
    pub open spec fn stage_queries(self, count: nat, ctx: AirContextView) -> Seq<u8> {
        absorb_element(
            state_after_roots(self.fri_roots, self.stage_fri(count, ctx), self.fri_roots.len()),
            self.fri_last,
        )
    }

    /// The index of query `i` in a domain of `n` points.
    pub open spec fn query_index(self, count: nat, ctx: AirContextView, i: nat, n: nat) -> nat {
        index_challenge(squeezed_times(self.stage_queries(count, ctx), i), n)
    }
}

/// How many points are drawn at most in search of one that lies outside
/// the domain. The search must end, so it has a bound; since at most one
/// element of the field in fifteen lies in the domain, the bound is
/// reached with a probability below `2^-240`.
pub const MAX_POINT_DRAWS: usize = 64;

/// Whether the point `z` lies outside the evaluation domain, so that no
/// quotient of the DEEP composition polynomial has a zero denominator: its
/// power of exponent the size of the domain differs from that of the
/// offset.
pub open spec fn out_of_domain(ctx: AirContextView, z: int) -> bool {
    fpow(z, ctx.lde_size(), p()) != fpow(context_offset(ctx), ctx.lde_size(), p())
}

/// The transcript from which the out-of-domain point is drawn, when
/// drawing begins at `state` and up to `tries` points may be given up: a
/// point that lies in the domain is given up and the next one is drawn.
pub open spec fn point_state(state: Seq<u8>, ctx: AirContextView, tries: nat) -> Seq<u8>
    decreases tries,
{
    if tries == 0 || out_of_domain(ctx, field_challenge(state) as int) {
        state
    } else {
        point_state(squeezed(state), ctx, (tries - 1) as nat)
    }
}

/// The position, in the sequence of all columns one after the other, of
/// entry `t` of the window that starts at row `q`: the entry of column
/// `t mod cols` at row `q + (t / cols) * b`, rows counted around the
/// domain.
pub open spec fn window_position(ctx: AirContextView, q: int, t: int) -> int {
    let cols = ctx.trace_columns as int;
    let n = ctx.lde_size() as int;
    (t % cols) * n + (q + (t / cols) * (ctx.options.blowup_factor as int)) % n
}

/// The values that a sequence of inclusion proofs opens.
pub open spec fn opened_values(proofs: Seq<Proof>) -> Seq<u32> {
    Seq::new(proofs.len(), |t: int| proofs[t].value)
}

/// Whether `proof` opens position `pos` of a tree of height `height` with
/// root `root`.
pub open spec fn opens(proof: Proof, root: u32, pos: int, height: nat) -> bool {
    &&& proof.index == pos
    &&& proof.merkle_path@.len() == height
    &&& proof_leads_to(root, proof.value, proof.index as int, proof.merkle_path@)
}

/// Whether the query of index `q` holds under the given challenges.
pub open spec fn query_holds<A: AIR>(
    air: &A,
    proof: ProofHeader,
    coeffs: Seq<u32>,
    z: u32,
    gammas: Seq<u32>,
    betas: Seq<u32>,
    q: int,
    opening: QueryOpening,
) -> bool {
    let ctx = air.context_view();
    let cols = ctx.trace_columns;
    let n = ctx.lde_size();
    let k = ctx.lde_order();
    let h = context_offset(ctx);
    let omega = root_of_unity(ctx.trace_order());
    let tp = opening.trace_lde_poly_inclusion_proofs@;
    let frame = opened_values(tp);
    let x = coset_point(n, h, q as nat);
    let even = opening.composition_even_proof;
    let odd = opening.composition_odd_proof;
    let hx = join_halves(even.value as int, odd.value as int, x);
    let hz = join_halves(
        proof.even_ood as int,
        proof.odd_ood as int,
        z as int,
    );
    let paths = opening.fri_decommitment.layer_merkle_paths@;
    &&& tp.len() == FRAME_ROWS * cols
    &&& forall|t: int|
        0 <= t < tp.len() ==> opens(
            #[trigger] tp[t],
            proof.trace_root,
            window_position(ctx, q, t),
            tree_height((cols * n) as nat),
        )
    &&& opens(even, proof.even_root, q % (n as int / 2), (k - 1) as nat)
    &&& opens(odd, proof.odd_root, q % (n as int / 2), (k - 1) as nat)
    &&& hx == composition_value(
        ctx,
        air.boundary_view(),
        air.transition_spec(frame),
        frame,
        x,
        coeffs,
    )
    &&& paths.len() >= 1
    &&& paths[0].0.value as int % p() == deep_value(
        frame.subrange(0, cols as int),
        hx,
        proof.trace_ood,
        hz,
        x,
        z as int,
        omega,
        gammas,
    )
    &&& fri_query_accepts(
        proof.fri_roots,
        betas,
        proof.fri_last,
        k,
        finv(h, p()),
        q as nat,
        paths,
    )
}

/// Whether query `i` of the proof holds under the challenges that follow
/// from the proof.
pub open spec fn query_accepts<A: AIR>(air: &A, proof: &StarkQueryProof, i: int) -> bool {
    let ctx = air.context_view();
    let count = coefficient_count(ctx, air.boundary_view());
    let cols = ctx.trace_columns;
    let header = proof.header();
    query_holds(
        air,
        header,
        header.coefficients(count),
        header.z(count, ctx),
        header.gammas(count, ctx),
        header.fri_betas(count, ctx),
        header.query_index(count, ctx, i as nat, ctx.lde_size()) as int,
        proof.query_openings@[i],
    )
}

/// Whether the proof is accepted for the computation `air`: the context is
/// valid and its offset has an inverse, the proof has the parts that the
/// context calls for, the out-of-domain point lies outside the domain, and
/// every query holds.
pub open spec fn proof_accepts<A: AIR>(air: &A, proof: &StarkQueryProof) -> bool {
    let ctx = air.context_view();
    let count = coefficient_count(ctx, air.boundary_view());
    &&& ctx.valid()
    &&& invertible(ctx.options.coset_offset as int)
    &&& boundary_in_range(air.boundary_view(), ctx)
    &&& proof.trace_ood_evaluations@.len() == FRAME_ROWS * ctx.trace_columns
    &&& proof.fri_layers_merkle_roots@.len() == ctx.lde_order()
    &&& proof.query_openings@.len() == ctx.options.fri_number_of_queries
    &&& out_of_domain(ctx, proof.header().z(count, ctx) as int)
    &&& forall|i: int| 0 <= i < proof.query_openings@.len() ==> query_accepts(air, proof, i)
}

/// Why the query of index `q` does not hold under the given challenges,
/// if it does not. The conditions are tried in the order in which they
/// stand: the number of openings of the trace; the inclusion proofs of the
/// trace and of the two halves of the composition polynomial; the value of
/// the composition polynomial; the presence of a first layer of FRI; the
/// value of the DEEP composition polynomial; the layers of FRI.
pub open spec fn query_rejection<A: AIR>(
    air: &A,
    proof: ProofHeader,
    coeffs: Seq<u32>,
    z: u32,
    gammas: Seq<u32>,
    betas: Seq<u32>,
    q: int,
    opening: QueryOpening,
) -> Option<StarkError> {
    let ctx = air.context_view();
    let cols = ctx.trace_columns;
    let n = ctx.lde_size();
    let k = ctx.lde_order();
    let h = context_offset(ctx);
    let omega = root_of_unity(ctx.trace_order());
    let tp = opening.trace_lde_poly_inclusion_proofs@;
    let frame = opened_values(tp);
    let x = coset_point(n, h, q as nat);
    let even = opening.composition_even_proof;
    let odd = opening.composition_odd_proof;
    let hx = join_halves(even.value as int, odd.value as int, x);
    let hz = join_halves(proof.even_ood as int, proof.odd_ood as int, z as int);
    let paths = opening.fri_decommitment.layer_merkle_paths@;
    if tp.len() != FRAME_ROWS * cols {
        Some(StarkError::TranscriptMismatch)
    } else if !(forall|t: int|
        0 <= t < tp.len() ==> opens(
            #[trigger] tp[t],
            proof.trace_root,
            window_position(ctx, q, t),
            tree_height((cols * n) as nat),
        )) || !opens(even, proof.even_root, q % (n as int / 2), (k - 1) as nat) || !opens(
        odd,
        proof.odd_root,
        q % (n as int / 2),
        (k - 1) as nat,
    ) {
        Some(StarkError::MerkleProofInvalid)
    } else if hx != composition_value(
        ctx,
        air.boundary_view(),
        air.transition_spec(frame),
        frame,
        x,
        coeffs,
    ) {
        Some(StarkError::ConstraintDegreeMismatch)
    } else if paths.len() < 1 {
        Some(StarkError::TranscriptMismatch)
    } else if paths[0].0.value as int % p() != deep_value(
        frame.subrange(0, cols as int),
        hx,
        proof.trace_ood,
        hz,
        x,
        z as int,
        omega,
        gammas,
    ) {
        Some(StarkError::OutOfDomainViolation)
    } else if !fri_query_accepts(
        proof.fri_roots,
        betas,
        proof.fri_last,
        k,
        finv(h, p()),
        q as nat,
        paths,
    ) {
        Some(StarkError::FriFoldingInconsistent)
    } else {
        None
    }
}

/// Why query `i` of the proof does not hold, if it does not.
pub open spec fn query_rejection_at<A: AIR>(air: &A, proof: &StarkQueryProof, i: int) -> Option<
    StarkError,
> {
    let ctx = air.context_view();
    let count = coefficient_count(ctx, air.boundary_view());
    let cols = ctx.trace_columns;
    let header = proof.header();
    query_rejection(
        air,
        header,
        header.coefficients(count),
        header.z(count, ctx),
        header.gammas(count, ctx),
        header.fri_betas(count, ctx),
        header.query_index(count, ctx, i as nat, ctx.lde_size()) as int,
        proof.query_openings@[i],
    )
}

/// Why the first query from `i` on that does not hold does not hold.
pub open spec fn first_query_rejection<A: AIR>(air: &A, proof: &StarkQueryProof, i: int) -> Option<
    StarkError,
>
    decreases proof.query_openings@.len() - i,
{
    if i < 0 || i >= proof.query_openings@.len() {
        None
    } else {
        match query_rejection_at(air, proof, i) {
            Some(e) => Some(e),
            None => first_query_rejection(air, proof, i + 1),
        }
    }
}

/// Why the proof is not accepted for the computation `air`, if it is not.
/// The conditions are tried in the order in which they stand: the
/// context; the offset of the evaluation domain; the boundary constraints;
/// the lengths of the parts of the proof; the out-of-domain point; the
/// queries, first to last.
pub open spec fn proof_rejection<A: AIR>(air: &A, proof: &StarkQueryProof) -> Option<StarkError> {
    let ctx = air.context_view();
    let count = coefficient_count(ctx, air.boundary_view());
    if !ctx.valid() {
        ctx.defect()
    } else if !invertible(ctx.options.coset_offset as int) {
        Some(
            StarkError::DomainCreationError(
                crate::errors::FFTError::OffsetError(context_offset(ctx) as u32),
            ),
        )
    } else if !boundary_in_range(air.boundary_view(), ctx) {
        Some(StarkError::InvalidTraceShape)
    } else if proof.trace_ood_evaluations@.len() != FRAME_ROWS * ctx.trace_columns
        || proof.fri_layers_merkle_roots@.len() != ctx.lde_order()
        || proof.query_openings@.len() != ctx.options.fri_number_of_queries {
        Some(StarkError::TranscriptMismatch)
    } else if !out_of_domain(ctx, proof.header().z(count, ctx) as int) {
        Some(StarkError::OutOfDomainViolation)
    } else {
        first_query_rejection(air, proof, 0)
    }
}

/// No query from `i` on is rejected exactly when all of them are accepted.
pub proof fn lemma_first_query_rejection<A: AIR>(air: &A, proof: &StarkQueryProof, i: int)
    requires
        0 <= i <= proof.query_openings@.len(),
    ensures
        first_query_rejection(air, proof, i) is None <==> forall|j: int|
            i <= j < proof.query_openings@.len() ==> query_accepts(air, proof, j),
    decreases proof.query_openings@.len() - i,
{
    if i < proof.query_openings@.len() {
        lemma_first_query_rejection(air, proof, i + 1);
        assert(query_rejection_at(air, proof, i) is None <==> query_accepts(air, proof, i));
        if first_query_rejection(air, proof, i) is None {
            assert forall|j: int| i <= j < proof.query_openings@.len() implies query_accepts(
                air,
                proof,
                j,
            ) by {
                if j > i {
                }
            }
        }
    }
}

/// A proof is accepted exactly when there is nothing to reject it for.
pub proof fn lemma_rejection<A: AIR>(air: &A, proof: &StarkQueryProof)
    ensures
        proof_accepts(air, proof) <==> proof_rejection(air, proof) is None,
{
    lemma_first_query_rejection(air, proof, 0);
}

} // verus!
