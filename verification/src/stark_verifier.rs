//! The verifier: it replays the transcript to get the challenges, and
//! checks every query.

use crate::air::AIR;
use crate::air::AirContext;
use crate::air::BoundaryConstraints;
use crate::air::FRAME_ROWS;
use crate::air::Frame;
use crate::air::MAX_CONSTRAINTS;
use crate::air::boundary_in_range;
use crate::constraints::coefficient_count;
use crate::constraints::composition_at;
use crate::constraints::deep_at;
use crate::constraints::join_values;
use crate::constraints::lemma_pow2_strictly_increases_to;
use crate::domain::Domain;
use crate::errors::StarkError;
use crate::field::U32TestField;
use crate::fri::fri_sample_betas;
use crate::fri::fri_verify_query;
use crate::merkle::Proof;
use crate::merkle::merkle_height;
use crate::stark_proof::QueryOpening;
use crate::stark_proof::MAX_POINT_DRAWS;
use crate::stark_proof::StarkQueryProof;
use crate::stark_proof::point_state;
use crate::stark_proof::first_query_rejection;
use crate::stark_proof::gamma_count;
use crate::stark_proof::lemma_rejection;
use crate::stark_proof::opened_values;
use crate::stark_proof::opens;
use crate::stark_proof::proof_accepts;
use crate::stark_proof::proof_rejection;
use crate::stark_proof::query_holds;
use crate::stark_proof::query_rejection;
use crate::stark_proof::query_rejection_at;
use crate::stark_proof::window_position;
use crate::transcript::Transcript;
use crate::transcript::field_challenge;
use crate::transcript::squeezed;
use vstd::arithmetic::div_mod::*;
use vstd::arithmetic::power2::*;
use vstd::prelude::*;

verus! {

/// Whether every boundary constraint names a column and a row of the
/// trace.
pub fn check_boundary(bs: &BoundaryConstraints, ctx: &AirContext) -> (r: bool)
    ensures
        r == boundary_in_range(bs@, ctx@),
{
    if bs.constraints.len() > MAX_CONSTRAINTS {
        return false;
    }
    let mut i: usize = 0;
    while i < bs.constraints.len()
        invariant
            i <= bs@.len(),
            bs@.len() <= MAX_CONSTRAINTS,
            forall|j: int|
                0 <= j < i ==> (#[trigger] bs@[j]).col < ctx@.trace_columns && bs@[j].step
                    < ctx@.trace_length,
        decreases bs@.len() - i,
    {
        if bs.constraints[i].col >= ctx.trace_columns || bs.constraints[i].step
            >= ctx.trace_length {
            return false;
        }
        i = i + 1;
    }
    true
}

/// Whether `proof` opens position `pos` of a tree of height `height` with
/// root `root`.
pub fn opens_at(proof: &Proof, root: u32, pos: usize, height: usize) -> (r: bool)
    ensures
        r == opens(*proof, root, pos as int, height as nat),
{
    proof.index == pos && proof.merkle_path.len() == height && proof.verify(root)
}

/// The bounds that the domains of a valid context keep.
pub proof fn lemma_domain_bounds(domain: Domain, ctx: crate::air::AirContextView)
    requires
        ctx.valid(),
        domain.of(ctx),
    ensures
        domain.lde.size == ctx.lde_size(),
        domain.lde.order == ctx.lde_order(),
        4 <= domain.lde.size <= 0x800_0000,
        2 <= domain.trace_length <= 0x400_0000,
        2 <= domain.blowup <= 128,
        domain.lde.size % 2 == 0,
        1 <= ctx.trace_columns <= crate::air::MAX_COLUMNS,
        2 <= domain.lde.order <= 27,
{
    lemma2_to64();
    lemma_pow2_strictly_increases_to(domain.lde.order as nat, 27);
    lemma_pow2_strictly_increases_to(2, domain.lde.order as nat);
    lemma_pow2_strictly_increases_to(1, domain.trace_order as nat);
    lemma_pow2_strictly_increases_to(1, domain.blowup_order as nat);
    lemma_pow2_strictly_increases_to(domain.trace_order as nat, 26);
    lemma_pow2_unfold(domain.lde.order as nat);
}

/// Draws the out-of-domain point: points are drawn from the transcript
/// until one lies outside the domain, `MAX_POINT_DRAWS` at most. The
/// result is the last point drawn.
pub fn draw_point(transcript: &mut Transcript, ctx: &AirContext, domain: &Domain) -> (z: u32)
    requires
        ctx@.valid(),
        domain.of(ctx@),
    ensures
        z == field_challenge(
            point_state(old(transcript)@, ctx@, (MAX_POINT_DRAWS - 1) as nat),
        ),
        final(transcript)@ == squeezed(
            point_state(old(transcript)@, ctx@, (MAX_POINT_DRAWS - 1) as nat),
        ),
        z < crate::field::TEST_FIELD_MODULUS,
{
    proof {
        lemma_domain_bounds(*domain, ctx@);
    }
    let n: usize = domain.lde.size;
    let hn: u32 = U32TestField::pow(&domain.lde.offset, n as u64);
    let ghost mut state = transcript@;
    let mut z: u32 = transcript.challenge_field();
    let mut tries: usize = MAX_POINT_DRAWS - 1;
    while tries > 0 && U32TestField::pow(&z, n as u64) == hn
        invariant
            n == ctx@.lde_size(),
            hn == crate::field::fpow(crate::domain::context_offset(ctx@), n as nat, crate::field::p()),
            z == field_challenge(state),
            z < crate::field::TEST_FIELD_MODULUS,
            transcript@ == squeezed(state),
            point_state(old(transcript)@, ctx@, (MAX_POINT_DRAWS - 1) as nat) == point_state(
                state,
                ctx@,
                tries as nat,
            ),
        decreases tries,
    {
        proof {
            state = transcript@;
        }
        z = transcript.challenge_field();
        tries = tries - 1;
    }
    z
}

/// Checks one query, of index `q`, under the given challenges, and says
/// what is wrong with it.
#[verifier::loop_isolation(false)]
pub fn diagnose_query<A: AIR>(
    air: &A,
    ctx: &AirContext,
    bs: &BoundaryConstraints,
    domain: &Domain,
    proof: &StarkQueryProof,
    coeffs: &[u32],
    z: u32,
    gammas: &[u32],
    betas: &[u32],
    q: usize,
    opening: &QueryOpening,
) -> (r: Result<(), StarkError>)
    requires
        ctx@ == air.context_view(),
        bs@ == air.boundary_view(),
        ctx@.valid(),
        domain.of(ctx@),
        boundary_in_range(bs@, ctx@),
        coeffs@.len() == coefficient_count(ctx@, bs@),
        gammas@.len() == gamma_count(ctx@.trace_columns),
        proof.trace_ood_evaluations@.len() == FRAME_ROWS * ctx@.trace_columns,
        q < domain.lde.size,
    ensures
        r is Ok <==> query_holds(
            air,
            proof.header(),
            coeffs@,
            z,
            gammas@,
            betas@,
            q as int,
            *opening,
        ),
        r == (match query_rejection(
            air,
            proof.header(),
            coeffs@,
            z,
            gammas@,
            betas@,
            q as int,
            *opening,
        ) {
            Some(e) => Err::<(), StarkError>(e),
            None => Ok::<(), StarkError>(()),
        }),
{
    proof {
        lemma_domain_bounds(*domain, ctx@);
    }
    let cols: usize = ctx.trace_columns;
    let n: usize = domain.lde.size;
    let b: usize = domain.blowup;
    let tp = &opening.trace_lde_poly_inclusion_proofs;
    if tp.len() != FRAME_ROWS * cols {
        return Err(StarkError::TranscriptMismatch);
    }
    assert(cols * n <= 0x8000_0000) by (nonlinear_arith)
        requires
            cols <= 16,
            n <= 0x800_0000,
    ;
    let height: usize = merkle_height(cols * n);
    let mut data: Vec<u32> = Vec::new();
    let mut t: usize = 0;
    while t < FRAME_ROWS * cols
        invariant
            t <= FRAME_ROWS * cols,
            data@.len() == t,
            forall|s: int| 0 <= s < t ==> data@[s] == opened_values(tp@)[s],
            forall|s: int|
                0 <= s < t ==> opens(
                    #[trigger] tp@[s],
                    proof.trace_lde_poly_root,
                    window_position(ctx@, q as int, s),
                    crate::merkle::tree_height((cols * n) as nat),
                ),
        decreases FRAME_ROWS * cols - t,
    {
        let col: usize = t % cols;
        let row: usize = t / cols;
        assert(col * n <= 15 * n) by (nonlinear_arith)
            requires
                col < cols,
                cols <= 16,
                n >= 0,
        ;
        assert(row <= 2 && row * b <= 2 * b) by (nonlinear_arith)
            requires
                row == t / cols,
                t < 3 * cols,
                cols >= 1,
                b >= 0,
        ;
        let pos: usize = col * n + (q + row * b) % n;
        if !opens_at(&tp[t], proof.trace_lde_poly_root, pos, height) {
            return Err(StarkError::MerkleProofInvalid);
        }
        data.push(tp[t].value);
        t = t + 1;
    }
    assert(data@ =~= opened_values(tp@));
    let half: usize = n / 2;
    let q2: usize = q % half;
    let height2: usize = (domain.lde.order - 1) as usize;
    let even = &opening.composition_even_proof;
    let odd = &opening.composition_odd_proof;
    if !opens_at(even, proof.composition_even_root, q2, height2) {
        return Err(StarkError::MerkleProofInvalid);
    }
    if !opens_at(odd, proof.composition_odd_root, q2, height2) {
        return Err(StarkError::MerkleProofInvalid);
    }
    let x: u32 = domain.lde.point(q);
    let hx: u32 = join_values(even.value, odd.value, x);
    let mut row0: Vec<u32> = Vec::new();
    let mut c: usize = 0;
    while c < cols
        invariant
            c <= cols,
            row0@.len() == c,
            forall|s: int| 0 <= s < c ==> row0@[s] == data@[s],
        decreases cols - c,
    {
        row0.push(data[c]);
        c = c + 1;
    }
    assert(row0@ =~= data@.subrange(0, cols as int));
    let frame = match Frame::new(data, cols) {
        Some(f) => f,
        None => {
            return Err(StarkError::TranscriptMismatch);
        },
    };
    let composed: u32 = composition_at(air, ctx, bs, &frame, x, coeffs, domain);
    if hx != composed {
        return Err(StarkError::ConstraintDegreeMismatch);
    }
    let paths = &opening.fri_decommitment.layer_merkle_paths;
    if paths.len() == 0 {
        return Err(StarkError::TranscriptMismatch);
    }
    let hz: u32 = join_values(proof.composition_even_ood, proof.composition_odd_ood, z);
    let deep: u32 = deep_at(
        row0.as_slice(),
        hx,
        proof.trace_ood_evaluations.as_slice(),
        hz,
        x,
        z,
        domain.trace_generator,
        gammas,
    );
    if U32TestField::representative(&paths[0].0.value) != deep {
        return Err(StarkError::OutOfDomainViolation);
    }
    if !fri_verify_query(
        proof.fri_layers_merkle_roots.as_slice(),
        betas,
        proof.fri_last_value,
        &domain.lde,
        q,
        &opening.fri_decommitment,
    ) {
        return Err(StarkError::FriFoldingInconsistent);
    }
    Ok(())
}

/// Whether the query of index `q` holds under the given challenges.
pub fn verify_query<A: AIR>(
    air: &A,
    ctx: &AirContext,
    bs: &BoundaryConstraints,
    domain: &Domain,
    proof: &StarkQueryProof,
    coeffs: &[u32],
    z: u32,
    gammas: &[u32],
    betas: &[u32],
    q: usize,
    opening: &QueryOpening,
) -> (r: bool)
    requires
        ctx@ == air.context_view(),
        bs@ == air.boundary_view(),
        ctx@.valid(),
        domain.of(ctx@),
        boundary_in_range(bs@, ctx@),
        coeffs@.len() == coefficient_count(ctx@, bs@),
        gammas@.len() == gamma_count(ctx@.trace_columns),
        proof.trace_ood_evaluations@.len() == FRAME_ROWS * ctx@.trace_columns,
        q < domain.lde.size,
    ensures
        r == query_holds(air, proof.header(), coeffs@, z, gammas@, betas@, q as int, *opening),
{
    diagnose_query(air, ctx, bs, domain, proof, coeffs, z, gammas, betas, q, opening).is_ok()
}

/// Verifies the proof for the computation `air`, and says why it is
/// rejected if it is.
#[verifier::loop_isolation(false)]
pub fn diagnose_proof<A: AIR>(air: &A, proof: &StarkQueryProof) -> (r: Result<(), StarkError>)
    ensures
        r is Ok <==> proof_accepts(air, proof),
        r == (match proof_rejection(air, proof) {
            Some(e) => Err::<(), StarkError>(e),
            None => Ok::<(), StarkError>(()),
        }),
{
    proof {
        lemma_rejection(air, proof);
    }
    let ctx = air.context();
    let bs = air.boundary_constraints();
    let domain = match Domain::new(&ctx) {
        Ok(d) => d,
        Err(e) => {
            return Err(e);
        },
    };
    if !check_boundary(&bs, &ctx) {
        return Err(StarkError::InvalidTraceShape);
    }
    proof {
        lemma_domain_bounds(domain, ctx@);
    }
    let cols: usize = ctx.trace_columns;
    let n: usize = domain.lde.size;
    let count: usize = 2 * ctx.num_transition_constraints + 2 * bs.constraints.len();
    if proof.trace_ood_evaluations.len() != FRAME_ROWS * cols {
        return Err(StarkError::TranscriptMismatch);
    }
    if proof.fri_layers_merkle_roots.len() as u64 != domain.lde.order {
        return Err(StarkError::TranscriptMismatch);
    }
    if proof.query_openings.len() != ctx.options.fri_number_of_queries {
        return Err(StarkError::TranscriptMismatch);
    }
    let mut transcript = Transcript::new();
    transcript.absorb_field(proof.trace_lde_poly_root);
    let coeffs = transcript.challenge_fields(count);
    transcript.absorb_field(proof.composition_even_root);
    transcript.absorb_field(proof.composition_odd_root);
    let z: u32 = draw_point(&mut transcript, &ctx, &domain);
    transcript.absorb_fields(proof.trace_ood_evaluations.as_slice());
    transcript.absorb_field(proof.composition_even_ood);
    transcript.absorb_field(proof.composition_odd_ood);
    let gammas = transcript.challenge_fields(FRAME_ROWS * cols + 1);
    let betas = fri_sample_betas(proof.fri_layers_merkle_roots.as_slice(), &mut transcript);
    transcript.absorb_field(proof.fri_last_value);
    let zn: u32 = U32TestField::pow(&z, n as u64);
    let hn: u32 = U32TestField::pow(&domain.lde.offset, n as u64);
    if zn == hn {
        return Err(StarkError::OutOfDomainViolation);
    }
    let ghost count_s = coefficient_count(ctx@, bs@);
    let ghost start = transcript@;
    assert(start == proof.header().stage_queries(count_s, ctx@));
    let mut i: usize = 0;
    while i < proof.query_openings.len()
        invariant
            i <= proof.query_openings@.len(),
            transcript@ == crate::transcript::squeezed_times(start, i as nat),
            first_query_rejection(air, proof, 0) == first_query_rejection(air, proof, i as int),
        decreases proof.query_openings@.len() - i,
    {
        let q: usize = transcript.challenge_index(n);
        match diagnose_query(
            air,
            &ctx,
            &bs,
            &domain,
            proof,
            coeffs.as_slice(),
            z,
            gammas.as_slice(),
            betas.as_slice(),
            q,
            &proof.query_openings[i],
        ) {
            Ok(()) => {
                assert(query_rejection_at(air, proof, i as int) is None);
            },
            Err(e) => {
                assert(query_rejection_at(air, proof, i as int) == Some(e));
                return Err(e);
            },
        }
        i = i + 1;
    }
    Ok(())
}

/// Whether the proof is accepted for the computation `air`.
pub fn verify_proof<A: AIR>(air: &A, proof: &StarkQueryProof) -> (r: bool)
    ensures
        r == proof_accepts(air, proof),
{
    diagnose_proof(air, proof).is_ok()
}

} // verus!
