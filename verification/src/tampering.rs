//! Changes to an accepted proof that are certain to be noticed: those that
//! the openings of the proof contradict by themselves, whatever the hash
//! function does.

use crate::air::AIR;
use crate::air::FRAME_ROWS;
use crate::field::p;
use crate::fri::fri_layer_accepts;
use crate::stark_proof::ProofHeader;
use crate::stark_proof::StarkQueryProof;
use crate::stark_proof::proof_accepts;
use crate::stark_proof::query_accepts;
use vstd::prelude::*;

verus! {

/// A proof whose openings are those of an accepted proof, and in which one
/// of the Merkle roots differs from that of the accepted proof, is
/// rejected: the root of the trace, the root of either half of the
/// composition polynomial, or the root of any layer of FRI.
pub proof fn lemma_replaced_root_rejected<A: AIR>(
    air: &A,
    accepted: &StarkQueryProof,
    changed: &StarkQueryProof,
)
    requires
        proof_accepts(air, accepted),
        changed.query_openings@ == accepted.query_openings@,
        changed.trace_lde_poly_root != accepted.trace_lde_poly_root
            || changed.composition_even_root != accepted.composition_even_root
            || changed.composition_odd_root != accepted.composition_odd_root
            || changed.fri_layers_merkle_roots@ != accepted.fri_layers_merkle_roots@,
    ensures
        !proof_accepts(air, changed),
{
    if proof_accepts(air, changed) {
        let ctx = air.context_view();
        let k = ctx.lde_order();
        let opening = accepted.query_openings@[0];
        assert(query_accepts(air, accepted, 0));
        assert(query_accepts(air, changed, 0));
        let tp = opening.trace_lde_poly_inclusion_proofs@;
        assert(tp.len() == FRAME_ROWS * ctx.trace_columns);
        let first = tp[0];
        assert(changed.trace_lde_poly_root == accepted.trace_lde_poly_root);
        assert(changed.composition_even_root == accepted.composition_even_root);
        assert(changed.composition_odd_root == accepted.composition_odd_root);
        let ra = accepted.fri_layers_merkle_roots@;
        let rb = changed.fri_layers_merkle_roots@;
        assert forall|j: int| 0 <= j < ra.len() implies ra[j] == rb[j] by {
            let paths = opening.fri_decommitment.layer_merkle_paths@;
            let ha = accepted.header();
            let hb = changed.header();
            let count = crate::constraints::coefficient_count(ctx, air.boundary_view());
                assert(fri_layer_accepts(
                ra,
                ha.fri_betas(count, ctx),
                ha.fri_last,
                k,
                crate::field::finv(crate::domain::context_offset(ctx), p()),
                ha.query_index(count, ctx, 0, ctx.lde_size()),
                paths,
                j,
            ));
            assert(fri_layer_accepts(
                rb,
                hb.fri_betas(count, ctx),
                hb.fri_last,
                k,
                crate::field::finv(crate::domain::context_offset(ctx), p()),
                hb.query_index(count, ctx, 0, ctx.lde_size()),
                paths,
                j,
            ));
        }
        assert(ra =~= rb);
    }
}

/// A proof that differs from an accepted proof only in the constant that
/// FRI ends with, by a constant that stands for another residue, is
/// rejected.
pub proof fn lemma_replaced_last_value_rejected<A: AIR>(
    air: &A,
    accepted: &StarkQueryProof,
    changed: &StarkQueryProof,
)
    requires
        proof_accepts(air, accepted),
        changed.query_openings@ == accepted.query_openings@,
        changed.header() == (ProofHeader {
            fri_last: changed.fri_last_value,
            ..accepted.header()
        }),
        changed.fri_last_value as int % p() != accepted.fri_last_value as int % p(),
    ensures
        !proof_accepts(air, changed),
{
    if proof_accepts(air, changed) {
        let ctx = air.context_view();
        let k = ctx.lde_order();
        let opening = accepted.query_openings@[0];
        assert(query_accepts(air, accepted, 0));
        assert(query_accepts(air, changed, 0));
        let paths = opening.fri_decommitment.layer_merkle_paths@;
        let ha = accepted.header();
        let hb = changed.header();
        let count = crate::constraints::coefficient_count(ctx, air.boundary_view());
        let roots = ha.fri_roots;
        assert(hb.fri_roots == roots);
        assert(hb.stage_fri(count, ctx) == ha.stage_fri(count, ctx));
        assert(hb.fri_betas(count, ctx) == ha.fri_betas(count, ctx));
        assert(paths.len() >= 1);
        let j = roots.len() - 1;
        assert(fri_layer_accepts(
            roots,
            ha.fri_betas(count, ctx),
            ha.fri_last,
            k,
            crate::field::finv(crate::domain::context_offset(ctx), p()),
            ha.query_index(count, ctx, 0, ctx.lde_size()),
            paths,
            j,
        ));
        assert(fri_layer_accepts(
            roots,
            hb.fri_betas(count, ctx),
            hb.fri_last,
            k,
            crate::field::finv(crate::domain::context_offset(ctx), p()),
            hb.query_index(count, ctx, 0, ctx.lde_size()),
            paths,
            j,
        ));
    }
}

/// A proof that differs from an accepted proof in the value that a query
/// opens at the queried point of a layer of FRI, by a value that stands
/// for another residue, is rejected: the value of the first layer is
/// bound by the openings of the trace and of the composition polynomial,
/// that of a later layer by the two values of the layer before. The
/// changed proof has the roots and the out-of-domain values of the
/// accepted proof, and query `i` has the same openings in it up to layer
/// `j`.
pub proof fn lemma_replaced_fold_value_rejected<A: AIR>(
    air: &A,
    accepted: &StarkQueryProof,
    changed: &StarkQueryProof,
    i: int,
    j: int,
)
    requires
        proof_accepts(air, accepted),
        changed.header() == accepted.header(),
        changed.query_openings@.len() == accepted.query_openings@.len(),
        0 <= i < accepted.query_openings@.len(),
        changed.query_openings@[i].trace_lde_poly_inclusion_proofs
            == accepted.query_openings@[i].trace_lde_poly_inclusion_proofs,
        changed.query_openings@[i].composition_even_proof
            == accepted.query_openings@[i].composition_even_proof,
        changed.query_openings@[i].composition_odd_proof
            == accepted.query_openings@[i].composition_odd_proof,
        0 <= j < accepted.query_openings@[i].fri_decommitment.layer_merkle_paths@.len(),
        j < changed.query_openings@[i].fri_decommitment.layer_merkle_paths@.len(),
        j > 0 ==> changed.query_openings@[i].fri_decommitment.layer_merkle_paths@[j - 1]
            == accepted.query_openings@[i].fri_decommitment.layer_merkle_paths@[j - 1],
        changed.query_openings@[i].fri_decommitment.layer_merkle_paths@[j].0.value as int % p()
            != accepted.query_openings@[i].fri_decommitment.layer_merkle_paths@[j].0.value as int
            % p(),
    ensures
        !proof_accepts(air, changed),
{
    if proof_accepts(air, changed) {
        let ctx = air.context_view();
        let k = ctx.lde_order();
        assert(query_accepts(air, accepted, i));
        assert(query_accepts(air, changed, i));
        let pa = accepted.query_openings@[i].fri_decommitment.layer_merkle_paths@;
        let pb = changed.query_openings@[i].fri_decommitment.layer_merkle_paths@;
        let hd = accepted.header();
        let count = crate::constraints::coefficient_count(ctx, air.boundary_view());
        let roots = hd.fri_roots;
        if j > 0 {
            assert(fri_layer_accepts(
                roots,
                hd.fri_betas(count, ctx),
                hd.fri_last,
                k,
                crate::field::finv(crate::domain::context_offset(ctx), p()),
                hd.query_index(count, ctx, i as nat, ctx.lde_size()),
                pa,
                j - 1,
            ));
            assert(fri_layer_accepts(
                roots,
                hd.fri_betas(count, ctx),
                hd.fri_last,
                k,
                crate::field::finv(crate::domain::context_offset(ctx), p()),
                hd.query_index(count, ctx, i as nat, ctx.lde_size()),
                pb,
                j - 1,
            ));
        }
    }
}

} // verus!
