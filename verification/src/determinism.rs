//! The prover is a function of its inputs: two honest proofs for the same
//! computation and the same trace are the same bytes.

use crate::air::AIR;
use crate::air::AirContextView;
use crate::constraints::coefficient_count;
use crate::merkle::Proof;
use crate::serialization::opening_words;
use crate::serialization::openings_words;
use crate::serialization::pairs_words;
use crate::serialization::path_words;
use crate::serialization::proof_bytes;
use crate::serialization::proof_words;
use crate::serialization::proofs_words;
use crate::stark_proof::QueryOpening;
use crate::stark_proof::StarkQueryProof;
use crate::stark_run::ProverRun;
use crate::stark_run::honest_opening;
use crate::stark_run::honest_proof;
use crate::stark_run::honest_run;
use crate::stark_run::is_opening_of;
use vstd::prelude::*;

verus! {

proof fn lemma_same_proofs_words(a: Seq<Proof>, b: Seq<Proof>, k: nat)
    requires
        k <= a.len(),
        k <= b.len(),
        forall|t: int| 0 <= t < k ==> path_words(#[trigger] a[t]) == path_words(b[t]),
    ensures
        proofs_words(a, k) == proofs_words(b, k),
    decreases k,
{
    if k > 0 {
        lemma_same_proofs_words(a, b, (k - 1) as nat);
        assert(path_words(a[k - 1]) == path_words(b[k - 1]));
    }
}

proof fn lemma_same_pairs_words(a: Seq<(Proof, Proof)>, b: Seq<(Proof, Proof)>, k: nat)
    requires
        k <= a.len(),
        k <= b.len(),
        forall|t: int|
            0 <= t < k ==> path_words((#[trigger] a[t]).0) == path_words(b[t].0) && path_words(
                a[t].1,
            ) == path_words(b[t].1),
    ensures
        pairs_words(a, k) == pairs_words(b, k),
    decreases k,
{
    if k > 0 {
        lemma_same_pairs_words(a, b, (k - 1) as nat);
        assert(path_words(a[k - 1].0) == path_words(b[k - 1].0));
    }
}

/// The honest openings of a query are the same words, whoever gives them.
pub proof fn lemma_same_opening_words(
    run: ProverRun,
    ctx: AirContextView,
    q: int,
    a: QueryOpening,
    b: QueryOpening,
)
    requires
        honest_opening(run, ctx, q, a),
        honest_opening(run, ctx, q, b),
    ensures
        opening_words(a) == opening_words(b),
{
    let (ta, tb) = (a.trace_lde_poly_inclusion_proofs@, b.trace_lde_poly_inclusion_proofs@);
    let (pa, pb) = (a.fri_decommitment.layer_merkle_paths@, b.fri_decommitment.layer_merkle_paths@);
    assert forall|t: int| 0 <= t < ta.len() implies path_words(#[trigger] ta[t]) == path_words(
        tb[t],
    ) by {
        assert(is_opening_of(tb[t], run.lde, crate::stark_proof::window_position(ctx, q, t)));
    }
    lemma_same_proofs_words(ta, tb, ta.len());
    assert forall|t: int| 0 <= t < pa.len() implies path_words((#[trigger] pa[t]).0) == path_words(
        pb[t].0,
    ) && path_words(pa[t].1) == path_words(pb[t].1) by {
        let (b0, b1) = pb[t];
    }
    lemma_same_pairs_words(pa, pb, pa.len());
}

proof fn lemma_same_openings_words<A: AIR>(
    air: &A,
    trace: Seq<Seq<u32>>,
    a: StarkQueryProof,
    b: StarkQueryProof,
    k: nat,
)
    requires
        honest_proof(air, trace, a),
        honest_proof(air, trace, b),
        k <= a.query_openings@.len(),
    ensures
        openings_words(a.query_openings@, k) == openings_words(b.query_openings@, k),
    decreases k,
{
    if k > 0 {
        lemma_same_openings_words(air, trace, a, b, (k - 1) as nat);
        let ctx = air.context_view();
        let run = honest_run(air, trace);
        let count = coefficient_count(ctx, air.boundary_view());
        let q = run.header.query_index(count, ctx, (k - 1) as nat, ctx.lde_size()) as int;
        let (oa, ob) = (a.query_openings@[k - 1], b.query_openings@[k - 1]);
        assert(honest_opening(run, ctx, q, oa));
        assert(honest_opening(run, ctx, q, ob));
        lemma_same_opening_words(run, ctx, q, oa, ob);
    }
}

/// Two proofs that honest runs give for the same computation and the same
/// trace are encoded by the same bytes.
pub proof fn lemma_honest_proofs_agree<A: AIR>(
    air: &A,
    trace: Seq<Seq<u32>>,
    a: StarkQueryProof,
    b: StarkQueryProof,
)
    requires
        honest_proof(air, trace, a),
        honest_proof(air, trace, b),
    ensures
        proof_bytes(a) == proof_bytes(b),
{
    lemma_same_openings_words(air, trace, a, b, a.query_openings@.len());
    assert(a.header() == b.header());
    assert(a.trace_ood_evaluations@ == b.trace_ood_evaluations@);
    assert(a.fri_layers_merkle_roots@ == b.fri_layers_merkle_roots@);
    assert(proof_words(a) == proof_words(b));
}

} // verus!
