//! What holds of every proof that an honest run gives: it has the lengths
//! that the context calls for, its elements are canonical, and so it can be
//! decoded from its bytes.

use crate::air::AIR;
use crate::air::AirContextView;
use crate::air::FRAME_ROWS;
use crate::constraints::coefficient_count;
use crate::constraints::lemma_pow2_strictly_increases_to;
use crate::evaluation::lemma_fft_canonical;
use crate::field::p;
use crate::fri::FriInput;
use crate::fri::coset_evals;
use crate::fri::lemma_is_pow2_log;
use crate::fri::lemma_round_poly;
use crate::fri::query_index;
use crate::merkle::Proof;
use crate::merkle::leaf_level;
use crate::merkle::lemma_next_pow2;
use crate::merkle::lemma_path_height;
use crate::merkle::lemma_tree_height;
use crate::merkle::merkle_root;
use crate::merkle::next_level;
use crate::merkle::path_of;
use crate::merkle::root_of;
use crate::merkle::sibling;
use crate::merkle::tree_height;
use crate::poly_eval::canonical;
use crate::poly_eval::lemma_eval_range;
use crate::serialization::decodable;
use crate::serialization::elements_canonical;
use crate::serialization::opening_canonical;
use crate::serialization::opening_shaped;
use crate::serialization::proof_bytes;
use crate::serialization::proof_canonical;
use crate::serialization::shaped;
use crate::stark_proof::QueryOpening;
use crate::stark_proof::StarkQueryProof;
use crate::stark_proof::window_position;
use crate::stark_prover::lemma_tree_height_pow2;
use crate::stark_prover::lemma_window_position;
use crate::stark_run::honest_opening;
use crate::stark_run::honest_proof;
use crate::stark_run::honest_run;
use crate::stark_run::is_opening_of;
use vstd::arithmetic::div_mod::*;
use vstd::arithmetic::power2::*;
use vstd::prelude::*;

verus! {

/// The sizes that belong to a valid context.
pub proof fn lemma_context_sizes(ctx: AirContextView)
    requires
        ctx.valid(),
    ensures
        ctx.trace_length == pow2(ctx.trace_order()),
        ctx.lde_size() == pow2(ctx.lde_order()),
        1 <= ctx.trace_order(),
        ctx.trace_order() + 1 <= ctx.lde_order() <= 27,
        2 * ctx.trace_length <= ctx.lde_size(),
        ctx.lde_size() <= 0x800_0000,
        1 <= ctx.trace_columns <= 15,
        ctx.trace_columns * ctx.lde_size() <= 0x7800_0000,
        ctx.lde_size() / 2 == pow2((ctx.lde_order() - 1) as nat),
        2 * ctx.trace_length == pow2(ctx.trace_order() + 1),
{
    let (kt, kb) = (ctx.trace_order(), ctx.blowup_order());
    lemma2_to64();
    lemma_is_pow2_log(ctx.trace_length);
    lemma_is_pow2_log(ctx.options.blowup_factor as nat);
    if kt == 0 {
    }
    if kb == 0 {
    }
    lemma_pow2_adds(kt, kb);
    lemma_pow2_unfold(kt + 1);
    lemma_pow2_unfold(kt + kb);
    lemma_pow2_strictly_increases_to(kt + 1, kt + kb);
    lemma_pow2_strictly_increases_to(kt + kb, 27);
    assert(ctx.trace_columns * ctx.lde_size() <= 0x7800_0000) by (nonlinear_arith)
        requires
            ctx.trace_columns <= 15,
            ctx.lde_size() <= 0x800_0000,
    ;
}

/// The values of a polynomial on a coset are canonical residues.
pub proof fn lemma_coset_evals_canonical(c: Seq<u32>, n: nat, h: int)
    ensures
        canonical(coset_evals(c, n, h)),
        coset_evals(c, n, h).len() == n,
{
    let v = coset_evals(c, n, h);
    assert forall|i: int| 0 <= i < v.len() implies (#[trigger] v[i] as int) < p() by {
        lemma_eval_range(c, crate::evaluation::coset_point(n, h, i as nat));
    }
}

/// The nodes of a Merkle tree are canonical residues.
pub proof fn lemma_levels_canonical(values: Seq<u32>, level: Seq<u32>)
    ensures
        canonical(leaf_level(values)),
        canonical(next_level(level)),
{
    let leaves = leaf_level(values);
    assert forall|i: int| 0 <= i < leaves.len() implies (#[trigger] leaves[i] as int) < p() by {
        lemma_mod_bound(
            crate::hash::le_value(
                crate::hash::sha3_256_digest(
                    crate::hash::element_bytes(crate::merkle::padded(values)[i] as int),
                ),
            ) as int,
            p(),
        );
    }
    let up = next_level(level);
    assert forall|i: int| 0 <= i < up.len() implies (#[trigger] up[i] as int) < p() by {
        lemma_mod_bound(
            crate::hash::le_value(
                crate::hash::sha3_256_digest(
                    crate::hash::element_bytes(level[2 * i] as int) + crate::hash::element_bytes(
                        level[2 * i + 1] as int,
                    ),
                ),
            ) as int,
            p(),
        );
    }
}

/// The siblings on the path of a node, and the root, are canonical
/// residues.
pub proof fn lemma_path_canonical(level: Seq<u32>, index: int, e: nat)
    requires
        level.len() == pow2(e),
        canonical(level),
        0 <= index < level.len(),
    ensures
        canonical(path_of(level, index)),
        root_of(level) < p(),
    decreases e,
{
    lemma2_to64();
    lemma_pow2_pos(e);
    if e > 0 {
        lemma_pow2_unfold(e);
        lemma_pow2_pos((e - 1) as nat);
        let up = next_level(level);
        lemma_levels_canonical(Seq::empty(), level);
        lemma_path_canonical(up, index / 2, (e - 1) as nat);
        let path = path_of(level, index);
        let rest = path_of(up, index / 2);
        assert forall|i: int| 0 <= i < path.len() implies (#[trigger] path[i] as int) < p() by {
            if i == 0 {
                assert(path[0] == level[sibling(index)]);
            } else {
                assert(path[i] == rest[i - 1]);
            }
        }
    } else {
        assert((level[0] as int) < p());
    }
}

/// The inclusion proof of a position in the tree over canonical values is
/// canonical, and as long as the tree is high.
pub proof fn lemma_opening_canonical(pr: Proof, values: Seq<u32>, pos: int)
    requires
        is_opening_of(pr, values, pos),
        canonical(values),
        0 <= pos < values.len(),
        values.len() < p(),
    ensures
        proof_canonical(pr),
        pr.merkle_path@.len() == tree_height(values.len()),
        merkle_root(values) < p(),
{
    lemma_path_height(values, pos);
    lemma_tree_height(values.len());
    lemma_next_pow2(values.len());
    lemma_levels_canonical(values, Seq::empty());
    lemma_path_canonical(leaf_level(values), pos, tree_height(values.len()));
    assert((values[pos] as int) < p());
}

/// What FRI starts from in an honest run is an input that FRI can run on.
pub proof fn lemma_run_fri_valid<A: AIR>(air: &A, trace: Seq<Seq<u32>>)
    requires
        air.context_view().valid(),
    ensures
        honest_run(air, trace).fri.valid(),
        honest_run(air, trace).fri.rounds() == air.context_view().lde_order(),
        honest_run(air, trace).fri.order == air.context_view().lde_order(),
{
    let ctx = air.context_view();
    let run = honest_run(air, trace);
    let k = ctx.lde_order();
    lemma_context_sizes(ctx);
    lemma_fft_canonical(
        run.deep,
        crate::roots_of_unity::twiddles_spec(
            k,
            crate::roots_of_unity::RootsConfig::BitReverseInversed,
        ),
        k,
    );
    let coeffs = run.fri.coeffs;
    assert(coeffs.len() == pow2(k));
    assert forall|i: int| 0 <= i < coeffs.len() implies (#[trigger] coeffs[i] as int) < p() by {
        let plain = crate::stark_run::interpolated_on_subgroup(run.deep, k);
        lemma_mod_bound(
            plain[i] as int * (vstd::arithmetic::power::pow(
                crate::field::finv(crate::domain::context_offset(ctx), p()),
                i as nat,
            ) % p()),
            p(),
        );
        assert(coeffs[i] == run.deep_coeffs[i]);
    }
}

/// The openings that an honest run gives for a query have the lengths that
/// the context calls for, and are canonical.
pub proof fn lemma_honest_opening_shaped<A: AIR>(
    air: &A,
    trace: Seq<Seq<u32>>,
    q: int,
    o: QueryOpening,
)
    requires
        air.context_view().valid(),
        0 <= q < air.context_view().lde_size(),
        honest_opening(honest_run(air, trace), air.context_view(), q, o),
    ensures
        opening_shaped(o, air.context_view()),
        opening_canonical(o),
{
    let ctx = air.context_view();
    let run = honest_run(air, trace);
    let n = ctx.lde_size() as int;
    let k = ctx.lde_order();
    let half = n / 2;
    lemma_context_sizes(ctx);
    lemma_run_fri_valid(air, trace);
    // the trace
    let tp = o.trace_lde_poly_inclusion_proofs@;
    assert forall|i: int| 0 <= i < run.lde.len() implies (#[trigger] run.lde[i] as int) < p() by {
        lemma_coset_evals_canonical(
            run.polys[i / n],
            n as nat,
            crate::domain::context_offset(ctx),
        );
        lemma_mod_bound(i, n);
    }
    assert forall|t: int| 0 <= t < tp.len() implies (#[trigger] tp[t]).merkle_path@.len()
        == crate::serialization::trace_tree_height(ctx) && proof_canonical(tp[t]) by {
        lemma_window_position(ctx, q, t);
        lemma_opening_canonical(tp[t], run.lde, window_position(ctx, q, t));
    }
    // the halves of the composition polynomial
    lemma_mod_bound(q, half);
    lemma_coset_evals_canonical(
        run.even_coeffs,
        half as nat,
        crate::field::fmul(
            crate::domain::context_offset(ctx),
            crate::domain::context_offset(ctx),
            p(),
        ),
    );
    lemma_coset_evals_canonical(
        run.odd_coeffs,
        half as nat,
        crate::field::fmul(
            crate::domain::context_offset(ctx),
            crate::domain::context_offset(ctx),
            p(),
        ),
    );
    lemma_opening_canonical(o.composition_even_proof, run.even_evals, q % half);
    lemma_opening_canonical(o.composition_odd_proof, run.odd_evals, q % half);
    lemma_tree_height_pow2((k - 1) as nat);
    // the layers of FRI
    let pairs = o.fri_decommitment.layer_merkle_paths@;
    let input = run.fri;
    assert forall|j: int| 0 <= j < pairs.len() implies (#[trigger] pairs[j]).0.merkle_path@.len()
        == k - j && pairs[j].1.merkle_path@.len() == k - j && proof_canonical(pairs[j].0)
        && proof_canonical(pairs[j].1) by {
        let e = (k - j) as nat;
        let size = pow2(e);
        let idx = query_index(q as nat, k, j as nat);
        let sym = crate::fri::opposite_index(idx, size);
        let evals = input.evals(j as nat);
        let (p0, p1) = pairs[j];
        lemma_pow2_pos(e);
        lemma_pow2_strictly_increases_to(e, 27);
        lemma2_to64();
        lemma_mod_bound(q, size as int);
        lemma_mod_bound(idx as int + size as int / 2, size as int);
        lemma_coset_evals_canonical(
            input.poly(j as nat),
            size,
            crate::fri::fri_offset(input.offset, j as nat),
        );
        lemma_tree_height_pow2(e);
        lemma_opening_canonical(p0, evals, idx as int);
        lemma_opening_canonical(p1, evals, sym as int);
    }
}

/// The roots in the head of an honest proof are canonical residues.
pub proof fn lemma_run_roots<A: AIR>(air: &A, trace: Seq<Seq<u32>>)
    requires
        air.context_view().valid(),
    ensures
        honest_run(air, trace).header.trace_root < p(),
        honest_run(air, trace).header.even_root < p(),
        honest_run(air, trace).header.odd_root < p(),
{
    let ctx = air.context_view();
    let run = honest_run(air, trace);
    let n = ctx.lde_size() as int;
    let h = crate::domain::context_offset(ctx);
    lemma_context_sizes(ctx);
    lemma_pow2_pos(ctx.lde_order());
    assert forall|i: int| 0 <= i < run.lde.len() implies (#[trigger] run.lde[i] as int) < p() by {
        lemma_coset_evals_canonical(run.polys[i / n], n as nat, h);
        lemma_mod_bound(i, n);
    }
    assert(ctx.trace_columns * n >= 1) by (nonlinear_arith)
        requires
            ctx.trace_columns >= 1,
            n >= 1,
    ;
    assert(run.lde.len() == ctx.trace_columns * n);
    lemma_root_canonical(run.lde);
    lemma_coset_evals_canonical(run.even_coeffs, (n / 2) as nat, crate::field::fmul(h, h, p()));
    lemma_coset_evals_canonical(run.odd_coeffs, (n / 2) as nat, crate::field::fmul(h, h, p()));
    lemma_pow2_pos((ctx.lde_order() - 1) as nat);
    lemma_root_canonical(run.even_evals);
    lemma_root_canonical(run.odd_evals);
}

/// The out-of-domain evaluations of an honest proof are canonical
/// residues, as many as a window of the trace has entries.
pub proof fn lemma_run_ood<A: AIR>(air: &A, trace: Seq<Seq<u32>>)
    requires
        air.context_view().valid(),
    ensures
        canonical(honest_run(air, trace).header.trace_ood),
        honest_run(air, trace).header.trace_ood.len() == FRAME_ROWS
            * air.context_view().trace_columns,
        honest_run(air, trace).header.even_ood < p(),
        honest_run(air, trace).header.odd_ood < p(),
{
    let ctx = air.context_view();
    let run = honest_run(air, trace);
    let header = run.header;
    let cols = ctx.trace_columns as int;
    let z = run.z as int;
    let omega = crate::roots_of_unity::root_of_unity(ctx.trace_order());
    assert forall|t: int| 0 <= t < header.trace_ood.len() implies (
    #[trigger] header.trace_ood[t] as int) < p() by {
        lemma_eval_range(
            run.polys[t % cols],
            crate::field::fmul(z, crate::field::fpow(omega, (t / cols) as nat, p()), p()),
        );
    }
    lemma_eval_range(run.even_coeffs, crate::field::fmul(z, z, p()));
    lemma_eval_range(run.odd_coeffs, crate::field::fmul(z, z, p()));
}

/// The roots of the layers of FRI and the constant of the last layer of
/// an honest proof are canonical residues, and there is one root for each
/// round.
pub proof fn lemma_run_fri_head(input: FriInput)
    requires
        input.valid(),
    ensures
        canonical(input.roots()),
        input.roots().len() == input.rounds(),
        input.last_value() < p(),
{
    let roots = input.roots();
    let k = input.order;
    assert forall|j: int| 0 <= j < roots.len() implies (#[trigger] roots[j] as int) < p() by {
        let e = (k - j) as nat;
        lemma_pow2_pos(e);
        lemma_coset_evals_canonical(
            input.poly(j as nat),
            pow2(e),
            crate::fri::fri_offset(input.offset, j as nat),
        );
        lemma_root_canonical(input.evals(j as nat));
    }
    lemma_round_poly(input, input.rounds());
    lemma2_to64();
}

/// The openings of all queries of an honest proof have the lengths that
/// the context calls for, and are canonical.
pub proof fn lemma_honest_queries<A: AIR>(air: &A, trace: Seq<Seq<u32>>, pf: StarkQueryProof)
    requires
        air.context_view().valid(),
        honest_proof(air, trace, pf),
    ensures
        forall|i: int|
            0 <= i < pf.query_openings@.len() ==> opening_shaped(
                #[trigger] pf.query_openings@[i],
                air.context_view(),
            ) && opening_canonical(pf.query_openings@[i]),
{
    let ctx = air.context_view();
    let run = honest_run(air, trace);
    let n = ctx.lde_size() as int;
    let count = coefficient_count(ctx, air.boundary_view());
    lemma_context_sizes(ctx);
    lemma_pow2_pos(ctx.lde_order());
    assert forall|i: int| 0 <= i < pf.query_openings@.len() implies opening_shaped(
        #[trigger] pf.query_openings@[i],
        ctx,
    ) && opening_canonical(pf.query_openings@[i]) by {
        let q = run.header.query_index(count, ctx, i as nat, ctx.lde_size()) as int;
        lemma_mod_bound(
            crate::hash::le_value(
                crate::transcript::squeezed(
                    crate::transcript::squeezed_times(
                        run.header.stage_queries(count, ctx),
                        i as nat,
                    ),
                ).subrange(0, crate::transcript::INDEX_BYTES as int),
            ) as int,
            n,
        );
        lemma_honest_opening_shaped(air, trace, q, pf.query_openings@[i]);
    }
}

/// A proof that an honest run gives has the lengths that the context
/// calls for, its elements are canonical, and its bytes can be decoded.
pub proof fn lemma_honest_proof_decodable<A: AIR>(air: &A, trace: Seq<Seq<u32>>, pf: StarkQueryProof)
    requires
        air.context_view().valid(),
        honest_proof(air, trace, pf),
    ensures
        shaped(pf, air.context_view()),
        elements_canonical(pf),
        decodable(proof_bytes(pf), air.context_view()),
{
    let run = honest_run(air, trace);
    lemma_run_roots(air, trace);
    lemma_run_ood(air, trace);
    lemma_run_fri_valid(air, trace);
    lemma_run_fri_head(run.fri);
    lemma_honest_queries(air, trace, pf);
    let header = pf.header();
    assert(header == run.header);
    assert(header.fri_roots == run.fri.roots());
    assert(header.fri_last == run.fri.last_value());
    assert(pf.trace_ood_evaluations@ == header.trace_ood);
    assert(pf.fri_layers_merkle_roots@ == header.fri_roots);
    assert(shaped(pf, air.context_view()));
    assert(elements_canonical(pf));
}

/// The root of the tree over canonical values, of which there is at least
/// one, is a canonical residue.
pub proof fn lemma_root_canonical(values: Seq<u32>)
    requires
        canonical(values),
        values.len() >= 1,
    ensures
        merkle_root(values) < p(),
{
    lemma_tree_height(values.len());
    lemma_next_pow2(values.len());
    lemma_levels_canonical(values, Seq::empty());
    lemma_path_canonical(leaf_level(values), 0, tree_height(values.len()));
}

} // verus!
