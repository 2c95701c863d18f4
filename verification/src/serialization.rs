//! The encoding of a proof as bytes: its field elements and the positions
//! of its openings one after the other, each on four bytes, most
//! significant first, without any length prefix. The lengths follow from
//! the context.

use crate::air::AirContext;
use crate::air::AirContextView;
use crate::air::FRAME_ROWS;
use crate::air::ProofOptions;
use crate::domain::Domain;
use crate::errors::StarkError;
use crate::field::TEST_FIELD_MODULUS;
use crate::field::p;
use crate::fri::FriDecommitment;
use crate::hash::Sha3Hasher;
use crate::hash::i2osp_spec;
use crate::merkle::Proof;
use crate::merkle::merkle_height;
use crate::merkle::tree_height;
use crate::poly_eval::canonical;
use crate::stark_proof::QueryOpening;
use crate::stark_proof::StarkQueryProof;
use crate::stark_verifier::lemma_domain_bounds;
use vstd::arithmetic::power::*;
use vstd::prelude::*;

verus! {

/// Number of bytes of a word.
pub const WORD_SIZE: usize = 4;

/// The four bytes of a word, most significant first.
pub open spec fn word_bytes(w: u32) -> Seq<u8> {
    i2osp_spec(w as nat, WORD_SIZE as nat)
}

/// The bytes of a sequence of words.
pub open spec fn words_bytes(ws: Seq<u32>) -> Seq<u8>
    decreases ws.len(),
{
    if ws.len() == 0 {
        Seq::empty()
    } else {
        words_bytes(ws.drop_last()) + word_bytes(ws.last())
    }
}

/// The word of a position: its lower 32 bits.
pub open spec fn index_word(i: usize) -> u32 {
    (i as int % 0x1_0000_0000) as u32
}

/// The words of an inclusion proof: the value, the position, the path.
pub open spec fn path_words(pr: Proof) -> Seq<u32> {
    seq![pr.value, index_word(pr.index)] + pr.merkle_path@
}

/// The words of the first `k` inclusion proofs of `ps`.
pub open spec fn proofs_words(ps: Seq<Proof>, k: nat) -> Seq<u32>
    decreases k,
{
    if k == 0 {
        Seq::empty()
    } else {
        proofs_words(ps, (k - 1) as nat) + path_words(ps[k - 1])
    }
}

/// The words of the first `k` pairs of inclusion proofs of `pairs`.
pub open spec fn pairs_words(pairs: Seq<(Proof, Proof)>, k: nat) -> Seq<u32>
    decreases k,
{
    if k == 0 {
        Seq::empty()
    } else {
        pairs_words(pairs, (k - 1) as nat) + path_words(pairs[k - 1].0) + path_words(
            pairs[k - 1].1,
        )
    }
}

/// The words of the openings of one query: the trace, the two halves of
/// the composition polynomial, the layers of FRI.
pub open spec fn opening_words(o: QueryOpening) -> Seq<u32> {
    proofs_words(
        o.trace_lde_poly_inclusion_proofs@,
        o.trace_lde_poly_inclusion_proofs@.len(),
    ) + path_words(o.composition_even_proof) + path_words(o.composition_odd_proof) + pairs_words(
        o.fri_decommitment.layer_merkle_paths@,
        o.fri_decommitment.layer_merkle_paths@.len(),
    )
}

/// The words of the openings of the first `k` queries.
pub open spec fn openings_words(os: Seq<QueryOpening>, k: nat) -> Seq<u32>
    decreases k,
{
    if k == 0 {
        Seq::empty()
    } else {
        openings_words(os, (k - 1) as nat) + opening_words(os[k - 1])
    }
}

/// The words of the part of a proof that comes before the openings: the
/// trace root, the roots of the two halves of the composition polynomial,
/// the out-of-domain evaluations, the roots of the layers of FRI and the
/// constant of its last layer.
pub open spec fn head_words(pf: StarkQueryProof) -> Seq<u32> {
    seq![pf.trace_lde_poly_root, pf.composition_even_root, pf.composition_odd_root]
        + pf.trace_ood_evaluations@ + seq![pf.composition_even_ood, pf.composition_odd_ood]
        + pf.fri_layers_merkle_roots@ + seq![pf.fri_last_value]
}

/// The words of a proof: its head, and the openings of the queries.
pub open spec fn proof_words(pf: StarkQueryProof) -> Seq<u32> {
    head_words(pf) + openings_words(pf.query_openings@, pf.query_openings@.len())
}

/// The bytes of a proof.
pub open spec fn proof_bytes(pf: StarkQueryProof) -> Seq<u8> {
    words_bytes(proof_words(pf))
}

/// The height of the tree over the extended trace.
pub open spec fn trace_tree_height(ctx: AirContextView) -> nat {
    tree_height((ctx.trace_columns * ctx.lde_size()) as nat)
}

/// Whether the openings of a query have the lengths that the context
/// calls for.
pub open spec fn opening_shaped(o: QueryOpening, ctx: AirContextView) -> bool {
    let k = ctx.lde_order();
    let tp = o.trace_lde_poly_inclusion_proofs@;
    let pairs = o.fri_decommitment.layer_merkle_paths@;
    &&& tp.len() == FRAME_ROWS * ctx.trace_columns
    &&& forall|t: int|
        0 <= t < tp.len() ==> (#[trigger] tp[t]).merkle_path@.len() == trace_tree_height(ctx)
    &&& o.composition_even_proof.merkle_path@.len() == k - 1
    &&& o.composition_odd_proof.merkle_path@.len() == k - 1
    &&& pairs.len() == ctx.lde_order()
    &&& forall|j: int|
        0 <= j < pairs.len() ==> (#[trigger] pairs[j]).0.merkle_path@.len() == k - j
            && pairs[j].1.merkle_path@.len() == k - j
}

/// Whether a proof has the lengths that the context calls for.
pub open spec fn shaped(pf: StarkQueryProof, ctx: AirContextView) -> bool {
    &&& pf.trace_ood_evaluations@.len() == FRAME_ROWS * ctx.trace_columns
    &&& pf.fri_layers_merkle_roots@.len() == ctx.lde_order()
    &&& pf.query_openings@.len() == ctx.options.fri_number_of_queries
    &&& forall|i: int|
        0 <= i < pf.query_openings@.len() ==> opening_shaped(#[trigger] pf.query_openings@[i], ctx)
}

/// The value and the path of an inclusion proof are canonical residues,
/// and its position is below the modulus.
pub open spec fn proof_canonical(pr: Proof) -> bool {
    &&& pr.value < TEST_FIELD_MODULUS
    &&& pr.index < TEST_FIELD_MODULUS
    &&& canonical(pr.merkle_path@)
}

/// All inclusion proofs of the openings of a query are canonical.
pub open spec fn opening_canonical(o: QueryOpening) -> bool {
    let tp = o.trace_lde_poly_inclusion_proofs@;
    let pairs = o.fri_decommitment.layer_merkle_paths@;
    &&& forall|t: int| 0 <= t < tp.len() ==> proof_canonical(#[trigger] tp[t])
    &&& proof_canonical(o.composition_even_proof)
    &&& proof_canonical(o.composition_odd_proof)
    &&& forall|j: int|
        0 <= j < pairs.len() ==> proof_canonical((#[trigger] pairs[j]).0) && proof_canonical(
            pairs[j].1,
        )
}

/// All field elements of a proof are canonical residues, and all
/// positions are below the modulus.
pub open spec fn elements_canonical(pf: StarkQueryProof) -> bool {
    &&& pf.trace_lde_poly_root < TEST_FIELD_MODULUS
    &&& pf.composition_even_root < TEST_FIELD_MODULUS
    &&& pf.composition_odd_root < TEST_FIELD_MODULUS
    &&& canonical(pf.trace_ood_evaluations@)
    &&& pf.composition_even_ood < TEST_FIELD_MODULUS
    &&& pf.composition_odd_ood < TEST_FIELD_MODULUS
    &&& canonical(pf.fri_layers_merkle_roots@)
    &&& pf.fri_last_value < TEST_FIELD_MODULUS
    &&& forall|i: int|
        0 <= i < pf.query_openings@.len() ==> opening_canonical(#[trigger] pf.query_openings@[i])
}

/// Whether `bytes` encode a proof under the context: they are the bytes of
/// a proof that has the lengths that the context calls for, and whose
/// elements are canonical.
pub open spec fn decodable(bytes: Seq<u8>, ctx: AirContextView) -> bool {
    exists|pf: StarkQueryProof|
        #![trigger shaped(pf, ctx)]
        shaped(pf, ctx) && elements_canonical(pf) && proof_bytes(pf) == bytes
}

/// Number of words of `t` inclusion proofs with paths of `height` entries.
pub open spec fn proofs_len(height: nat, t: nat) -> nat
    decreases t,
{
    if t == 0 {
        0
    } else {
        proofs_len(height, (t - 1) as nat) + 2 + height
    }
}

/// Number of words of the openings of the first `j` layers of FRI, over a
/// domain of `2^k` points.
pub open spec fn pairs_len(k: nat, j: nat) -> nat
    decreases j,
{
    if j == 0 {
        0
    } else {
        (pairs_len(k, (j - 1) as nat) + 2 * (2 + (k - (j - 1)))) as nat
    }
}

/// Number of words of the openings of one query.
pub open spec fn opening_len(ctx: AirContextView) -> nat {
    (proofs_len(trace_tree_height(ctx), (FRAME_ROWS * ctx.trace_columns) as nat) + 2 * (2 + (
    ctx.lde_order() - 1)) + pairs_len(ctx.lde_order(), ctx.lde_order())) as nat
}

/// Number of words of the openings of `i` queries.
pub open spec fn openings_len(ctx: AirContextView, i: nat) -> nat
    decreases i,
{
    if i == 0 {
        0
    } else {
        openings_len(ctx, (i - 1) as nat) + opening_len(ctx)
    }
}

/// Number of words of the head of a proof.
pub open spec fn head_len(ctx: AirContextView) -> nat {
    (3 + FRAME_ROWS * ctx.trace_columns + 2 + ctx.lde_order() + 1) as nat
}

/// Number of words of a proof.
pub open spec fn expected_len(ctx: AirContextView) -> nat {
    head_len(ctx) + openings_len(ctx, ctx.options.fri_number_of_queries as nat)
}

/// The bytes of `n` words are `4 * n` bytes.
pub proof fn lemma_words_bytes_len(ws: Seq<u32>)
    ensures
        words_bytes(ws).len() == WORD_SIZE * ws.len(),
    decreases ws.len(),
{
    if ws.len() > 0 {
        lemma_words_bytes_len(ws.drop_last());
    }
}

/// The digits of a word, and the word from its digits.
proof fn lemma_word_digits(w: u32)
    ensures
        word_bytes(w).len() == 4,
        w == word_bytes(w)[0] * 0x100_0000 + word_bytes(w)[1] * 0x1_0000 + word_bytes(w)[2] * 0x100
            + word_bytes(w)[3],
{
    reveal_with_fuel(pow, 5);
    assert(pow(256, 0) == 1 && pow(256, 1) == 256 && pow(256, 2) == 0x1_0000 && pow(256, 3)
        == 0x100_0000);
    let v = w as int;
    assert(word_bytes(w)[0] == ((v / 0x100_0000) % 256) as u8);
    assert(word_bytes(w)[1] == ((v / 0x1_0000) % 256) as u8);
    assert(word_bytes(w)[2] == ((v / 0x100) % 256) as u8);
    assert(word_bytes(w)[3] == ((v / 1) % 256) as u8);
}

/// The word with the given digits has them as its bytes.
proof fn lemma_digits_word(b0: u8, b1: u8, b2: u8, b3: u8)
    ensures
        word_bytes((b0 * 0x100_0000 + b1 * 0x1_0000 + b2 * 0x100 + b3) as u32) == seq![
            b0,
            b1,
            b2,
            b3,
        ],
{
    reveal_with_fuel(pow, 5);
    assert(pow(256, 0) == 1 && pow(256, 1) == 256 && pow(256, 2) == 0x1_0000 && pow(256, 3)
        == 0x100_0000);
    let v = b0 * 0x100_0000 + b1 * 0x1_0000 + b2 * 0x100 + b3;
    let w = v as u32;
    assert((v / 0x100_0000) % 256 == b0);
    assert((v / 0x1_0000) % 256 == b1);
    assert((v / 0x100) % 256 == b2);
    assert((v / 1) % 256 == b3);
    assert(word_bytes(w) =~= seq![b0, b1, b2, b3]);
}

/// Different sequences of words have different bytes.
pub proof fn lemma_words_bytes_injective(a: Seq<u32>, b: Seq<u32>)
    requires
        words_bytes(a) == words_bytes(b),
    ensures
        a == b,
    decreases a.len(),
{
    lemma_words_bytes_len(a);
    lemma_words_bytes_len(b);
    if a.len() > 0 {
        let (at, bt) = (a.drop_last(), b.drop_last());
        lemma_words_bytes_len(at);
        lemma_words_bytes_len(bt);
        lemma_word_digits(a.last());
        lemma_word_digits(b.last());
        let (wa, wb) = (words_bytes(at), words_bytes(bt));
        let (la, lb) = (word_bytes(a.last()), word_bytes(b.last()));
        let whole = words_bytes(a);
        assert(whole == wa + la);
        assert(whole == wb + lb);
        assert(wa =~= whole.subrange(0, wa.len() as int));
        assert(wb =~= whole.subrange(0, wb.len() as int));
        assert forall|i: int| 0 <= i < 4 implies la[i] == lb[i] by {
            assert(la[i] == whole[wa.len() + i]);
            assert(lb[i] == whole[wb.len() + i]);
        }
        lemma_words_bytes_injective(at, bt);
        assert(a =~= at.push(a.last()));
        assert(b =~= bt.push(b.last()));
    } else {
        assert(a =~= b);
    }
}

pub proof fn lemma_proofs_words_len(ps: Seq<Proof>, t: nat, height: nat)
    requires
        t <= ps.len(),
        forall|s: int| 0 <= s < t ==> (#[trigger] ps[s]).merkle_path@.len() == height,
    ensures
        proofs_words(ps, t).len() == proofs_len(height, t),
    decreases t,
{
    if t > 0 {
        lemma_proofs_words_len(ps, (t - 1) as nat, height);
        assert(ps[t - 1].merkle_path@.len() == height);
    }
}

pub proof fn lemma_pairs_words_len(pairs: Seq<(Proof, Proof)>, j: nat, k: nat)
    requires
        j <= pairs.len(),
        j <= k + 1,
        forall|s: int|
            0 <= s < j ==> (#[trigger] pairs[s]).0.merkle_path@.len() == k - s
                && pairs[s].1.merkle_path@.len() == k - s,
    ensures
        pairs_words(pairs, j).len() == pairs_len(k, j),
    decreases j,
{
    if j > 0 {
        lemma_pairs_words_len(pairs, (j - 1) as nat, k);
        assert(pairs[j - 1].0.merkle_path@.len() == k - (j - 1));
    }
}

pub proof fn lemma_opening_words_len(o: QueryOpening, ctx: AirContextView)
    requires
        opening_shaped(o, ctx),
    ensures
        opening_words(o).len() == opening_len(ctx),
{
    lemma_proofs_words_len(
        o.trace_lde_poly_inclusion_proofs@,
        o.trace_lde_poly_inclusion_proofs@.len(),
        trace_tree_height(ctx),
    );
    lemma_pairs_words_len(
        o.fri_decommitment.layer_merkle_paths@,
        o.fri_decommitment.layer_merkle_paths@.len(),
        ctx.lde_order(),
    );
}

pub proof fn lemma_openings_words_len(os: Seq<QueryOpening>, i: nat, ctx: AirContextView)
    requires
        i <= os.len(),
        forall|s: int| 0 <= s < i ==> opening_shaped(#[trigger] os[s], ctx),
    ensures
        openings_words(os, i).len() == openings_len(ctx, i),
    decreases i,
{
    if i > 0 {
        lemma_openings_words_len(os, (i - 1) as nat, ctx);
        lemma_opening_words_len(os[i - 1], ctx);
    }
}

/// A proof of the shape that the context calls for has the number of
/// words that the context calls for.
pub proof fn lemma_proof_words_len(pf: StarkQueryProof, ctx: AirContextView)
    requires
        shaped(pf, ctx),
    ensures
        proof_words(pf).len() == expected_len(ctx),
{
    lemma_openings_words_len(pf.query_openings@, pf.query_openings@.len(), ctx);
}

pub proof fn lemma_path_words_canonical(pr: Proof)
    requires
        proof_canonical(pr),
    ensures
        canonical(path_words(pr)),
{
    let ws = path_words(pr);
    assert forall|i: int| 0 <= i < ws.len() implies (#[trigger] ws[i] as int) < p() by {
        if i >= 2 {
            assert(ws[i] == pr.merkle_path@[i - 2]);
        }
    }
}

pub proof fn lemma_concat_canonical(a: Seq<u32>, b: Seq<u32>)
    requires
        canonical(a),
        canonical(b),
    ensures
        canonical(a + b),
{
    let c = a + b;
    assert forall|i: int| 0 <= i < c.len() implies (#[trigger] c[i] as int) < p() by {
        if i < a.len() {
            assert(c[i] == a[i]);
        } else {
            assert(c[i] == b[i - a.len()]);
        }
    }
}

pub proof fn lemma_proofs_words_canonical(ps: Seq<Proof>, t: nat)
    requires
        t <= ps.len(),
        forall|s: int| 0 <= s < t ==> proof_canonical(#[trigger] ps[s]),
    ensures
        canonical(proofs_words(ps, t)),
    decreases t,
{
    if t > 0 {
        lemma_proofs_words_canonical(ps, (t - 1) as nat);
        lemma_path_words_canonical(ps[t - 1]);
        lemma_concat_canonical(proofs_words(ps, (t - 1) as nat), path_words(ps[t - 1]));
    }
}

pub proof fn lemma_pairs_words_canonical(pairs: Seq<(Proof, Proof)>, j: nat)
    requires
        j <= pairs.len(),
        forall|s: int|
            0 <= s < j ==> proof_canonical((#[trigger] pairs[s]).0) && proof_canonical(pairs[s].1),
    ensures
        canonical(pairs_words(pairs, j)),
    decreases j,
{
    if j > 0 {
        lemma_pairs_words_canonical(pairs, (j - 1) as nat);
        assert(proof_canonical(pairs[j - 1].0));
        lemma_path_words_canonical(pairs[j - 1].0);
        lemma_path_words_canonical(pairs[j - 1].1);
        lemma_concat_canonical(pairs_words(pairs, (j - 1) as nat), path_words(pairs[j - 1].0));
        lemma_concat_canonical(
            pairs_words(pairs, (j - 1) as nat) + path_words(pairs[j - 1].0),
            path_words(pairs[j - 1].1),
        );
    }
}

pub proof fn lemma_opening_words_canonical(o: QueryOpening)
    requires
        opening_canonical(o),
    ensures
        canonical(opening_words(o)),
{
    let tp = o.trace_lde_poly_inclusion_proofs@;
    let pairs = o.fri_decommitment.layer_merkle_paths@;
    lemma_proofs_words_canonical(tp, tp.len());
    lemma_path_words_canonical(o.composition_even_proof);
    lemma_path_words_canonical(o.composition_odd_proof);
    lemma_pairs_words_canonical(pairs, pairs.len());
    let a = proofs_words(tp, tp.len());
    let b = path_words(o.composition_even_proof);
    let c = path_words(o.composition_odd_proof);
    lemma_concat_canonical(a, b);
    lemma_concat_canonical(a + b, c);
    lemma_concat_canonical(a + b + c, pairs_words(pairs, pairs.len()));
}

pub proof fn lemma_openings_words_canonical(os: Seq<QueryOpening>, i: nat)
    requires
        i <= os.len(),
        forall|s: int| 0 <= s < i ==> opening_canonical(#[trigger] os[s]),
    ensures
        canonical(openings_words(os, i)),
    decreases i,
{
    if i > 0 {
        lemma_openings_words_canonical(os, (i - 1) as nat);
        lemma_opening_words_canonical(os[i - 1]);
        lemma_concat_canonical(openings_words(os, (i - 1) as nat), opening_words(os[i - 1]));
    }
}

/// The words of a proof with canonical elements are below the modulus.
pub proof fn lemma_proof_words_canonical(pf: StarkQueryProof)
    requires
        elements_canonical(pf),
    ensures
        canonical(proof_words(pf)),
{
    let a = seq![pf.trace_lde_poly_root, pf.composition_even_root, pf.composition_odd_root];
    let b = pf.trace_ood_evaluations@;
    let c = seq![pf.composition_even_ood, pf.composition_odd_ood];
    let d = pf.fri_layers_merkle_roots@;
    let e = seq![pf.fri_last_value];
    lemma_concat_canonical(a, b);
    lemma_concat_canonical(a + b, c);
    lemma_concat_canonical(a + b + c, d);
    lemma_concat_canonical(a + b + c + d, e);
    lemma_openings_words_canonical(pf.query_openings@, pf.query_openings@.len());
    lemma_concat_canonical(
        head_words(pf),
        openings_words(pf.query_openings@, pf.query_openings@.len()),
    );
}

/// Appends `src` to `out`.
fn push_words(out: &mut Vec<u32>, src: &[u32])
    ensures
        final(out)@ == old(out)@ + src@,
{
    let mut i: usize = 0;
    while i < src.len()
        invariant
            i <= src@.len(),
            out@ == old(out)@ + src@.subrange(0, i as int),
        decreases src@.len() - i,
    {
        out.push(src[i]);
        i = i + 1;
        assert(src@.subrange(0, i as int) =~= src@.subrange(0, i - 1).push(src@[i - 1]));
    }
    assert(src@.subrange(0, src@.len() as int) =~= src@);
}

/// Appends the words of an inclusion proof to `out`.
fn push_proof(out: &mut Vec<u32>, pr: &Proof)
    ensures
        final(out)@ == old(out)@ + path_words(*pr),
{
    let ghost before = out@;
    out.push(pr.value);
    let wide: u64 = pr.index as u64;
    out.push((wide % 0x1_0000_0000) as u32);
    assert(out@ =~= before + seq![pr.value, index_word(pr.index)]);
    push_words(out, pr.merkle_path.as_slice());
    assert(out@ =~= before + path_words(*pr));
}

/// The words of a proof.
pub fn proof_to_words(pf: &StarkQueryProof) -> (r: Vec<u32>)
    ensures
        r@ == proof_words(*pf),
{
    let mut out: Vec<u32> = Vec::new();
    out.push(pf.trace_lde_poly_root);
    out.push(pf.composition_even_root);
    out.push(pf.composition_odd_root);
    push_words(&mut out, pf.trace_ood_evaluations.as_slice());
    out.push(pf.composition_even_ood);
    out.push(pf.composition_odd_ood);
    push_words(&mut out, pf.fri_layers_merkle_roots.as_slice());
    out.push(pf.fri_last_value);
    let ghost head = out@;
    assert(head =~= head_words(*pf));
    let mut i: usize = 0;
    assert(out@ =~= head + openings_words(pf.query_openings@, 0));
    while i < pf.query_openings.len()
        invariant
            i <= pf.query_openings@.len(),
            out@ == head + openings_words(pf.query_openings@, i as nat),
        decreases pf.query_openings@.len() - i,
    {
        let o = &pf.query_openings[i];
        let ghost start = out@;
        let tp = &o.trace_lde_poly_inclusion_proofs;
        let mut t: usize = 0;
        assert(out@ =~= start + proofs_words(tp@, 0));
        while t < tp.len()
            invariant
                t <= tp@.len(),
                out@ == start + proofs_words(tp@, t as nat),
            decreases tp@.len() - t,
        {
            push_proof(&mut out, &tp[t]);
            assert(out@ =~= start + proofs_words(tp@, (t + 1) as nat));
            t = t + 1;
        }
        push_proof(&mut out, &o.composition_even_proof);
        push_proof(&mut out, &o.composition_odd_proof);
        let ghost after_halves = out@;
        let pairs = &o.fri_decommitment.layer_merkle_paths;
        let mut j: usize = 0;
        assert(out@ =~= after_halves + pairs_words(pairs@, 0));
        while j < pairs.len()
            invariant
                j <= pairs@.len(),
                out@ == after_halves + pairs_words(pairs@, j as nat),
            decreases pairs@.len() - j,
        {
            push_proof(&mut out, &pairs[j].0);
            push_proof(&mut out, &pairs[j].1);
            assert(out@ =~= after_halves + pairs_words(pairs@, (j + 1) as nat));
            j = j + 1;
        }
        assert(out@ =~= start + opening_words(*o));
        assert(out@ =~= head + openings_words(pf.query_openings@, (i + 1) as nat));
        i = i + 1;
    }
    out
}

/// The bytes of a sequence of words.
pub fn words_to_bytes(ws: &[u32]) -> (r: Vec<u8>)
    ensures
        r@ == words_bytes(ws@),
{
    let mut out: Vec<u8> = Vec::new();
    let mut i: usize = 0;
    assert(ws@.subrange(0, 0).len() == 0);
    proof {
        assert(pow(256, 4) == 0x1_0000_0000) by {
            reveal_with_fuel(pow, 5);
        }
    }
    while i < ws.len()
        invariant
            i <= ws@.len(),
            pow(256, 4) == 0x1_0000_0000,
            out@ == words_bytes(ws@.subrange(0, i as int)),
        decreases ws@.len() - i,
    {
        let bytes = Sha3Hasher::i2osp(ws[i] as u64, 4);
        let mut b: usize = 0;
        let ghost before = out@;
        while b < bytes.len()
            invariant
                b <= bytes@.len(),
                out@ == before + bytes@.subrange(0, b as int),
            decreases bytes@.len() - b,
        {
            out.push(bytes[b]);
            b = b + 1;
            assert(bytes@.subrange(0, b as int) =~= bytes@.subrange(0, b - 1).push(bytes@[b - 1]));
        }
        proof {
            assert(bytes@.subrange(0, bytes@.len() as int) =~= bytes@);
            let next = ws@.subrange(0, i + 1);
            assert(next.drop_last() =~= ws@.subrange(0, i as int));
            assert(next.last() == ws@[i as int]);
        }
        i = i + 1;
    }
    assert(ws@.subrange(0, ws@.len() as int) =~= ws@);
    out
}

/// The words that `bytes` encode, four bytes each, if the number of bytes
/// is a multiple of four.
pub fn bytes_to_words(bytes: &[u8]) -> (r: Option<Vec<u32>>)
    ensures
        r is Some <==> bytes@.len() % 4 == 0,
        r matches Some(ws) ==> words_bytes(ws@) == bytes@,
{
    if bytes.len() % WORD_SIZE != 0 {
        return None;
    }
    let count: usize = bytes.len() / WORD_SIZE;
    let mut out: Vec<u32> = Vec::new();
    let mut i: usize = 0;
    assert(bytes@.subrange(0, 0) =~= Seq::<u8>::empty());
    while i < count
        invariant
            i <= count,
            count * WORD_SIZE == bytes@.len(),
            bytes@.len() == bytes.len(),
            out@.len() == i,
            words_bytes(out@) == bytes@.subrange(0, 4 * i),
        decreases count - i,
    {
        let b0: u8 = bytes[4 * i];
        let b1: u8 = bytes[4 * i + 1];
        let b2: u8 = bytes[4 * i + 2];
        let b3: u8 = bytes[4 * i + 3];
        let word: u32 = b0 as u32 * 0x100_0000 + b1 as u32 * 0x1_0000 + b2 as u32 * 0x100
            + b3 as u32;
        let ghost before = out@;
        out.push(word);
        proof {
            lemma_digits_word(b0, b1, b2, b3);
            assert(out@.drop_last() =~= before);
            assert(bytes@.subrange(0, 4 * i + 4) =~= bytes@.subrange(0, 4 * i) + seq![
                b0,
                b1,
                b2,
                b3,
            ]);
        }
        i = i + 1;
    }
    assert(bytes@.subrange(0, 4 * count) =~= bytes@);
    Some(out)
}

/// The integer that four bytes encode, most significant first.
pub open spec fn be_value(bytes: Seq<u8>) -> int {
    bytes[0] * 0x100_0000 + bytes[1] * 0x1_0000 + bytes[2] * 0x100 + bytes[3]
}

/// The field element that `bytes` encode: four bytes, most significant
/// first, of a canonical residue. Other bytes encode no element.
pub fn element_from_bytes(bytes: &[u8]) -> (r: Option<u32>)
    ensures
        r is Some <==> bytes@.len() == 4 && be_value(bytes@) < p(),
        r matches Some(x) ==> x == be_value(bytes@) && crate::hash::element_bytes(x as int)
            == bytes@,
{
    if bytes.len() != 4 {
        return None;
    }
    let word: u32 = bytes[0] as u32 * 0x100_0000 + bytes[1] as u32 * 0x1_0000 + bytes[2] as u32
        * 0x100 + bytes[3] as u32;
    if word >= TEST_FIELD_MODULUS {
        return None;
    }
    proof {
        lemma_digits_word(bytes@[0], bytes@[1], bytes@[2], bytes@[3]);
        vstd::arithmetic::div_mod::lemma_small_mod(word as nat, p() as nat);
        assert(bytes@ =~= seq![bytes@[0], bytes@[1], bytes@[2], bytes@[3]]);
    }
    Some(word)
}

/// Whether all words are below the modulus.
pub fn all_canonical(words: &[u32]) -> (r: bool)
    ensures
        r == canonical(words@),
{
    let mut i: usize = 0;
    while i < words.len()
        invariant
            i <= words@.len(),
            forall|j: int| 0 <= j < i ==> (#[trigger] words@[j] as int) < p(),
        decreases words@.len() - i,
    {
        if words[i] >= TEST_FIELD_MODULUS {
            assert(!((words@[i as int] as int) < p()));
            return false;
        }
        i = i + 1;
    }
    true
}

/// The inclusion proof with a path of `height` entries that `words` hold
/// at `pos`.
fn take_proof(words: &[u32], pos: usize, height: usize) -> (r: Proof)
    requires
        pos + 2 + height <= words@.len(),
        canonical(words@),
    ensures
        path_words(r) == words@.subrange(pos as int, pos + 2 + height),
        r.merkle_path@.len() == height,
        proof_canonical(r),
{
    let value: u32 = words[pos];
    let index: usize = words[pos + 1] as usize;
    let mut path: Vec<u32> = Vec::new();
    let mut i: usize = 0;
    while i < height
        invariant
            i <= height,
            pos + 2 + height <= words@.len(),
            words@.len() == words.len(),
            canonical(words@),
            path@ == words@.subrange(pos + 2, pos + 2 + i),
        decreases height - i,
    {
        path.push(words[pos + 2 + i]);
        i = i + 1;
        assert(words@.subrange(pos + 2, pos + 2 + i) =~= words@.subrange(pos + 2, pos + 2 + i - 1).push(
            words@[pos + 2 + i - 1],
        ));
    }
    let r = Proof { value, index, merkle_path: path };
    proof {
        assert((words@[pos as int] as int) < p());
        assert((words@[pos + 1] as int) < p());
        assert(path_words(r) =~= words@.subrange(pos as int, pos + 2 + height));
        assert forall|j: int| 0 <= j < path@.len() implies (#[trigger] path@[j] as int) < p() by {
            assert(path@[j] == words@[pos + 2 + j]);
        }
    }
    r
}

/// The `count` words that `words` hold at `pos`.
fn take_elements(words: &[u32], pos: usize, count: usize) -> (r: Vec<u32>)
    requires
        pos + count <= words@.len(),
        canonical(words@),
    ensures
        r@ == words@.subrange(pos as int, pos + count),
        canonical(r@),
{
    let mut out: Vec<u32> = Vec::new();
    let mut i: usize = 0;
    while i < count
        invariant
            i <= count,
            pos + count <= words@.len(),
            words@.len() == words.len(),
            out@ == words@.subrange(pos as int, pos + i),
        decreases count - i,
    {
        out.push(words[pos + i]);
        i = i + 1;
        assert(words@.subrange(pos as int, pos + i) =~= words@.subrange(pos as int, pos + i - 1).push(
            words@[pos + i - 1],
        ));
    }
    proof {
        assert forall|j: int| 0 <= j < out@.len() implies (#[trigger] out@[j] as int) < p() by {
            assert(out@[j] == words@[pos + j]);
        }
    }
    out
}

/// The number of words of the openings of one query.
pub fn opening_length(ctx: &AirContext, domain: &Domain) -> (r: usize)
    requires
        ctx@.valid(),
        domain.of(ctx@),
    ensures
        r == opening_len(ctx@),
        r <= 5000,
{
    proof {
        lemma_domain_bounds(*domain, ctx@);
    }
    let cols: usize = ctx.trace_columns;
    let n: usize = domain.lde.size;
    assert(cols * n <= 0x8000_0000) by (nonlinear_arith)
        requires
            cols <= 16,
            n <= 0x800_0000,
    ;
    let height: usize = merkle_height(cols * n);
    let k: usize = domain.lde.order as usize;
    let rounds: usize = domain.lde.order as usize;
    let mut total: usize = 0;
    let mut t: usize = 0;
    while t < FRAME_ROWS * cols
        invariant
            t <= FRAME_ROWS * cols,
            cols <= 15,
            height <= 64,
            total == proofs_len(height as nat, t as nat),
            total <= 66 * t,
        decreases FRAME_ROWS * cols - t,
    {
        total = total + 2 + height;
        t = t + 1;
    }
    total = total + 2 * (2 + (k - 1));
    let ghost base = total;
    let mut j: usize = 0;
    while j < rounds
        invariant
            j <= rounds,
            rounds <= k,
            k <= 27,
            base <= 66 * 45 + 58,
            total == base + pairs_len(k as nat, j as nat),
            total <= base + 58 * j,
        decreases rounds - j,
    {
        total = total + 2 * (2 + (k - j));
        j = j + 1;
    }
    total
}

/// The openings of one query that `words` hold at `pos`.
fn take_opening(words: &[u32], pos: usize, ctx: &AirContext, domain: &Domain) -> (r: QueryOpening)
    requires
        ctx@.valid(),
        domain.of(ctx@),
        pos + opening_len(ctx@) <= words@.len(),
        canonical(words@),
    ensures
        opening_words(r) == words@.subrange(pos as int, pos + opening_len(ctx@)),
        opening_shaped(r, ctx@),
        opening_canonical(r),
{
    proof {
        lemma_domain_bounds(*domain, ctx@);
    }
    let cols: usize = ctx.trace_columns;
    let n: usize = domain.lde.size;
    assert(cols * n <= 0x8000_0000) by (nonlinear_arith)
        requires
            cols <= 16,
            n <= 0x800_0000,
    ;
    let height: usize = merkle_height(cols * n);
    let k: usize = domain.lde.order as usize;
    let rounds: usize = domain.lde.order as usize;
    let ghost whole = opening_len(ctx@);
    let ghost pairs_total = pairs_len(k as nat, rounds as nat);
    let ghost trace_total = proofs_len(height as nat, (FRAME_ROWS * cols) as nat);
    let mut cursor: usize = pos;
    let mut tp: Vec<Proof> = Vec::new();
    let mut t: usize = 0;
    assert(words@.subrange(pos as int, pos as int) =~= proofs_words(tp@, 0));
    while t < FRAME_ROWS * cols
        invariant
            t <= FRAME_ROWS * cols,
            cols <= 15,
            canonical(words@),
            words@.len() == words.len(),
            whole == trace_total + 2 * (2 + (k - 1)) + pairs_total,
            trace_total == proofs_len(height as nat, (FRAME_ROWS * cols) as nat),
            pos + whole <= words@.len(),
            cursor == pos + proofs_len(height as nat, t as nat),
            proofs_len(height as nat, t as nat) + proofs_len(
                height as nat,
                (FRAME_ROWS * cols - t) as nat,
            ) == trace_total,
            tp@.len() == t,
            proofs_words(tp@, t as nat) == words@.subrange(pos as int, cursor as int),
            forall|s: int| 0 <= s < t ==> (#[trigger] tp@[s]).merkle_path@.len() == height,
            forall|s: int| 0 <= s < t ==> proof_canonical(#[trigger] tp@[s]),
        decreases FRAME_ROWS * cols - t,
    {
        proof {
            lemma_proofs_len_split(height as nat, t as nat, (FRAME_ROWS * cols - t) as nat);
            lemma_proofs_len_split(height as nat, (t + 1) as nat, (FRAME_ROWS * cols - t - 1) as nat);
        }
        let pr = take_proof(words, cursor, height);
        let ghost before = tp@;
        tp.push(pr);
        proof {
            lemma_proofs_words_same(before, tp@, t as nat);
            assert(words@.subrange(pos as int, cursor + 2 + height) =~= words@.subrange(
                pos as int,
                cursor as int,
            ) + words@.subrange(cursor as int, cursor + 2 + height));
        }
        cursor = cursor + 2 + height;
        t = t + 1;
    }
    let ghost after_trace = cursor;
    let even = take_proof(words, cursor, k - 1);
    cursor = cursor + 2 + (k - 1);
    let odd = take_proof(words, cursor, k - 1);
    cursor = cursor + 2 + (k - 1);
    let ghost after_halves = cursor;
    let mut pairs: Vec<(Proof, Proof)> = Vec::new();
    let mut j: usize = 0;
    assert(words@.subrange(cursor as int, cursor as int) =~= pairs_words(pairs@, 0));
    proof {
        lemma_pairs_len_rest(k as nat, 0, rounds as nat);
    }
    while j < rounds
        invariant
            j <= rounds,
            rounds <= k,
            k <= 27,
            canonical(words@),
            words@.len() == words.len(),
            after_halves + pairs_total <= words@.len(),
            pairs_total == pairs_len(k as nat, rounds as nat),
            cursor == after_halves + pairs_len(k as nat, j as nat),
            pairs_len(k as nat, j as nat) <= pairs_total,
            pairs@.len() == j,
            pairs_words(pairs@, j as nat) == words@.subrange(after_halves as int, cursor as int),
            forall|s: int|
                0 <= s < j ==> (#[trigger] pairs@[s]).0.merkle_path@.len() == k - s
                    && pairs@[s].1.merkle_path@.len() == k - s,
            forall|s: int|
                0 <= s < j ==> proof_canonical((#[trigger] pairs@[s]).0) && proof_canonical(
                    pairs@[s].1,
                ),
        decreases rounds - j,
    {
        proof {
            lemma_pairs_len_rest(k as nat, (j + 1) as nat, rounds as nat);
        }
        let first = take_proof(words, cursor, k - j);
        let second = take_proof(words, cursor + 2 + (k - j), k - j);
        let ghost before = pairs@;
        pairs.push((first, second));
        proof {
            lemma_pairs_words_same(before, pairs@, j as nat);
            let step = 2 + (k - j);
            assert(words@.subrange(after_halves as int, cursor + 2 * step) =~= words@.subrange(
                after_halves as int,
                cursor as int,
            ) + words@.subrange(cursor as int, cursor + step) + words@.subrange(
                cursor + step,
                cursor + 2 * step,
            ));
        }
        cursor = cursor + 2 * (2 + (k - j));
        j = j + 1;
    }
    let r = QueryOpening {
        trace_lde_poly_inclusion_proofs: tp,
        composition_even_proof: even,
        composition_odd_proof: odd,
        fri_decommitment: FriDecommitment { layer_merkle_paths: pairs },
    };
    proof {
        assert(opening_words(r) =~= words@.subrange(pos as int, pos + whole));
    }
    r
}

/// The words of `t + rest` inclusion proofs are those of `t` and those of
/// `rest`.
proof fn lemma_proofs_len_split(height: nat, t: nat, rest: nat)
    ensures
        proofs_len(height, t + rest) == proofs_len(height, t) + proofs_len(height, rest),
    decreases rest,
{
    if rest > 0 {
        lemma_proofs_len_split(height, t, (rest - 1) as nat);
    }
}

/// The openings of the first layers of FRI take no more words than those
/// of all layers.
proof fn lemma_pairs_len_rest(k: nat, j: nat, rounds: nat)
    requires
        j <= rounds,
        rounds <= k + 1,
    ensures
        pairs_len(k, j) <= pairs_len(k, rounds),
        j < rounds ==> pairs_len(k, j) + 2 * (2 + (k - j)) <= pairs_len(k, rounds),
    decreases rounds - j,
{
    if j < rounds {
        lemma_pairs_len_rest(k, j + 1, rounds);
    }
}

/// The words of the first inclusion proofs do not depend on the later
/// ones.
proof fn lemma_proofs_words_same(a: Seq<Proof>, b: Seq<Proof>, t: nat)
    requires
        t <= a.len(),
        t <= b.len(),
        forall|s: int| 0 <= s < t ==> a[s] == b[s],
    ensures
        proofs_words(a, t) == proofs_words(b, t),
    decreases t,
{
    if t > 0 {
        lemma_proofs_words_same(a, b, (t - 1) as nat);
    }
}

proof fn lemma_pairs_words_same(a: Seq<(Proof, Proof)>, b: Seq<(Proof, Proof)>, t: nat)
    requires
        t <= a.len(),
        t <= b.len(),
        forall|s: int| 0 <= s < t ==> a[s] == b[s],
    ensures
        pairs_words(a, t) == pairs_words(b, t),
    decreases t,
{
    if t > 0 {
        lemma_pairs_words_same(a, b, (t - 1) as nat);
    }
}

proof fn lemma_openings_words_same(a: Seq<QueryOpening>, b: Seq<QueryOpening>, t: nat)
    requires
        t <= a.len(),
        t <= b.len(),
        forall|s: int| 0 <= s < t ==> a[s] == b[s],
    ensures
        openings_words(a, t) == openings_words(b, t),
    decreases t,
{
    if t > 0 {
        lemma_openings_words_same(a, b, (t - 1) as nat);
    }
}

/// The number of words of a proof under the context.
pub fn expected_length(ctx: &AirContext, domain: &Domain) -> (r: usize)
    requires
        ctx@.valid(),
        domain.of(ctx@),
    ensures
        r == expected_len(ctx@),
{
    proof {
        lemma_domain_bounds(*domain, ctx@);
    }
    let per_query: usize = opening_length(ctx, domain);
    let mut total: usize = 3 + FRAME_ROWS * ctx.trace_columns + 2 + domain.lde.order as usize + 1;
    let ghost head = total;
    let mut i: usize = 0;
    while i < ctx.options.fri_number_of_queries
        invariant
            i <= ctx@.options.fri_number_of_queries,
            ctx@.options.fri_number_of_queries <= crate::air::MAX_QUERIES,
            per_query == opening_len(ctx@),
            per_query <= 5000,
            head <= 100,
            total == head + openings_len(ctx@, i as nat),
            total <= head + 5000 * i,
        decreases ctx@.options.fri_number_of_queries - i,
    {
        total = total + per_query;
        i = i + 1;
    }
    total
}

impl StarkQueryProof {
    /// The bytes of the proof.
    pub fn serialize(&self) -> (r: Vec<u8>)
        ensures
            r@ == proof_bytes(*self),
            r@.len() % 4 == 0,
    {
        let words = proof_to_words(self);
        proof {
            lemma_words_bytes_len(words@);
        }
        words_to_bytes(words.as_slice())
    }

    /// The proof that `bytes` encode under the context `ctx`. A context
    /// that is not valid is refused with its defect. Bytes that are not
    /// the encoding of a proof with the lengths that the context calls
    /// for and with canonical elements are refused with
    /// `SerializationError`.
    pub fn deserialize(bytes: &[u8], ctx: &AirContext) -> (r: Result<StarkQueryProof, StarkError>)
        ensures
            !ctx@.valid() ==> r == Err::<StarkQueryProof, StarkError>(ctx@.defect().unwrap()),
            ctx@.valid() ==> (r is Ok <==> decodable(bytes@, ctx@)),
            r matches Err(e) ==> ctx@.defect() == Some(e) || (ctx@.valid() && e
                == StarkError::SerializationError),
            r matches Ok(pf) ==> proof_bytes(pf) == bytes@ && shaped(pf, ctx@) && elements_canonical(
                pf,
            ),
    {
        match ctx.validate() {
            Ok(()) => {},
            Err(e) => {
                return Err(e);
            },
        }
        // the domains depend on the shape of the context alone
        let shape = AirContext {
            options: ProofOptions {
                blowup_factor: ctx.options.blowup_factor,
                fri_number_of_queries: ctx.options.fri_number_of_queries,
                coset_offset: 1,
                grinding_factor: ctx.options.grinding_factor,
            },
            trace_length: ctx.trace_length,
            trace_columns: ctx.trace_columns,
            transition_degrees: Vec::new(),
            transition_exemptions: Vec::new(),
            num_transition_constraints: 0,
        };
        proof {
            assert(shape@.transition_degrees.len() == 0);
            assert(shape@.defect() is None);
            lemma_one_invertible();
        }
        let domain = match Domain::new(&shape) {
            Ok(d) => d,
            Err(_) => {
                return Err(StarkError::SerializationError);
            },
        };
        proof {
            lemma_domain_bounds(domain, shape@);
            assert(expected_len(shape@) == expected_len(ctx@)) by {
                lemma_same_shape(shape@, ctx@, ctx@.options.fri_number_of_queries as nat);
            }
        }
        let words = match bytes_to_words(bytes) {
            Some(ws) => ws,
            None => {
                proof {
                    assert forall|pf: StarkQueryProof| #![trigger shaped(pf, ctx@)] !(shaped(
                        pf,
                        ctx@,
                    ) && elements_canonical(pf) && proof_bytes(pf) == bytes@) by {
                        lemma_words_bytes_len(proof_words(pf));
                    }
                }
                return Err(StarkError::SerializationError);
            },
        };
        let expected: usize = expected_length(&shape, &domain);
        if words.len() != expected || !all_canonical(words.as_slice()) {
            proof {
                assert forall|pf: StarkQueryProof| #![trigger shaped(pf, ctx@)] !(shaped(pf, ctx@)
                    && elements_canonical(pf) && proof_bytes(pf) == bytes@) by {
                    if shaped(pf, ctx@) && elements_canonical(pf) && proof_bytes(pf) == bytes@ {
                        lemma_words_bytes_injective(proof_words(pf), words@);
                        lemma_proof_words_len(pf, ctx@);
                        lemma_proof_words_canonical(pf);
                    }
                }
            }
            return Err(StarkError::SerializationError);
        }
        let cols: usize = ctx.trace_columns;
        let rounds: usize = domain.lde.order as usize;
        let nq: usize = ctx.options.fri_number_of_queries;
        let per_query: usize = opening_length(&shape, &domain);
        let ws = words.as_slice();
        let roots = take_elements(ws, 0, 3);
        let trace_ood = take_elements(ws, 3, FRAME_ROWS * cols);
        let halves_ood = take_elements(ws, 3 + FRAME_ROWS * cols, 2);
        let fri_roots = take_elements(ws, 5 + FRAME_ROWS * cols, rounds);
        let last = take_elements(ws, 5 + FRAME_ROWS * cols + rounds, 1);
        let head: usize = 6 + FRAME_ROWS * cols + rounds;
        let mut cursor: usize = head;
        let mut query_openings: Vec<QueryOpening> = Vec::new();
        let mut i: usize = 0;
        assert(words@.subrange(head as int, head as int) =~= openings_words(query_openings@, 0));
        while i < nq
            invariant
                i <= nq,
                nq <= crate::air::MAX_QUERIES,
                shape@.valid(),
                domain.of(shape@),
                ws@ == words@,
                canonical(words@),
                per_query == opening_len(shape@),
                per_query <= 5000,
                head <= 100,
                words@.len() == head + openings_len(shape@, nq as nat),
                cursor == head + openings_len(shape@, i as nat),
                openings_len(shape@, i as nat) + openings_len(shape@, (nq - i) as nat)
                    == openings_len(shape@, nq as nat),
                query_openings@.len() == i,
                openings_words(query_openings@, i as nat) == words@.subrange(
                    head as int,
                    cursor as int,
                ),
                forall|j: int|
                    0 <= j < i ==> opening_shaped(#[trigger] query_openings@[j], shape@),
                forall|j: int| 0 <= j < i ==> opening_canonical(#[trigger] query_openings@[j]),
            decreases nq - i,
        {
            proof {
                lemma_openings_len_split(shape@, i as nat, (nq - i) as nat);
                lemma_openings_len_split(shape@, (i + 1) as nat, (nq - i - 1) as nat);
            }
            assert(cursor + per_query <= words@.len());
            assert(words@.len() == words.len());
            let o = take_opening(ws, cursor, &shape, &domain);
            let ghost before = query_openings@;
            query_openings.push(o);
            proof {
                lemma_openings_words_same(before, query_openings@, i as nat);
                assert(words@.subrange(head as int, cursor + per_query) =~= words@.subrange(
                    head as int,
                    cursor as int,
                ) + words@.subrange(cursor as int, cursor + per_query));
            }
            cursor = cursor + per_query;
            i = i + 1;
        }
        let pf = StarkQueryProof {
            trace_lde_poly_root: roots[0],
            composition_even_root: roots[1],
            composition_odd_root: roots[2],
            trace_ood_evaluations: trace_ood,
            composition_even_ood: halves_ood[0],
            composition_odd_ood: halves_ood[1],
            fri_layers_merkle_roots: fri_roots,
            fri_last_value: last[0],
            query_openings,
        };
        proof {
            assert forall|j: int| 0 <= j < pf.query_openings@.len() implies opening_shaped(
                #[trigger] pf.query_openings@[j],
                ctx@,
            ) by {
                assert(opening_shaped(pf.query_openings@[j], shape@));
            }
            assert(head_words(pf) =~= words@.subrange(0, head as int));
            assert(proof_words(pf) =~= words@);
            assert(shaped(pf, ctx@));
            assert(elements_canonical(pf));
        }
        Ok(pf)
    }
}

/// The words of `i + rest` queries are those of `i` and those of `rest`.
proof fn lemma_openings_len_split(ctx: AirContextView, i: nat, rest: nat)
    ensures
        openings_len(ctx, i + rest) == openings_len(ctx, i) + openings_len(ctx, rest),
    decreases rest,
{
    if rest > 0 {
        lemma_openings_len_split(ctx, i, (rest - 1) as nat);
    }
}

/// Contexts of the same shape call for the same number of words.
proof fn lemma_same_shape(a: AirContextView, b: AirContextView, i: nat)
    requires
        a.trace_length == b.trace_length,
        a.trace_columns == b.trace_columns,
        a.options.blowup_factor == b.options.blowup_factor,
        a.options.fri_number_of_queries == b.options.fri_number_of_queries,
    ensures
        opening_len(a) == opening_len(b),
        openings_len(a, i) == openings_len(b, i),
        expected_len(a) == expected_len(b) || i != a.options.fri_number_of_queries,
    decreases i,
{
    if i > 0 {
        lemma_same_shape(a, b, (i - 1) as nat);
    }
}

/// One is its own inverse.
pub proof fn lemma_one_invertible()
    ensures
        crate::coset::invertible(1),
{
    lemma1_pow((p() - 2) as nat);
    vstd::arithmetic::div_mod::lemma_small_mod(1, p() as nat);
    assert(crate::field::finv(1, p()) == 1);
}

} // verus!
