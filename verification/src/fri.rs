//! FRI, the low-degree test by repeated folding.
//!
//! The prover holds a polynomial of degree below `2^k` and commits to its
//! values on a coset of `2^k` points. Each round commits to the values of
//! the current polynomial under a Merkle tree, draws a coefficient `beta`
//! from the transcript, and folds the polynomial `E(X^2) + X * O(X^2)` into
//! `E(Y) + beta * O(Y)`, to be evaluated on the coset of the squares, which
//! has half as many points. After `k` rounds, of `2^k`, ..., `4`, `2`
//! values, one value is left: a constant. A query opens, in each round,
//! the values at a point and at its opposite; the verifier checks that
//! they fold to the value opened in the next round, and at last to the
//! constant.

use crate::coset::Coset;
use crate::coset::coset_point_inv;
use crate::evaluation::coset_point;
use crate::evaluation::evaluate_fft;
use crate::evaluation::interpolate_fft;
use crate::evaluation::scale_coefficients;
use crate::fft::INVERSE_OF_TWO;
use crate::fft::inverse_fft_spec;
use crate::fft::lemma_log2_pow2;
use crate::fft::log2;
use crate::field::TEST_FIELD_MODULUS;
use crate::field::U32TestField;
use crate::field::fadd;
use crate::field::fmul;
use crate::field::fpow;
use crate::field::fsub;
use crate::field::p;
use crate::merkle::MerkleTree;
use crate::merkle::Proof;
use crate::merkle::merkle_root;
use crate::merkle::proof_leads_to;
use crate::modular::cong;
use crate::modular::lemma_cong_mod;
use crate::modular::lemma_cong_mul;
use crate::poly_eval::canonical;
use crate::poly_eval::fold_coeffs;
use crate::poly_eval::lemma_eval_cong_point;
use crate::poly_eval::lemma_eval_pad;
use crate::poly_eval::lemma_eval_range;
use crate::poly_eval::lemma_eval_scale;
use crate::poly_eval::pad_zeros;
use crate::poly_eval::poly_eval;
use crate::poly_eval::scale;
use crate::roots_of_unity::RootsConfig;
use crate::roots_of_unity::TWO_ADICITY;
use crate::roots_of_unity::root_of_unity;
use crate::roots_of_unity::twiddles_spec;
use crate::transcript::Transcript;
use crate::transcript::absorb_element;
use crate::transcript::field_challenge;
use crate::transcript::squeezed;
use vstd::arithmetic::div_mod::*;
use vstd::arithmetic::mul::*;
use vstd::arithmetic::power2::*;
use vstd::prelude::*;

verus! {

/// The values of the polynomial with coefficients `c` on the coset of `n`
/// points and offset `h`, in the order of the points.
pub open spec fn coset_evals(c: Seq<u32>, n: nat, h: int) -> Seq<u32> {
    Seq::new(n, |i: int| poly_eval(c, coset_point(n, h, i as nat)) as u32)
}

/// The offset after `j` squarings.
pub open spec fn fri_offset(h: int, j: nat) -> int
    decreases j,
{
    if j == 0 {
        h
    } else {
        fmul(fri_offset(h, (j - 1) as nat), fri_offset(h, (j - 1) as nat), p())
    }
}

/// What the prover starts from: the coefficients, the exponent `k` of the
/// size of the coset, its offset, and the state of the transcript.
pub struct FriInput {
    pub coeffs: Seq<u32>,
    pub order: nat,
    pub offset: int,
    pub offset_inv: int,
    pub state: Seq<u8>,
}

impl FriInput {
    /// The polynomial and the transcript with which round `j` begins.
    pub open spec fn round(self, j: nat) -> (Seq<u32>, Seq<u8>)
        decreases j,
    {
        if j == 0 {
            (self.coeffs, self.state)
        } else {
            let (c, t) = self.round((j - 1) as nat);
            let root = merkle_root(
                coset_evals(
                    c,
                    pow2((self.order - (j - 1)) as nat),
                    fri_offset(self.offset, (j - 1) as nat),
                ),
            );
            let t1 = squeezed(absorb_element(t, root));
            (fold_coeffs(c, field_challenge(absorb_element(t, root)) as int), t1)
        }
    }

    /// The polynomial of round `j`.
    pub open spec fn poly(self, j: nat) -> Seq<u32> {
        self.round(j).0
    }

    /// The values committed in round `j`.
    pub open spec fn evals(self, j: nat) -> Seq<u32> {
        coset_evals(self.poly(j), pow2((self.order - j) as nat), fri_offset(self.offset, j))
    }

    /// The Merkle root of round `j`.
    pub open spec fn root(self, j: nat) -> u32 {
        merkle_root(self.evals(j))
    }

    /// The folding coefficient drawn in round `j`.
    pub open spec fn beta(self, j: nat) -> u32 {
        field_challenge(absorb_element(self.round(j).1, self.root(j)))
    }

    /// The number of rounds: one for each halving of the coset, so that the
    /// last committed layer has two values.
    pub open spec fn rounds(self) -> nat {
        self.order
    }

    /// The constant that is left after the last round.
    pub open spec fn last_value(self) -> u32 {
        self.poly(self.rounds())[0]
    }

    /// The transcript after the constant has been absorbed.
    pub open spec fn final_state(self) -> Seq<u8> {
        absorb_element(self.round(self.rounds()).1, self.last_value())
    }

    /// The roots of all rounds.
    pub open spec fn roots(self) -> Seq<u32> {
        Seq::new(self.rounds(), |j: int| self.root(j as nat))
    }

    /// The folding coefficients of all rounds.
    pub open spec fn betas(self) -> Seq<u32> {
        Seq::new(self.rounds(), |j: int| self.beta(j as nat))
    }

    /// The input is one that FRI can run on: as many canonical coefficients
    /// as the coset has points, `2^k`, with `k` within the two-adicity of
    /// the field.
    pub open spec fn valid(self) -> bool {
        &&& self.coeffs.len() == pow2(self.order)
        &&& self.order <= TWO_ADICITY
        &&& canonical(self.coeffs)
    }
}

/// The value that two opposite values `a = P(z)` and `b = P(-z)` fold to:
/// `(a + b) / 2 + beta * (a - b) / (2 * z)`, given the inverse of `z`.
pub open spec fn fold_value(a: int, b: int, z_inv: int, beta: int) -> int {
    let even = fmul(fadd(a, b, p()), INVERSE_OF_TWO as int, p());
    let odd = fmul(fmul(fsub(a, b, p()), INVERSE_OF_TWO as int, p()), z_inv, p());
    fadd(even, fmul(beta, odd, p()), p())
}

/// One round of a commitment: the values, the Merkle tree over them, the
/// folding coefficient drawn after the root was absorbed, and the coset.
pub struct FriLayer {
    pub evaluations: Vec<u32>,
    pub merkle_tree: MerkleTree,
    pub beta: u32,
    pub coset: Coset,
}

/// The commitment: one layer per round, and the constant left at the end.
pub struct FriCommitment {
    pub layers: Vec<FriLayer>,
    pub last_value: u32,
    pub input: Ghost<FriInput>,
}

/// The openings of one query: for each round, the inclusion proofs of the
/// values at the queried point and at its opposite.
#[derive(Debug, Clone, PartialEq, Eq)]
pub struct FriDecommitment {
    pub layer_merkle_paths: Vec<(Proof, Proof)>,
}

/// The index that a query of index `index` reads in round `j`.
pub open spec fn query_index(index: nat, k: nat, j: nat) -> nat {
    index % pow2((k - j) as nat)
}

/// The index of the opposite point.
pub open spec fn opposite_index(idx: nat, n: nat) -> nat {
    (idx + n / 2) % n
}

impl FriCommitment {
    /// The layers are those that the prover's rounds produce from `input`.
    pub open spec fn wf(&self) -> bool {
        let input = self.input@;
        &&& input.valid()
        &&& self.layers@.len() == input.rounds()
        &&& self.last_value == input.last_value()
        &&& forall|j: int|
            0 <= j < self.layers@.len() ==> {
                let layer = #[trigger] self.layers@[j];
                &&& layer.evaluations@ == input.evals(j as nat)
                &&& layer.merkle_tree.wf()
                &&& layer.merkle_tree@ == layer.evaluations@
                &&& layer.beta == input.beta(j as nat)
                &&& layer.coset.wf()
                &&& layer.coset.order == input.order - j
                &&& layer.coset.offset == fri_offset(input.offset, j as nat)
                &&& layer.coset.offset_inv == fri_offset(input.offset_inv, j as nat)
            }
    }
}

/// Whether round `j` of a query holds: both proofs are for the right
/// positions, have the length of the tree's height and lead to the root of
/// the round, and the two values fold to the value of the next round, or to
/// the constant after the last round.
pub open spec fn fri_layer_accepts(
    roots: Seq<u32>,
    betas: Seq<u32>,
    last_value: u32,
    k: nat,
    h_inv: int,
    index: nat,
    paths: Seq<(Proof, Proof)>,
    j: int,
) -> bool {
    let n = pow2((k - j) as nat);
    let idx = query_index(index, k, j as nat);
    let (p0, p1) = paths[j];
    let z_inv = coset_point_inv(n, fri_offset(h_inv, j as nat), idx);
    let next = if j + 1 < roots.len() {
        paths[j + 1].0.value
    } else {
        last_value
    };
    &&& p0.index == idx
    &&& p1.index == opposite_index(idx, n)
    &&& p0.merkle_path@.len() == k - j
    &&& p1.merkle_path@.len() == k - j
    &&& proof_leads_to(roots[j], p0.value, p0.index as int, p0.merkle_path@)
    &&& proof_leads_to(roots[j], p1.value, p1.index as int, p1.merkle_path@)
    &&& fold_value(p0.value as int, p1.value as int, z_inv, betas[j] as int) == next as int % p()
}

/// Whether a query holds in every round.
pub open spec fn fri_query_accepts(
    roots: Seq<u32>,
    betas: Seq<u32>,
    last_value: u32,
    k: nat,
    h_inv: int,
    index: nat,
    paths: Seq<(Proof, Proof)>,
) -> bool {
    &&& roots.len() == betas.len()
    &&& roots.len() == paths.len()
    &&& roots.len() <= k
    &&& forall|j: int|
        0 <= j < roots.len() ==> fri_layer_accepts(
            roots,
            betas,
            last_value,
            k,
            h_inv,
            index,
            paths,
            j,
        )
}

/// The polynomial `E + beta * O` of the even part `E` and the odd part `O`
/// of the polynomial with coefficients `coeffs`.
pub fn fold_polynomial(coeffs: &[u32], beta: u32) -> (r: Vec<u32>)
    ensures
        r@ == fold_coeffs(coeffs@, beta as int),
        canonical(r@),
{
    let half: usize = coeffs.len() / 2;
    let mut out: Vec<u32> = Vec::new();
    let mut i: usize = 0;
    while i < half
        invariant
            i <= half,
            half == coeffs@.len() / 2,
            coeffs@.len() == coeffs.len(),
            out@.len() == i,
            forall|j: int| 0 <= j < i ==> out@[j] == fold_coeffs(coeffs@, beta as int)[j],
            forall|j: int| 0 <= j < i ==> (#[trigger] out@[j] as int) < p(),
        decreases half - i,
    {
        let odd: u32 = U32TestField::mul(&beta, &coeffs[2 * i + 1]);
        proof {
            lemma_add_mod_noop_right(
                coeffs@[2 * i] as int,
                beta as int * coeffs@[2 * i + 1] as int,
                p(),
            );
        }
        out.push(U32TestField::add(&coeffs[2 * i], &odd));
        i = i + 1;
    }
    assert(out@ =~= fold_coeffs(coeffs@, beta as int));
    out
}

/// The value that `a = P(z)` and `b = P(-z)` fold to under `beta`, given
/// the inverse of `z`.
pub fn fold_values(a: u32, b: u32, z_inv: u32, beta: u32) -> (r: u32)
    ensures
        r == fold_value(a as int, b as int, z_inv as int, beta as int),
        r < TEST_FIELD_MODULUS,
{
    let sum: u32 = U32TestField::add(&a, &b);
    let diff: u32 = U32TestField::sub(&a, &b);
    let even: u32 = U32TestField::mul(&sum, &INVERSE_OF_TWO);
    let halved: u32 = U32TestField::mul(&diff, &INVERSE_OF_TWO);
    let odd: u32 = U32TestField::mul(&halved, &z_inv);
    let weighted: u32 = U32TestField::mul(&beta, &odd);
    U32TestField::add(&even, &weighted)
}

/// The values of the polynomial with coefficients `coeffs` on `coset`.
pub fn evaluate_on_coset(coeffs: &[u32], coset: &Coset) -> (r: Vec<u32>)
    requires
        coset.wf(),
        coeffs.len() <= coset.size,
    ensures
        r@ == coset_evals(coeffs@, coset.size as nat, coset.offset as int),
        r@.len() == coset.size,
        canonical(r@),
{
    let n: usize = coset.size;
    let mut padded: Vec<u32> = Vec::new();
    let mut i: usize = 0;
    while i < n
        invariant
            i <= n,
            coeffs.len() <= n,
            padded@.len() == i,
            forall|j: int|
                0 <= j < i ==> padded@[j] == pad_zeros(coeffs@, (n - coeffs@.len()) as nat)[j],
        decreases n - i,
    {
        if i < coeffs.len() {
            padded.push(coeffs[i]);
        } else {
            padded.push(0);
        }
        i = i + 1;
    }
    assert(padded@ =~= pad_zeros(coeffs@, (n - coeffs@.len()) as nat));
    let scaled = scale_coefficients(padded.as_slice(), coset.offset);
    proof {
        lemma_log2_pow2(coset.order as nat);
        is_pow2_equiv(n as int);
        lemma_pow2(coset.order as nat);
        assert(vstd::arithmetic::power::pow(2, coset.order as nat) == n as int);
    }
    match evaluate_fft(scaled.as_slice()) {
        Ok(out) => {
            proof {
                let g = root_of_unity(coset.order as nat);
                let h = coset.offset as int;
                assert forall|j: int| 0 <= j < n implies out@[j] == coset_evals(
                    coeffs@,
                    n as nat,
                    h,
                )[j] by {
                    let x = fpow(g, j as nat, p());
                    lemma_eval_scale(padded@, h, x);
                    lemma_eval_pad(coeffs@, (n - coeffs@.len()) as nat, h * x);
                    lemma_cong_mod(h * x, p());
                    lemma_eval_cong_point(coeffs@, h * x, coset_point(n as nat, h, j as nat));
                }
                assert(out@ =~= coset_evals(coeffs@, n as nat, h));
            }
            out
        },
        Err(_) => Vec::new(),
    }
}

/// The coefficients of the polynomial of degree below the size of `coset`
/// that takes the values `evals` on it.
pub fn interpolate_on_coset(evals: &[u32], coset: &Coset) -> (r: Vec<u32>)
    requires
        coset.wf(),
        evals.len() == coset.size,
    ensures
        r@ == scale(
            inverse_fft_spec(
                evals@,
                twiddles_spec(coset.order as nat, RootsConfig::BitReverseInversed),
            ),
            coset.offset_inv as int,
        ),
        r@.len() == coset.size,
        canonical(r@),
        forall|j: int|
            0 <= j < coset.size ==> poly_eval(r@, coset.point_spec(j as nat)) == evals@[j] as int
                % p(),
{
    let n: usize = coset.size;
    proof {
        lemma_log2_pow2(coset.order as nat);
        is_pow2_equiv(n as int);
        lemma_pow2(coset.order as nat);
        assert(vstd::arithmetic::power::pow(2, coset.order as nat) == n as int);
    }
    match interpolate_fft(evals) {
        Ok(plain) => {
            let out = scale_coefficients(plain.as_slice(), coset.offset_inv);
            proof {
                let g = root_of_unity(coset.order as nat);
                let (h, hi) = (coset.offset as int, coset.offset_inv as int);
                assert forall|j: int| 0 <= j < n implies poly_eval(
                    out@,
                    coset.point_spec(j as nat),
                ) == evals@[j] as int % p() by {
                    let x = fpow(g, j as nat, p());
                    let z = coset.point_spec(j as nat);
                    lemma_eval_scale(plain@, hi, z);
                    // hi * z = hi * h * x = x
                    lemma_cong_mod(h * x, p());
                    lemma_cong_mul(hi, hi, z, h * x, p());
                    assert(hi * (h * x) == (h * hi) * x) by (nonlinear_arith);
                    lemma_cong_mul(h * hi, 1, x, x, p());
                    lemma_mul_basics(x);
                    lemma_eval_cong_point(plain@, hi * z, x);
                }
                assert forall|j: int| 0 <= j < out@.len() implies (#[trigger] out@[j] as int)
                    < p() by {
                    lemma_mod_bound(
                        plain@[j] as int * (vstd::arithmetic::power::pow(hi, j as nat) % p()),
                        p(),
                    );
                }
            }
            out
        },
        Err(_) => Vec::new(),
    }
}

/// The lengths of the polynomials of the rounds: round `j` begins with
/// `2^(k - j)` canonical coefficients.
pub proof fn lemma_round_poly(input: FriInput, j: nat)
    requires
        input.valid(),
        j <= input.rounds(),
    ensures
        input.poly(j).len() == pow2((input.rounds() - j) as nat),
        canonical(input.poly(j)),
    decreases j,
{
    if j > 0 {
        lemma_round_poly(input, (j - 1) as nat);
        lemma_pow2_unfold((input.rounds() - (j - 1)) as nat);
        let c = input.poly((j - 1) as nat);
        let folded = input.poly(j);
        assert forall|i: int| 0 <= i < folded.len() implies (#[trigger] folded[i] as int) < p() by {
            let beta = input.beta((j - 1) as nat) as int;
            lemma_mod_bound(c[2 * i] as int + beta * (c[2 * i + 1] as int), p());
        }
    }
}

/// The commit phase. The coefficients are filled up with zeros to the size
/// of the coset. Each round commits to the values of the current polynomial
/// on the current coset, absorbs the Merkle root, draws the folding
/// coefficient, folds, and squares the coset, until one value is left: a
/// coset of `2^k` points gives `k` layers, of `2^k`, ..., `4`, `2` values.
/// The constant that is left is absorbed last.
pub fn fri_commit_phase(coeffs: &[u32], coset: &Coset, transcript: &mut Transcript) -> (r:
    FriCommitment)
    requires
        coset.wf(),
        coeffs@.len() <= coset.size,
        canonical(coeffs@),
    ensures
        r.wf(),
        r.layers@.len() == coset.order,
        r.input@ == (FriInput {
            coeffs: pad_zeros(coeffs@, (coset.size - coeffs@.len()) as nat),
            order: coset.order as nat,
            offset: coset.offset as int,
            offset_inv: coset.offset_inv as int,
            state: old(transcript)@,
        }),
        final(transcript)@ == r.input@.final_state(),
{
    let n: usize = coset.size;
    let ghost input = FriInput {
        coeffs: pad_zeros(coeffs@, (n - coeffs@.len()) as nat),
        order: coset.order as nat,
        offset: coset.offset as int,
        offset_inv: coset.offset_inv as int,
        state: transcript@,
    };
    let ghost d = coset.order as nat;
    let mut cur: Vec<u32> = Vec::new();
    let mut i: usize = 0;
    while i < n
        invariant
            i <= n,
            coeffs.len() <= n,
            cur@.len() == i,
            input.coeffs == pad_zeros(coeffs@, (n - coeffs@.len()) as nat),
            forall|t: int| 0 <= t < i ==> cur@[t] == input.coeffs[t],
        decreases n - i,
    {
        if i < coeffs.len() {
            cur.push(coeffs[i]);
        } else {
            cur.push(0);
        }
        i = i + 1;
    }
    assert(cur@ =~= input.coeffs);
    let mut cur_coset: Coset = *coset;
    let mut layers: Vec<FriLayer> = Vec::new();
    let ghost mut j: nat = 0;
    while cur.len() > 1
        invariant
            input.valid(),
            d == input.rounds(),
            j <= d,
            j == layers@.len(),
            cur@ == input.poly(j),
            transcript@ == input.round(j).1,
            cur_coset.wf(),
            cur_coset.order == input.order - j,
            cur_coset.offset == fri_offset(input.offset, j),
            cur_coset.offset_inv == fri_offset(input.offset_inv, j),
            forall|t: int|
                0 <= t < layers@.len() ==> {
                    let layer = #[trigger] layers@[t];
                    &&& layer.evaluations@ == input.evals(t as nat)
                    &&& layer.merkle_tree.wf()
                    &&& layer.merkle_tree@ == layer.evaluations@
                    &&& layer.beta == input.beta(t as nat)
                    &&& layer.coset.wf()
                    &&& layer.coset.order == input.order - t
                    &&& layer.coset.offset == fri_offset(input.offset, t as nat)
                    &&& layer.coset.offset_inv == fri_offset(input.offset_inv, t as nat)
                },
        decreases cur@.len(),
    {
        proof {
            lemma_round_poly(input, j);
            lemma2_to64();
            assert(j < d);
            lemma_round_poly(input, j + 1);
            lemma_pow2_unfold((d - j) as nat);
            lemma_pow2_pos((d - j - 1) as nat);
        }
        let evaluations = evaluate_on_coset(cur.as_slice(), &cur_coset);
        let merkle_tree = match MerkleTree::build(evaluations.as_slice()) {
            Some(tree) => tree,
            None => {
                proof {
                    lemma_pow2_pos(cur_coset.order as nat);
                }
                return FriCommitment { layers, last_value: 0, input: Ghost(input) };
            },
        };
        transcript.absorb_field(merkle_tree.root);
        let beta = transcript.challenge_field();
        let folded = fold_polynomial(cur.as_slice(), beta);
        layers.push(FriLayer { evaluations, merkle_tree, beta, coset: cur_coset });
        cur = folded;
        cur_coset = cur_coset.squared();
        proof {
            j = j + 1;
        }
    }
    proof {
        lemma_round_poly(input, j);
        lemma2_to64();
        if j < d {
            lemma_pow2_unfold((d - j) as nat);
            lemma_pow2_pos((d - j - 1) as nat);
        }
    }
    let last_value: u32 = cur[0];
    transcript.absorb_field(last_value);
    FriCommitment { layers, last_value, input: Ghost(input) }
}

/// A power of two is two to the power of its logarithm.
pub proof fn lemma_is_pow2_log(n: nat)
    requires
        is_pow2(n as int),
    ensures
        n == pow2(log2(n)),
    decreases n,
{
    reveal(is_pow2);
    lemma2_to64();
    if n > 1 {
        lemma_is_pow2_log(n / 2);
        lemma_pow2_unfold(log2(n));
    }
}

/// The transcript after the verifier has absorbed the first `j` roots,
/// drawing a folding coefficient after each.
pub open spec fn state_after_roots(roots: Seq<u32>, state: Seq<u8>, j: nat) -> Seq<u8>
    decreases j,
{
    if j == 0 {
        state
    } else {
        squeezed(
            absorb_element(state_after_roots(roots, state, (j - 1) as nat), roots[j - 1]),
        )
    }
}

/// The folding coefficients that the verifier draws for the given roots.
pub open spec fn betas_from_roots(roots: Seq<u32>, state: Seq<u8>) -> Seq<u32> {
    Seq::new(
        roots.len(),
        |j: int| field_challenge(absorb_element(state_after_roots(roots, state, j as nat), roots[j])),
    )
}

/// The openings that the prover gives for a query of index `index`: in each
/// round, the value at the queried position and the value at the opposite
/// position, each with its path in the tree of the round.
pub open spec fn honest_paths(input: FriInput, index: nat, paths: Seq<(Proof, Proof)>) -> bool {
    &&& paths.len() == input.rounds()
    &&& forall|j: int|
        0 <= j < paths.len() ==> {
            let n = pow2((input.order - j) as nat);
            let idx = query_index(index, input.order, j as nat);
            let sym = opposite_index(idx, n);
            let evals = input.evals(j as nat);
            let (p0, p1) = #[trigger] paths[j];
            &&& p0.index == idx
            &&& p0.value == evals[idx as int]
            &&& p0.merkle_path@ == crate::merkle::path_of(crate::merkle::leaf_level(evals), idx as int)
            &&& p1.index == sym
            &&& p1.value == evals[sym as int]
            &&& p1.merkle_path@ == crate::merkle::path_of(crate::merkle::leaf_level(evals), sym as int)
        }
}

/// The openings of the query of index `index`.
pub fn fri_decommit_layers(commit: &FriCommitment, index: usize) -> (r: FriDecommitment)
    requires
        commit.wf(),
    ensures
        honest_paths(commit.input@, index as nat, r.layer_merkle_paths@),
{
    let ghost input = commit.input@;
    let mut paths: Vec<(Proof, Proof)> = Vec::new();
    let mut j: usize = 0;
    while j < commit.layers.len()
        invariant
            commit.wf(),
            input == commit.input@,
            j <= commit.layers@.len(),
            paths@.len() == j,
            forall|t: int|
                0 <= t < j ==> {
                    let n = pow2((input.order - t) as nat);
                    let idx = query_index(index as nat, input.order, t as nat);
                    let sym = opposite_index(idx, n);
                    let evals = input.evals(t as nat);
                    let (p0, p1) = #[trigger] paths@[t];
                    &&& p0.index == idx
                    &&& p0.value == evals[idx as int]
                    &&& p0.merkle_path@ == crate::merkle::path_of(
                        crate::merkle::leaf_level(evals),
                        idx as int,
                    )
                    &&& p1.index == sym
                    &&& p1.value == evals[sym as int]
                    &&& p1.merkle_path@ == crate::merkle::path_of(
                        crate::merkle::leaf_level(evals),
                        sym as int,
                    )
                },
        decreases commit.layers@.len() - j,
    {
        let layer = &commit.layers[j];
        proof {
            lemma_pow2_pos(layer.coset.order as nat);
            lemma2_to64();
            if layer.coset.order < 27 {
                lemma_pow2_strictly_increases(layer.coset.order as nat, 27);
            }
        }
        let n: usize = layer.coset.size;
        let idx: usize = index % n;
        let sym: usize = (idx + n / 2) % n;
        let p0 = match layer.merkle_tree.get_proof_by_pos(idx) {
            Some(proof) => proof,
            None => Proof { value: 0, index: 0, merkle_path: Vec::new() },
        };
        let p1 = match layer.merkle_tree.get_proof_by_pos(sym) {
            Some(proof) => proof,
            None => Proof { value: 0, index: 0, merkle_path: Vec::new() },
        };
        paths.push((p0, p1));
        j = j + 1;
    }
    FriDecommitment { layer_merkle_paths: paths }
}

/// The folding coefficients that follow from the roots of the rounds: each
/// root is absorbed and a coefficient is drawn.
pub fn fri_sample_betas(roots: &[u32], transcript: &mut Transcript) -> (r: Vec<u32>)
    ensures
        r@ == betas_from_roots(roots@, old(transcript)@),
        final(transcript)@ == state_after_roots(roots@, old(transcript)@, roots@.len()),
{
    let mut betas: Vec<u32> = Vec::new();
    let mut j: usize = 0;
    while j < roots.len()
        invariant
            j <= roots.len(),
            betas@.len() == j,
            transcript@ == state_after_roots(roots@, old(transcript)@, j as nat),
            forall|t: int|
                0 <= t < j ==> betas@[t] == betas_from_roots(roots@, old(transcript)@)[t],
        decreases roots.len() - j,
    {
        transcript.absorb_field(roots[j]);
        let beta = transcript.challenge_field();
        betas.push(beta);
        j = j + 1;
    }
    assert(betas@ =~= betas_from_roots(roots@, old(transcript)@));
    betas
}

/// Checks one query against the roots and folding coefficients of the
/// rounds and the constant of the last round.
pub fn fri_verify_query(
    roots: &[u32],
    betas: &[u32],
    last_value: u32,
    coset: &Coset,
    index: usize,
    decommitment: &FriDecommitment,
) -> (r: bool)
    requires
        coset.wf(),
    ensures
        r == fri_query_accepts(
            roots@,
            betas@,
            last_value,
            coset.order as nat,
            coset.offset_inv as int,
            index as nat,
            decommitment.layer_merkle_paths@,
        ),
{
    let rounds: usize = roots.len();
    let paths = &decommitment.layer_merkle_paths;
    if betas.len() != rounds || paths.len() != rounds || rounds as u64 > coset.order {
        return false;
    }
    let ghost k = coset.order as nat;
    let ghost h_inv = coset.offset_inv as int;
    let mut cur: Coset = *coset;
    let mut j: usize = 0;
    while j < rounds
        invariant
            j <= rounds,
            rounds == roots@.len(),
            rounds == betas@.len(),
            rounds == paths@.len(),
            rounds <= k,
            k == coset.order,
            k <= TWO_ADICITY,
            paths@ == decommitment.layer_merkle_paths@,
            h_inv == coset.offset_inv,
            cur.wf(),
            cur.order == k - j,
            cur.offset_inv == fri_offset(h_inv, j as nat),
            forall|t: int|
                0 <= t < j ==> fri_layer_accepts(
                    roots@,
                    betas@,
                    last_value,
                    k,
                    h_inv,
                    index as nat,
                    paths@,
                    t,
                ),
        decreases rounds - j,
    {
        proof {
            lemma_pow2_pos(cur.order as nat);
            lemma2_to64();
            if cur.order < 27 {
                lemma_pow2_strictly_increases(cur.order as nat, 27);
            }
        }
        let n: usize = cur.size;
        let idx: usize = index % n;
        let sym: usize = (idx + n / 2) % n;
        let p0 = &paths[j].0;
        let p1 = &paths[j].1;
        let next: u32 = if j + 1 < rounds {
            paths[j + 1].0.value
        } else {
            last_value
        };
        let height: usize = cur.order as usize;
        let ok = p0.index == idx && p1.index == sym && p0.merkle_path.len() == height
            && p1.merkle_path.len() == height && p0.verify(roots[j]) && p1.verify(roots[j]) && {
            let z_inv = cur.point_inv(idx);
            fold_values(p0.value, p1.value, z_inv, betas[j]) == U32TestField::representative(&next)
        };
        if !ok {
            assert(!fri_layer_accepts(
                roots@,
                betas@,
                last_value,
                k,
                h_inv,
                index as nat,
                paths@,
                j as int,
            ));
            return false;
        }
        cur = cur.squared();
        j = j + 1;
    }
    true
}

/// The offsets and the inverse offsets of the rounds stay inverse to each
/// other, and canonical.
pub proof fn lemma_fri_offsets(h: int, h_inv: int, j: nat)
    requires
        0 <= h < p(),
        (h * h_inv) % p() == 1,
    ensures
        (fri_offset(h, j) * fri_offset(h_inv, j)) % p() == 1,
        0 <= fri_offset(h, j) < p(),
    decreases j,
{
    if j > 0 {
        lemma_fri_offsets(h, h_inv, (j - 1) as nat);
        let a = fri_offset(h, (j - 1) as nat);
        let b = fri_offset(h_inv, (j - 1) as nat);
        lemma_cong_mod(a * a, p());
        lemma_cong_mod(b * b, p());
        lemma_cong_mul(fmul(a, a, p()), a * a, fmul(b, b, p()), b * b, p());
        assert((a * a) * (b * b) == (a * b) * (a * b)) by (nonlinear_arith);
        lemma_cong_mul(a * b, 1, a * b, 1, p());
    }
}

/// The verifier, absorbing the prover's roots, goes through the prover's
/// transcript states and draws the prover's folding coefficients.
pub proof fn lemma_verifier_states(input: FriInput, j: nat)
    requires
        j <= input.rounds(),
    ensures
        state_after_roots(input.roots(), input.state, j) == input.round(j).1,
    decreases j,
{
    if j > 0 {
        lemma_verifier_states(input, (j - 1) as nat);
    }
}

pub proof fn lemma_verifier_betas(input: FriInput)
    ensures
        betas_from_roots(input.roots(), input.state) == input.betas(),
        absorb_element(
            state_after_roots(input.roots(), input.state, input.roots().len()),
            input.last_value(),
        ) == input.final_state(),
{
    assert forall|j: int| 0 <= j < input.rounds() implies betas_from_roots(
        input.roots(),
        input.state,
    )[j] == input.betas()[j] by {
        lemma_verifier_states(input, j as nat);
    }
    assert(betas_from_roots(input.roots(), input.state) =~= input.betas());
    lemma_verifier_states(input, input.rounds());
}

/// Two opposite values of a polynomial fold to the value of the folded
/// polynomial at the square of the point.
pub proof fn lemma_fold_value(c: Seq<u32>, beta: int, z: int, z_inv: int)
    requires
        c.len() % 2 == 0,
        (z * z_inv) % p() == 1,
    ensures
        fold_value(poly_eval(c, z), poly_eval(c, -z), z_inv, beta) == poly_eval(
            fold_coeffs(c, beta),
            z * z,
        ),
{
    let m = p();
    let e = poly_eval(crate::poly_eval::evens(c), z * z);
    let o = poly_eval(crate::poly_eval::odds(c), z * z);
    crate::poly_eval::lemma_eval_even_odd(c, z);
    crate::poly_eval::lemma_eval_even_odd(c, -z);
    assert((-z) * (-z) == z * z) by (nonlinear_arith);
    assert((-z) * o == -(z * o)) by (nonlinear_arith);
    lemma_eval_range(crate::poly_eval::evens(c), z * z);
    lemma_eval_range(crate::poly_eval::odds(c), z * z);
    lemma_add_mod_noop_right(e, z * o, m);
    lemma_sub_mod_noop_right(e, z * o, m);
    crate::fft_inverse::lemma_butterfly_then_inverse(e, o, z, z_inv);
    crate::poly_eval::lemma_eval_fold(c, beta, z * z);
    lemma_add_mod_noop_right(e, beta * o, m);
}

/// A power of two is its own next power of two.
pub proof fn lemma_next_pow2_of_pow2(e: nat)
    ensures
        crate::merkle::next_pow2(pow2(e)) == pow2(e),
    decreases e,
{
    lemma2_to64();
    lemma_pow2_pos(e);
    if e > 0 {
        lemma_pow2_unfold(e);
        lemma_pow2_pos((e - 1) as nat);
        lemma_next_pow2_of_pow2((e - 1) as nat);
    }
}

/// One round of an honest query holds.
pub proof fn lemma_fri_layer_complete(
    input: FriInput,
    h_inv: int,
    index: nat,
    paths: Seq<(Proof, Proof)>,
    j: int,
)
    requires
        input.valid(),
        0 <= input.offset < p(),
        (input.offset * h_inv) % p() == 1,
        honest_paths(input, index, paths),
        0 <= j < input.rounds(),
    ensures
        fri_layer_accepts(
            input.roots(),
            input.betas(),
            input.last_value(),
            input.order,
            h_inv,
            index,
            paths,
            j,
        ),
{
    let m = p();
    let k = input.order;
    let d = input.rounds();
    let e = (k - j) as nat;
    let n = pow2(e);
    let half = pow2((e - 1) as nat);
    let idx = query_index(index, k, j as nat);
    let sym = opposite_index(idx, n);
    let evals = input.evals(j as nat);
    let c = input.poly(j as nat);
    let h = fri_offset(input.offset, j as nat);
    let hi = fri_offset(h_inv, j as nat);
    let (p0, p1) = paths[j];
    let beta = input.betas()[j] as int;
    lemma_pow2_pos(e);
    lemma_pow2_unfold(e);
    lemma_pow2_pos((e - 1) as nat);
    lemma_mod_bound(index as int, n as int);
    lemma_mod_bound(idx as int + n as int / 2, n as int);
    lemma_fri_offsets(input.offset, h_inv, j as nat);
    lemma_round_poly(input, j as nat);
    lemma_round_poly(input, (j + 1) as nat);
    lemma_pow2_unfold((d - j) as nat);
    // the Merkle proofs
    lemma_next_pow2_of_pow2(e);
    crate::merkle::lemma_open_verifies(evals, idx as int);
    crate::merkle::lemma_open_verifies(evals, sym as int);
    crate::merkle::lemma_path_of_len(crate::merkle::leaf_level(evals), idx as int, e);
    crate::merkle::lemma_path_of_len(crate::merkle::leaf_level(evals), sym as int, e);
    // the opposite point
    let z = coset_point(n, h, idx);
    let zs = coset_point(n, h, sym);
    if idx < half {
        lemma_small_mod((idx + half) as nat, n);
        crate::coset::lemma_coset_point_opposite(e, h, idx);
    } else {
        lemma_mod_add_multiples_vanish(idx as int - half as int, n as int);
        lemma_small_mod((idx - half) as nat, n);
        assert(sym == idx - half);
        crate::coset::lemma_coset_point_opposite(e, h, sym);
        crate::modular::lemma_cong_sub(0, 0, z, -zs, m);
    }
    assert(cong(zs, -z, m));
    lemma_eval_cong_point(c, zs, -z);
    // the inverse of the point
    let z_inv = coset_point_inv(n, hi, idx);
    crate::coset::lemma_coset_point_inverse(e, h, hi, idx);
    lemma_fold_value(c, beta, z, z_inv);
    let folded = input.poly((j + 1) as nat);
    assert(folded == fold_coeffs(c, beta));
    // the value of the next round
    if j + 1 < d {
        let next_evals = input.evals((j + 1) as nat);
        let idx2 = query_index(index, k, (j + 1) as nat);
        lemma_mod_mod(index as int, half as int, 2);
        lemma_mul_is_commutative(half as int, 2);
        assert(idx2 == idx % half);
        lemma_mod_bound(idx as int, half as int);
        crate::coset::lemma_coset_point_squared(e, h, idx);
        lemma_eval_cong_point(folded, z * z, coset_point(half, fmul(h, h, m), idx2));
        assert(paths[j + 1].0.value == next_evals[idx2 as int]);
        lemma_eval_range(folded, z * z);
        lemma_small_mod(poly_eval(folded, z * z) as nat, m as nat);
    } else {
        lemma2_to64();
        assert(folded.len() == 1);
        assert(folded.drop_first().len() == 0);
        assert(poly_eval(folded.drop_first(), z * z) == 0);
        lemma_mul_basics(z * z);
    }
}

/// FRI is complete: the openings that the prover gives for any query index
/// are accepted under the roots, the folding coefficients and the constant
/// of the prover's rounds.
pub proof fn lemma_fri_query_complete(
    input: FriInput,
    h_inv: int,
    index: nat,
    paths: Seq<(Proof, Proof)>,
)
    requires
        input.valid(),
        0 <= input.offset < p(),
        (input.offset * h_inv) % p() == 1,
        honest_paths(input, index, paths),
    ensures
        fri_query_accepts(
            input.roots(),
            input.betas(),
            input.last_value(),
            input.order,
            h_inv,
            index,
            paths,
        ),
{
    assert forall|j: int| 0 <= j < input.rounds() implies fri_layer_accepts(
        input.roots(),
        input.betas(),
        input.last_value(),
        input.order,
        h_inv,
        index,
        paths,
        j,
    ) by {
        lemma_fri_layer_complete(input, h_inv, index, paths, j);
    }
}

} // verus!
