//! Proofs about one computation: the Fibonacci sequence of 32 terms.

use crate::air::AIR;
use crate::air::ProofOptions;
use crate::air::TraceTable;
use crate::computations::FibonacciAIR;
use crate::errors::StarkError;
use crate::fft::lemma_log2_pow2;
use crate::field::TEST_FIELD_MODULUS;
use crate::field::U32TestField;
use crate::field::fadd;
use crate::field::fmul;
use crate::field::fpow;
use crate::field::fsub;
use crate::field::p;
use crate::poly_eval::canonical;
use crate::poly_eval::lemma_eval_combine;
use crate::poly_eval::lemma_eval_scale;
use crate::poly_eval::poly_eval;
use crate::poly_eval::scale;
use crate::polynomial::Polynomial;
use crate::polynomial::lemma_reduce_canonical;
use crate::polynomial::trim;
use crate::roots_of_unity::TWO_ADICITY;
use crate::roots_of_unity::TWO_ADIC_PRIMITVE_ROOT_OF_UNITY;
use crate::roots_of_unity::lemma_fpow_adds;
use crate::roots_of_unity::lemma_fpow_fpow;
use crate::roots_of_unity::powers_of;
use crate::roots_of_unity::root_of_unity;
use crate::stark_proof::StarkQueryProof;
use crate::stark_proof::proof_accepts;
use crate::stark_prover::prove_trace;
use crate::stark_run::honest_proof;
use crate::stark_verifier::verify_proof;
use vstd::arithmetic::div_mod::*;
use vstd::arithmetic::mul::*;
use vstd::arithmetic::power2::*;
use vstd::arithmetic::power::*;
use vstd::prelude::*;

verus! {

/// A generator of the multiplicative group of the field.
pub const FIELD_GENERATOR: u32 = 31;

/// Number of terms of the Fibonacci sequence that is proved.
pub const FIBONACCI_LENGTH: usize = 32;

/// The generator of the subgroup of order `size`, for a `size` that
/// divides `p - 1`: the field generator raised to `(p - 1) / size`.
pub open spec fn subgroup_generator(size: nat) -> int {
    fpow(FIELD_GENERATOR as int, ((p() - 1) / (size as int)) as nat, p())
}

/// The points `g^i * c` of the coset of factor `coset_factor` of the
/// subgroup of order `subgroup_size`, for `i` below the order, and the
/// generator `g` of the subgroup.
pub fn generate_vec_roots(subgroup_size: u64, coset_factor: u64) -> (r: (Vec<u32>, u32))
    requires
        0 < subgroup_size <= usize::MAX,
    ensures
        r.1 == subgroup_generator(subgroup_size as nat),
        r.0@.len() == subgroup_size,
        forall|i: int|
            0 <= i < subgroup_size ==> r.0@[i] as int == fmul(
                fpow(r.1 as int, i as nat, p()),
                coset_factor as int % p(),
                p(),
            ),
{
    let exponent: u64 = ((TEST_FIELD_MODULUS - 1) as u64) / subgroup_size;
    let generator: u32 = U32TestField::pow(&FIELD_GENERATOR, exponent);
    let factor: u32 = U32TestField::from_u64(coset_factor);
    let powers = powers_of(generator, subgroup_size as usize);
    let mut numbers: Vec<u32> = Vec::new();
    let mut i: usize = 0;
    while i < powers.len()
        invariant
            i <= powers@.len(),
            powers@.len() == subgroup_size,
            factor == coset_factor as int % p(),
            forall|j: int| 0 <= j < powers@.len() ==> powers@[j] == fpow(generator as int, j as nat, p()),
            numbers@.len() == i,
            forall|j: int|
                0 <= j < i ==> numbers@[j] as int == fmul(
                    fpow(generator as int, j as nat, p()),
                    factor as int,
                    p(),
                ),
        decreases powers@.len() - i,
    {
        numbers.push(U32TestField::mul(&powers[i], &factor));
        i = i + 1;
    }
    (numbers, generator)
}

/// The fifteenth power of the field generator is the root of unity of
/// order `2^27` that the field designates.
pub proof fn lemma_generator_power()
    ensures
        fpow(FIELD_GENERATOR as int, 15, p()) == TWO_ADIC_PRIMITVE_ROOT_OF_UNITY,
{
    let g = FIELD_GENERATOR as int;
    lemma_pow1(g);
    assert(fpow(g, 1, p()) == 31);
    lemma_fpow_adds(g, 1, 1);
    assert(fpow(g, 2, p()) == 961);
    lemma_fpow_adds(g, 2, 2);
    assert(fpow(g, 4, p()) == 923521);
    lemma_fpow_adds(g, 4, 4);
    assert((923521int * 923521int) % 2013265921int == 1279552858);
    assert(fpow(g, 8, p()) == 1279552858);
    lemma_fpow_adds(g, 8, 4);
    assert((1279552858int * 923521int) % 2013265921int == 1462844305);
    assert(fpow(g, 12, p()) == 1462844305);
    lemma_fpow_adds(g, 12, 2);
    assert((1462844305int * 961int) % 2013265921int == 533764247);
    assert(fpow(g, 14, p()) == 533764247);
    lemma_fpow_adds(g, 14, 1);
    assert((533764247int * 31int) % 2013265921int == 440564289);
}

/// The field generator has an inverse: its power of exponent `p - 2`.
pub proof fn lemma_generator_invertible()
    ensures
        crate::coset::invertible(FIELD_GENERATOR as int),
{
    let g = FIELD_GENERATOR as int;
    let m = p();
    lemma_generator_power();
    lemma2_to64();
    // g^(p - 1) = (g^15)^(2^27) = 1
    lemma_fpow_fpow(g, 15, pow2(27));
    crate::roots_of_unity::lemma_root_of_unity_order(27);
    assert(crate::roots_of_unity::root_of_unity(27) == fpow(
        TWO_ADIC_PRIMITVE_ROOT_OF_UNITY as int,
        pow2(0),
        m,
    ));
    lemma_pow1(TWO_ADIC_PRIMITVE_ROOT_OF_UNITY as int);
    lemma_small_mod(TWO_ADIC_PRIMITVE_ROOT_OF_UNITY as nat, m as nat);
    assert(fpow(g, (m - 1) as nat, m) == 1);
    // g * g^(p - 2) = g^(p - 1)
    lemma_small_mod(g as nat, m as nat);
    lemma_fpow_adds(g, 1, (m - 2) as nat);
    lemma_pow1(g);
}

/// For a subgroup of order `2^k`, within the two-adicity of the field, the
/// generator that `generate_vec_roots` computes is the root of unity that
/// the field designates.
pub proof fn lemma_subgroup_generator(k: nat)
    requires
        k <= TWO_ADICITY,
    ensures
        subgroup_generator(pow2(k)) == root_of_unity(k),
{
    let rest = pow2((TWO_ADICITY - k) as nat);
    lemma_generator_power();
    lemma2_to64();
    lemma_pow2_adds(k, (TWO_ADICITY - k) as nat);
    lemma_pow2_pos(k);
    // (p - 1) / 2^k = 15 * 2^(27 - k)
    assert(p() - 1 == (15 * rest) * pow2(k)) by (nonlinear_arith)
        requires
            p() - 1 == 15 * 0x800_0000,
            pow2(k) * rest == 0x800_0000,
    ;
    lemma_div_by_multiple(15 * rest as int, pow2(k) as int);
    lemma_fpow_fpow(FIELD_GENERATOR as int, 15, rest);
}

/// Term `i` of the Fibonacci sequence that begins with `first` and
/// `second`: the first two terms are the given values, the later ones
/// canonical residues.
pub open spec fn fibonacci_term(first: u32, second: u32, i: nat) -> u32
    decreases i,
{
    if i == 0 {
        first
    } else if i == 1 {
        second
    } else {
        fadd(
            fibonacci_term(first, second, (i - 1) as nat) as int,
            fibonacci_term(first, second, (i - 2) as nat) as int,
            p(),
        ) as u32
    }
}

/// The first 32 terms of the Fibonacci sequence that begins with the two
/// given values.
pub open spec fn fibonacci_column(initial_values: [u32; 2]) -> Seq<u32> {
    Seq::new(
        FIBONACCI_LENGTH as nat,
        |i: int| fibonacci_term(initial_values[0], initial_values[1], i as nat),
    )
}

/// The first 32 terms of the Fibonacci sequence that begins with the two
/// given values.
pub fn fibonacci_trace(initial_values: [u32; 2]) -> (r: Vec<u32>)
    ensures
        r@ == fibonacci_column(initial_values),
        r@.len() == FIBONACCI_LENGTH,
        r@[0] == initial_values[0],
        r@[1] == initial_values[1],
        forall|i: int|
            2 <= i < FIBONACCI_LENGTH ==> (#[trigger] r@[i]) as int == fadd(
                r@[i - 1] as int,
                r@[i - 2] as int,
                p(),
            ),
{
    let mut ret: Vec<u32> = Vec::new();
    ret.push(initial_values[0]);
    ret.push(initial_values[1]);
    let mut i: usize = 2;
    while i < FIBONACCI_LENGTH
        invariant
            2 <= i <= FIBONACCI_LENGTH,
            ret@.len() == i,
            ret@[0] == initial_values[0],
            ret@[1] == initial_values[1],
            forall|j: int|
                0 <= j < i ==> ret@[j] == fibonacci_term(
                    initial_values[0],
                    initial_values[1],
                    j as nat,
                ),
            forall|j: int|
                2 <= j < i ==> (#[trigger] ret@[j]) as int == fadd(
                    ret@[j - 1] as int,
                    ret@[j - 2] as int,
                    p(),
                ),
        decreases FIBONACCI_LENGTH - i,
    {
        let next: u32 = U32TestField::add(&ret[i - 1], &ret[i - 2]);
        ret.push(next);
        i = i + 1;
    }
    assert(ret@ =~= fibonacci_column(initial_values));
    ret
}

/// The parameters with which the Fibonacci sequence is proved: an
/// evaluation domain 32 times the trace, on the coset of the field
/// generator, and three queries.
pub fn fibonacci_options() -> (r: ProofOptions)
    ensures
        r == fibonacci_options_spec(),
{
    ProofOptions {
        blowup_factor: 32,
        fri_number_of_queries: 3,
        coset_offset: 31,
        grinding_factor: 0,
    }
}

pub open spec fn fibonacci_options_spec() -> ProofOptions {
    ProofOptions {
        blowup_factor: 32,
        fri_number_of_queries: 3,
        coset_offset: 31,
        grinding_factor: 0,
    }
}

/// The computation "the Fibonacci sequence of 32 terms that begins with
/// `pub_inputs`".
pub open spec fn fibonacci_air(pub_inputs: [u32; 2]) -> FibonacciAIR {
    FibonacciAIR {
        trace_length: FIBONACCI_LENGTH,
        options: fibonacci_options_spec(),
        first: pub_inputs[0],
        second: pub_inputs[1],
    }
}

/// The error with which the proof of the Fibonacci sequence that begins
/// with `pub_inputs` ends, if it does not end with a proof.
pub open spec fn fibonacci_failure(pub_inputs: [u32; 2]) -> Option<StarkError> {
    crate::stark_run::run_failure(
        crate::stark_run::honest_run(
            &fibonacci_air(pub_inputs),
            seq![fibonacci_column(pub_inputs)],
        ),
        fibonacci_air(pub_inputs).context_view(),
    )
}

/// Proves that the prover knows the Fibonacci sequence of 32 terms that
/// begins with `pub_inputs`. A proof that is returned is accepted by
/// `verify` for the same `pub_inputs`.
pub fn prove(pub_inputs: [u32; 2]) -> (r: Result<StarkQueryProof, StarkError>)
    ensures
        r is Ok <==> fibonacci_failure(pub_inputs) is None,
        r matches Err(e) ==> fibonacci_failure(pub_inputs) == Some(e),
        r matches Ok(pf) ==> honest_proof(
            &fibonacci_air(pub_inputs),
            seq![fibonacci_column(pub_inputs)],
            pf,
        ) && proof_accepts(&fibonacci_air(pub_inputs), &pf),
{
    let air = FibonacciAIR {
        trace_length: FIBONACCI_LENGTH,
        options: fibonacci_options(),
        first: pub_inputs[0],
        second: pub_inputs[1],
    };
    let column = fibonacci_trace(pub_inputs);
    let mut columns: Vec<Vec<u32>> = Vec::new();
    columns.push(column);
    let trace = TraceTable { columns };
    proof {
        lemma_fibonacci_context(air);
        lemma_generator_invertible();
        assert(trace.columns@[0]@.len() == FIBONACCI_LENGTH);
        assert(crate::stark_prover::trace_fits(&trace, air.context_view()));
        assert(crate::stark_prover::refusal(&air, &trace) is None);
        assert(trace@ =~= seq![fibonacci_column(pub_inputs)]);
    }
    prove_trace(&air, &trace)
}

/// The context of the Fibonacci computation of 32 terms is valid, and its
/// boundary constraints lie inside the trace.
pub proof fn lemma_fibonacci_context(air: FibonacciAIR)
    requires
        air.trace_length == FIBONACCI_LENGTH,
        air.options == fibonacci_options_spec(),
    ensures
        air.context_view().valid(),
        crate::air::boundary_in_range(air.boundary_view(), air.context_view()),
{
    let ctx = air.context_view();
    lemma2_to64();
    lemma_log2_pow2(5);
    assert(is_pow2(32)) by {
        is_pow2_equiv(32);
        lemma_pow2(5);
        assert(pow(2, 5) == 32);
    }
    assert(ctx.transition_degrees[0] == 1);
    assert(ctx.transition_exemptions =~= seq![30usize, 31usize]);
    assert(ctx.defect() is None);
}

/// Whether `proof` shows that its prover knew the Fibonacci sequence of 32
/// terms that begins with `pub_inputs`.
pub fn verify(proof: StarkQueryProof, pub_inputs: [u32; 2]) -> (r: bool)
    ensures
        r == proof_accepts(&fibonacci_air(pub_inputs), &proof),
{
    let air = FibonacciAIR {
        trace_length: FIBONACCI_LENGTH,
        options: fibonacci_options(),
        first: pub_inputs[0],
        second: pub_inputs[1],
    };
    verify_proof(&air, &proof)
}

/// Coefficient `i` of `t(w^2 * X) - t(w * X) - t(X)`, before trailing zeros
/// are dropped: `(w^(2i) - w^i - 1) * t[i]`.
pub open spec fn composition_coeff(t: Seq<u32>, w: int, i: int) -> int {
    fsub(
        fsub(scale(t, fmul(w, w, p()))[i] as int, scale(t, w)[i] as int, p()),
        t[i] as int,
        p(),
    )
}

/// The coefficients of `t(w^2 * X) - t(w * X) - t(X)`, as many as `t` has.
pub open spec fn composition_coeffs(t: Seq<u32>, w: int) -> Seq<u32> {
    Seq::new(t.len(), |i: int| composition_coeff(t, w, i) as u32)
}

/// The polynomial `t(w^2 * X) - t(w * X) - t(X)`, for the polynomial `t`
/// and `w = root_of_unity`: the polynomial that vanishes wherever three
/// values of `t`, on consecutive powers of `w`, are consecutive terms of a
/// Fibonacci sequence. The result has no trailing zero coefficient.
pub fn get_composition_poly(trace_poly: &Polynomial, root_of_unity: &u32) -> (r: Polynomial)
    ensures
        r.wf(),
        r@ == trim(composition_coeffs(trace_poly@, *root_of_unity as int)),
        forall|x: int|
            #![trigger r.eval(x)]
            r.eval(x) == fsub(
                fsub(
                    trace_poly.eval(fmul(*root_of_unity as int, *root_of_unity as int, p()) * x),
                    trace_poly.eval(*root_of_unity as int * x),
                    p(),
                ),
                trace_poly.eval(x),
                p(),
            ),
{
    let t = trace_poly.coefficients.as_slice();
    let w: u32 = *root_of_unity;
    let w2: u32 = U32TestField::mul(&w, &w);
    let first = crate::evaluation::scale_coefficients(t, w2);
    let second = crate::evaluation::scale_coefficients(t, w);
    let mut difference: Vec<u32> = Vec::new();
    let mut out: Vec<u32> = Vec::new();
    let mut i: usize = 0;
    while i < t.len()
        invariant
            i <= t@.len(),
            first@.len() == t@.len(),
            second@.len() == t@.len(),
            difference@.len() == i,
            out@.len() == i,
            forall|j: int|
                0 <= j < i ==> (#[trigger] out@[j]) as int == fsub(
                    fsub(first@[j] as int, second@[j] as int, p()),
                    t@[j] as int,
                    p(),
                ),
            forall|j: int|
                0 <= j < i ==> (#[trigger] difference@[j]) as int == (first@[j] as int + (-1) * (
                second@[j] as int)) % p(),
            forall|j: int|
                0 <= j < i ==> (#[trigger] out@[j]) as int == (difference@[j] as int + (-1) * (
                t@[j] as int)) % p(),
        decreases t@.len() - i,
    {
        let d: u32 = U32TestField::sub(&first[i], &second[i]);
        let c: u32 = U32TestField::sub(&d, &t[i]);
        difference.push(d);
        out.push(c);
        i = i + 1;
    }
    let r = Polynomial::new(out.as_slice());
    proof {
        assert(out@ =~= composition_coeffs(t@, w as int));
        assert(canonical(out@)) by {
            assert forall|j: int| 0 <= j < out@.len() implies (#[trigger] out@[j] as int) < p() by {
                lemma_mod_bound(difference@[j] as int + (-1) * (t@[j] as int), p());
            }
        }
        lemma_reduce_canonical(out@);
        assert forall|x: int| #![trigger r.eval(x)] r.eval(x) == fsub(
            fsub(
                trace_poly.eval(fmul(w as int, w as int, p()) * x),
                trace_poly.eval(w as int * x),
                p(),
            ),
            trace_poly.eval(x),
            p(),
        ) by {
            lemma_eval_scale(t@, w2 as int, x);
            lemma_eval_scale(t@, w as int, x);
            lemma_eval_combine(first@, second@, -1, difference@, x);
            lemma_eval_combine(difference@, t@, -1, out@, x);
        }
    }
    r
}

} // verus!
