//! The divisor of the transition constraints: the polynomial that
//! vanishes on the rows of the trace where the constraints must hold.

use crate::air::AirContext;
use crate::bit_reverse::log2_exact;
use crate::constraints::exemption_product;
use crate::errors::StarkError;
use crate::fft::lemma_log2_pow2;
use crate::field::U32TestField;
use crate::field::fmul;
use crate::field::fpow;
use crate::field::fsub;
use crate::field::p;
use crate::poly_eval::poly_eval;
use crate::poly_eval::reduce;
use crate::poly_eval::zeros;
use crate::polynomial::Polynomial;
use crate::polynomial::lemma_eval_mul;
use crate::polynomial::lemma_trim_wf;
use crate::polynomial::linear_factor;
use crate::polynomial::long_division;
use crate::polynomial::mul_coeffs;
use crate::polynomial::mul_vectors;
use crate::polynomial::sub_coeffs;
use crate::polynomial::trim;
use crate::roots_of_unity::get_primitive_root_of_unity;
use crate::roots_of_unity::root_of_unity;
use vstd::arithmetic::div_mod::*;
use vstd::arithmetic::mul::*;
use vstd::arithmetic::power::*;
use vstd::prelude::*;

verus! {

/// Whether `d` is the transition divisor of the context: at every point,
/// `d` times the product of `X - omega^e` over the exempted rows `e` is
/// `X^N - 1`.
pub open spec fn is_transition_divisor(d: Polynomial, ctx: crate::air::AirContextView) -> bool {
    forall|x: int|
        #![trigger d.eval(x)]
        fmul(
            d.eval(x),
            exemption_product(x, root_of_unity(ctx.trace_order()), ctx.transition_exemptions),
            p(),
        ) == fsub(fpow(x, ctx.trace_length, p()), 1, p())
}

/// The coefficients of the product of `X - omega^e` over the exempted
/// rows `e`, before trimming.
pub open spec fn exemption_coeffs(omega: int, exemptions: Seq<usize>) -> Seq<u32>
    decreases exemptions.len(),
{
    if exemptions.len() == 0 {
        seq![1u32]
    } else {
        mul_coeffs(
            exemption_coeffs(omega, exemptions.drop_last()),
            seq![
                crate::field::fneg(fpow(omega, exemptions.last() as nat, p()), p()) as u32,
                1u32,
            ],
        )
    }
}

/// The coefficients of `X^n - 1`.
pub open spec fn vanishing_coeffs(n: nat) -> Seq<u32> {
    trim(sub_coeffs(zeros(n) + seq![1u32], seq![1u32]))
}

/// Quotient and remainder of the division of `X^N - 1` by the product of
/// the exempted factors.
pub open spec fn divisor_division(ctx: crate::air::AirContextView) -> (Seq<u32>, Seq<u32>) {
    long_division(
        vanishing_coeffs(ctx.trace_length),
        trim(
            reduce(exemption_coeffs(root_of_unity(ctx.trace_order()), ctx.transition_exemptions)),
        ),
    )
}

/// Whether the context has a transition divisor: the product of the
/// exempted factors can be divided by, and the division of `X^N - 1` by it
/// leaves no remainder. A valid context that exempts one row, or none, has
/// one, as `lemma_one_exemption_has_divisor` shows.
pub open spec fn has_divisor(ctx: crate::air::AirContextView) -> bool {
    &&& Polynomial::divides(
        exemption_coeffs(root_of_unity(ctx.trace_order()), ctx.transition_exemptions),
    )
    &&& divisor_division(ctx).1.len() == 0
}

/// The divisors of the transition constraints, one for each constraint:
/// the quotient of `X^N - 1` by the product of `X - omega^e` over the
/// exempted rows `e`, where `omega` is the root of unity of order the
/// trace length `N`. A context that is not valid is refused with its
/// defect; where the division leaves a remainder, as it does when a row is
/// exempted twice, there is no divisor. With one exempted row, or none,
/// there is one.
pub fn transition_divisors(ctx: &AirContext) -> (r: Result<Vec<Polynomial>, StarkError>)
    ensures
        !ctx@.valid() ==> r == Err::<Vec<Polynomial>, StarkError>(ctx@.defect().unwrap()),
        r matches Err(e) ==> ctx@.defect() == Some(e) || (ctx@.valid() && e
            == StarkError::AIRTransitionDivisorsError),
        ctx@.valid() ==> (r is Ok <==> has_divisor(ctx@)),
        ctx@.valid() && ctx@.transition_exemptions.len() <= 1 ==> r is Ok,
        r matches Ok(v) ==> {
            &&& v@.len() == ctx@.num_transition_constraints
            &&& forall|t: int|
                0 <= t < v@.len() ==> (#[trigger] v@[t])@ == divisor_division(ctx@).0
                    && is_transition_divisor(v@[t], ctx@)
        },
{
    match ctx.validate() {
        Ok(()) => {},
        Err(e) => {
            return Err(e);
        },
    }
    proof {
        if ctx@.transition_exemptions.len() <= 1 {
            crate::divisor_laws::lemma_one_exemption_has_divisor(ctx@);
        }
    }
    let kt: u32 = match log2_exact(ctx.trace_length) {
        Some(k) => k,
        None => {
            return Err(StarkError::AIRTransitionDivisorsError);
        },
    };
    proof {
        lemma_log2_pow2(kt as nat);
        vstd::arithmetic::power2::lemma2_to64();
        crate::constraints::lemma_pow2_strictly_increases_to(kt as nat, 27);
    }
    let omega: u32 = match get_primitive_root_of_unity(kt as u64) {
        Ok(w) => w,
        Err(_) => {
            return Err(StarkError::AIRTransitionDivisorsError);
        },
    };
    // the product of the exempted factors
    let mut product: Vec<u32> = Vec::new();
    product.push(1);
    assert(product@ =~= exemption_coeffs(
        omega as int,
        ctx.transition_exemptions@.subrange(0, 0),
    ));
    proof {
        assert forall|x: int| #[trigger] poly_eval(product@, x) == exemption_product(
            x,
            omega as int,
            ctx.transition_exemptions@.subrange(0, 0),
        ) by {
            assert(product@.len() == 1);
            assert(product@.drop_first().len() == 0);
            assert(poly_eval(product@.drop_first(), x) == 0);
            lemma_mul_basics(x);
            assert(product@[0] == 1);
            assert(poly_eval(product@, x) == (1 + x * 0) % p());
            assert(ctx.transition_exemptions@.subrange(0, 0).len() == 0);
        }
    }
    let mut e: usize = 0;
    while e < ctx.transition_exemptions.len()
        invariant
            e <= ctx.transition_exemptions@.len(),
            product@ == exemption_coeffs(
                omega as int,
                ctx.transition_exemptions@.subrange(0, e as int),
            ),
            forall|x: int|
                #[trigger] poly_eval(product@, x) == exemption_product(
                    x,
                    omega as int,
                    ctx.transition_exemptions@.subrange(0, e as int),
                ),
        decreases ctx.transition_exemptions@.len() - e,
    {
        let root: u32 = U32TestField::pow(&omega, ctx.transition_exemptions[e] as u64);
        let factor = linear_factor(root);
        let ghost before = product@;
        product = mul_vectors(product.as_slice(), factor.as_slice());
        proof {
            let next = ctx.transition_exemptions@.subrange(0, e + 1);
            assert(next.drop_last() =~= ctx.transition_exemptions@.subrange(0, e as int));
            assert(next.last() == ctx.transition_exemptions@[e as int]);
            assert forall|x: int| #[trigger] poly_eval(product@, x) == exemption_product(
                x,
                omega as int,
                next,
            ) by {
                lemma_eval_mul(before, factor@, x);
                assert(poly_eval(before, x) == exemption_product(
                    x,
                    omega as int,
                    ctx.transition_exemptions@.subrange(0, e as int),
                ));
                assert(poly_eval(factor@, x) == fsub(x, root as int, p()));
            }
        }
        e = e + 1;
    }
    assert(ctx.transition_exemptions@.subrange(0, e as int) =~= ctx.transition_exemptions@);
    let exempted = Polynomial { coefficients: product };
    let leading = Polynomial::new_monomial(1, ctx.trace_length);
    let one = Polynomial::new_monomial(1, 0);
    let vanishing = leading.sub(&one);
    proof {
        lemma_trim_wf(vanishing@);
        crate::polynomial::lemma_reduce_canonical(vanishing@);
        vstd::arithmetic::div_mod::lemma_small_mod(1, p() as nat);
        assert(leading@ == zeros(ctx@.trace_length) + seq![1u32]);
        assert(one@ =~= seq![1u32]);
        assert(vanishing@ == vanishing_coeffs(ctx@.trace_length));
    }
    let (quotient, remainder) = match vanishing.long_division_with_remainder(&exempted) {
        Some(pair) => pair,
        None => {
            return Err(StarkError::AIRTransitionDivisorsError);
        },
    };
    if remainder.coefficients.len() != 0 {
        return Err(StarkError::AIRTransitionDivisorsError);
    }
    proof {
        let m = p();
        assert forall|x: int| #![trigger quotient.eval(x)] fmul(
            quotient.eval(x),
            exemption_product(x, omega as int, ctx.transition_exemptions@),
            m,
        ) == fsub(fpow(x, ctx.trace_length as nat, m), 1, m) by {
            assert(exempted.eval(x) == exemption_product(
                x,
                omega as int,
                ctx.transition_exemptions@,
            ));
            assert(remainder.eval(x) == 0);
            assert(vanishing.eval(x) == fsub(leading.eval(x), one.eval(x), m));
            assert(leading.eval(x) == fmul(1, pow(x, ctx.trace_length as nat), m));
            assert(one.eval(x) == fmul(1, pow(x, 0), m));
            lemma_pow0(x);
            lemma_mul_basics(pow(x, ctx.trace_length as nat));
            lemma_mod_twice(quotient.eval(x) * exempted.eval(x), m);
        }
    }
    let mut result: Vec<Polynomial> = Vec::new();
    let mut t: usize = 0;
    while t < ctx.num_transition_constraints
        invariant
            t <= ctx@.num_transition_constraints,
            result@.len() == t,
            omega == root_of_unity(ctx@.trace_order()),
            is_transition_divisor(quotient, ctx@),
            quotient.wf(),
            quotient@ == divisor_division(ctx@).0,
            forall|s: int|
                0 <= s < t ==> (#[trigger] result@[s])@ == divisor_division(ctx@).0
                    && is_transition_divisor(result@[s], ctx@),
        decreases ctx@.num_transition_constraints - t,
    {
        let copy = Polynomial::new(quotient.coefficients.as_slice());
        proof {
            crate::polynomial::lemma_reduce_canonical(quotient@);
            lemma_trim_wf(quotient@);
            assert forall|x: int| #![trigger copy.eval(x)] fmul(
                copy.eval(x),
                exemption_product(x, omega as int, ctx@.transition_exemptions),
                p(),
            ) == fsub(fpow(x, ctx@.trace_length, p()), 1, p()) by {
                assert(copy.eval(x) == quotient.eval(x));
            }
        }
        result.push(copy);
        t = t + 1;
    }
    Ok(result)
}

} // verus!
