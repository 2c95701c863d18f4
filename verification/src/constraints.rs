//! The values, at one point of the evaluation domain, of the composition
//! polynomial and of the DEEP composition polynomial.
//!
//! Both are computed from the values of the trace in a window that starts
//! at the point. The prover computes them at every point, the verifier at
//! the points of its queries, by the same functions.

use crate::air::AIR;
use crate::air::AirContext;
use crate::air::AirContextView;
use crate::air::BoundaryConstraint;
use crate::air::BoundaryConstraints;
use crate::air::FRAME_ROWS;
use crate::air::Frame;
use crate::air::MAX_TRANSITION_DEGREE;
use crate::air::boundary_in_range;
use crate::domain::Domain;
use crate::field::TEST_FIELD_MODULUS;
use crate::field::U32TestField;
use crate::field::fadd;
use crate::field::finv;
use crate::field::fmul;
use crate::field::fpow;
use crate::field::fsub;
use crate::field::p;
use crate::roots_of_unity::root_of_unity;
use vstd::arithmetic::div_mod::*;
use vstd::arithmetic::power2::*;
use vstd::prelude::*;

verus! {

/// The inverse that the field computes for a residue other than zero, and
/// zero for zero.
pub open spec fn safe_inv(a: int) -> int {
    if a % p() == 0 {
        0
    } else {
        finv(a % p(), p())
    }
}

/// The product of `x - omega^e` over the exempted rows `e`.
pub open spec fn exemption_product(x: int, omega: int, exemptions: Seq<usize>) -> int
    decreases exemptions.len(),
{
    if exemptions.len() == 0 {
        1
    } else {
        fmul(
            exemption_product(x, omega, exemptions.drop_last()),
            fsub(x, fpow(omega, exemptions.last() as nat, p()), p()),
            p(),
        )
    }
}

/// The inverse, at `x`, of the transition divisor
/// `(X^N - 1) / prod (X - omega^e)`.
pub open spec fn zerofier_inv(x: int, ctx: AirContextView) -> int {
    let omega = root_of_unity(ctx.trace_order());
    fmul(
        exemption_product(x, omega, ctx.transition_exemptions),
        safe_inv(fsub(fpow(x, ctx.trace_length, p()), 1, p())),
        p(),
    )
}

/// The power of `X` that lifts the quotient of transition constraint `t`
/// to the degree bound `2 * N - 1` of the composition polynomial. The
/// quotient of a constraint of degree `d` has degree at most
/// `d * (N - 1) - (N - E)`, where `E` is the number of exempted rows.
pub open spec fn transition_shift(ctx: AirContextView, t: int) -> int {
    3 * ctx.trace_length - 1 - ctx.transition_degrees[t] * (ctx.trace_length - 1)
        - ctx.transition_exemptions.len()
}

/// The power of `X` that lifts the quotient of a boundary constraint, of
/// degree at most `N - 2`, to the degree bound.
pub open spec fn boundary_shift(ctx: AirContextView) -> int {
    ctx.trace_length as int + 1
}

/// The weight `alpha + beta * x^shift` of a quotient.
pub open spec fn weight(alpha: int, beta: int, x: int, shift: int) -> int {
    fadd(alpha, fmul(beta, fpow(x, shift as nat, p()), p()), p())
}

/// The sum of the weighted quotients of the first `t` transition
/// constraints, whose values on the window are `cs`. The coefficients of
/// constraint `s` are `coeffs[2 * s]` and `coeffs[2 * s + 1]`.
pub open spec fn transition_sum(
    ctx: AirContextView,
    cs: Seq<u32>,
    x: int,
    coeffs: Seq<u32>,
    t: nat,
) -> int
    decreases t,
{
    if t == 0 {
        0
    } else {
        let s = t - 1;
        fadd(
            transition_sum(ctx, cs, x, coeffs, s as nat),
            fmul(
                weight(
                    coeffs[2 * s] as int,
                    coeffs[2 * s + 1] as int,
                    x,
                    transition_shift(ctx, s),
                ),
                fmul(cs[s] as int, zerofier_inv(x, ctx), p()),
                p(),
            ),
            p(),
        )
    }
}

/// The sum of the weighted quotients of the first `k` boundary
/// constraints. The coefficients of constraint `s` follow those of the
/// transition constraints.
pub open spec fn boundary_sum(
    ctx: AirContextView,
    bs: Seq<BoundaryConstraint>,
    frame: Seq<u32>,
    x: int,
    coeffs: Seq<u32>,
    k: nat,
) -> int
    decreases k,
{
    if k == 0 {
        0
    } else {
        let s = k - 1;
        let base = 2 * ctx.num_transition_constraints;
        let omega = root_of_unity(ctx.trace_order());
        fadd(
            boundary_sum(ctx, bs, frame, x, coeffs, s as nat),
            fmul(
                weight(
                    coeffs[base + 2 * s] as int,
                    coeffs[base + 2 * s + 1] as int,
                    x,
                    boundary_shift(ctx),
                ),
                fmul(
                    fsub(frame[bs[s].col as int] as int, bs[s].value as int, p()),
                    safe_inv(fsub(x, fpow(omega, bs[s].step as nat, p()), p())),
                    p(),
                ),
                p(),
            ),
            p(),
        )
    }
}

/// Number of coefficients that the composition polynomial draws from the
/// transcript: two for each constraint.
pub open spec fn coefficient_count(ctx: AirContextView, bs: Seq<BoundaryConstraint>) -> nat {
    2 * ctx.num_transition_constraints + 2 * bs.len()
}

/// The value of the composition polynomial at `x`, from the window `frame`
/// of the trace that starts at `x` and the values `cs` of the transition
/// constraints on it.
pub open spec fn composition_value(
    ctx: AirContextView,
    bs: Seq<BoundaryConstraint>,
    cs: Seq<u32>,
    frame: Seq<u32>,
    x: int,
    coeffs: Seq<u32>,
) -> int {
    fadd(
        transition_sum(ctx, cs, x, coeffs, ctx.num_transition_constraints),
        boundary_sum(ctx, bs, frame, x, coeffs, bs.len()),
        p(),
    )
}

/// The sum of the first `t` trace terms of the DEEP composition
/// polynomial at `x`. Term `s` belongs to column `s mod cols` and to the
/// out-of-domain point `z * omega^(s / cols)`.
pub open spec fn deep_trace_sum(
    row: Seq<u32>,
    oods: Seq<u32>,
    x: int,
    z: int,
    omega: int,
    gammas: Seq<u32>,
    t: nat,
) -> int
    decreases t,
{
    if t == 0 {
        0
    } else {
        let s = t - 1;
        let cols = row.len() as int;
        fadd(
            deep_trace_sum(row, oods, x, z, omega, gammas, s as nat),
            fmul(
                gammas[s] as int,
                fmul(
                    fsub(row[s % cols] as int, oods[s] as int, p()),
                    safe_inv(fsub(x, fmul(z, fpow(omega, (s / cols) as nat, p()), p()), p())),
                    p(),
                ),
                p(),
            ),
            p(),
        )
    }
}

/// The value of the DEEP composition polynomial at `x`: for each column
/// and each of the `FRAME_ROWS` out-of-domain points, the quotient
/// `(t(x) - t(z * omega^k)) / (x - z * omega^k)`, and for the composition
/// polynomial the quotient `(H(x) - H(z)) / (x - z)`, each weighted by its
/// coefficient. `row` holds the values of the columns at `x`, `hx` and `hz`
/// the values of the composition polynomial at `x` and at `z`.
pub open spec fn deep_value(
    row: Seq<u32>,
    hx: int,
    oods: Seq<u32>,
    hz: int,
    x: int,
    z: int,
    omega: int,
    gammas: Seq<u32>,
) -> int {
    let count = FRAME_ROWS * row.len();
    fadd(
        deep_trace_sum(row, oods, x, z, omega, gammas, count as nat),
        fmul(
            gammas[count as int] as int,
            fmul(fsub(hx, hz, p()), safe_inv(fsub(x, z, p())), p()),
            p(),
        ),
        p(),
    )
}

/// The value of a polynomial at a point from the values of its even and
/// odd part at the square of the point.
pub open spec fn join_halves(even: int, odd: int, x: int) -> int {
    fadd(even, fmul(x, odd, p()), p())
}

/// The inverse of `a`, or zero for zero.
pub fn safe_inverse(a: u32) -> (r: u32)
    ensures
        r == safe_inv(a as int),
        r < TEST_FIELD_MODULUS,
{
    let c: u32 = U32TestField::representative(&a);
    if c == 0 {
        0
    } else {
        U32TestField::inv(&c)
    }
}

/// `even + x * odd`.
pub fn join_values(even: u32, odd: u32, x: u32) -> (r: u32)
    ensures
        r == join_halves(even as int, odd as int, x as int),
        r < TEST_FIELD_MODULUS,
{
    let xo: u32 = U32TestField::mul(&x, &odd);
    U32TestField::add(&even, &xo)
}

/// `alpha + beta * x^shift`.
pub fn weight_at(alpha: u32, beta: u32, x: u32, shift: u64) -> (r: u32)
    ensures
        r == weight(alpha as int, beta as int, x as int, shift as int),
        r < TEST_FIELD_MODULUS,
{
    let xs: u32 = U32TestField::pow(&x, shift);
    let bx: u32 = U32TestField::mul(&beta, &xs);
    U32TestField::add(&alpha, &bx)
}

/// The inverse of the transition divisor at `x`.
pub fn zerofier_inverse_at(x: u32, ctx: &AirContext, domain: &Domain) -> (r: u32)
    requires
        domain.of(ctx@),
    ensures
        r == zerofier_inv(x as int, ctx@),
        r < TEST_FIELD_MODULUS,
{
    let mut product: u32 = 1;
    let mut e: usize = 0;
    let ghost omega = root_of_unity(ctx@.trace_order());
    assert(ctx.transition_exemptions@.subrange(0, 0).len() == 0);
    while e < ctx.transition_exemptions.len()
        invariant
            e <= ctx.transition_exemptions@.len(),
            domain.of(ctx@),
            omega == root_of_unity(ctx@.trace_order()),
            product == exemption_product(
                x as int,
                omega,
                ctx.transition_exemptions@.subrange(0, e as int),
            ),
        decreases ctx.transition_exemptions@.len() - e,
    {
        proof {
            let next = ctx.transition_exemptions@.subrange(0, e + 1);
            assert(next.drop_last() =~= ctx.transition_exemptions@.subrange(0, e as int));
            assert(next.last() == ctx.transition_exemptions@[e as int]);
        }
        let root: u32 = U32TestField::pow(&domain.trace_generator, ctx.transition_exemptions[e] as u64);
        let factor: u32 = U32TestField::sub(&x, &root);
        product = U32TestField::mul(&product, &factor);
        e = e + 1;
    }
    assert(ctx.transition_exemptions@.subrange(0, e as int) == ctx.transition_exemptions@);
    let xn: u32 = U32TestField::pow(&x, domain.trace_length as u64);
    let vanishing: u32 = U32TestField::sub(&xn, &1);
    let inv: u32 = safe_inverse(vanishing);
    U32TestField::mul(&product, &inv)
}

/// The value of the composition polynomial at `x`, from the window of the
/// trace that starts at `x`.
pub fn composition_at<A: AIR>(
    air: &A,
    ctx: &AirContext,
    boundary: &BoundaryConstraints,
    frame: &Frame,
    x: u32,
    coeffs: &[u32],
    domain: &Domain,
) -> (r: u32)
    requires
        ctx@ == air.context_view(),
        ctx@.valid(),
        domain.of(ctx@),
        boundary_in_range(boundary@, ctx@),
        frame.wf(),
        frame.row_width == ctx@.trace_columns,
        coeffs@.len() == coefficient_count(ctx@, boundary@),
    ensures
        r == composition_value(
            ctx@,
            boundary@,
            air.transition_spec(frame@),
            frame@,
            x as int,
            coeffs@,
        ),
        r < TEST_FIELD_MODULUS,
{
    let cs = air.compute_transition(frame);
    let z_inv: u32 = zerofier_inverse_at(x, ctx, domain);
    let n_t: usize = ctx.num_transition_constraints;
    let n: usize = ctx.trace_length;
    let exempted: usize = ctx.transition_exemptions.len();
    proof {
        lemma2_to64();
        lemma_pow2_strictly_increases_to(domain.trace_order as nat, 27);
    }
    let mut acc: u32 = 0;
    let mut t: usize = 0;
    while t < n_t
        invariant
            t <= n_t,
            n_t == ctx@.num_transition_constraints,
            n == ctx@.trace_length,
            2 <= n <= 0x800_0000,
            exempted == ctx@.transition_exemptions.len(),
            ctx@.valid(),
            cs@.len() == n_t,
            coeffs@.len() == coefficient_count(ctx@, boundary@),
            z_inv == zerofier_inv(x as int, ctx@),
            acc < TEST_FIELD_MODULUS,
            acc == transition_sum(ctx@, cs@, x as int, coeffs@, t as nat),
        decreases n_t - t,
    {
        let degree: usize = ctx.transition_degrees[t];
        assert(1 <= degree <= MAX_TRANSITION_DEGREE);
        assert(degree * (n - 1) <= 2 * (n - 1)) by (nonlinear_arith)
            requires
                degree <= 2,
                n >= 1,
        ;
        let shift: u64 = (3 * n - 1 - degree * (n - 1) - exempted) as u64;
        let w: u32 = weight_at(coeffs[2 * t], coeffs[2 * t + 1], x, shift);
        let quotient: u32 = U32TestField::mul(&cs[t], &z_inv);
        let term: u32 = U32TestField::mul(&w, &quotient);
        acc = U32TestField::add(&acc, &term);
        t = t + 1;
    }
    let transition_part: u32 = acc;
    let n_b: usize = boundary.constraints.len();
    let mut acc_b: u32 = 0;
    let mut k: usize = 0;
    while k < n_b
        invariant
            k <= n_b,
            n_b == boundary@.len(),
            n_t == ctx@.num_transition_constraints,
            n == ctx@.trace_length,
            2 <= n <= 0x800_0000,
            domain.of(ctx@),
            ctx@.valid(),
            boundary_in_range(boundary@, ctx@),
            frame.wf(),
            frame.row_width == ctx@.trace_columns,
            coeffs@.len() == coefficient_count(ctx@, boundary@),
            acc_b < TEST_FIELD_MODULUS,
            acc_b == boundary_sum(ctx@, boundary@, frame@, x as int, coeffs@, k as nat),
        decreases n_b - k,
    {
        let b: BoundaryConstraint = boundary.constraints[k];
        assert(b == boundary@[k as int]);
        let w: u32 = weight_at(
            coeffs[2 * n_t + 2 * k],
            coeffs[2 * n_t + 2 * k + 1],
            x,
            (n + 1) as u64,
        );
        let value: u32 = frame.get(0, b.col);
        let numerator: u32 = U32TestField::sub(&value, &b.value);
        let root: u32 = U32TestField::pow(&domain.trace_generator, b.step as u64);
        let denominator: u32 = U32TestField::sub(&x, &root);
        let inv: u32 = safe_inverse(denominator);
        let quotient: u32 = U32TestField::mul(&numerator, &inv);
        let term: u32 = U32TestField::mul(&w, &quotient);
        proof {
            assert(0 * frame.row_width + b.col == b.col) by (nonlinear_arith);
        }
        acc_b = U32TestField::add(&acc_b, &term);
        k = k + 1;
    }
    U32TestField::add(&transition_part, &acc_b)
}

/// The value of the DEEP composition polynomial at `x`.
pub fn deep_at(
    row: &[u32],
    hx: u32,
    oods: &[u32],
    hz: u32,
    x: u32,
    z: u32,
    omega: u32,
    gammas: &[u32],
) -> (r: u32)
    requires
        1 <= row@.len() <= crate::air::MAX_COLUMNS,
        oods@.len() == FRAME_ROWS * row@.len(),
        gammas@.len() == FRAME_ROWS * row@.len() + 1,
    ensures
        r == deep_value(
            row@,
            hx as int,
            oods@,
            hz as int,
            x as int,
            z as int,
            omega as int,
            gammas@,
        ),
        r < TEST_FIELD_MODULUS,
{
    let cols: usize = row.len();
    let count: usize = FRAME_ROWS * cols;
    let mut acc: u32 = 0;
    let mut s: usize = 0;
    while s < count
        invariant
            s <= count,
            cols == row@.len(),
            cols >= 1,
            count == FRAME_ROWS * cols,
            oods@.len() == count,
            gammas@.len() == count + 1,
            acc < TEST_FIELD_MODULUS,
            acc == deep_trace_sum(
                row@,
                oods@,
                x as int,
                z as int,
                omega as int,
                gammas@,
                s as nat,
            ),
        decreases count - s,
    {
        let col: usize = s % cols;
        let k: usize = s / cols;
        let shift: u32 = U32TestField::pow(&omega, k as u64);
        let point: u32 = U32TestField::mul(&z, &shift);
        let denominator: u32 = U32TestField::sub(&x, &point);
        let inv: u32 = safe_inverse(denominator);
        let numerator: u32 = U32TestField::sub(&row[col], &oods[s]);
        let quotient: u32 = U32TestField::mul(&numerator, &inv);
        let term: u32 = U32TestField::mul(&gammas[s], &quotient);
        acc = U32TestField::add(&acc, &term);
        s = s + 1;
    }
    let denominator: u32 = U32TestField::sub(&x, &z);
    let inv: u32 = safe_inverse(denominator);
    let numerator: u32 = U32TestField::sub(&hx, &hz);
    let quotient: u32 = U32TestField::mul(&numerator, &inv);
    let term: u32 = U32TestField::mul(&gammas[count], &quotient);
    U32TestField::add(&acc, &term)
}

/// `2^a <= 2^b` for `a <= b`.
pub proof fn lemma_pow2_strictly_increases_to(a: nat, b: nat)
    requires
        a <= b,
    ensures
        pow2(a) <= pow2(b),
{
    if a < b {
        lemma_pow2_strictly_increases(a, b);
    }
}

} // verus!
