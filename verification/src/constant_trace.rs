//! The prover on a trace whose rows are all the same: where the
//! constraints hold on it, neither the composition polynomial nor the DEEP
//! composition polynomial exceeds its degree bound, both being zero.

use crate::air::AIR;
use crate::air::AirContextView;
use crate::air::BoundaryConstraint;
use crate::air::FRAME_ROWS;
use crate::air::boundary_in_range;
use crate::computations::IdentityAIR;
use crate::constraints::boundary_sum;
use crate::constraints::deep_value;
use crate::constraints::join_halves;
use crate::constraints::safe_inv;
use crate::errors::StarkError;
use crate::field::fmul;
use crate::poly_eval::lemma_eval_zeros;
use crate::stark_proof::out_of_domain;
use crate::stark_prover::deep_on_domain;
use crate::stark_run::run_failure;
use crate::domain::context_offset;
use crate::evaluation::coset_point;
use crate::fri::coset_evals;
use crate::field::finv;
use crate::honest::lemma_context_sizes;
use crate::stark_proof::window_position;
use crate::stark_prover::composition_on_domain;
use crate::stark_prover::lemma_window_position;
use crate::stark_prover::window;
use crate::stark_run::honest_run;
use crate::stark_run::interpolated_on;
use crate::constraints::deep_trace_sum;
use crate::constraints::transition_sum;
use crate::evaluation::lemma_fft_canonical;
use crate::fft::fft_spec;
use crate::fft_inverse::lemma_inverse_fft_of_fft;
use crate::fft_meaning::lemma_fft_evaluates;
use crate::field::fpow;
use crate::field::fsub;
use crate::field::p;
use crate::poly_eval::canonical;
use crate::poly_eval::lemma_eval_pad;
use crate::poly_eval::pad_zeros;
use crate::poly_eval::poly_eval;
use crate::poly_eval::zeros;
use crate::roots_of_unity::RootsConfig;
use crate::roots_of_unity::TWO_ADICITY;
use crate::roots_of_unity::lemma_twiddles_bit_reversed;
use crate::roots_of_unity::lemma_twiddles_inverse;
use crate::roots_of_unity::root_of_unity;
use crate::roots_of_unity::twiddles_spec;
use crate::stark_run::interpolated_on_subgroup;
use vstd::arithmetic::div_mod::*;
use vstd::arithmetic::mul::*;
use vstd::arithmetic::power2::*;
use vstd::prelude::*;

verus! {

/// `len` times the value `v`.
pub open spec fn constant_seq(v: u32, len: nat) -> Seq<u32> {
    Seq::new(len, |i: int| v)
}

/// The coefficients of the constant polynomial `v`, `len` of them.
pub open spec fn constant_poly(v: u32, len: nat) -> Seq<u32> {
    pad_zeros(seq![v], (len - 1) as nat)
}

/// A constant polynomial takes its constant everywhere.
pub proof fn lemma_eval_constant(v: u32, len: nat, x: int)
    requires
        len >= 1,
        v < p(),
    ensures
        poly_eval(constant_poly(v, len), x) == v,
{
    let c = seq![v];
    lemma_eval_pad(c, (len - 1) as nat, x);
    assert(c.drop_first().len() == 0);
    assert(poly_eval(c.drop_first(), x) == 0);
    lemma_mul_basics(x);
    assert(poly_eval(c, x) == (v as int + x * 0) % p());
    lemma_small_mod(v as nat, p() as nat);
}

/// The polynomial that takes the same value on the whole subgroup is
/// constant.
pub proof fn lemma_constant_interpolation(v: u32, k: nat)
    requires
        k <= TWO_ADICITY,
        v < p(),
    ensures
        interpolated_on_subgroup(constant_seq(v, pow2(k)), k) == constant_poly(v, pow2(k)),
{
    let len = pow2(k);
    lemma_pow2_pos(k);
    let c = constant_poly(v, len);
    let tw = twiddles_spec(k, RootsConfig::BitReverse);
    let twi = twiddles_spec(k, RootsConfig::BitReverseInversed);
    assert(c.len() == len);
    assert(canonical(c));
    lemma_twiddles_bit_reversed(k);
    lemma_twiddles_inverse(k);
    lemma_fft_canonical(c, tw, k);
    let f = fft_spec(c, tw);
    assert forall|j: int| 0 <= j < len implies f[j] == v by {
        lemma_fft_evaluates(c, tw, root_of_unity(k), k, j);
        lemma_eval_constant(v, len, fpow(root_of_unity(k), j as nat, p()));
    }
    assert(f =~= constant_seq(v, len));
    lemma_inverse_fft_of_fft(c, tw, twi, k);
}

/// Transition constraints that all vanish add up to zero.
pub proof fn lemma_transition_sum_zero(
    ctx: AirContextView,
    cs: Seq<u32>,
    x: int,
    coeffs: Seq<u32>,
    t: nat,
)
    requires
        forall|s: int| 0 <= s < t ==> cs[s] == 0,
    ensures
        transition_sum(ctx, cs, x, coeffs, t) == 0,
    decreases t,
{
    if t > 0 {
        let s = t - 1;
        lemma_transition_sum_zero(ctx, cs, x, coeffs, s as nat);
        assert(cs[s] == 0);
        lemma_mul_basics(crate::constraints::zerofier_inv(x, ctx));
        lemma_mul_basics(
            crate::constraints::weight(
                coeffs[2 * s] as int,
                coeffs[2 * s + 1] as int,
                x,
                crate::constraints::transition_shift(ctx, s),
            ),
        );
    }
}

/// Boundary constraints that all hold on the window add up to zero.
pub proof fn lemma_boundary_sum_zero(
    ctx: AirContextView,
    bs: Seq<BoundaryConstraint>,
    frame: Seq<u32>,
    x: int,
    coeffs: Seq<u32>,
    k: nat,
)
    requires
        forall|s: int|
            0 <= s < k ==> fsub(
                frame[(#[trigger] bs[s]).col as int] as int,
                bs[s].value as int,
                p(),
            ) == 0,
    ensures
        boundary_sum(ctx, bs, frame, x, coeffs, k) == 0,
    decreases k,
{
    if k > 0 {
        let s = k - 1;
        lemma_boundary_sum_zero(ctx, bs, frame, x, coeffs, s as nat);
        let base = 2 * ctx.num_transition_constraints;
        let omega = root_of_unity(ctx.trace_order());
        assert(fsub(frame[bs[s].col as int] as int, bs[s].value as int, p()) == 0);
        lemma_mul_basics(
            crate::constraints::safe_inv(fsub(x, fpow(omega, bs[s].step as nat, p()), p())),
        );
        lemma_mul_basics(
            crate::constraints::weight(
                coeffs[base + 2 * s] as int,
                coeffs[base + 2 * s + 1] as int,
                x,
                crate::constraints::boundary_shift(ctx),
            ),
        );
    }
}

/// Trace terms of the DEEP composition polynomial whose numerators all
/// vanish add up to zero.
pub proof fn lemma_deep_trace_sum_zero(
    row: Seq<u32>,
    oods: Seq<u32>,
    x: int,
    z: int,
    omega: int,
    gammas: Seq<u32>,
    t: nat,
)
    requires
        forall|s: int|
            0 <= s < t ==> fsub(row[s % (row.len() as int)] as int, #[trigger] oods[s] as int, p())
                == 0,
    ensures
        deep_trace_sum(row, oods, x, z, omega, gammas, t) == 0,
    decreases t,
{
    if t > 0 {
        let s = t - 1;
        let cols = row.len() as int;
        lemma_deep_trace_sum_zero(row, oods, x, z, omega, gammas, s as nat);
        assert(fsub(row[s % cols] as int, oods[s] as int, p()) == 0);
        lemma_mul_basics(
            crate::constraints::safe_inv(
                fsub(x, crate::field::fmul(z, fpow(omega, (s / cols) as nat, p()), p()), p()),
            ),
        );
        lemma_mul_basics(gammas[s] as int);
    }
}

/// The polynomial that vanishes on the whole coset is zero.
pub proof fn lemma_zero_interpolation(k: nat, h_inv: int)
    requires
        k <= TWO_ADICITY,
    ensures
        interpolated_on(constant_seq(0, pow2(k)), k, h_inv) == zeros(pow2(k)),
{
    lemma_constant_interpolation(0, k);
    lemma_pow2_pos(k);
    let c = constant_poly(0, pow2(k));
    let scaled = interpolated_on(constant_seq(0, pow2(k)), k, h_inv);
    assert forall|j: int| 0 <= j < pow2(k) implies scaled[j] == 0 by {
        assert(c[j] == 0);
        lemma_mul_basics(vstd::arithmetic::power::pow(h_inv, j as nat) % p());
    }
    assert(scaled =~= zeros(pow2(k)));
}

/// Every column of the trace holds one value in all of its rows: column
/// `c` holds `row[c]`.
pub open spec fn constant_trace(trace: Seq<Seq<u32>>, ctx: AirContextView, row: Seq<u32>) -> bool {
    &&& trace.len() == ctx.trace_columns
    &&& row.len() == ctx.trace_columns
    &&& canonical(row)
    &&& forall|c: int|
        0 <= c < trace.len() ==> #[trigger] trace[c] == constant_seq(row[c], ctx.trace_length)
}

/// The window whose rows are all `row`.
pub open spec fn constant_window(row: Seq<u32>) -> Seq<u32> {
    Seq::new((FRAME_ROWS * row.len()) as nat, |t: int| row[t % (row.len() as int)])
}

/// The constraints of `air` hold on a trace whose rows are all `row`: the
/// transition constraints vanish on the window of such rows, and the
/// boundary constraints ask for the values of `row`.
pub open spec fn holds_on_constant<A: AIR>(air: &A, row: Seq<u32>) -> bool {
    let ctx = air.context_view();
    let bs = air.boundary_view();
    &&& forall|s: int|
        0 <= s < ctx.num_transition_constraints ==> air.transition_spec(constant_window(row))[s]
            == 0
    &&& forall|s: int|
        0 <= s < bs.len() ==> (#[trigger] bs[s]).value as int % p() == row[bs[s].col as int]
}

/// The trace polynomials of a trace of equal rows are constant.
#[verifier::rlimit(40)]
pub proof fn lemma_constant_polys<A: AIR>(air: &A, trace: Seq<Seq<u32>>, row: Seq<u32>)
    requires
        air.context_view().valid(),
        constant_trace(trace, air.context_view(), row),
    ensures
        honest_run(air, trace).polys.len() == air.context_view().trace_columns,
        forall|c: int|
            0 <= c < air.context_view().trace_columns ==> #[trigger] honest_run(
                air,
                trace,
            ).polys[c] == constant_poly(row[c], air.context_view().trace_length),
{
    let ctx = air.context_view();
    let run = honest_run(air, trace);
    lemma_context_sizes(ctx);
    assert forall|c: int| 0 <= c < ctx.trace_columns implies #[trigger] run.polys[c]
        == constant_poly(row[c], ctx.trace_length) by {
        assert(trace[c] == constant_seq(row[c], ctx.trace_length));
        assert(run.polys[c] == interpolated_on_subgroup(trace[c], ctx.trace_order()));
        lemma_constant_interpolation(row[c], ctx.trace_order());
    }
}

/// The extension of a trace of equal rows has the same rows.
#[verifier::rlimit(40)]
pub proof fn lemma_constant_lde<A: AIR>(air: &A, trace: Seq<Seq<u32>>, row: Seq<u32>)
    requires
        air.context_view().valid(),
        constant_trace(trace, air.context_view(), row),
    ensures
        honest_run(air, trace).lde.len() == air.context_view().trace_columns
            * air.context_view().lde_size(),
        forall|i: int|
            0 <= i < air.context_view().trace_columns * air.context_view().lde_size()
                ==> #[trigger] honest_run(air, trace).lde[i] == row[i / (
            air.context_view().lde_size() as int)],
{
    let ctx = air.context_view();
    let run = honest_run(air, trace);
    let n = ctx.lde_size() as int;
    let cols = ctx.trace_columns as int;
    let h = context_offset(ctx);
    lemma_context_sizes(ctx);
    lemma_pow2_pos(ctx.lde_order());
    lemma_constant_polys(air, trace, row);
    assert(run.lde.len() == cols * n);
    assert forall|i: int| 0 <= i < cols * n implies #[trigger] run.lde[i] == row[i / n] by {
        lemma_fundamental_div_mod(i, n);
        lemma_mod_bound(i, n);
        lemma_div_pos_is_pos(i, n);
        let c = i / n;
        assert(c < cols) by (nonlinear_arith)
            requires
                i == n * c + i % n,
                i % n >= 0,
                i < cols * n,
                n >= 1,
        ;
        let x = coset_point(n as nat, h, (i % n) as nat);
        lemma_eval_constant(row[c], ctx.trace_length, x);
        assert(run.polys[c] == constant_poly(row[c], ctx.trace_length));
        assert(run.lde[i] == coset_evals(run.polys[c], n as nat, h)[i % n]);
        assert(coset_evals(run.polys[c], n as nat, h)[i % n] == poly_eval(run.polys[c], x) as u32);
    }
}

/// Every window of the extension of a trace of equal rows holds these
/// rows.
#[verifier::rlimit(40)]
pub proof fn lemma_constant_windows<A: AIR>(air: &A, trace: Seq<Seq<u32>>, row: Seq<u32>)
    requires
        air.context_view().valid(),
        constant_trace(trace, air.context_view(), row),
    ensures
        forall|i: int|
            0 <= i < air.context_view().lde_size() ==> #[trigger] window(
                honest_run(air, trace).lde,
                air.context_view(),
                i,
            ) == constant_window(row),
{
    let ctx = air.context_view();
    let lde = honest_run(air, trace).lde;
    let n = ctx.lde_size() as int;
    let cols = ctx.trace_columns as int;
    lemma_context_sizes(ctx);
    lemma_pow2_pos(ctx.lde_order());
    lemma_constant_lde(air, trace, row);
    assert forall|i: int| 0 <= i < n implies #[trigger] window(lde, ctx, i) == constant_window(
        row,
    ) by {
        let w = window(lde, ctx, i);
        assert forall|t: int| 0 <= t < FRAME_ROWS * cols implies w[t] == constant_window(row)[t] by {
            lemma_window_position(ctx, i, t);
            let pos = window_position(ctx, i, t);
            let col = t % cols;
            let rest = (i + (t / cols) * (ctx.options.blowup_factor as int)) % n;
            lemma_mod_bound(i + (t / cols) * (ctx.options.blowup_factor as int), n);
            assert(pos == col * n + rest);
            lemma_fundamental_div_mod_converse(pos, n, col, rest);
            assert(lde[pos] == row[pos / n]);
        }
        assert(w =~= constant_window(row));
    }
}

/// Where the window at point `i` holds equal rows on which the constraints
/// hold, the composition polynomial takes the value zero.
pub proof fn lemma_composition_zero<A: AIR>(
    air: &A,
    lde: Seq<u32>,
    coeffs: Seq<u32>,
    i: int,
    row: Seq<u32>,
)
    requires
        boundary_in_range(air.boundary_view(), air.context_view()),
        row.len() == air.context_view().trace_columns,
        holds_on_constant(air, row),
        window(lde, air.context_view(), i) == constant_window(row),
    ensures
        composition_on_domain(air, lde, coeffs, i) == 0,
{
    let ctx = air.context_view();
    let bs = air.boundary_view();
    let frame = constant_window(row);
    let cs = air.transition_spec(frame);
    let x = coset_point(ctx.lde_size(), context_offset(ctx), i as nat);
    lemma_transition_sum_zero(ctx, cs, x, coeffs, ctx.num_transition_constraints);
    assert forall|s: int| 0 <= s < bs.len() implies fsub(
        frame[(#[trigger] bs[s]).col as int] as int,
        bs[s].value as int,
        p(),
    ) == 0 by {
        let c = bs[s].col as int;
        lemma_small_mod(c as nat, ctx.trace_columns as nat);
        assert(frame[c] == row[c]);
        lemma_sub_mod_noop_right(row[c] as int, bs[s].value as int, p());
    }
    lemma_boundary_sum_zero(ctx, bs, frame, x, coeffs, bs.len());
}

/// On a trace of equal rows on which the constraints hold, the composition
/// polynomial is zero.
#[verifier::rlimit(40)]
pub proof fn lemma_constant_composition<A: AIR>(air: &A, trace: Seq<Seq<u32>>, row: Seq<u32>)
    requires
        air.context_view().valid(),
        boundary_in_range(air.boundary_view(), air.context_view()),
        constant_trace(trace, air.context_view(), row),
        holds_on_constant(air, row),
    ensures
        honest_run(air, trace).h_evals == constant_seq(0, air.context_view().lde_size()),
        honest_run(air, trace).h_coeffs == zeros(air.context_view().lde_size()),
{
    let ctx = air.context_view();
    let bs = air.boundary_view();
    let run = honest_run(air, trace);
    let n = ctx.lde_size() as int;
    lemma_context_sizes(ctx);
    lemma_constant_windows(air, trace, row);
    assert forall|i: int| 0 <= i < n implies run.h_evals[i] == 0 by {
        assert(window(run.lde, ctx, i) == constant_window(row));
        lemma_composition_zero(air, run.lde, run.coeffs, i, row);
        assert(run.h_evals[i] == composition_on_domain(air, run.lde, run.coeffs, i) as u32);
    }
    assert(run.h_evals =~= constant_seq(0, ctx.lde_size()));
    lemma_zero_interpolation(ctx.lde_order(), finv(context_offset(ctx), p()));
}

/// On a trace of equal rows on which the constraints hold, the two halves
/// of the composition polynomial are zero, on the domain and outside it.
#[verifier::rlimit(40)]
pub proof fn lemma_constant_halves<A: AIR>(air: &A, trace: Seq<Seq<u32>>, row: Seq<u32>)
    requires
        air.context_view().valid(),
        boundary_in_range(air.boundary_view(), air.context_view()),
        constant_trace(trace, air.context_view(), row),
        holds_on_constant(air, row),
    ensures
        ({
            let run = honest_run(air, trace);
            let half = air.context_view().lde_size() / 2;
            &&& run.even_evals == constant_seq(0, half)
            &&& run.odd_evals == constant_seq(0, half)
            &&& run.header.even_ood == 0
            &&& run.header.odd_ood == 0
        }),
{
    let ctx = air.context_view();
    let run = honest_run(air, trace);
    let n = ctx.lde_size();
    let big_n = ctx.trace_length;
    let h = context_offset(ctx);
    lemma_context_sizes(ctx);
    lemma_constant_composition(air, trace, row);
    assert(run.even_coeffs =~= zeros(big_n));
    assert(run.odd_coeffs =~= zeros(big_n));
    assert forall|j: int| 0 <= j < n / 2 implies run.even_evals[j] == 0 && run.odd_evals[j]
        == 0 by {
        lemma_eval_zeros(big_n, coset_point(n / 2, fmul(h, h, p()), j as nat));
    }
    assert(run.even_evals =~= constant_seq(0, n / 2));
    assert(run.odd_evals =~= constant_seq(0, n / 2));
    lemma_eval_zeros(big_n, fmul(run.z as int, run.z as int, p()));
}

/// Where the window at point `i` holds the rows `row`, the out-of-domain
/// values of the trace are those of `row`, and the composition polynomial
/// is zero on the domain and at the out-of-domain point, the DEEP
/// composition polynomial takes the value zero.
pub proof fn lemma_deep_zero(
    lde: Seq<u32>,
    even_evals: Seq<u32>,
    odd_evals: Seq<u32>,
    oods: Seq<u32>,
    z: int,
    gammas: Seq<u32>,
    ctx: AirContextView,
    i: int,
    row: Seq<u32>,
)
    requires
        ctx.valid(),
        0 <= i < ctx.lde_size(),
        row.len() == ctx.trace_columns,
        window(lde, ctx, i) == constant_window(row),
        even_evals == constant_seq(0, ctx.lde_size() / 2),
        odd_evals == constant_seq(0, ctx.lde_size() / 2),
        oods.len() == FRAME_ROWS * ctx.trace_columns,
        forall|s: int|
            0 <= s < oods.len() ==> #[trigger] oods[s] == row[s % (ctx.trace_columns as int)],
    ensures
        deep_on_domain(lde, even_evals, odd_evals, oods, 0, z, gammas, ctx, i) == 0,
{
    let n = ctx.lde_size() as int;
    let cols = ctx.trace_columns as int;
    let omega = root_of_unity(ctx.trace_order());
    lemma_context_sizes(ctx);
    lemma_pow2_pos(ctx.lde_order());
    let x = coset_point(ctx.lde_size(), context_offset(ctx), i as nat);
    let w = window(lde, ctx, i);
    let first = w.subrange(0, cols);
    assert forall|c: int| 0 <= c < cols implies first[c] == row[c] by {
        lemma_small_mod(c as nat, cols as nat);
    }
    assert(first =~= row);
    lemma_mod_bound(i, n / 2);
    let hx = join_halves(even_evals[i % (n / 2)] as int, odd_evals[i % (n / 2)] as int, x);
    assert(hx == 0) by {
        lemma_mul_basics(x);
    }
    assert forall|s: int| 0 <= s < FRAME_ROWS * cols implies fsub(
        row[s % cols] as int,
        #[trigger] oods[s] as int,
        p(),
    ) == 0 by {
        lemma_mod_bound(s, cols);
    }
    lemma_deep_trace_sum_zero(row, oods, x, z, omega, gammas, (FRAME_ROWS * cols) as nat);
    lemma_mul_basics(safe_inv(fsub(x, z, p())));
    lemma_mul_basics(gammas[FRAME_ROWS * cols] as int);
    assert(deep_value(row, hx, oods, 0, x, z, omega, gammas) == 0);
}

/// On a trace of equal rows on which the constraints hold, the DEEP
/// composition polynomial is zero.
#[verifier::rlimit(40)]
pub proof fn lemma_constant_deep<A: AIR>(air: &A, trace: Seq<Seq<u32>>, row: Seq<u32>)
    requires
        air.context_view().valid(),
        boundary_in_range(air.boundary_view(), air.context_view()),
        constant_trace(trace, air.context_view(), row),
        holds_on_constant(air, row),
    ensures
        honest_run(air, trace).deep == constant_seq(0, air.context_view().lde_size()),
        honest_run(air, trace).deep_coeffs == zeros(air.context_view().lde_size()),
{
    let ctx = air.context_view();
    let run = honest_run(air, trace);
    let n = ctx.lde_size() as int;
    let cols = ctx.trace_columns as int;
    let omega = root_of_unity(ctx.trace_order());
    let z = run.z as int;
    let oods = run.header.trace_ood;
    lemma_context_sizes(ctx);
    lemma_pow2_pos(ctx.lde_order());
    lemma_constant_polys(air, trace, row);
    lemma_constant_windows(air, trace, row);
    lemma_constant_halves(air, trace, row);
    assert(oods.len() == FRAME_ROWS * cols);
    assert forall|s: int| 0 <= s < oods.len() implies #[trigger] oods[s] == row[s % cols] by {
        lemma_mod_bound(s, cols);
        let c = s % cols;
        let point = fmul(z, fpow(omega, (s / cols) as nat, p()), p());
        lemma_eval_constant(row[c], ctx.trace_length, point);
        assert(oods[s] == poly_eval(run.polys[c], point) as u32);
    }
    let hz = join_halves(run.header.even_ood as int, run.header.odd_ood as int, z);
    assert(hz == 0) by {
        lemma_mul_basics(z);
    }
    assert forall|i: int| 0 <= i < n implies run.deep[i] == 0 by {
        assert(window(run.lde, ctx, i) == constant_window(row));
        lemma_deep_zero(run.lde, run.even_evals, run.odd_evals, oods, z, run.gammas, ctx, i, row);
        assert(run.deep[i] == deep_on_domain(
            run.lde,
            run.even_evals,
            run.odd_evals,
            oods,
            hz,
            z,
            run.gammas,
            ctx,
            i,
        ) as u32);
    }
    assert(run.deep =~= constant_seq(0, ctx.lde_size()));
    lemma_zero_interpolation(ctx.lde_order(), finv(context_offset(ctx), p()));
}

/// A trace of equal rows on which the constraints hold does not fail for
/// the degree of a polynomial: the run of the prover ends with a proof,
/// unless every point drawn for the out-of-domain evaluations lies in the
/// evaluation domain.
pub proof fn lemma_constant_trace_is_proved<A: AIR>(air: &A, trace: Seq<Seq<u32>>, row: Seq<u32>)
    requires
        air.context_view().valid(),
        boundary_in_range(air.boundary_view(), air.context_view()),
        constant_trace(trace, air.context_view(), row),
        holds_on_constant(air, row),
    ensures
        run_failure(honest_run(air, trace), air.context_view()) is None || run_failure(
            honest_run(air, trace),
            air.context_view(),
        ) == Some(StarkError::OutOfDomainViolation),
        out_of_domain(air.context_view(), honest_run(air, trace).z as int) ==> run_failure(
            honest_run(air, trace),
            air.context_view(),
        ) is None,
{
    lemma_constant_composition(air, trace, row);
    lemma_constant_deep(air, trace, row);
}

/// The identity computation on a trace whose rows all hold its public
/// value: the run of the prover ends with a proof, unless every point
/// drawn for the out-of-domain evaluations lies in the evaluation domain.
pub proof fn lemma_identity_trace_is_proved(air: &IdentityAIR, trace: Seq<Seq<u32>>)
    requires
        air.context_view().valid(),
        air.first < p(),
        trace == seq![constant_seq(air.first, air.trace_length as nat)],
    ensures
        boundary_in_range(air.boundary_view(), air.context_view()),
        run_failure(honest_run(air, trace), air.context_view()) is None || run_failure(
            honest_run(air, trace),
            air.context_view(),
        ) == Some(StarkError::OutOfDomainViolation),
{
    let row = seq![air.first];
    let frame = constant_window(row);
    assert(frame[0] == air.first && frame[1] == air.first);
    lemma_small_mod(air.first as nat, p() as nat);
    lemma_constant_trace_is_proved(air, trace, row);
}

} // verus!
