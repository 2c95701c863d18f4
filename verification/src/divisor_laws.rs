//! Contexts that are certain to have a transition divisor: those that
//! exempt one row, or none.

use crate::air::AirContextView;
use crate::coset::invertible;
use crate::divisors::divisor_division;
use crate::divisors::exemption_coeffs;
use crate::divisors::has_divisor;
use crate::divisors::vanishing_coeffs;
use crate::field::finv;
use crate::field::fmul;
use crate::field::fneg;
use crate::field::fpow;
use crate::field::fsub;
use crate::field::p;
use crate::honest::lemma_context_sizes;
use crate::modular::cong;
use crate::modular::lemma_cong_mod;
use crate::modular::lemma_cong_mul;
use crate::modular::lemma_cong_sub;
use crate::poly_eval::canonical;
use crate::poly_eval::zeros;
use crate::polynomial::add_coeffs;
use crate::polynomial::division_remainder;
use crate::polynomial::division_step;
use crate::polynomial::lemma_reduce_canonical;
use crate::polynomial::lemma_trim_wf;
use crate::polynomial::mul_coeffs;
use crate::polynomial::scalar_coeffs;
use crate::polynomial::shift_coeffs;
use crate::polynomial::sub_coeffs;
use crate::polynomial::trim;
use crate::roots_of_unity::lemma_fpow_fpow;
use crate::roots_of_unity::lemma_root_of_unity_order;
use crate::roots_of_unity::root_of_unity;
use vstd::arithmetic::div_mod::*;
use vstd::arithmetic::mul::*;
use vstd::arithmetic::power::*;
use vstd::prelude::*;

verus! {

/// The coefficients of `X - a`.
pub open spec fn linear_divisor(a: int) -> Seq<u32> {
    seq![fneg(a, p()) as u32, 1u32]
}

/// What is left of `X^n - 1` after `j` steps of its division by `X - a`:
/// the coefficients of `a^j * X^(n - j) - 1`.
pub open spec fn linear_remainder(n: nat, a: int, j: nat) -> Seq<u32> {
    Seq::new(
        (n + 1 - j) as nat,
        |i: int|
            if i == n - j {
                fpow(a, j, p()) as u32
            } else if i == 0 {
                (p() - 1) as u32
            } else {
                0u32
            },
    )
}

/// What is left of `X^n - 1` after `j` steps of its division by one: its
/// coefficients of degree up to `n - j`.
pub open spec fn unit_remainder(n: nat, j: nat) -> Seq<u32> {
    vanishing_coeffs(n).subrange(0, n + 1 - j as int)
}

/// The coefficients of `X^n - 1` are `-1`, zeros, and one.
pub proof fn lemma_vanishing_coeffs(n: nat, a: int)
    requires
        n >= 1,
    ensures
        vanishing_coeffs(n) == linear_remainder(n, a, 0),
        vanishing_coeffs(n).len() == n + 1,
{
    let v = sub_coeffs(zeros(n) + seq![1u32], seq![1u32]);
    lemma_pow0(a);
    lemma_small_mod(1, p() as nat);
    assert(v.len() == n + 1);
    assert(v.last() == 1u32);
    lemma_trim_wf(v);
    assert(v =~= linear_remainder(n, a, 0));
}

/// The top coefficient after one more step: `0 - a^j * (-a) = a^(j + 1)`,
/// and `c - a^j * (-a) = c + a^(j + 1)`.
proof fn lemma_linear_step(a: int, j: nat, c: int)
    ensures
        fsub(c, fmul(fmul(fpow(a, j, p()), 1, p()), fneg(a, p()), p()), p()) == (c + pow(
            a,
            j + 1,
        )) % p(),
{
    let m = p();
    let aj = pow(a, j);
    let lead = fmul(fpow(a, j, m), 1, m);
    lemma_cong_mod(aj, m);
    lemma_mul_basics(fpow(a, j, m));
    lemma_cong_mod(fpow(a, j, m), m);
    assert(cong(lead, aj, m));
    lemma_cong_mod(-a, m);
    lemma_cong_mul(lead, aj, fneg(a, m), -a, m);
    lemma_cong_mod(lead * fneg(a, m), m);
    assert(cong(fmul(lead, fneg(a, m), m), aj * (-a), m));
    lemma_cong_sub(c, c, fmul(lead, fneg(a, m), m), aj * (-a), m);
    lemma_pow_adds(a, j, 1);
    lemma_pow1(a);
    assert(c - aj * (-a) == c + aj * a) by (nonlinear_arith);
}

/// The steps of the division of `X^n - 1` by `X - a`, but for the last.
pub proof fn lemma_linear_remainder(n: nat, a: int, j: nat)
    requires
        n >= 2,
        j <= n - 1,
    ensures
        division_remainder(vanishing_coeffs(n), linear_divisor(a), 1, j) == linear_remainder(
            n,
            a,
            j,
        ),
    decreases j,
{
    if j == 0 {
        lemma_vanishing_coeffs(n, a);
    } else {
        let before = (j - 1) as nat;
        lemma_linear_remainder(n, a, before);
        let r = linear_remainder(n, a, before);
        let d = linear_divisor(a);
        lemma_mod_bound(pow(a, before), p());
        lemma_mod_bound(pow(a, j), p());
        lemma_mod_bound(-a, p());
        let lead = fmul(r.last() as int, 1, p());
        let s = r.len() - d.len();
        assert(s == n - j);
        let next = division_step(r, d, lead, s);
        let target = linear_remainder(n, a, j);
        assert(next.len() == target.len());
        assert forall|i: int| 0 <= i < next.len() implies next[i] == target[i] by {
            if i == s {
                assert(r[i] == 0u32);
                lemma_linear_step(a, before, 0);
                assert(d[0] as int == fneg(a, p()));
                assert(r.last() as int == fpow(a, before, p()));
            }
        }
        assert(next =~= target);
    }
}

/// A context that is valid and exempts at most one row has a transition
/// divisor: `X^N - 1` is divided without remainder by one, and by
/// `X - omega^e` for every row `e`.
pub proof fn lemma_one_exemption_has_divisor(ctx: AirContextView)
    requires
        ctx.valid(),
        ctx.transition_exemptions.len() <= 1,
    ensures
        has_divisor(ctx),
{
    let m = p();
    let n = ctx.trace_length;
    let kt = ctx.trace_order();
    let omega = root_of_unity(kt);
    lemma_context_sizes(ctx);
    lemma1_pow((m - 2) as nat);
    lemma_small_mod(1, m as nat);
    assert(finv(1, m) == 1);
    assert(invertible(1));
    let v = vanishing_coeffs(n);
    lemma_vanishing_coeffs(n, 0);
    if ctx.transition_exemptions.len() == 0 {
        let d = seq![1u32];
        assert(exemption_coeffs(omega, ctx.transition_exemptions) == d);
        assert(canonical(d));
        lemma_reduce_canonical(d);
        lemma_trim_wf(d);
        lemma_unit_remainder(n, n + 1);
        assert(unit_remainder(n, n + 1).len() == 0);
        assert(divisor_division(ctx).1.len() == 0);
    } else {
        let e = ctx.transition_exemptions[0] as nat;
        let a = fpow(omega, e, m);
        lemma_mod_bound(pow(omega, e), m);
        lemma_mod_bound(-a, m);
        let d = linear_divisor(a);
        lemma_exemption_of_one_row(omega, ctx.transition_exemptions);
        assert(exemption_coeffs(omega, ctx.transition_exemptions) == d);
        assert(canonical(d));
        lemma_reduce_canonical(d);
        lemma_trim_wf(d);
        // a^N = 1
        lemma_root_of_unity_order(kt);
        lemma_fpow_fpow(omega, e, n);
        lemma_fpow_fpow(omega, n, e);
        lemma_mul_is_commutative(e as int, n as int);
        lemma1_pow(e);
        assert(fpow(a, n, m) == 1);
        // the last step
        lemma_linear_remainder(n, a, (n - 1) as nat);
        let r = linear_remainder(n, a, (n - 1) as nat);
        lemma_mod_bound(pow(a, (n - 1) as nat), m);
        let lead = fmul(r.last() as int, 1, m);
        let last = division_step(r, d, lead, 0);
        lemma_linear_step(a, (n - 1) as nat, m - 1);
        assert(last[0] == 0u32) by {
            assert(r[0] == (m - 1) as u32);
            assert(d[0] as int == fneg(a, m));
            assert(r.last() as int == fpow(a, (n - 1) as nat, m));
            lemma_cong_mod(pow(a, n), m);
            assert((m - 1 + pow(a, n)) % m == 0) by {
                crate::modular::lemma_cong_add(m - 1, m - 1, pow(a, n), 1, m);
            }
        }
        assert(last =~= seq![0u32]);
        assert(division_remainder(v, d, 1, n) == last);
        assert(trim(last) =~= Seq::<u32>::empty()) by {
            assert(last.drop_last() =~= Seq::<u32>::empty());
            reveal_with_fuel(trim, 2);
        }
        assert(divisor_division(ctx).1.len() == 0);
    }
}

/// The product of the exempted factors of one row `e` is `X - omega^e`.
proof fn lemma_exemption_of_one_row(omega: int, exemptions: Seq<usize>)
    requires
        exemptions.len() == 1,
    ensures
        exemption_coeffs(omega, exemptions) == linear_divisor(
            fpow(omega, exemptions[0] as nat, p()),
        ),
{
    let m = p();
    let a = fpow(omega, exemptions[0] as nat, m);
    lemma_mod_bound(pow(omega, exemptions[0] as nat), m);
    lemma_mod_bound(-a, m);
    let f = linear_divisor(a);
    let one = seq![1u32];
    assert(exemptions.drop_last().len() == 0);
    assert(exemption_coeffs(omega, exemptions.drop_last()) == one);
    assert(exemption_coeffs(omega, exemptions) == mul_coeffs(one, f)) by {
        reveal_with_fuel(exemption_coeffs, 2);
    }
    assert(one.drop_first().len() == 0);
    assert(mul_coeffs(one.drop_first(), f) == Seq::<u32>::empty());
    let scaled = scalar_coeffs(f, 1);
    let shifted = shift_coeffs(Seq::<u32>::empty());
    assert(mul_coeffs(one, f) == add_coeffs(scaled, shifted)) by {
        reveal_with_fuel(mul_coeffs, 2);
    }
    lemma_mul_basics(f[0] as int);
    lemma_small_mod(f[0] as nat, m as nat);
    lemma_small_mod(1, m as nat);
    assert(add_coeffs(scaled, shifted) =~= f);
}

/// The steps of the division of `X^n - 1` by one: each takes the highest
/// coefficient off.
pub proof fn lemma_unit_remainder(n: nat, j: nat)
    requires
        n >= 1,
        j <= n + 1,
    ensures
        division_remainder(vanishing_coeffs(n), seq![1u32], 1, j) == unit_remainder(n, j),
    decreases j,
{
    lemma_vanishing_coeffs(n, 0);
    let v = vanishing_coeffs(n);
    if j == 0 {
        assert(v.subrange(0, n + 1 as int) =~= v);
    } else {
        lemma_unit_remainder(n, (j - 1) as nat);
        let r = unit_remainder(n, (j - 1) as nat);
        let d = seq![1u32];
        let lead = fmul(r.last() as int, 1, p());
        let next = division_step(r, d, lead, r.len() - d.len());
        assert(next =~= unit_remainder(n, j));
    }
}

} // verus!
