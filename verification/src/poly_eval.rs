//! The value of a polynomial, given by its coefficients, at a point of the
//! field of order `15 * 2^27 + 1`, and how that value behaves when the
//! coefficients are split, combined or scaled.

use crate::field::p;
use crate::modular::cong;
use crate::modular::lemma_cong_add;
use crate::modular::lemma_cong_mod;
use crate::modular::lemma_cong_mul;
use vstd::arithmetic::div_mod::*;
use vstd::arithmetic::mul::*;
use vstd::arithmetic::power::*;
use vstd::prelude::*;

verus! {

/// The value at `x` of the polynomial whose coefficient of degree `i` is
/// `c[i]`, as a canonical residue.
pub open spec fn poly_eval(c: Seq<u32>, x: int) -> int
    decreases c.len(),
{
    if c.len() == 0 {
        0
    } else {
        (c[0] as int + x * poly_eval(c.drop_first(), x)) % p()
    }
}

/// Every entry is a canonical residue.
pub open spec fn canonical(c: Seq<u32>) -> bool {
    forall|i: int| 0 <= i < c.len() ==> (#[trigger] c[i] as int) < p()
}

/// The sequence of the canonical residues of the entries.
pub open spec fn reduce(c: Seq<u32>) -> Seq<u32> {
    Seq::new(c.len(), |i: int| (c[i] as int % p()) as u32)
}

pub proof fn lemma_eval_range(c: Seq<u32>, x: int)
    ensures
        0 <= poly_eval(c, x) < p(),
{
    if c.len() > 0 {
        lemma_mod_bound(c[0] as int + x * poly_eval(c.drop_first(), x), p());
    }
}

/// The value depends on the point only through its residue.
pub proof fn lemma_eval_cong_point(c: Seq<u32>, x: int, y: int)
    requires
        cong(x, y, p()),
    ensures
        poly_eval(c, x) == poly_eval(c, y),
    decreases c.len(),
{
    if c.len() > 0 {
        let t = c.drop_first();
        lemma_eval_cong_point(t, x, y);
        let e = poly_eval(t, x);
        lemma_cong_mul(x, y, e, e, p());
        lemma_cong_add(c[0] as int, c[0] as int, x * e, y * e, p());
    }
}

/// The value depends on the coefficients only through their residues.
pub proof fn lemma_eval_reduce(c: Seq<u32>, x: int)
    ensures
        poly_eval(reduce(c), x) == poly_eval(c, x),
    decreases c.len(),
{
    if c.len() > 0 {
        let t = c.drop_first();
        lemma_eval_reduce(t, x);
        assert(reduce(c).drop_first() =~= reduce(t));
        let e = poly_eval(t, x);
        lemma_cong_mod(c[0] as int, p());
        lemma_cong_add(reduce(c)[0] as int, c[0] as int, x * e, x * e, p());
    }
}

/// The value of a concatenation: the second part is weighted by the power
/// of the point that the length of the first part gives.
pub proof fn lemma_eval_split(lo: Seq<u32>, hi: Seq<u32>, x: int)
    ensures
        poly_eval(lo + hi, x) == (poly_eval(lo, x) + pow(x, lo.len()) * poly_eval(hi, x)) % p(),
    decreases lo.len(),
{
    let eh = poly_eval(hi, x);
    if lo.len() == 0 {
        assert(lo + hi =~= hi);
        lemma_pow0(x);
        lemma_eval_range(hi, x);
        lemma_small_mod(eh as nat, p() as nat);
    } else {
        let t = lo.drop_first();
        let k = t.len();
        assert((lo + hi).drop_first() =~= t + hi);
        lemma_eval_split(t, hi, x);
        let et = poly_eval(t, x);
        let a = lo[0] as int;
        // left side
        let inner = et + pow(x, k) * eh;
        lemma_cong_mod(inner, p());
        lemma_cong_mul(x, x, poly_eval(t + hi, x), inner, p());
        lemma_cong_add(a, a, x * poly_eval(t + hi, x), x * inner, p());
        // right side
        lemma_cong_mod(a + x * et, p());
        lemma_pow_adds(x, 1, k);
        lemma_pow1(x);
        let xe = pow(x, lo.len()) * eh;
        lemma_cong_add(poly_eval(lo, x), a + x * et, xe, xe, p());
        assert(a + x * inner == (a + x * et) + xe) by (nonlinear_arith)
            requires
                inner == et + pow(x, k) * eh,
                xe == pow(x, lo.len()) * eh,
                pow(x, lo.len()) == x * pow(x, k),
        ;
    }
}

/// The value of a combination `lo + c * hi`, taken entry by entry.
pub proof fn lemma_eval_combine(lo: Seq<u32>, hi: Seq<u32>, c: int, comb: Seq<u32>, x: int)
    requires
        lo.len() == hi.len(),
        comb.len() == lo.len(),
        forall|j: int|
            0 <= j < lo.len() ==> (#[trigger] comb[j]) as int == (lo[j] as int + c * (
            hi[j] as int)) % p(),
    ensures
        poly_eval(comb, x) == (poly_eval(lo, x) + c * poly_eval(hi, x)) % p(),
    decreases lo.len(),
{
    if lo.len() == 0 {
        lemma_mul_basics(c);
    } else {
        let (lt, ht, ct) = (lo.drop_first(), hi.drop_first(), comb.drop_first());
        assert forall|j: int| 0 <= j < lt.len() implies (#[trigger] ct[j]) as int == (lt[j] as int
            + c * (ht[j] as int)) % p() by {
            assert(ct[j] == comb[j + 1]);
        }
        lemma_eval_combine(lt, ht, c, ct, x);
        let (el, eh, ec) = (poly_eval(lt, x), poly_eval(ht, x), poly_eval(ct, x));
        let (l0, h0) = (lo[0] as int, hi[0] as int);
        // left side: comb[0] + x * ec
        lemma_cong_mod(l0 + c * h0, p());
        lemma_cong_mod(el + c * eh, p());
        lemma_cong_mul(x, x, ec, el + c * eh, p());
        lemma_cong_add(comb[0] as int, l0 + c * h0, x * ec, x * (el + c * eh), p());
        // right side: eval(lo) + c * eval(hi)
        lemma_cong_mod(l0 + x * el, p());
        lemma_cong_mod(h0 + x * eh, p());
        lemma_cong_mul(c, c, poly_eval(hi, x), h0 + x * eh, p());
        lemma_cong_add(
            poly_eval(lo, x),
            l0 + x * el,
            c * poly_eval(hi, x),
            c * (h0 + x * eh),
            p(),
        );
        assert((l0 + c * h0) + x * (el + c * eh) == (l0 + x * el) + c * (h0 + x * eh))
            by (nonlinear_arith);
    }
}

/// The coefficients `c[j] * f * s^j`, reduced.
pub open spec fn scale_by(c: Seq<u32>, s: int, f: int) -> Seq<u32> {
    Seq::new(c.len(), |j: int| ((c[j] as int * f * pow(s, j as nat)) % p()) as u32)
}

/// The coefficients of the polynomial `X -> P(s * X)`: `c[j] * s^j`.
pub open spec fn scale(c: Seq<u32>, s: int) -> Seq<u32> {
    Seq::new(c.len(), |j: int| ((c[j] as int * (pow(s, j as nat) % p())) % p()) as u32)
}

proof fn lemma_eval_scale_by(c: Seq<u32>, s: int, f: int, x: int)
    ensures
        poly_eval(scale_by(c, s, f), x) == (f * poly_eval(c, s * x)) % p(),
    decreases c.len(),
{
    let m = p();
    if c.len() == 0 {
        lemma_mul_basics(f);
    } else {
        let t = c.drop_first();
        let sc = scale_by(c, s, f);
        assert forall|j: int| 0 <= j < t.len() implies sc.drop_first()[j] == scale_by(t, s, f * s)[j] by {
            lemma_pow_adds(s, 1, j as nat);
            lemma_pow1(s);
            assert(c[j + 1] as int * f * pow(s, (j + 1) as nat) == t[j] as int * (f * s) * pow(
                s,
                j as nat,
            )) by (nonlinear_arith)
                requires
                    c[j + 1] == t[j],
                    pow(s, (j + 1) as nat) == s * pow(s, j as nat),
            ;
        }
        assert(sc.drop_first() =~= scale_by(t, s, f * s));
        lemma_eval_scale_by(t, s, f * s, x);
        let e = poly_eval(t, s * x);
        let c0 = c[0] as int;
        // left side: sc[0] + x * eval(rest)
        lemma_pow0(s);
        lemma_cong_mod(c0 * f * pow(s, 0), m);
        lemma_cong_mod((f * s) * e, m);
        lemma_cong_mul(x, x, poly_eval(sc.drop_first(), x), (f * s) * e, m);
        lemma_cong_add(
            sc[0] as int,
            c0 * f * pow(s, 0),
            x * poly_eval(sc.drop_first(), x),
            x * ((f * s) * e),
            m,
        );
        // right side: f * (c0 + (s * x) * e)
        lemma_cong_mod(c0 + (s * x) * e, m);
        lemma_cong_mul(f, f, poly_eval(c, s * x), c0 + (s * x) * e, m);
        assert(c0 * f * pow(s, 0) + x * ((f * s) * e) == f * (c0 + (s * x) * e))
            by (nonlinear_arith)
            requires
                pow(s, 0) == 1,
        ;
    }
}

/// Scaling the coefficients by the powers of `s` moves the point: the
/// scaled polynomial at `x` is the polynomial at `s * x`.
pub proof fn lemma_eval_scale(c: Seq<u32>, s: int, x: int)
    ensures
        poly_eval(scale(c, s), x) == poly_eval(c, s * x),
{
    let m = p();
    assert forall|j: int| 0 <= j < c.len() implies scale(c, s)[j] == scale_by(c, s, 1)[j] by {
        lemma_mul_mod_noop_right(c[j] as int, pow(s, j as nat), m);
        lemma_mul_basics(c[j] as int);
    }
    assert(scale(c, s) =~= scale_by(c, s, 1));
    lemma_eval_scale_by(c, s, 1, x);
    lemma_mul_basics(poly_eval(c, s * x));
    lemma_eval_range(c, s * x);
    lemma_small_mod(poly_eval(c, s * x) as nat, m as nat);
}

/// Scaling by `s` and then by an inverse of `s` gives the canonical
/// coefficients back.
pub proof fn lemma_scale_inverse(c: Seq<u32>, s: int, s_inv: int)
    requires
        (s * s_inv) % p() == 1,
    ensures
        scale(scale(c, s), s_inv) == reduce(c),
{
    let m = p();
    let back = scale(scale(c, s), s_inv);
    assert forall|j: int| 0 <= j < c.len() implies back[j] == reduce(c)[j] by {
        let e = j as nat;
        let cj = c[j] as int;
        let ps = pow(s, e) % m;
        let pi = pow(s_inv, e) % m;
        lemma_cong_mod(cj * ps, m);
        lemma_cong_mul(scale(c, s)[j] as int, cj * ps, pi, pi, m);
        lemma_mul_is_associative(cj, ps, pi);
        // ps * pi = (s * s_inv)^e = 1
        lemma_mul_mod_noop(pow(s, e), pow(s_inv, e), m);
        lemma_pow_distributes(s, s_inv, e);
        lemma_pow_mod_noop(s * s_inv, e, m);
        lemma1_pow(e);
        lemma_cong_mul(cj, cj, ps * pi, 1, m);
        lemma_mul_basics(cj);
    }
    assert(back =~= reduce(c));
}

/// The coefficients of even degree.
pub open spec fn evens(c: Seq<u32>) -> Seq<u32> {
    Seq::new((c.len() + 1) / 2, |i: int| c[2 * i])
}

/// The coefficients of odd degree.
pub open spec fn odds(c: Seq<u32>) -> Seq<u32> {
    Seq::new(c.len() / 2, |i: int| c[2 * i + 1])
}

/// The coefficients of `E + beta * O`, where `E` and `O` hold the
/// coefficients of even and of odd degree of a polynomial with an even
/// number of coefficients.
pub open spec fn fold_coeffs(c: Seq<u32>, beta: int) -> Seq<u32> {
    Seq::new(c.len() / 2, |i: int| ((c[2 * i] as int + beta * (c[2 * i + 1] as int)) % p()) as u32)
}

/// `count` zero coefficients.
pub open spec fn zeros(count: nat) -> Seq<u32> {
    Seq::new(count, |i: int| 0u32)
}

/// `c` followed by `count` zero coefficients.
pub open spec fn pad_zeros(c: Seq<u32>, count: nat) -> Seq<u32> {
    c + zeros(count)
}

/// A polynomial is the sum of its even part and of `X` times its odd part,
/// both taken at the square of the point.
pub proof fn lemma_eval_even_odd(c: Seq<u32>, z: int)
    ensures
        poly_eval(c, z) == (poly_eval(evens(c), z * z) + z * poly_eval(odds(c), z * z)) % p(),
    decreases c.len(),
{
    let m = p();
    if c.len() == 0 {
        lemma_mul_basics(z);
    } else if c.len() == 1 {
        assert(c.drop_first().len() == 0);
        assert(evens(c).drop_first().len() == 0);
        assert(poly_eval(c.drop_first(), z) == 0);
        assert(poly_eval(evens(c).drop_first(), z * z) == 0);
        assert(poly_eval(odds(c), z * z) == 0);
        lemma_mul_basics(z);
        lemma_mul_basics(z * z);
        lemma_mod_twice(c[0] as int, m);
    } else {
        let t = c.drop_first();
        let r = t.drop_first();
        lemma_eval_even_odd(r, z);
        assert(evens(c).drop_first() =~= evens(r));
        assert(odds(c).drop_first() =~= odds(r));
        let (c0, c1) = (c[0] as int, c[1] as int);
        let er = poly_eval(r, z);
        let ee = poly_eval(evens(r), z * z);
        let eo = poly_eval(odds(r), z * z);
        // left side: c0 + z * (c1 + z * er)
        lemma_cong_mod(c1 + z * er, m);
        lemma_cong_mul(z, z, poly_eval(t, z), c1 + z * er, m);
        lemma_cong_add(c0, c0, z * poly_eval(t, z), z * (c1 + z * er), m);
        // er = ee + z * eo
        lemma_cong_mod(ee + z * eo, m);
        lemma_cong_mul(z * z, z * z, er, ee + z * eo, m);
        assert(z * (c1 + z * er) == z * c1 + (z * z) * er) by (nonlinear_arith);
        lemma_cong_add(c0 + z * c1, c0 + z * c1, (z * z) * er, (z * z) * (ee + z * eo), m);
        // right side
        lemma_cong_mod(c0 + (z * z) * ee, m);
        lemma_cong_mod(c1 + (z * z) * eo, m);
        lemma_cong_mul(z, z, poly_eval(odds(c), z * z), c1 + (z * z) * eo, m);
        lemma_cong_add(
            poly_eval(evens(c), z * z),
            c0 + (z * z) * ee,
            z * poly_eval(odds(c), z * z),
            z * (c1 + (z * z) * eo),
            m,
        );
        assert((c0 + z * c1) + (z * z) * (ee + z * eo) == (c0 + (z * z) * ee) + z * (c1 + (z * z)
            * eo)) by (nonlinear_arith);
    }
}

/// The folded polynomial is the even part plus `beta` times the odd part.
pub proof fn lemma_eval_fold(c: Seq<u32>, beta: int, y: int)
    requires
        c.len() % 2 == 0,
    ensures
        poly_eval(fold_coeffs(c, beta), y) == (poly_eval(evens(c), y) + beta * poly_eval(
            odds(c),
            y,
        )) % p(),
{
    lemma_eval_combine(evens(c), odds(c), beta, fold_coeffs(c, beta), y);
}

/// Zero coefficients at the end do not change the value.
pub proof fn lemma_eval_pad(c: Seq<u32>, count: nat, x: int)
    ensures
        poly_eval(pad_zeros(c, count), x) == poly_eval(c, x),
{
    lemma_eval_split(c, zeros(count), x);
    lemma_eval_zeros(count, x);
    lemma_mul_basics(pow(x, c.len()));
    lemma_eval_range(c, x);
    lemma_small_mod(poly_eval(c, x) as nat, p() as nat);
}

/// The zero polynomial has the value zero.
pub proof fn lemma_eval_zeros(count: nat, x: int)
    ensures
        poly_eval(zeros(count), x) == 0,
    decreases count,
{
    if count > 0 {
        assert(zeros(count).drop_first() =~= zeros((count - 1) as nat));
        lemma_eval_zeros((count - 1) as nat, x);
        lemma_mul_basics(x);
        assert(zeros(count)[0] == 0);
        assert(poly_eval(zeros(count), x) == (0 + x * 0) % p());
    } else {
        assert(zeros(count).len() == 0);
    }
}

/// A polynomial whose coefficients vanish from position `len` on has the
/// value of its first `len` coefficients.
pub proof fn lemma_eval_truncate(c: Seq<u32>, len: int, x: int)
    requires
        0 <= len <= c.len(),
        forall|i: int| len <= i < c.len() ==> c[i] == 0,
    ensures
        poly_eval(c.subrange(0, len), x) == poly_eval(c, x),
{
    assert(pad_zeros(c.subrange(0, len), (c.len() - len) as nat) =~= c);
    lemma_eval_pad(c.subrange(0, len), (c.len() - len) as nat, x);
}

} // verus!
