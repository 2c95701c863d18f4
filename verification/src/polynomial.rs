//! Dense univariate polynomials over the field of order `15 * 2^27 + 1`.
//!
//! A polynomial is the sequence of its coefficients, the constant term
//! first, without zero coefficients at the end. The zero polynomial has no
//! coefficient.

use crate::coset::invertible;
use crate::evaluation::evaluate;
use crate::field::TEST_FIELD_MODULUS;
use crate::field::U32TestField;
use crate::field::fadd;
use crate::field::finv;
use crate::field::fmul;
use crate::field::fsub;
use crate::field::p;
use crate::modular::cong;
use crate::modular::lemma_cong_add;
use crate::modular::lemma_cong_mod;
use crate::modular::lemma_cong_mul;
use crate::poly_eval::canonical;
use crate::poly_eval::lemma_eval_combine;
use crate::poly_eval::lemma_eval_range;
use crate::poly_eval::lemma_eval_reduce;
use crate::poly_eval::lemma_eval_truncate;
use crate::poly_eval::lemma_eval_zeros;
use crate::poly_eval::poly_eval;
use crate::poly_eval::reduce;
use crate::poly_eval::zeros;
use vstd::arithmetic::div_mod::*;
use vstd::arithmetic::mul::*;
use vstd::arithmetic::power::*;
use vstd::prelude::*;

verus! {

/// `c` without the zero coefficients at its end.
pub open spec fn trim(c: Seq<u32>) -> Seq<u32>
    decreases c.len(),
{
    if c.len() == 0 || c.last() != 0 {
        c
    } else {
        trim(c.drop_last())
    }
}

/// Coefficient `i` of `c`, zero beyond its end.
pub open spec fn coeff(c: Seq<u32>, i: int) -> int {
    if 0 <= i < c.len() {
        c[i] as int
    } else {
        0
    }
}

/// The coefficients of the sum, before trimming.
pub open spec fn add_coeffs(a: Seq<u32>, b: Seq<u32>) -> Seq<u32> {
    Seq::new(
        if a.len() >= b.len() {
            a.len()
        } else {
            b.len()
        },
        |i: int| fadd(coeff(a, i), coeff(b, i), p()) as u32,
    )
}

/// The coefficients of the difference, before trimming.
pub open spec fn sub_coeffs(a: Seq<u32>, b: Seq<u32>) -> Seq<u32> {
    Seq::new(
        if a.len() >= b.len() {
            a.len()
        } else {
            b.len()
        },
        |i: int| fsub(coeff(a, i), coeff(b, i), p()) as u32,
    )
}

/// The coefficients of `k` times the polynomial.
pub open spec fn scalar_coeffs(c: Seq<u32>, k: int) -> Seq<u32> {
    Seq::new(c.len(), |i: int| fmul(k, c[i] as int, p()) as u32)
}

/// The coefficients of `X` times the polynomial.
pub open spec fn shift_coeffs(c: Seq<u32>) -> Seq<u32> {
    seq![0u32] + c
}

/// The coefficients of the product, before trimming: `a0 * b + X * (a' *
/// b)`, where `a0` is the constant term of `a` and `a'` holds its other
/// coefficients.
pub open spec fn mul_coeffs(a: Seq<u32>, b: Seq<u32>) -> Seq<u32>
    decreases a.len(),
{
    if a.len() == 0 {
        Seq::empty()
    } else {
        add_coeffs(scalar_coeffs(b, a[0] as int), shift_coeffs(mul_coeffs(a.drop_first(), b)))
    }
}

/// The coefficients of `P(Q(X))`, before trimming: `p0 + Q * P'(Q)`.
pub open spec fn compose_coeffs(a: Seq<u32>, q: Seq<u32>) -> Seq<u32>
    decreases a.len(),
{
    if a.len() == 0 {
        Seq::empty()
    } else {
        add_coeffs(seq![a[0]], mul_coeffs(compose_coeffs(a.drop_first(), q), q))
    }
}

/// Trimming keeps the value, keeps canonical coefficients canonical, and
/// leaves no zero at the end.
pub proof fn lemma_trim(c: Seq<u32>, x: int)
    ensures
        poly_eval(trim(c), x) == poly_eval(c, x),
        trim(c).len() <= c.len(),
        trim(c).len() > 0 ==> trim(c).last() != 0,
        canonical(c) ==> canonical(trim(c)),
        trim(c) == c.subrange(0, trim(c).len() as int),
        forall|i: int| trim(c).len() <= i < c.len() ==> c[i] == 0,
    decreases c.len(),
{
    if c.len() == 0 || c.last() != 0 {
        assert(c.subrange(0, c.len() as int) =~= c);
    } else {
        let d = c.drop_last();
        lemma_trim(d, x);
        lemma_eval_truncate(c, c.len() - 1, x);
        assert(c.subrange(0, c.len() - 1) =~= d);
        assert(trim(c) =~= c.subrange(0, trim(c).len() as int));
        assert forall|i: int| trim(c).len() <= i < c.len() implies c[i] == 0 by {
            if i < d.len() {
                assert(d[i] == c[i]);
            }
        }
    }
}

/// The value of a sum is the sum of the values.
pub proof fn lemma_eval_add(a: Seq<u32>, b: Seq<u32>, x: int)
    ensures
        poly_eval(add_coeffs(a, b), x) == fadd(poly_eval(a, x), poly_eval(b, x), p()),
    decreases a.len() + b.len(),
{
    let m = p();
    let s = add_coeffs(a, b);
    if a.len() == 0 && b.len() == 0 {
    } else {
        let at = if a.len() > 0 {
            a.drop_first()
        } else {
            a
        };
        let bt = if b.len() > 0 {
            b.drop_first()
        } else {
            b
        };
        lemma_eval_add(at, bt, x);
        assert(s.drop_first() =~= add_coeffs(at, bt));
        let (ea, eb) = (poly_eval(at, x), poly_eval(bt, x));
        let (a0, b0) = (coeff(a, 0), coeff(b, 0));
        lemma_mul_basics(x);
        // left side
        lemma_cong_mod(a0 + b0, m);
        lemma_cong_mod(ea + eb, m);
        lemma_cong_mul(x, x, poly_eval(s.drop_first(), x), ea + eb, m);
        lemma_cong_add(s[0] as int, a0 + b0, x * poly_eval(s.drop_first(), x), x * (ea + eb), m);
        // right side
        lemma_cong_mod(a0 + x * ea, m);
        lemma_cong_mod(b0 + x * eb, m);
        assert(cong(poly_eval(a, x), a0 + x * ea, m));
        assert(cong(poly_eval(b, x), b0 + x * eb, m));
        lemma_cong_add(poly_eval(a, x), a0 + x * ea, poly_eval(b, x), b0 + x * eb, m);
        assert((a0 + b0) + x * (ea + eb) == (a0 + x * ea) + (b0 + x * eb)) by (nonlinear_arith);
    }
}

/// The value of a difference is the difference of the values.
pub proof fn lemma_eval_sub(a: Seq<u32>, b: Seq<u32>, x: int)
    ensures
        poly_eval(sub_coeffs(a, b), x) == fsub(poly_eval(a, x), poly_eval(b, x), p()),
    decreases a.len() + b.len(),
{
    let m = p();
    let s = sub_coeffs(a, b);
    if a.len() == 0 && b.len() == 0 {
    } else {
        let at = if a.len() > 0 {
            a.drop_first()
        } else {
            a
        };
        let bt = if b.len() > 0 {
            b.drop_first()
        } else {
            b
        };
        lemma_eval_sub(at, bt, x);
        assert(s.drop_first() =~= sub_coeffs(at, bt));
        let (ea, eb) = (poly_eval(at, x), poly_eval(bt, x));
        let (a0, b0) = (coeff(a, 0), coeff(b, 0));
        lemma_mul_basics(x);
        lemma_cong_mod(a0 - b0, m);
        lemma_cong_mod(ea - eb, m);
        lemma_cong_mul(x, x, poly_eval(s.drop_first(), x), ea - eb, m);
        lemma_cong_add(s[0] as int, a0 - b0, x * poly_eval(s.drop_first(), x), x * (ea - eb), m);
        lemma_cong_mod(a0 + x * ea, m);
        lemma_cong_mod(b0 + x * eb, m);
        assert(cong(poly_eval(a, x), a0 + x * ea, m));
        assert(cong(poly_eval(b, x), b0 + x * eb, m));
        crate::modular::lemma_cong_sub(poly_eval(a, x), a0 + x * ea, poly_eval(b, x), b0 + x * eb, m);
        assert((a0 - b0) + x * (ea - eb) == (a0 + x * ea) - (b0 + x * eb)) by (nonlinear_arith);
    }
}

/// The value of a multiple is the multiple of the value.
pub proof fn lemma_eval_scalar(c: Seq<u32>, k: int, x: int)
    ensures
        poly_eval(scalar_coeffs(c, k), x) == fmul(k, poly_eval(c, x), p()),
{
    let z = zeros(c.len());
    let s = scalar_coeffs(c, k);
    assert forall|j: int| 0 <= j < c.len() implies (#[trigger] s[j]) as int == (z[j] as int + k * (
    c[j] as int)) % p() by {}
    lemma_eval_combine(z, c, k, s, x);
    lemma_eval_zeros(c.len(), x);
}

/// The value of `X` times a polynomial is the point times the value.
pub proof fn lemma_eval_shift(c: Seq<u32>, x: int)
    ensures
        poly_eval(shift_coeffs(c), x) == fmul(x, poly_eval(c, x), p()),
{
    assert(shift_coeffs(c).drop_first() =~= c);
}

/// The value of a product is the product of the values.
pub proof fn lemma_eval_mul(a: Seq<u32>, b: Seq<u32>, x: int)
    ensures
        poly_eval(mul_coeffs(a, b), x) == fmul(poly_eval(a, x), poly_eval(b, x), p()),
    decreases a.len(),
{
    let m = p();
    if a.len() == 0 {
        lemma_mul_basics(poly_eval(b, x));
    } else {
        let t = a.drop_first();
        let rest = mul_coeffs(t, b);
        lemma_eval_mul(t, b, x);
        lemma_eval_scalar(b, a[0] as int, x);
        lemma_eval_shift(rest, x);
        lemma_eval_add(scalar_coeffs(b, a[0] as int), shift_coeffs(rest), x);
        let (ea, eb) = (poly_eval(t, x), poly_eval(b, x));
        let a0 = a[0] as int;
        // a0 * eb + x * (ea * eb) = (a0 + x * ea) * eb
        lemma_cong_mod(a0 * eb, m);
        lemma_cong_mod(ea * eb, m);
        lemma_cong_mul(x, x, fmul(ea, eb, m), ea * eb, m);
        lemma_cong_mod(x * fmul(ea, eb, m), m);
        lemma_cong_add(fmul(a0, eb, m), a0 * eb, fmul(x, fmul(ea, eb, m), m), x * (ea * eb), m);
        lemma_cong_mod(a0 + x * ea, m);
        lemma_cong_mul(poly_eval(a, x), a0 + x * ea, eb, eb, m);
        assert(a0 * eb + x * (ea * eb) == (a0 + x * ea) * eb) by (nonlinear_arith);
    }
}

/// The value of a composition is the value of the outer polynomial at the
/// value of the inner one.
pub proof fn lemma_eval_compose(a: Seq<u32>, q: Seq<u32>, x: int)
    ensures
        poly_eval(compose_coeffs(a, q), x) == poly_eval(a, poly_eval(q, x)),
    decreases a.len(),
{
    let m = p();
    if a.len() > 0 {
        let t = a.drop_first();
        let inner = compose_coeffs(t, q);
        let y = poly_eval(q, x);
        lemma_eval_compose(t, q, x);
        lemma_eval_mul(inner, q, x);
        lemma_eval_add(seq![a[0]], mul_coeffs(inner, q), x);
        let single = seq![a[0]];
        assert(single.drop_first().len() == 0);
        assert(poly_eval(single.drop_first(), x) == 0);
        lemma_mul_basics(x);
        let e = poly_eval(t, y);
        // a0 % m + (e * y) % m = a0 + y * e
        lemma_cong_mod(a[0] as int, m);
        lemma_cong_mod(e * y, m);
        lemma_cong_add(poly_eval(single, x), a[0] as int, fmul(e, y, m), e * y, m);
        lemma_mul_is_commutative(e, y);
    }
}

/// A polynomial.
#[derive(Debug, Clone, PartialEq, Eq)]
pub struct Polynomial {
    pub coefficients: Vec<u32>,
}

impl Polynomial {
    /// The coefficients, the constant term first.
    pub open spec fn view(&self) -> Seq<u32> {
        self.coefficients@
    }

    /// The coefficients are canonical residues, and the last one is not
    /// zero.
    pub open spec fn wf(&self) -> bool {
        &&& canonical(self@)
        &&& self@.len() > 0 ==> self@.last() != 0
    }

    /// The value at `x`.
    pub open spec fn eval(&self, x: int) -> int {
        poly_eval(self@, x)
    }

    /// The polynomial with the given coefficients, reduced and trimmed.
    pub fn new(coefficients: &[u32]) -> (r: Polynomial)
        ensures
            r.wf(),
            r@ == trim(reduce(coefficients@)),
            forall|x: int| #![trigger r.eval(x)] r.eval(x) == poly_eval(coefficients@, x),
    {
        let mut len: usize = coefficients.len();
        let ghost red = reduce(coefficients@);
        proof {
            assert(red.subrange(0, red.len() as int) =~= red);
        }
        while len > 0 && U32TestField::representative(&coefficients[len - 1]) == 0
            invariant
                len <= coefficients@.len(),
                red == reduce(coefficients@),
                trim(red.subrange(0, len as int)) == trim(red),
            decreases len,
        {
            proof {
                assert(red.subrange(0, len as int).drop_last() =~= red.subrange(0, len - 1));
            }
            len = len - 1;
        }
        proof {
            assert(red.subrange(0, red.len() as int) =~= red);
        }
        let mut out: Vec<u32> = Vec::new();
        let mut i: usize = 0;
        while i < len
            invariant
                i <= len,
                len <= coefficients@.len(),
                red == reduce(coefficients@),
                out@ == red.subrange(0, i as int),
            decreases len - i,
        {
            out.push(U32TestField::representative(&coefficients[i]));
            i = i + 1;
            assert(red.subrange(0, i as int) =~= red.subrange(0, i - 1).push(red[i - 1]));
        }
        let r = Polynomial { coefficients: out };
        proof {
            let kept = red.subrange(0, len as int);
            assert(trim(kept) == kept);
            assert forall|j: int| 0 <= j < red.len() implies (#[trigger] red[j] as int) < p() by {
                lemma_mod_bound(coefficients@[j] as int, p());
            }
            assert forall|x: int| #![trigger r.eval(x)] r.eval(x) == poly_eval(
                coefficients@,
                x,
            ) by {
                lemma_trim(red, x);
                lemma_eval_reduce(coefficients@, x);
            }
        }
        r
    }

    /// The zero polynomial.
    pub fn zero() -> (r: Polynomial)
        ensures
            r.wf(),
            r@.len() == 0,
    {
        Polynomial { coefficients: Vec::new() }
    }

    /// The monomial `coefficient * X^degree`.
    pub fn new_monomial(coefficient: u32, degree: usize) -> (r: Polynomial)
        requires
            degree < usize::MAX,
        ensures
            r.wf(),
            forall|x: int|
                #![trigger r.eval(x)]
                r.eval(x) == fmul(coefficient as int, pow(x, degree as nat), p()),
            coefficient as int % p() != 0 ==> r@ == zeros(degree as nat) + seq![
                (coefficient as int % p()) as u32,
            ],
            coefficient as int % p() == 0 ==> r@.len() == 0,
    {
        let c: u32 = U32TestField::representative(&coefficient);
        if c == 0 {
            let r = Polynomial::zero();
            proof {
                assert forall|x: int| #![trigger r.eval(x)] r.eval(x) == fmul(
                    coefficient as int,
                    pow(x, degree as nat),
                    p(),
                ) by {
                    lemma_cong_mul(coefficient as int, 0, pow(x, degree as nat), pow(x, degree as nat), p());
                    lemma_mul_basics(pow(x, degree as nat));
                }
            }
            return r;
        }
        let mut out: Vec<u32> = Vec::new();
        let mut i: usize = 0;
        while i < degree
            invariant
                i <= degree,
                out@ == zeros(i as nat),
            decreases degree - i,
        {
            out.push(0);
            i = i + 1;
            assert(zeros(i as nat) =~= zeros((i - 1) as nat).push(0u32));
        }
        out.push(c);
        let r = Polynomial { coefficients: out };
        proof {
            assert(r@ =~= zeros(degree as nat) + seq![c]);
            assert forall|x: int| #![trigger r.eval(x)] r.eval(x) == fmul(
                coefficient as int,
                pow(x, degree as nat),
                p(),
            ) by {
                let single = seq![c];
                crate::poly_eval::lemma_eval_split(zeros(degree as nat), single, x);
                lemma_eval_zeros(degree as nat, x);
                assert(single.drop_first().len() == 0);
                assert(poly_eval(single.drop_first(), x) == 0);
                lemma_mul_basics(x);
                lemma_small_mod(c as nat, p() as nat);
                lemma_cong_mod(coefficient as int, p());
                lemma_cong_mul(pow(x, degree as nat), pow(x, degree as nat), c as int, coefficient as int, p());
                lemma_mul_is_commutative(pow(x, degree as nat), c as int);
                lemma_mul_is_commutative(pow(x, degree as nat), coefficient as int);
            }
        }
        r
    }

    /// The degree, for a polynomial other than zero.
    pub fn degree(&self) -> (r: Option<usize>)
        ensures
            r == (if self@.len() == 0 {
                None
            } else {
                Some((self@.len() - 1) as usize)
            }),
    {
        if self.coefficients.len() == 0 {
            None
        } else {
            Some(self.coefficients.len() - 1)
        }
    }

    /// The coefficient of the highest degree, or zero for the zero
    /// polynomial.
    pub fn leading_coefficient(&self) -> (r: u32)
        ensures
            r == (if self@.len() == 0 {
                0
            } else {
                self@.last()
            }),
    {
        if self.coefficients.len() == 0 {
            0
        } else {
            self.coefficients[self.coefficients.len() - 1]
        }
    }

    /// The value at `x`.
    pub fn evaluate(&self, x: &u32) -> (r: u32)
        ensures
            r == self.eval(*x as int),
            r < TEST_FIELD_MODULUS,
    {
        evaluate(self.coefficients.as_slice(), *x)
    }

    /// The values at each of `points`.
    pub fn evaluate_slice(&self, points: &[u32]) -> (r: Vec<u32>)
        ensures
            r@.len() == points@.len(),
            forall|i: int| 0 <= i < points@.len() ==> r@[i] == self.eval(points@[i] as int),
    {
        crate::evaluation::evaluate_slice(self.coefficients.as_slice(), points)
    }

    /// The sum.
    pub fn add(&self, other: &Polynomial) -> (r: Polynomial)
        ensures
            r.wf(),
            r@ == trim(add_coeffs(self@, other@)),
            forall|x: int|
                #![trigger r.eval(x)]
                r.eval(x) == fadd(self.eval(x), other.eval(x), p()),
    {
        let raw = add_vectors(self.coefficients.as_slice(), other.coefficients.as_slice());
        let r = Polynomial::new(raw.as_slice());
        proof {
            lemma_reduce_canonical(raw@);
            assert forall|x: int| #![trigger r.eval(x)] r.eval(x) == fadd(
                self.eval(x),
                other.eval(x),
                p(),
            ) by {
                lemma_eval_add(self@, other@, x);
            }
        }
        r
    }

    /// The difference.
    pub fn sub(&self, other: &Polynomial) -> (r: Polynomial)
        ensures
            r.wf(),
            r@ == trim(sub_coeffs(self@, other@)),
            forall|x: int|
                #![trigger r.eval(x)]
                r.eval(x) == fsub(self.eval(x), other.eval(x), p()),
    {
        let raw = sub_vectors(self.coefficients.as_slice(), other.coefficients.as_slice());
        let r = Polynomial::new(raw.as_slice());
        proof {
            lemma_reduce_canonical(raw@);
            assert forall|x: int| #![trigger r.eval(x)] r.eval(x) == fsub(
                self.eval(x),
                other.eval(x),
                p(),
            ) by {
                lemma_eval_sub(self@, other@, x);
            }
        }
        r
    }

    /// The product.
    pub fn mul(&self, other: &Polynomial) -> (r: Polynomial)
        ensures
            r.wf(),
            r@ == trim(mul_coeffs(self@, other@)),
            forall|x: int|
                #![trigger r.eval(x)]
                r.eval(x) == fmul(self.eval(x), other.eval(x), p()),
    {
        let raw = mul_vectors(self.coefficients.as_slice(), other.coefficients.as_slice());
        let r = Polynomial::new(raw.as_slice());
        proof {
            lemma_reduce_canonical(raw@);
            assert forall|x: int| #![trigger r.eval(x)] r.eval(x) == fmul(
                self.eval(x),
                other.eval(x),
                p(),
            ) by {
                lemma_eval_mul(self@, other@, x);
            }
        }
        r
    }
}

/// A sequence of canonical residues is its own reduction.
pub proof fn lemma_reduce_canonical(c: Seq<u32>)
    requires
        canonical(c),
    ensures
        reduce(c) == c,
{
    assert forall|i: int| 0 <= i < c.len() implies reduce(c)[i] == c[i] by {
        lemma_small_mod(c[i] as nat, p() as nat);
    }
    assert(reduce(c) =~= c);
}

/// The coefficients of the sum.
pub fn add_vectors(a: &[u32], b: &[u32]) -> (r: Vec<u32>)
    ensures
        r@ == add_coeffs(a@, b@),
        canonical(r@),
{
    let n: usize = if a.len() >= b.len() {
        a.len()
    } else {
        b.len()
    };
    let mut out: Vec<u32> = Vec::new();
    let mut i: usize = 0;
    while i < n
        invariant
            i <= n,
            n == add_coeffs(a@, b@).len(),
            out@.len() == i,
            forall|j: int| 0 <= j < i ==> out@[j] == add_coeffs(a@, b@)[j],
            forall|j: int| 0 <= j < i ==> (#[trigger] out@[j] as int) < p(),
        decreases n - i,
    {
        let x: u32 = if i < a.len() {
            a[i]
        } else {
            0
        };
        let y: u32 = if i < b.len() {
            b[i]
        } else {
            0
        };
        out.push(U32TestField::add(&x, &y));
        i = i + 1;
    }
    assert(out@ =~= add_coeffs(a@, b@));
    out
}

/// The coefficients of the difference.
pub fn sub_vectors(a: &[u32], b: &[u32]) -> (r: Vec<u32>)
    ensures
        r@ == sub_coeffs(a@, b@),
        canonical(r@),
{
    let n: usize = if a.len() >= b.len() {
        a.len()
    } else {
        b.len()
    };
    let mut out: Vec<u32> = Vec::new();
    let mut i: usize = 0;
    while i < n
        invariant
            i <= n,
            n == sub_coeffs(a@, b@).len(),
            out@.len() == i,
            forall|j: int| 0 <= j < i ==> out@[j] == sub_coeffs(a@, b@)[j],
            forall|j: int| 0 <= j < i ==> (#[trigger] out@[j] as int) < p(),
        decreases n - i,
    {
        let x: u32 = if i < a.len() {
            a[i]
        } else {
            0
        };
        let y: u32 = if i < b.len() {
            b[i]
        } else {
            0
        };
        out.push(U32TestField::sub(&x, &y));
        i = i + 1;
    }
    assert(out@ =~= sub_coeffs(a@, b@));
    out
}

/// The coefficients of `k` times the polynomial.
pub fn scalar_vector(c: &[u32], k: u32) -> (r: Vec<u32>)
    ensures
        r@ == scalar_coeffs(c@, k as int),
        canonical(r@),
{
    let mut out: Vec<u32> = Vec::new();
    let mut i: usize = 0;
    while i < c.len()
        invariant
            i <= c@.len(),
            out@.len() == i,
            forall|j: int| 0 <= j < i ==> out@[j] == scalar_coeffs(c@, k as int)[j],
            forall|j: int| 0 <= j < i ==> (#[trigger] out@[j] as int) < p(),
        decreases c@.len() - i,
    {
        out.push(U32TestField::mul(&k, &c[i]));
        i = i + 1;
    }
    assert(out@ =~= scalar_coeffs(c@, k as int));
    out
}

/// The coefficients of `X` times the polynomial.
pub fn shift_vector(c: &[u32]) -> (r: Vec<u32>)
    ensures
        r@ == shift_coeffs(c@),
{
    let mut out: Vec<u32> = Vec::new();
    out.push(0);
    let mut i: usize = 0;
    while i < c.len()
        invariant
            i <= c@.len(),
            out@ == seq![0u32] + c@.subrange(0, i as int),
        decreases c@.len() - i,
    {
        out.push(c[i]);
        i = i + 1;
        assert(c@.subrange(0, i as int) =~= c@.subrange(0, i - 1).push(c@[i - 1]));
    }
    assert(c@.subrange(0, c@.len() as int) =~= c@);
    out
}

/// The coefficients of the product.
pub fn mul_vectors(a: &[u32], b: &[u32]) -> (r: Vec<u32>)
    ensures
        r@ == mul_coeffs(a@, b@),
        canonical(r@),
{
    let mut acc: Vec<u32> = Vec::new();
    let mut i: usize = a.len();
    assert(a@.subrange(i as int, a@.len() as int).len() == 0);
    while i > 0
        invariant
            i <= a@.len(),
            acc@ == mul_coeffs(a@.subrange(i as int, a@.len() as int), b@),
            canonical(acc@),
        decreases i,
    {
        i = i - 1;
        proof {
            let tail = a@.subrange(i as int, a@.len() as int);
            assert(tail.drop_first() =~= a@.subrange(i + 1, a@.len() as int));
        }
        let scaled = scalar_vector(b, a[i]);
        let shifted = shift_vector(acc.as_slice());
        acc = add_vectors(scaled.as_slice(), shifted.as_slice());
    }
    assert(a@.subrange(0, a@.len() as int) =~= a@);
    acc
}

/// The coefficients of `P(Q(X))`.
pub fn compose_vectors(a: &[u32], q: &[u32]) -> (r: Vec<u32>)
    ensures
        r@ == compose_coeffs(a@, q@),
        canonical(r@),
{
    let mut acc: Vec<u32> = Vec::new();
    let mut i: usize = a.len();
    assert(a@.subrange(i as int, a@.len() as int).len() == 0);
    while i > 0
        invariant
            i <= a@.len(),
            acc@ == compose_coeffs(a@.subrange(i as int, a@.len() as int), q@),
            canonical(acc@),
        decreases i,
    {
        i = i - 1;
        proof {
            let tail = a@.subrange(i as int, a@.len() as int);
            assert(tail.drop_first() =~= a@.subrange(i + 1, a@.len() as int));
        }
        let product = mul_vectors(acc.as_slice(), q);
        let mut constant: Vec<u32> = Vec::new();
        constant.push(a[i]);
        assert(constant@ =~= seq![a@[i as int]]);
        acc = add_vectors(constant.as_slice(), product.as_slice());
    }
    assert(a@.subrange(0, a@.len() as int) =~= a@);
    acc
}

/// The polynomial `P(Q(X))`, by Horner's rule.
pub fn compose(poly: &Polynomial, inner: &Polynomial) -> (r: Polynomial)
    ensures
        r.wf(),
        r@ == trim(compose_coeffs(poly@, inner@)),
        forall|x: int| #![trigger r.eval(x)] r.eval(x) == poly.eval(inner.eval(x)),
{
    let raw = compose_vectors(poly.coefficients.as_slice(), inner.coefficients.as_slice());
    let r = Polynomial::new(raw.as_slice());
    proof {
        lemma_reduce_canonical(raw@);
        assert forall|x: int| #![trigger r.eval(x)] r.eval(x) == poly.eval(inner.eval(x)) by {
            lemma_eval_compose(poly@, inner@, x);
        }
    }
    r
}

/// One step of the long division of the polynomial with coefficients `r`
/// by the polynomial with coefficients `d`, whose quotient still has
/// `s + 1` coefficients to come: the coefficients of `r - lead * X^s * d`
/// without the highest one.
pub open spec fn division_step(r: Seq<u32>, d: Seq<u32>, lead: int, s: int) -> Seq<u32> {
    Seq::new(
        (r.len() - 1) as nat,
        |i: int|
            if i < s {
                r[i]
            } else {
                fsub(r[i] as int, fmul(lead, d[i - s] as int, p()), p()) as u32
            },
    )
}

/// What is left of the dividend `a` after `steps` steps of the long
/// division by `d`, whose leading coefficient has the inverse `lc_inv`:
/// each step takes off the multiple of `d` that cancels the leading
/// coefficient.
pub open spec fn division_remainder(a: Seq<u32>, d: Seq<u32>, lc_inv: int, steps: nat) -> Seq<u32>
    decreases steps,
{
    if steps == 0 {
        a
    } else {
        let r = division_remainder(a, d, lc_inv, (steps - 1) as nat);
        division_step(r, d, fmul(r.last() as int, lc_inv, p()), r.len() - d.len())
    }
}

/// The coefficients of the quotient of the long division of `a` by `d`:
/// the coefficient of degree `s` is the leading coefficient of what is
/// left when the coefficients of higher degree have been found, divided by
/// the leading coefficient of `d`.
pub open spec fn division_quotient(a: Seq<u32>, d: Seq<u32>, lc_inv: int) -> Seq<u32> {
    let count = a.len() - d.len() + 1;
    Seq::new(
        count as nat,
        |s: int|
            fmul(
                division_remainder(a, d, lc_inv, (count - 1 - s) as nat).last() as int,
                lc_inv,
                p(),
            ) as u32,
    )
}

/// Quotient and remainder of the long division of `a` by `d`, both
/// trimmed, for a divisor other than zero.
pub open spec fn long_division(a: Seq<u32>, d: Seq<u32>) -> (Seq<u32>, Seq<u32>) {
    if a.len() < d.len() {
        (Seq::empty(), a)
    } else {
        let lc_inv = finv(d.last() as int, p());
        (
            trim(division_quotient(a, d, lc_inv)),
            trim(division_remainder(a, d, lc_inv, (a.len() - d.len() + 1) as nat)),
        )
    }
}

/// A polynomial without zeros at its end is its own trimming.
pub proof fn lemma_trim_wf(c: Seq<u32>)
    requires
        c.len() > 0 ==> c.last() != 0,
    ensures
        trim(c) == c,
{
}

/// A step of the long division takes `lead * X^s * d` off the remainder,
/// provided that `lead` times the leading coefficient of `d` is the
/// leading coefficient of the remainder.
pub proof fn lemma_division_step(r: Seq<u32>, d: Seq<u32>, lead: int, s: int, x: int)
    requires
        d.len() >= 1,
        s >= 0,
        r.len() == s + d.len(),
        cong(lead * (d.last() as int), r.last() as int, p()),
    ensures
        cong(
            poly_eval(division_step(r, d, lead, s), x) + pow(x, s as nat) * (lead * poly_eval(d, x)),
            poly_eval(r, x),
            p(),
        ),
{
    let m = p();
    let lo = r.subrange(0, s);
    let hi = r.subrange(s, r.len() as int);
    let full = Seq::new(
        d.len(),
        |i: int| fsub(hi[i] as int, fmul(lead, d[i] as int, m), m) as u32,
    );
    let next = division_step(r, d, lead, s);
    let joined = lo + full;
    assert(r =~= lo + hi);
    // the highest coefficient of the difference is zero
    let top = d.len() - 1;
    lemma_sub_mod_noop_right(hi[top] as int, lead * (d[top] as int), m);
    crate::modular::lemma_cong_sub(hi[top] as int, r.last() as int, lead * (d[top] as int), r.last() as int, m);
    assert(full[top] == 0);
    assert(joined.subrange(0, joined.len() - 1) =~= next);
    assert forall|i: int| joined.len() - 1 <= i < joined.len() implies joined[i] == 0 by {}
    lemma_eval_truncate(joined, joined.len() - 1, x);
    // the value of the difference
    assert forall|j: int| 0 <= j < hi.len() implies (#[trigger] full[j]) as int == (hi[j] as int
        + (-lead) * (d[j] as int)) % m by {
        lemma_sub_mod_noop_right(hi[j] as int, lead * (d[j] as int), m);
        assert(hi[j] as int + (-lead) * (d[j] as int) == hi[j] as int - lead * (d[j] as int))
            by (nonlinear_arith);
    }
    lemma_eval_combine(hi, d, -lead, full, x);
    crate::poly_eval::lemma_eval_split(lo, hi, x);
    crate::poly_eval::lemma_eval_split(lo, full, x);
    let (el, eh, ed) = (poly_eval(lo, x), poly_eval(hi, x), poly_eval(d, x));
    let xs = pow(x, s as nat);
    lemma_cong_mod(eh + (-lead) * ed, m);
    lemma_cong_mul(xs, xs, poly_eval(full, x), eh + (-lead) * ed, m);
    lemma_cong_add(el, el, xs * poly_eval(full, x), xs * (eh + (-lead) * ed), m);
    lemma_cong_mod(el + xs * poly_eval(full, x), m);
    lemma_cong_mod(el + xs * eh, m);
    let back = xs * (lead * ed);
    lemma_cong_add(poly_eval(next, x), el + xs * (eh + (-lead) * ed), back, back, m);
    assert(el + xs * (eh + (-lead) * ed) + xs * (lead * ed) == el + xs * eh)
        by (nonlinear_arith);
}

impl Polynomial {
    /// Whether the long division by a polynomial with the coefficients `d`
    /// can be carried out: `d` is not the zero polynomial and its leading
    /// coefficient has an inverse.
    pub open spec fn divides(d: Seq<u32>) -> bool {
        let t = trim(reduce(d));
        t.len() > 0 && invertible(t.last() as int)
    }

    /// Quotient and remainder of the long division by `divisor`: the
    /// remainder is shorter than the divisor, and quotient times divisor
    /// plus remainder is the dividend. There is no division by the zero
    /// polynomial, nor by one whose leading coefficient has no inverse.
    pub fn long_division_with_remainder(&self, divisor: &Polynomial) -> (r: Option<
        (Polynomial, Polynomial),
    >)
        ensures
            r is Some <==> Self::divides(divisor@),
            r matches Some((q, rem)) ==> {
                &&& q.wf()
                &&& rem.wf()
                &&& (q@, rem@) == long_division(trim(reduce(self@)), trim(reduce(divisor@)))
                &&& rem@.len() < trim(reduce(divisor@)).len()
                &&& q@.len() + trim(reduce(divisor@)).len() <= trim(reduce(self@)).len() + 1
                    || q@.len() == 0
                &&& forall|x: int|
                    #![trigger q.eval(x)]
                    self.eval(x) == fadd(fmul(q.eval(x), divisor.eval(x), p()), rem.eval(x), p())
            },
    {
        let a = Polynomial::new(self.coefficients.as_slice());
        let d = Polynomial::new(divisor.coefficients.as_slice());
        let dl: usize = d.coefficients.len();
        if dl == 0 {
            return None;
        }
        let lc: u32 = d.coefficients[dl - 1];
        proof {
            lemma_small_mod(lc as nat, p() as nat);
        }
        let lc_inv: u32 = U32TestField::inv(&lc);
        if U32TestField::mul(&lc, &lc_inv) != 1 {
            return None;
        }
        let al: usize = a.coefficients.len();
        if al < dl {
            let q = Polynomial::zero();
            proof {
                assert(q@ =~= Seq::<u32>::empty());
                assert forall|x: int| #![trigger q.eval(x)] self.eval(x) == fadd(
                    fmul(q.eval(x), divisor.eval(x), p()),
                    a.eval(x),
                    p(),
                ) by {
                    lemma_mul_basics(divisor.eval(x));
                    lemma_eval_range(a@, x);
                    lemma_small_mod(a.eval(x) as nat, p() as nat);
                }
            }
            return Some((q, a));
        }
        let ql: usize = al - dl + 1;
        let mut quotient: Vec<u32> = Vec::new();
        let mut i: usize = 0;
        while i < ql
            invariant
                i <= ql,
                quotient@ == zeros(i as nat),
            decreases ql - i,
        {
            quotient.push(0);
            i = i + 1;
            assert(zeros(i as nat) =~= zeros((i - 1) as nat).push(0u32));
        }
        proof {
            assert forall|x: int| #[trigger] poly_eval(a@, x) == self.eval(x) by {
                assert(a.eval(x) == self.eval(x));
            }
            assert forall|x: int| #[trigger] poly_eval(d@, x) == divisor.eval(x) by {
                assert(d.eval(x) == divisor.eval(x));
            }
        }
        let mut rem: Vec<u32> = a.coefficients;
        let ghost dividend = rem@;
        let mut t: usize = ql;
        proof {
            assert(quotient@.subrange(ql as int, ql as int).len() == 0);
            assert forall|x: int| cong(
                pow(x, t as nat) * (poly_eval(quotient@.subrange(t as int, ql as int), x)
                    * poly_eval(d@, x)) + poly_eval(rem@, x),
                poly_eval(dividend, x),
                p(),
            ) by {
                lemma_mul_basics(poly_eval(d@, x));
                lemma_mul_basics(pow(x, t as nat));
            }
        }
        while t > 0
            invariant
                t <= ql,
                dl >= 1,
                dl == d@.len(),
                d.wf(),
                lc == d@.last(),
                lc_inv < TEST_FIELD_MODULUS,
                (lc as int * lc_inv as int) % p() == 1,
                quotient@.len() == ql,
                canonical(quotient@),
                rem@.len() == t + dl - 1,
                canonical(rem@),
                ql == dividend.len() - dl + 1,
                lc_inv == finv(lc as int, p()),
                rem@ == division_remainder(dividend, d@, lc_inv as int, (ql - t) as nat),
                forall|s: int|
                    t <= s < ql ==> quotient@[s] == division_quotient(
                        dividend,
                        d@,
                        lc_inv as int,
                    )[s],
                forall|x: int|
                    cong(
                        pow(x, t as nat) * (#[trigger] poly_eval(
                            quotient@.subrange(t as int, ql as int),
                            x,
                        ) * poly_eval(d@, x)) + poly_eval(rem@, x),
                        poly_eval(dividend, x),
                        p(),
                    ),
            decreases t,
        {
            let s: usize = t - 1;
            assert(rem@.len() == rem.len());
            let top: u32 = rem[s + dl - 1];
            let lead: u32 = U32TestField::mul(&top, &lc_inv);
            let ghost old_rem = rem@;
            let ghost old_quotient = quotient@;
            let mut next: Vec<u32> = Vec::new();
            let mut j: usize = 0;
            while j < s + dl - 1
                invariant
                    j <= s + dl - 1,
                    rem@ == old_rem,
                    canonical(old_rem),
                    rem@.len() == s + dl,
                    s + dl <= usize::MAX,
                    dl == d@.len(),
                    next@.len() == j,
                    forall|k: int|
                        0 <= k < j ==> next@[k] == division_step(old_rem, d@, lead as int, s as int)[k],
                    forall|k: int| 0 <= k < j ==> (#[trigger] next@[k] as int) < p(),
                decreases s + dl - 1 - j,
            {
                if j < s {
                    next.push(rem[j]);
                } else {
                    let scaled: u32 = U32TestField::mul(&lead, &d.coefficients[j - s]);
                    next.push(U32TestField::sub(&rem[j], &scaled));
                }
                j = j + 1;
            }
            assert(next@ =~= division_step(old_rem, d@, lead as int, s as int));
            quotient.set(s, lead);
            rem = next;
            proof {
                assert(old_rem.last() == top);
                assert(rem@ == division_remainder(dividend, d@, lc_inv as int, (ql - s) as nat));
                assert(quotient@[s as int] == division_quotient(dividend, d@, lc_inv as int)[s as int]);
            }
            proof {
                let m = p();
                let q_new = quotient@.subrange(s as int, ql as int);
                let q_old = old_quotient.subrange(t as int, ql as int);
                assert(q_new.drop_first() =~= q_old);
                assert(quotient@.subrange(t as int, ql as int) =~= q_old);
                // lead * lc = top
                lemma_cong_mod(top as int * lc_inv as int, m);
                lemma_cong_mul(lead as int, top as int * lc_inv as int, lc as int, lc as int, m);
                assert((top as int * lc_inv as int) * lc as int == top as int * (lc as int
                    * lc_inv as int)) by (nonlinear_arith);
                lemma_cong_mul(top as int, top as int, lc as int * lc_inv as int, 1, m);
                lemma_mul_basics(top as int);
                assert forall|x: int| cong(
                    pow(x, s as nat) * (#[trigger] poly_eval(
                        quotient@.subrange(s as int, ql as int),
                        x,
                    ) * poly_eval(d@, x)) + poly_eval(rem@, x),
                    poly_eval(dividend, x),
                    m,
                ) by {
                    lemma_division_step(old_rem, d@, lead as int, s as int, x);
                    let eq_old = poly_eval(q_old, x);
                    let ed = poly_eval(d@, x);
                    let xs = pow(x, s as nat);
                    lemma_pow_adds(x, s as nat, 1);
                    lemma_pow1(x);
                    assert(cong(
                        pow(x, t as nat) * (eq_old * ed) + poly_eval(old_rem, x),
                        poly_eval(dividend, x),
                        m,
                    ));
                    // the new quotient: lead + x * eq_old
                    lemma_cong_mod(lead as int + x * eq_old, m);
                    lemma_cong_mul(poly_eval(q_new, x), lead as int + x * eq_old, ed, ed, m);
                    lemma_cong_mul(xs, xs, poly_eval(q_new, x) * ed, (lead as int + x * eq_old) * ed, m);
                    lemma_cong_add(
                        xs * (poly_eval(q_new, x) * ed),
                        xs * ((lead as int + x * eq_old) * ed),
                        poly_eval(rem@, x),
                        poly_eval(rem@, x),
                        m,
                    );
                    assert(xs * ((lead as int + x * eq_old) * ed) + poly_eval(rem@, x) == (poly_eval(
                        rem@,
                        x,
                    ) + xs * (lead as int * ed)) + pow(x, t as nat) * (eq_old * ed))
                        by (nonlinear_arith)
                        requires
                            pow(x, t as nat) == xs * x,
                    ;
                    lemma_cong_add(
                        poly_eval(rem@, x) + xs * (lead as int * ed),
                        poly_eval(old_rem, x),
                        pow(x, t as nat) * (eq_old * ed),
                        pow(x, t as nat) * (eq_old * ed),
                        m,
                    );
                }
            }
            t = s;
        }
        let q = Polynomial::new(quotient.as_slice());
        let remainder = Polynomial::new(rem.as_slice());
        proof {
            let m = p();
            assert(quotient@.subrange(0, ql as int) =~= quotient@);
            lemma_reduce_canonical(quotient@);
            lemma_reduce_canonical(rem@);
            assert forall|x: int| #![trigger q.eval(x)] self.eval(x) == fadd(
                fmul(q.eval(x), divisor.eval(x), p()),
                remainder.eval(x),
                p(),
            ) by {
                lemma_trim(quotient@, x);
                lemma_trim(rem@, x);
                lemma_pow0(x);
                let e = poly_eval(quotient@.subrange(0, ql as int), x) * poly_eval(d@, x);
                lemma_mul_basics(e);
                assert(q.eval(x) == poly_eval(quotient@, x));
                assert(remainder.eval(x) == poly_eval(rem@, x));
                assert(poly_eval(d@, x) == divisor.eval(x));
                assert(poly_eval(dividend, x) == self.eval(x));
                assert(cong(e + poly_eval(rem@, x), poly_eval(dividend, x), m));
                lemma_cong_mod(q.eval(x) * divisor.eval(x), m);
                lemma_cong_add(
                    fmul(q.eval(x), divisor.eval(x), m),
                    q.eval(x) * divisor.eval(x),
                    remainder.eval(x),
                    remainder.eval(x),
                    m,
                );
                lemma_eval_range(self@, x);
                lemma_small_mod(self.eval(x) as nat, m as nat);
            }
            lemma_trim(quotient@, 0);
            lemma_trim(rem@, 0);
            assert(quotient@ =~= division_quotient(dividend, d@, lc_inv as int));
        }
        Some((q, remainder))
    }

    /// The quotient of the long division by `divisor`.
    pub fn div(&self, divisor: &Polynomial) -> (r: Option<Polynomial>)
        ensures
            r is Some <==> Self::divides(divisor@),
            r matches Some(q) ==> q.wf() && q@ == long_division(
                trim(reduce(self@)),
                trim(reduce(divisor@)),
            ).0,
    {
        match self.long_division_with_remainder(divisor) {
            Some((q, _)) => Some(q),
            None => None,
        }
    }
}

/// The coefficients of `X - root`.
pub fn linear_factor(root: u32) -> (r: Vec<u32>)
    ensures
        r@ == seq![crate::field::fneg(root as int, p()) as u32, 1u32],
        forall|x: int| #[trigger] poly_eval(r@, x) == fsub(x, root as int, p()),
{
    let mut factor: Vec<u32> = Vec::new();
    factor.push(U32TestField::neg(&root));
    factor.push(1);
    assert(factor@ =~= seq![crate::field::fneg(root as int, p()) as u32, 1u32]);
    proof {
        let m = p();
        assert forall|x: int| #[trigger] poly_eval(factor@, x) == fsub(x, root as int, m) by {
            let one = factor@.drop_first();
            assert(one.drop_first().len() == 0);
            assert(poly_eval(one.drop_first(), x) == 0);
            lemma_mul_basics(x);
            assert(poly_eval(one, x) == 1);
            lemma_sub_mod_noop(x, root as int, m);
            lemma_add_mod_noop(-(root as int), x, m);
            lemma_mod_bound(x, m);
            lemma_mod_twice(-(root as int), m);
            lemma_add_mod_noop(factor@[0] as int, x, m);
        }
    }
    factor
}

/// The product of `x - xs[j]` over the `j` below `k` other than `i`.
pub open spec fn node_product(xs: Seq<u32>, i: int, x: int, k: nat) -> int
    decreases k,
{
    if k == 0 {
        1
    } else if k - 1 == i {
        node_product(xs, i, x, (k - 1) as nat)
    } else {
        fmul(node_product(xs, i, x, (k - 1) as nat), fsub(x, xs[k - 1] as int, p()), p())
    }
}

/// The denominator of the Lagrange basis polynomial of node `i`: the
/// product of the differences between node `i` and the other nodes.
pub open spec fn lagrange_denominator(xs: Seq<u32>, i: int) -> int {
    node_product(xs, i, xs[i] as int, xs.len())
}

/// The sum of the first `t` terms of the Lagrange form at `x`: term `i`
/// is `ys[i]` times the basis polynomial of node `i`.
pub open spec fn lagrange_sum(xs: Seq<u32>, ys: Seq<u32>, x: int, t: nat) -> int
    decreases t,
{
    if t == 0 {
        0
    } else {
        let i = t - 1;
        fadd(
            lagrange_sum(xs, ys, x, i as nat),
            fmul(
                fmul(ys[i] as int, finv(lagrange_denominator(xs, i), p()), p()),
                node_product(xs, i, x, xs.len()),
                p(),
            ),
            p(),
        )
    }
}

/// The nodes can be interpolated on: the denominator of every basis
/// polynomial has an inverse. In a field that is the case exactly when the
/// nodes are distinct.
pub open spec fn nodes_separate(xs: Seq<u32>) -> bool {
    forall|i: int| 0 <= i < xs.len() ==> invertible(#[trigger] lagrange_denominator(xs, i))
}

/// The nodes stand for pairwise different residues.
pub open spec fn nodes_distinct(xs: Seq<u32>) -> bool {
    forall|i: int, j: int|
        0 <= i < xs.len() && 0 <= j < xs.len() && i != j ==> #[trigger] (xs[i] as int % p())
            != #[trigger] (xs[j] as int % p())
}

/// The product of the differences depends on the residue of the point
/// only.
pub proof fn lemma_node_product_cong(xs: Seq<u32>, i: int, x: int, y: int, k: nat)
    requires
        x % p() == y % p(),
    ensures
        node_product(xs, i, x, k) == node_product(xs, i, y, k),
    decreases k,
{
    if k > 0 {
        lemma_node_product_cong(xs, i, x, y, (k - 1) as nat);
        if k - 1 != i {
            lemma_sub_mod_noop(x, xs[k - 1] as int, p());
            lemma_sub_mod_noop(y, xs[k - 1] as int, p());
        }
    }
}

/// Nodes that can be interpolated on stand for pairwise different
/// residues: where two nodes stand for the same residue, the denominator
/// of the basis polynomial of either holds the factor zero. So
/// `Polynomial::interpolate` returns `None` for nodes that are not
/// distinct.
pub proof fn lemma_separate_nodes_distinct(xs: Seq<u32>)
    requires
        nodes_separate(xs),
    ensures
        nodes_distinct(xs),
{
    assert forall|i: int, j: int|
        0 <= i < xs.len() && 0 <= j < xs.len() && i != j implies #[trigger] (xs[i] as int % p())
        != #[trigger] (xs[j] as int % p()) by {
        if xs[i] as int % p() == xs[j] as int % p() {
            lemma_node_product_zero(xs, i, j, xs.len());
            lemma_node_product_cong(xs, i, xs[i] as int, xs[j] as int, xs.len());
            assert(lagrange_denominator(xs, i) == 0);
            assert(invertible(lagrange_denominator(xs, i)));
        }
    }
}

/// A product that holds the factor of a node vanishes at that node.
pub proof fn lemma_node_product_zero(xs: Seq<u32>, i: int, k: int, t: nat)
    requires
        0 <= k < t,
        k != i,
    ensures
        node_product(xs, i, xs[k] as int, t) == 0,
    decreases t,
{
    let x = xs[k] as int;
    if t - 1 == k {
        lemma_mul_basics(node_product(xs, i, x, (t - 1) as nat));
    } else {
        lemma_node_product_zero(xs, i, k, (t - 1) as nat);
        if t - 1 != i {
            lemma_mul_basics(fsub(x, xs[t - 1] as int, p()));
        }
    }
}

pub proof fn lemma_node_product_range(xs: Seq<u32>, i: int, x: int, k: nat)
    ensures
        0 <= node_product(xs, i, x, k) < p(),
    decreases k,
{
    if k > 0 {
        lemma_node_product_range(xs, i, x, (k - 1) as nat);
        if k - 1 != i {
            lemma_mod_bound(
                node_product(xs, i, x, (k - 1) as nat) * fsub(x, xs[k - 1] as int, p()),
                p(),
            );
        }
    }
}

/// At node `k` the Lagrange form takes the value `ys[k]`, once the term of
/// node `k` is in the sum; before that it vanishes.
pub proof fn lemma_lagrange_at_node(xs: Seq<u32>, ys: Seq<u32>, k: int, t: nat)
    requires
        0 <= k < xs.len(),
        t <= xs.len(),
        invertible(lagrange_denominator(xs, k)),
    ensures
        lagrange_sum(xs, ys, xs[k] as int, t) == (if k < t {
            ys[k] as int % p()
        } else {
            0
        }),
    decreases t,
{
    let m = p();
    let x = xs[k] as int;
    if t > 0 {
        let i = t - 1;
        lemma_lagrange_at_node(xs, ys, k, i as nat);
        let c = fmul(ys[i] as int, finv(lagrange_denominator(xs, i), m), m);
        if i != k {
            lemma_node_product_zero(xs, i, k, xs.len());
            lemma_mul_basics(c);
            if k < i {
                lemma_mod_twice(ys[k] as int, m);
            }
        } else {
            let d = lagrange_denominator(xs, k);
            lemma_node_product_range(xs, k, x, xs.len());
            lemma_small_mod(d as nat, m as nat);
            let y = ys[k] as int;
            // (y * inv(d)) * d = y * (d * inv(d)) = y
            lemma_cong_mod(y * finv(d, m), m);
            lemma_cong_mul(c, y * finv(d, m), d, d, m);
            assert((y * finv(d, m)) * d == y * (d * finv(d, m))) by (nonlinear_arith);
            lemma_cong_mul(y, y, d * finv(d, m), 1, m);
            lemma_mul_basics(y);
            lemma_mod_twice(y, m);
        }
    }
}

impl Polynomial {
    /// The polynomial of degree below the number of nodes that takes the
    /// value `ys[i]` at the node `xs[i]`, in Lagrange's form. There is none
    /// unless there are as many values as nodes and the nodes are
    /// separate; nodes of which two stand for the same residue are not.
    pub fn interpolate(xs: &[u32], ys: &[u32]) -> (r: Option<Polynomial>)
        ensures
            r is Some <==> xs@.len() == ys@.len() && nodes_separate(xs@),
            r is Some ==> nodes_distinct(xs@),
            r matches Some(poly) ==> {
                &&& poly.wf()
                &&& forall|x: int| #![trigger poly.eval(x)] poly.eval(x) == lagrange_sum(xs@, ys@, x, xs@.len())
                &&& forall|i: int|
                    0 <= i < xs@.len() ==> poly.eval(#[trigger] xs@[i] as int) == ys@[i] as int % p()
            },
    {
        let n: usize = xs.len();
        if ys.len() != n {
            return None;
        }
        proof {
            if nodes_separate(xs@) {
                lemma_separate_nodes_distinct(xs@);
            }
        }
        let mut acc: Vec<u32> = Vec::new();
        let mut i: usize = 0;
        while i < n
            invariant
                i <= n,
                n == xs@.len(),
                n == ys@.len(),
                nodes_separate(xs@) ==> nodes_distinct(xs@),
                forall|j: int| 0 <= j < i ==> invertible(#[trigger] lagrange_denominator(xs@, j)),
                forall|x: int| #[trigger] poly_eval(acc@, x) == lagrange_sum(xs@, ys@, x, i as nat),
            decreases n - i,
        {
            // the numerator of the basis polynomial of node i
            let mut numerator: Vec<u32> = Vec::new();
            numerator.push(1);
            proof {
                assert forall|x: int| #[trigger] poly_eval(numerator@, x) == node_product(
                    xs@,
                    i as int,
                    x,
                    0,
                ) by {
                    assert(numerator@.len() == 1);
                    assert(numerator@.drop_first().len() == 0);
                    assert(poly_eval(numerator@.drop_first(), x) == 0);
                    lemma_mul_basics(x);
                    assert(numerator@[0] == 1);
                    assert(poly_eval(numerator@, x) == (1 + x * 0) % p());
                    assert(node_product(xs@, i as int, x, 0) == 1);
                }
            }
            let mut j: usize = 0;
            while j < n
                invariant
                    j <= n,
                    n == xs@.len(),
                    i < n,
                    forall|x: int|
                        #[trigger] poly_eval(numerator@, x) == node_product(
                            xs@,
                            i as int,
                            x,
                            j as nat,
                        ),
                decreases n - j,
            {
                if j != i {
                    let factor = linear_factor(xs[j]);
                    let ghost before = numerator@;
                    numerator = mul_vectors(numerator.as_slice(), factor.as_slice());
                    proof {
                        assert forall|x: int| #[trigger] poly_eval(numerator@, x) == node_product(
                            xs@,
                            i as int,
                            x,
                            (j + 1) as nat,
                        ) by {
                            lemma_eval_mul(before, factor@, x);
                            assert(poly_eval(before, x) == node_product(xs@, i as int, x, j as nat));
                            assert(poly_eval(factor@, x) == fsub(x, xs@[j as int] as int, p()));
                        }
                    }
                }
                j = j + 1;
            }
            let denominator: u32 = evaluate(numerator.as_slice(), xs[i]);
            proof {
                assert(poly_eval(numerator@, xs@[i as int] as int) == node_product(
                    xs@,
                    i as int,
                    xs@[i as int] as int,
                    n as nat,
                ));
                assert(denominator as int == lagrange_denominator(xs@, i as int));
                lemma_small_mod(denominator as nat, p() as nat);
            }
            if denominator == 0 {
                proof {
                    assert(!invertible(lagrange_denominator(xs@, i as int)));
                }
                return None;
            }
            let inverse: u32 = U32TestField::inv(&denominator);
            proof {
                lemma_small_mod(denominator as nat, p() as nat);
            }
            if U32TestField::mul(&denominator, &inverse) != 1 {
                proof {
                    assert(!invertible(lagrange_denominator(xs@, i as int)));
                }
                return None;
            }
            let weight: u32 = U32TestField::mul(&ys[i], &inverse);
            let term = scalar_vector(numerator.as_slice(), weight);
            let ghost before = acc@;
            acc = add_vectors(acc.as_slice(), term.as_slice());
            proof {
                assert forall|x: int| #[trigger] poly_eval(acc@, x) == lagrange_sum(
                    xs@,
                    ys@,
                    x,
                    (i + 1) as nat,
                ) by {
                    lemma_eval_add(before, term@, x);
                    lemma_eval_scalar(numerator@, weight as int, x);
                    assert(poly_eval(before, x) == lagrange_sum(xs@, ys@, x, i as nat));
                    assert(poly_eval(numerator@, x) == node_product(xs@, i as int, x, n as nat));
                }
            }
            i = i + 1;
        }
        let poly = Polynomial::new(acc.as_slice());
        proof {
            assert forall|x: int| #![trigger poly.eval(x)] poly.eval(x) == lagrange_sum(
                xs@,
                ys@,
                x,
                xs@.len(),
            ) by {
                assert(poly_eval(acc@, x) == lagrange_sum(xs@, ys@, x, n as nat));
            }
            assert forall|k: int| 0 <= k < xs@.len() implies poly.eval(#[trigger] xs@[k] as int)
                == ys@[k] as int % p() by {
                lemma_lagrange_at_node(xs@, ys@, k, xs@.len());
            }
        }
        Some(poly)
    }
}

/// The polynomial in Lagrange's form takes the given values at its nodes:
/// for nodes that are separate and as many values as nodes, the value at
/// node `i` is `ys[i]`.
pub proof fn lemma_interpolation_at_nodes(xs: Seq<u32>, ys: Seq<u32>, i: int)
    requires
        xs.len() == ys.len(),
        nodes_separate(xs),
        0 <= i < xs.len(),
    ensures
        lagrange_sum(xs, ys, xs[i] as int, xs.len()) == ys[i] as int % p(),
{
    lemma_lagrange_at_node(xs, ys, i, xs.len());
}

} // verus!
