//! Cosets of the subgroups of two-power order: the evaluation domains of
//! the low-degree extension and of the layers of FRI.

use crate::errors::FFTError;
use crate::evaluation::coset_point;
use crate::fft::lemma_log2_pow2;
use crate::fft::log2;
use crate::field::TEST_FIELD_MODULUS;
use crate::field::U32TestField;
use crate::field::finv;
use crate::field::fmul;
use crate::field::fpow;
use crate::field::p;
use crate::modular::cong;
use crate::modular::lemma_cong_mod;
use crate::modular::lemma_cong_mul;
use crate::modular::lemma_cong_multiple;
use crate::roots_of_unity::TWO_ADICITY;
use crate::roots_of_unity::get_primitive_root_of_unity;
use crate::roots_of_unity::lemma_fpow_adds;
use crate::roots_of_unity::lemma_fpow_fpow;
use crate::roots_of_unity::lemma_root_of_unity_order;
use crate::roots_of_unity::pow2_u64;
use crate::roots_of_unity::root_of_unity;
use vstd::arithmetic::div_mod::*;
use vstd::arithmetic::mul::*;
use vstd::arithmetic::power2::*;
use vstd::arithmetic::power::*;
use vstd::prelude::*;

verus! {

/// The coset `offset * <g>` of the subgroup of order `2^order`, with its
/// points in the order of the powers of the designated root `g`.
#[derive(Clone, Copy, Debug, PartialEq, Eq)]
pub struct Coset {
    /// The exponent `k` of the size `2^k`.
    pub order: u64,
    /// The number of points.
    pub size: usize,
    /// The offset `h`.
    pub offset: u32,
    /// The inverse of the offset.
    pub offset_inv: u32,
    /// The designated root of unity of order `2^k`.
    pub generator: u32,
}

/// The inverse of the point of index `j` of the coset of offset `h`, given
/// the inverse `h_inv` of the offset.
pub open spec fn coset_point_inv(len: nat, h_inv: int, j: nat) -> int {
    fmul(h_inv, fpow(root_of_unity(log2(len)), (len - j) as nat, p()), p())
}

impl Coset {
    /// The fields agree with each other: the size is `2^order`, the
    /// generator is the field's root of that order, and the offset and its
    /// inverse are canonical residues whose product is one.
    pub open spec fn wf(&self) -> bool {
        &&& self.order <= TWO_ADICITY
        &&& self.size == pow2(self.order as nat)
        &&& self.generator == root_of_unity(self.order as nat)
        &&& self.offset < TEST_FIELD_MODULUS
        &&& self.offset_inv < TEST_FIELD_MODULUS
        &&& (self.offset as int * self.offset_inv as int) % p() == 1
    }

    /// The point of index `j`.
    pub open spec fn point_spec(&self, j: nat) -> int {
        coset_point(self.size as nat, self.offset as int, j)
    }

    /// The inverse of the point of index `j`.
    pub open spec fn point_inv_spec(&self, j: nat) -> int {
        coset_point_inv(self.size as nat, self.offset_inv as int, j)
    }

    /// The coset of offset `offset` in the subgroup of order `2^order`. An
    /// order above the two-adicity of the field is reported as
    /// `RootOfUnityError`, an offset without an inverse as `OffsetError`.
    pub fn new(order: u64, offset: u32) -> (r: Result<Coset, FFTError>)
        ensures
            r is Ok <==> order <= TWO_ADICITY && invertible(offset as int),
            r matches Err(e) ==> e == (if order > TWO_ADICITY {
                FFTError::RootOfUnityError(order)
            } else {
                FFTError::OffsetError(offset)
            }),
            r matches Ok(c) ==> {
                &&& c.wf()
                &&& c.order == order
                &&& c.offset == offset as int % p()
                &&& c.offset_inv == finv(offset as int % p(), p())
            },
    {
        let generator = match get_primitive_root_of_unity(order) {
            Ok(g) => g,
            Err(e) => {
                return Err(e);
            },
        };
        let h: u32 = U32TestField::representative(&offset);
        if h == 0 {
            return Err(FFTError::OffsetError(offset));
        }
        let h_inv: u32 = U32TestField::inv(&h);
        if U32TestField::mul(&h, &h_inv) != 1 {
            return Err(FFTError::OffsetError(offset));
        }
        proof {
            lemma2_to64();
            if order < 27 {
                lemma_pow2_strictly_increases(order as nat, 27);
            }
        }
        let size: usize = pow2_u64(order) as usize;
        Ok(Coset { order, size, offset: h, offset_inv: h_inv, generator })
    }

    /// The point of index `j`.
    pub fn point(&self, j: usize) -> (r: u32)
        requires
            self.wf(),
        ensures
            r == self.point_spec(j as nat),
            r < TEST_FIELD_MODULUS,
    {
        proof {
            lemma_log2_pow2(self.order as nat);
        }
        let g: u32 = U32TestField::pow(&self.generator, j as u64);
        U32TestField::mul(&self.offset, &g)
    }

    /// The inverse of the point of index `j`.
    pub fn point_inv(&self, j: usize) -> (r: u32)
        requires
            self.wf(),
            j <= self.size,
        ensures
            r == self.point_inv_spec(j as nat),
            r < TEST_FIELD_MODULUS,
            (self.point_spec(j as nat) * r) % p() == 1,
    {
        proof {
            lemma_log2_pow2(self.order as nat);
            lemma_coset_point_inverse(
                self.order as nat,
                self.offset as int,
                self.offset_inv as int,
                j as nat,
            );
        }
        let g: u32 = U32TestField::pow(&self.generator, (self.size - j) as u64);
        U32TestField::mul(&self.offset_inv, &g)
    }

    /// The coset of the squares of the points: half the size, for a coset
    /// of at least two points.
    pub fn squared(&self) -> (r: Coset)
        requires
            self.wf(),
            self.order >= 1,
        ensures
            r.wf(),
            r.order == self.order - 1,
            r.size == self.size / 2,
            r.offset == fmul(self.offset as int, self.offset as int, p()),
            r.offset_inv == fmul(self.offset_inv as int, self.offset_inv as int, p()),
    {
        proof {
            lemma_pow2_unfold(self.order as nat);
            lemma_root_squared(self.order as nat);
            let (h, hi) = (self.offset as int, self.offset_inv as int);
            lemma_cong_mod(h * h, p());
            lemma_cong_mod(hi * hi, p());
            lemma_cong_mul(fmul(h, h, p()), h * h, fmul(hi, hi, p()), hi * hi, p());
            assert((h * h) * (hi * hi) == (h * hi) * (h * hi)) by (nonlinear_arith);
            lemma_cong_mul(h * hi, 1, h * hi, 1, p());
        }
        Coset {
            order: self.order - 1,
            size: self.size / 2,
            offset: U32TestField::mul(&self.offset, &self.offset),
            offset_inv: U32TestField::mul(&self.offset_inv, &self.offset_inv),
            generator: U32TestField::mul(&self.generator, &self.generator),
        }
    }
}

/// Whether the field's inverse of the residue of `a` is its inverse
/// indeed: `a` is no multiple of `p`, and its product with its power of
/// exponent `p - 2` is one.
pub open spec fn invertible(a: int) -> bool {
    a % p() != 0 && ((a % p()) * finv(a % p(), p())) % p() == 1
}

/// The square of the designated root of order `2^k` is the designated root
/// of order `2^(k - 1)`.
pub proof fn lemma_root_squared(k: nat)
    requires
        1 <= k <= TWO_ADICITY,
    ensures
        root_of_unity((k - 1) as nat) == fmul(root_of_unity(k), root_of_unity(k), p()),
{
    let r = crate::roots_of_unity::TWO_ADIC_PRIMITVE_ROOT_OF_UNITY as int;
    let e = pow2((TWO_ADICITY - k) as nat);
    lemma_pow2_unfold((TWO_ADICITY - k + 1) as nat);
    lemma_fpow_adds(r, e, e);
}

/// The point of index `j` times the inverse point of index `j` is one.
pub proof fn lemma_coset_point_inverse(k: nat, h: int, h_inv: int, j: nat)
    requires
        k <= TWO_ADICITY,
        j <= pow2(k),
        (h * h_inv) % p() == 1,
    ensures
        (coset_point(pow2(k), h, j) * coset_point_inv(pow2(k), h_inv, j)) % p() == 1,
{
    let m = p();
    let n = pow2(k);
    let g = root_of_unity(k);
    lemma_log2_pow2(k);
    lemma_root_of_unity_order(k);
    let a = fpow(g, j, m);
    let b = fpow(g, (n - j) as nat, m);
    lemma_fpow_adds(g, j, (n - j) as nat);
    lemma_cong_mod(h * a, m);
    lemma_cong_mod(h_inv * b, m);
    lemma_cong_mul(fmul(h, a, m), h * a, fmul(h_inv, b, m), h_inv * b, m);
    assert((h * a) * (h_inv * b) == (h * h_inv) * (a * b)) by (nonlinear_arith);
    lemma_cong_mul(h * h_inv, 1, a * b, 1, m);
}

/// The point half a turn further is the negated point.
pub proof fn lemma_coset_point_opposite(k: nat, h: int, j: nat)
    requires
        1 <= k <= TWO_ADICITY,
    ensures
        cong(coset_point(pow2(k), h, j + pow2(k) / 2), -coset_point(pow2(k), h, j), p()),
{
    let m = p();
    let n = pow2(k);
    let g = root_of_unity(k);
    lemma_log2_pow2(k);
    lemma_root_of_unity_order(k);
    lemma_pow2_unfold(k);
    let a = fpow(g, j, m);
    lemma_fpow_adds(g, j, n / 2);
    // g^(j + n/2) = a * (p - 1) = -a
    lemma_cong_mod(a * (m - 1), m);
    lemma_cong_mul(h, h, fpow(g, j + n / 2, m), a * (m - 1), m);
    lemma_cong_mod(h * fpow(g, j + n / 2, m), m);
    lemma_cong_mod(h * a, m);
    assert(h * (a * (m - 1)) == -(h * a) + (h * a) * m) by (nonlinear_arith);
    lemma_cong_multiple(-(h * a), h * a, m);
    crate::modular::lemma_cong_sub(0, 0, h * a, fmul(h, a, m), m);
}

/// The power of a root of unity depends on the exponent only modulo the
/// order.
pub proof fn lemma_root_power_mod(k: nat, j: nat)
    requires
        k <= TWO_ADICITY,
    ensures
        fpow(root_of_unity(k), j, p()) == fpow(root_of_unity(k), j % pow2(k), p()),
{
    let m = p();
    let n = pow2(k);
    let g = root_of_unity(k);
    lemma_pow2_pos(k);
    lemma_root_of_unity_order(k);
    lemma_fundamental_div_mod(j as int, n as int);
    let q = (j / n) as nat;
    let r = j % n;
    lemma_div_pos_is_pos(j as int, n as int);
    lemma_fpow_adds(g, n * q, r);
    lemma_fpow_fpow(g, n, q);
    lemma1_pow(q);
    lemma_pow_mod_noop(fpow(g, n, m), q, m);
    lemma_mul_basics(fpow(g, r, m));
    lemma_mod_bound(pow(g, r), m);
    lemma_small_mod(fpow(g, r, m) as nat, m as nat);
}

/// The square of the point of index `j` is the point of index
/// `j mod 2^(k - 1)` of the coset of the squares.
pub proof fn lemma_coset_point_squared(k: nat, h: int, j: nat)
    requires
        1 <= k <= TWO_ADICITY,
    ensures
        ({
            let z = coset_point(pow2(k), h, j);
            let half = pow2((k - 1) as nat);
            cong(z * z, coset_point(half, fmul(h, h, p()), j % half), p())
        }),
{
    let m = p();
    let n = pow2(k);
    let half = pow2((k - 1) as nat);
    let g = root_of_unity(k);
    let g2 = root_of_unity((k - 1) as nat);
    lemma_log2_pow2(k);
    lemma_log2_pow2((k - 1) as nat);
    lemma_root_squared(k);
    let a = fpow(g, j, m);
    // (g^2)^j = g^(2j) = a * a
    lemma_pow1(g);
    lemma_fpow_adds(g, 1, 1);
    lemma_mod_bound(g, m);
    lemma_root_of_unity_order(k);
    lemma_small_mod(g as nat, m as nat);
    assert(g2 == fpow(g, 2, m));
    lemma_fpow_fpow(g, 2, j);
    lemma_fpow_adds(g, j, j);
    assert(fpow(g2, j, m) == (a * a) % m);
    lemma_root_power_mod((k - 1) as nat, j);
    // z * z = (h * a)^2 = (h * h) * (a * a)
    lemma_cong_mod(h * a, m);
    lemma_cong_mul(fmul(h, a, m), h * a, fmul(h, a, m), h * a, m);
    assert((h * a) * (h * a) == (h * h) * (a * a)) by (nonlinear_arith);
    lemma_cong_mod(h * h, m);
    lemma_cong_mod(a * a, m);
    lemma_cong_mul(fmul(h, h, m), h * h, fpow(g2, j % half, m), a * a, m);
    lemma_cong_mod(fmul(h, h, m) * fpow(g2, j % half, m), m);
}

} // verus!
