//! What the transform computes: the values of the polynomial, whose
//! coefficients are the input, at the powers of the root of unity.

use crate::bit_reverse::bit_reverse;
use crate::bit_reverse::lemma_bit_reverse_bound;
use crate::bit_reverse::lemma_bit_reverse_involution;
use crate::bit_reverse::lemma_bit_reverse_small;
use crate::fft::butterfly_stage;
use crate::fft::fft_levels;
use crate::fft::fft_spec;
use crate::fft::lemma_group_index;
use crate::fft::lemma_log2_pow2;
use crate::fft_inverse::lemma_levels_canonical;
use crate::fft_inverse::lemma_stage_canonical;
use crate::field::fadd;
use crate::field::fmul;
use crate::field::fpow;
use crate::field::fsub;
use crate::field::p;
use crate::modular::cong;
use crate::modular::lemma_cong_add;
use crate::modular::lemma_cong_mul;
use crate::modular::lemma_cong_multiple;
use crate::poly_eval::lemma_eval_combine;
use crate::poly_eval::lemma_eval_reduce;
use crate::poly_eval::lemma_eval_split;
use crate::poly_eval::poly_eval;
use crate::poly_eval::reduce;
use crate::roots_of_unity::lemma_fpow_adds;
use crate::roots_of_unity::lemma_fpow_fpow;
use vstd::arithmetic::div_mod::*;
use vstd::arithmetic::mul::*;
use vstd::arithmetic::power2::*;
use vstd::arithmetic::power::*;
use vstd::prelude::*;

verus! {

/// `tw` lists, on its first `2^(k - 1)` positions, the powers of `w` in
/// bit-reversed order: entry `g` is `w` raised to `g` reversed on `k - 1`
/// digits.
pub open spec fn bit_reversed_powers(tw: Seq<u32>, w: int, k: nat) -> bool {
    &&& tw.len() >= pow2(k) / 2
    &&& forall|g: int|
        0 <= g < pow2(k) / 2 ==> (#[trigger] tw[g]) as int == fpow(
            w,
            bit_reverse(g as nat, (k - 1) as nat),
            p(),
        )
}

/// `w` is a root of unity of order exactly `2^k`, for a positive `k`: its
/// power of exponent `2^(k - 1)` is `p - 1`.
pub open spec fn primitive_root(w: int, k: nat) -> bool {
    k >= 1 ==> fpow(w, pow2((k - 1) as nat), p()) == p() - 1
}

/// An index below `2^k`, divided by `2^e`, is below `2^(k - e)`.
proof fn lemma_div_pow2_bound(i: nat, k: nat, e: nat)
    requires
        e <= k,
        i < pow2(k),
    ensures
        i / pow2(e) < pow2((k - e) as nat),
{
    lemma_pow2_adds(e, (k - e) as nat);
    lemma_pow2_pos(e);
    lemma_multiply_divide_lt(i as int, pow2(e) as int, pow2((k - e) as nat) as int);
}

/// Shifting a reversed index up by `e - 1` digits: modulo `2^k`, what is
/// left is digit `e - 1` of the index, at the top, and the reversal on
/// `k - 1` digits of the index without its `e` lowest digits. The result is
/// the multiple of `2^k` that is dropped.
proof fn lemma_bit_reverse_shift(i: nat, k: nat, e: nat) -> (c: nat)
    requires
        1 <= e <= k,
        i < pow2(k),
    ensures
        bit_reverse(i, k) * pow2((e - 1) as nat) == ((i / pow2((e - 1) as nat)) % 2) * pow2(
            (k - 1) as nat,
        ) + bit_reverse(i / pow2(e), (k - 1) as nat) + c * pow2(k),
    decreases e,
{
    lemma2_to64();
    if e == 1 {
        lemma_mul_basics(bit_reverse(i, k) as int);
        lemma_mul_basics(pow2(k) as int);
        lemma_div_basics(i as int);
        assert(bit_reverse(i, k) == (i % 2) * pow2((k - 1) as nat) + bit_reverse(
            i / 2,
            (k - 1) as nat,
        ));
        0
    } else {
        let c0 = lemma_bit_reverse_shift(i, k, (e - 1) as nat);
        let br = bit_reverse(i, k) as int;
        let h0 = pow2((e - 2) as nat) as int;
        let h1 = pow2((e - 1) as nat) as int;
        let g = i / pow2((e - 1) as nat);
        let b0 = ((i / pow2((e - 2) as nat)) % 2) as int;
        let top = pow2((k - 1) as nat) as int;
        let top2 = pow2((k - 2) as nat) as int;
        lemma_pow2_unfold((e - 1) as nat);
        lemma_pow2_unfold(e);
        lemma_pow2_unfold(k);
        lemma_pow2_unfold((k - 1) as nat);
        lemma_pow2_pos((e - 1) as nat);
        // reversal of g on k - 1 digits, by its definition
        assert(bit_reverse(g, (k - 1) as nat) == (g % 2) * top2 + bit_reverse(g / 2, (k - 2) as nat));
        // g / 2 is i without its e lowest digits, and small enough
        lemma_div_denominator(i as int, h1, 2);
        lemma_mul_is_commutative(h1, 2);
        lemma_div_pow2_bound(i, k, e);
        if e < k {
            if k - e < k - 2 {
                lemma_pow2_strictly_increases((k - e) as nat, (k - 2) as nat);
            }
        }
        lemma_bit_reverse_small(g / 2, (k - 2) as nat);
        let r = bit_reverse(g / 2, (k - 2) as nat) as int;
        let gb = (g % 2) as int;
        assert(br * h1 == gb * top + (2 * r) + (b0 + 2 * c0) * pow2(k)) by (nonlinear_arith)
            requires
                br * h0 == b0 * top + (gb * top2 + r) + c0 * pow2(k),
                h1 == 2 * h0,
                top == 2 * top2,
                pow2(k) == 2 * top,
        ;
        (b0 + 2 * c0) as nat
    }
}

/// The power of exponent `2^(e - 1)` of the point of index `i`, which is
/// `w` raised to `i` reversed on `k` digits: it is the twiddle factor of the
/// group of size `2^e` that holds `i`, negated when `i` lies in the second
/// half of its group.
pub proof fn lemma_point_power(w: int, k: nat, e: nat, i: nat)
    requires
        1 <= e <= k,
        i < pow2(k),
        primitive_root(w, k),
    ensures
        ({
            let point = fpow(w, bit_reverse(i, k), p());
            let t = fpow(w, bit_reverse(i / pow2(e), (k - 1) as nat), p());
            cong(
                pow(point, pow2((e - 1) as nat)),
                if (i / pow2((e - 1) as nat)) % 2 == 0 {
                    t
                } else {
                    -t
                },
                p(),
            )
        }),
{
    let m = p();
    let h = pow2((e - 1) as nat);
    let top = pow2((k - 1) as nat);
    let br = bit_reverse(i, k);
    let r = bit_reverse(i / pow2(e), (k - 1) as nat);
    let b = (i / h) % 2;
    let t = fpow(w, r, m);
    let c = lemma_bit_reverse_shift(i, k, e);
    lemma_pow2_unfold(k);
    // (w^br)^h = w^(br * h)
    lemma_fpow_fpow(w, br, h);
    // w^(2^k) = 1, hence w^(c * 2^k) = 1
    lemma_fpow_adds(w, top, top);
    assert(((m - 1) * (m - 1)) % m == 1) by {
        assert((2013265920int * 2013265920int) % 2013265921int == 1);
    }
    assert(fpow(w, pow2(k), m) == 1);
    lemma_mul_is_commutative(c as int, pow2(k) as int);
    lemma_fpow_fpow(w, pow2(k), c);
    lemma1_pow(c);
    lemma_pow_mod_noop(fpow(w, pow2(k), m), c, m);
    assert(fpow(w, c * pow2(k), m) == 1);
    // w^(b * top + r + c * 2^k) = w^(b * top) * w^r
    lemma_fpow_adds(w, b * top + r, c * pow2(k));
    lemma_fpow_adds(w, b * top, r);
    lemma_mul_basics(fpow(w, b * top + r, m));
    lemma_mod_bound(pow(w, b * top + r), m);
    lemma_small_mod(fpow(w, b * top + r, m) as nat, m as nat);
    assert(fpow(w, br * h, m) == (fpow(w, b * top, m) * t) % m);
    if b == 0 {
        lemma_mul_basics(top as int);
        lemma_pow0(w);
        lemma_mul_basics(t);
        lemma_mod_bound(pow(w, r), m);
        lemma_small_mod(t as nat, m as nat);
    } else {
        lemma_mul_basics(top as int);
        assert((m - 1) * t == -t + t * m) by (nonlinear_arith);
        lemma_cong_multiple(-t, t, m);
    }
}

/// The entries of a group after all remaining stages are the values, at
/// the points of the group, of the polynomial whose coefficients the group
/// holds now.
pub proof fn lemma_levels_eval(a: Seq<u32>, tw: Seq<u32>, w: int, k: nat, e: nat, i: int)
    requires
        a.len() == pow2(k),
        e <= k,
        0 <= i < a.len(),
        bit_reversed_powers(tw, w, k),
        primitive_root(w, k),
    ensures
        ({
            let size = pow2(e) as int;
            let first = (i / size) * size;
            &&& 0 <= first
            &&& first + size <= a.len()
            &&& fft_levels(a, tw, pow2(e))[i] as int % p() == poly_eval(
                a.subrange(first, first + size),
                fpow(w, bit_reverse(i as nat, k), p()),
            )
        }),
    decreases e,
{
    let m = p();
    let n = a.len() as int;
    let size = pow2(e) as int;
    let g = i / size;
    let first = g * size;
    let point = fpow(w, bit_reverse(i as nat, k), m);
    lemma2_to64();
    lemma_pow2_pos(e);
    lemma_fundamental_div_mod(i, size);
    lemma_mod_bound(i, size);
    lemma_div_pos_is_pos(i, size);
    lemma_mul_is_commutative(g, size);
    // the group lies inside the sequence
    lemma_pow2_adds(e, (k - e) as nat);
    lemma_div_pow2_bound(i as nat, k, e);
    assert(first + size <= n) by (nonlinear_arith)
        requires
            first == g * size,
            g < pow2((k - e) as nat),
            n == size * pow2((k - e) as nat),
            size > 0,
    ;
    if e == 0 {
        let block = a.subrange(first, first + size);
        assert(block.drop_first().len() == 0);
        assert(poly_eval(block.drop_first(), point) == 0);
        lemma_mul_basics(point);
        assert(block[0] == a[i]);
    } else {
        let half = pow2((e - 1) as nat) as int;
        lemma_pow2_unfold(e);
        lemma_pow2_pos((e - 1) as nat);
        let st = butterfly_stage(a, tw, size as nat);
        lemma_stage_canonical(a, tw, size as nat);
        assert(size / 2 == half);
        lemma_levels_eval(st, tw, w, k, (e - 1) as nat, i);
        let g2 = i / half;
        let first2 = g2 * half;
        let st_block = st.subrange(first2, first2 + half);
        // the half group that holds i, inside the group
        lemma_div_denominator(i, half, 2);
        lemma_fundamental_div_mod(g2, 2);
        let b = g2 % 2;
        assert(first2 == first + (if b == 0 {
            0
        } else {
            half
        })) by (nonlinear_arith)
            requires
                first2 == g2 * half,
                first == g * size,
                size == 2 * half,
                g2 == 2 * g + b,
                0 <= b < 2,
        ;
        let lo = a.subrange(first, first + half);
        let hi = a.subrange(first + half, first + size);
        assert(a.subrange(first, first + size) =~= lo + hi);
        // the twiddle factor of the group
        assert(g < pow2(k) / 2) by {
            lemma_pow2_unfold(k);
            if k - e < k - 1 {
                lemma_pow2_strictly_increases((k - e) as nat, (k - 1) as nat);
            }
        }
        let t = tw[g] as int;
        assert(t == fpow(w, bit_reverse(g as nat, (k - 1) as nat), m));
        let c = if b == 0 {
            t
        } else {
            -t
        };
        assert forall|j: int| 0 <= j < half implies (#[trigger] st_block[j]) as int == (lo[j] as int
            + c * (hi[j] as int)) % m by {
            let x = lo[j] as int;
            let y = hi[j] as int;
            lemma_group_index(g, j, size);
            lemma_group_index(g, j + half, size);
            if b == 0 {
                assert(st_block[j] == st[first + j]);
                assert(st[first + j] as int == fadd(x, fmul(t, y, m), m));
                lemma_add_mod_noop_right(x, t * y, m);
            } else {
                assert(st_block[j] == st[first + half + j]);
                assert(st[first + half + j] as int == fsub(x, fmul(t, y, m), m));
                lemma_sub_mod_noop_right(x, t * y, m);
                assert(x + (-t) * y == x - t * y) by (nonlinear_arith);
            }
        }
        lemma_eval_combine(lo, hi, c, st_block, point);
        lemma_eval_split(lo, hi, point);
        lemma_point_power(w, k, e, i as nat);
        let el = poly_eval(lo, point);
        let eh = poly_eval(hi, point);
        lemma_cong_mul(pow(point, half as nat), c, eh, eh, m);
        lemma_cong_add(el, el, pow(point, half as nat) * eh, c * eh, m);
    }
}

/// The transform lists the values of the polynomial, whose coefficients are
/// the input, at the powers of `w` by rising exponent: provided that the
/// input has `2^k` entries, that `w` has order `2^k`, and that the twiddle
/// factors are the powers of `w` in bit-reversed order.
pub proof fn lemma_fft_evaluates(a: Seq<u32>, tw: Seq<u32>, w: int, k: nat, j: int)
    requires
        a.len() == pow2(k),
        0 <= j < a.len(),
        bit_reversed_powers(tw, w, k),
        primitive_root(w, k),
    ensures
        fft_spec(a, tw)[j] as int == poly_eval(a, fpow(w, j as nat, p())),
{
    let r = reduce(a);
    let i = bit_reverse(j as nat, k) as int;
    let point = fpow(w, j as nat, p());
    lemma_log2_pow2(k);
    lemma_bit_reverse_bound(j as nat, k);
    lemma_bit_reverse_involution(j as nat, k);
    assert forall|x: int| 0 <= x < r.len() implies (#[trigger] r[x] as int) < p() by {
        lemma_mod_bound(a[x] as int, p());
    }
    lemma_levels_canonical(r, tw, a.len());
    lemma_levels_eval(r, tw, w, k, k, i);
    lemma_pow2_pos(k);
    lemma_basic_div(i, pow2(k) as int);
    assert(r.subrange(0, r.len() as int) =~= r);
    lemma_eval_reduce(a, point);
    let out = fft_levels(r, tw, a.len())[i];
    lemma_small_mod(out as nat, p() as nat);
}

} // verus!
