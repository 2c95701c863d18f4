//! The inverse butterfly network undoes the butterfly network, and the
//! other way round.

use crate::bit_reverse::bit_reverse_permute;
use crate::bit_reverse::lemma_bit_reverse_bound;
use crate::bit_reverse::lemma_bit_reverse_permute_involution;
use crate::fft::INVERSE_OF_TWO;
use crate::fft::butterfly_stage;
use crate::fft::fft_levels;
use crate::fft::fft_spec;
use crate::fft::inverse_fft_spec;
use crate::fft::inverse_levels;
use crate::fft::inverse_stage;
use crate::fft::lemma_log2_pow2;
use crate::field::fadd;
use crate::field::fmul;
use crate::field::fsub;
use crate::field::p;
use crate::modular::cong;
use crate::modular::lemma_cong_add;
use crate::modular::lemma_cong_mod;
use crate::modular::lemma_cong_mul;
use crate::modular::lemma_cong_multiple;
use crate::modular::lemma_cong_sub;
use crate::poly_eval::canonical;
use crate::poly_eval::reduce;
use vstd::arithmetic::div_mod::*;
use vstd::arithmetic::mul::*;
use vstd::arithmetic::power2::*;
use vstd::prelude::*;

verus! {

/// The entries of `tw` and `twi` are inverse to each other, one by one, on
/// the first `count` positions.
pub open spec fn inverse_tables(tw: Seq<u32>, twi: Seq<u32>, count: nat) -> bool {
    &&& tw.len() >= count
    &&& twi.len() >= count
    &&& forall|g: int| 0 <= g < count ==> (#[trigger] tw[g] as int * twi[g] as int) % p() == 1
}

/// Halving a doubled residue gives it back.
proof fn lemma_halve_double(x: int, s: int)
    requires
        cong(s, 2 * x, p()),
    ensures
        cong(s * (INVERSE_OF_TWO as int), x, p()),
{
    let i = INVERSE_OF_TWO as int;
    lemma_cong_mul(s, 2 * x, i, i, p());
    assert((2 * x) * i == x + x * p()) by (nonlinear_arith)
        requires
            2 * i == p() + 1,
    ;
    lemma_cong_multiple(x, x, p());
}

/// A butterfly followed by its inverse is the identity.
pub proof fn lemma_butterfly_then_inverse(x: int, y: int, w: int, wi: int)
    requires
        0 <= x < p(),
        0 <= y < p(),
        (w * wi) % p() == 1,
    ensures
        ({
            let u = fadd(x, fmul(w, y, p()), p());
            let v = fsub(x, fmul(w, y, p()), p());
            &&& fmul(fadd(u, v, p()), INVERSE_OF_TWO as int, p()) == x
            &&& fmul(fmul(fsub(u, v, p()), INVERSE_OF_TWO as int, p()), wi, p()) == y
        }),
{
    let m = p();
    let i = INVERSE_OF_TWO as int;
    let wy = fmul(w, y, m);
    let u = fadd(x, wy, m);
    let v = fsub(x, wy, m);
    lemma_cong_mod(w * y, m);
    lemma_cong_mod(x + wy, m);
    lemma_cong_mod(x - wy, m);
    // first output
    lemma_cong_add(u, x + wy, v, x - wy, m);
    lemma_cong_mod(u + v, m);
    lemma_halve_double(x, fadd(u, v, m));
    lemma_small_mod(x as nat, m as nat);
    // second output
    lemma_cong_sub(u, x + wy, v, x - wy, m);
    lemma_cong_mod(u - v, m);
    assert((x + wy) - (x - wy) == 2 * wy);
    lemma_halve_double(wy, fsub(u, v, m));
    let h = fmul(fsub(u, v, m), i, m);
    lemma_cong_mod(fsub(u, v, m) * i, m);
    // h = w * y, so h * wi = y * (w * wi) = y
    lemma_cong_mul(h, w * y, wi, wi, m);
    lemma_mul_is_associative(y, w, wi);
    lemma_mul_is_commutative(w, y);
    lemma_cong_mul(y, y, w * wi, 1, m);
    lemma_small_mod(y as nat, m as nat);
}

/// An inverse butterfly followed by the butterfly is the identity.
pub proof fn lemma_inverse_then_butterfly(u: int, v: int, w: int, wi: int)
    requires
        0 <= u < p(),
        0 <= v < p(),
        (w * wi) % p() == 1,
    ensures
        ({
            let x = fmul(fadd(u, v, p()), INVERSE_OF_TWO as int, p());
            let y = fmul(fmul(fsub(u, v, p()), INVERSE_OF_TWO as int, p()), wi, p());
            &&& fadd(x, fmul(w, y, p()), p()) == u
            &&& fsub(x, fmul(w, y, p()), p()) == v
        }),
{
    let m = p();
    let i = INVERSE_OF_TWO as int;
    let x = fmul(fadd(u, v, m), i, m);
    let hd = fmul(fsub(u, v, m), i, m);
    let y = fmul(hd, wi, m);
    let wy = fmul(w, y, m);
    // x = (u + v) * i
    lemma_cong_mod(u + v, m);
    lemma_cong_mul(fadd(u, v, m), u + v, i, i, m);
    lemma_cong_mod(fadd(u, v, m) * i, m);
    // hd = (u - v) * i
    lemma_cong_mod(u - v, m);
    lemma_cong_mul(fsub(u, v, m), u - v, i, i, m);
    lemma_cong_mod(fsub(u, v, m) * i, m);
    // w * y = hd * (w * wi) = hd
    lemma_cong_mod(hd * wi, m);
    lemma_cong_mul(w, w, y, hd * wi, m);
    lemma_mul_is_associative(w, hd, wi);
    lemma_mul_is_commutative(w, hd);
    lemma_mul_is_associative(hd, w, wi);
    lemma_cong_mul(hd, (u - v) * i, w * wi, 1, m);
    lemma_cong_mod(w * y, m);
    assert(cong(wy, (u - v) * i, m));
    // x + w * y = 2 * u * i = u
    lemma_cong_add(x, (u + v) * i, wy, (u - v) * i, m);
    assert((u + v) * i + (u - v) * i == (2 * u) * i) by (nonlinear_arith);
    lemma_halve_double(u, 2 * u);
    lemma_small_mod(u as nat, m as nat);
    // x - w * y = 2 * v * i = v
    lemma_cong_sub(x, (u + v) * i, wy, (u - v) * i, m);
    assert((u + v) * i - (u - v) * i == (2 * v) * i) by (nonlinear_arith);
    lemma_halve_double(v, 2 * v);
    lemma_small_mod(v as nat, m as nat);
}

/// Position of an entry inside its group, from the entry's index.
pub proof fn lemma_index_in_group(i: int, size: int, n: int)
    requires
        0 <= i < n,
        size >= 2,
        size % 2 == 0,
        n % size == 0,
    ensures
        0 <= i / size < n / size,
        i % size < size / 2 ==> {
            &&& i + size / 2 < n
            &&& (i + size / 2) / size == i / size
            &&& (i + size / 2) % size == i % size + size / 2
        },
        i % size >= size / 2 ==> {
            &&& i - size / 2 >= 0
            &&& (i - size / 2) / size == i / size
            &&& (i - size / 2) % size == i % size - size / 2
        },
{
    let g = i / size;
    let j = i % size;
    lemma_fundamental_div_mod(i, size);
    lemma_fundamental_div_mod(n, size);
    lemma_mod_bound(i, size);
    lemma_div_pos_is_pos(i, size);
    assert(g < n / size) by (nonlinear_arith)
        requires
            i == size * g + j,
            n == size * (n / size),
            i < n,
            j >= 0,
            size > 0,
    ;
    assert(size * g + size <= n) by (nonlinear_arith)
        requires
            g < n / size,
            n == size * (n / size),
            size > 0,
    ;
    lemma_mul_is_commutative(size, g);
    if j < size / 2 {
        lemma_fundamental_div_mod_converse(i + size / 2, size, g, j + size / 2);
    } else {
        lemma_fundamental_div_mod_converse(i - size / 2, size, g, j - size / 2);
    }
}

/// A stage leaves canonical residues, whatever it is given.
pub proof fn lemma_stage_canonical(a: Seq<u32>, tw: Seq<u32>, size: nat)
    ensures
        canonical(butterfly_stage(a, tw, size)),
        butterfly_stage(a, tw, size).len() == a.len(),
        canonical(inverse_stage(a, tw, size)),
        inverse_stage(a, tw, size).len() == a.len(),
{
    let st = butterfly_stage(a, tw, size);
    let half = (size / 2) as int;
    assert forall|i: int| 0 <= i < st.len() implies (#[trigger] st[i] as int) < p() by {
        let w = tw[i / (size as int)] as int;
        lemma_mod_bound(a[i] as int + fmul(w, a[i + half] as int, p()), p());
        lemma_mod_bound(a[i - half] as int - fmul(w, a[i] as int, p()), p());
    }
    let ist = inverse_stage(a, tw, size);
    assert forall|i: int| 0 <= i < ist.len() implies (#[trigger] ist[i] as int) < p() by {
        let wi = tw[i / (size as int)] as int;
        lemma_mod_bound(fadd(a[i] as int, a[i + half] as int, p()) * (INVERSE_OF_TWO as int), p());
        lemma_mod_bound(
            fmul(fsub(a[i - half] as int, a[i] as int, p()), INVERSE_OF_TWO as int, p()) * wi,
            p(),
        );
    }
}

/// The inverse stage undoes the stage on canonical input.
pub proof fn lemma_inverse_stage_of_stage(a: Seq<u32>, tw: Seq<u32>, twi: Seq<u32>, size: nat)
    requires
        canonical(a),
        size >= 2,
        size % 2 == 0,
        a.len() % size == 0,
        inverse_tables(tw, twi, a.len() / size),
    ensures
        inverse_stage(butterfly_stage(a, tw, size), twi, size) == a,
{
    let st = butterfly_stage(a, tw, size);
    let back = inverse_stage(st, twi, size);
    let half = (size / 2) as int;
    let s = size as int;
    assert forall|i: int| 0 <= i < a.len() implies back[i] == a[i] by {
        lemma_index_in_group(i, s, a.len() as int);
        let g = i / s;
        assert((tw[g] as int * twi[g] as int) % p() == 1);
        if i % s < half {
            lemma_butterfly_then_inverse(
                a[i] as int,
                a[i + half] as int,
                tw[g] as int,
                twi[g] as int,
            );
            assert(st[i + half] as int == fsub(
                a[i] as int,
                fmul(tw[g] as int, a[i + half] as int, p()),
                p(),
            ));
        } else {
            lemma_butterfly_then_inverse(
                a[i - half] as int,
                a[i] as int,
                tw[g] as int,
                twi[g] as int,
            );
            assert(st[i - half] as int == fadd(
                a[i - half] as int,
                fmul(tw[g] as int, a[i] as int, p()),
                p(),
            ));
        }
    }
    assert(back =~= a);
}

/// The stage undoes the inverse stage on canonical input.
pub proof fn lemma_stage_of_inverse_stage(b: Seq<u32>, tw: Seq<u32>, twi: Seq<u32>, size: nat)
    requires
        canonical(b),
        size >= 2,
        size % 2 == 0,
        b.len() % size == 0,
        inverse_tables(tw, twi, b.len() / size),
    ensures
        butterfly_stage(inverse_stage(b, twi, size), tw, size) == b,
{
    let ist = inverse_stage(b, twi, size);
    let back = butterfly_stage(ist, tw, size);
    let half = (size / 2) as int;
    let s = size as int;
    assert forall|i: int| 0 <= i < b.len() implies back[i] == b[i] by {
        lemma_index_in_group(i, s, b.len() as int);
        let g = i / s;
        assert((tw[g] as int * twi[g] as int) % p() == 1);
        if i % s < half {
            lemma_inverse_then_butterfly(
                b[i] as int,
                b[i + half] as int,
                tw[g] as int,
                twi[g] as int,
            );
            assert(ist[i + half] as int == fmul(
                fmul(fsub(b[i] as int, b[i + half] as int, p()), INVERSE_OF_TWO as int, p()),
                twi[g] as int,
                p(),
            ));
        } else {
            lemma_inverse_then_butterfly(
                b[i - half] as int,
                b[i] as int,
                tw[g] as int,
                twi[g] as int,
            );
            assert(ist[i - half] as int == fmul(
                fadd(b[i - half] as int, b[i] as int, p()),
                INVERSE_OF_TWO as int,
                p(),
            ));
        }
    }
    assert(back =~= b);
}

/// The networks keep the length, and leave canonical residues when they are
/// given canonical residues.
pub proof fn lemma_levels_canonical(a: Seq<u32>, tw: Seq<u32>, size: nat)
    requires
        canonical(a),
    ensures
        canonical(fft_levels(a, tw, size)),
        fft_levels(a, tw, size).len() == a.len(),
        canonical(inverse_levels(a, tw, size)),
        inverse_levels(a, tw, size).len() == a.len(),
    decreases size,
{
    if size > 1 {
        lemma_stage_canonical(a, tw, size);
        lemma_levels_canonical(butterfly_stage(a, tw, size), tw, size / 2);
        lemma_levels_canonical(a, tw, size / 2);
        lemma_stage_canonical(inverse_levels(a, tw, size / 2), tw, size);
    }
}

/// Dividing a multiple of `2^e` by the next smaller group size.
proof fn lemma_group_counts(n: nat, e: nat)
    requires
        e >= 1,
        n % pow2(e) == 0,
    ensures
        pow2(e) == 2 * pow2((e - 1) as nat),
        pow2(e) >= 2,
        n % pow2((e - 1) as nat) == 0,
        n / pow2(e) <= n / pow2((e - 1) as nat),
{
    let h = pow2((e - 1) as nat) as int;
    lemma_pow2_unfold(e);
    lemma_pow2_pos((e - 1) as nat);
    lemma_fundamental_div_mod(n as int, 2 * h);
    let q = n as int / (2 * h);
    assert(n == h * (2 * q)) by (nonlinear_arith)
        requires
            n == (2 * h) * q,
    ;
    lemma_mod_multiples_basic(2 * q, h);
    lemma_mul_is_commutative(2 * q, h);
    lemma_div_multiples_vanish(2 * q, h);
    lemma_div_pos_is_pos(n as int, 2 * h);
}

/// The inverse network undoes the network on canonical input.
pub proof fn lemma_inverse_levels_of_levels(
    a: Seq<u32>,
    tw: Seq<u32>,
    twi: Seq<u32>,
    e: nat,
)
    requires
        canonical(a),
        a.len() % pow2(e) == 0,
        inverse_tables(tw, twi, a.len() / 2),
    ensures
        inverse_levels(fft_levels(a, tw, pow2(e)), twi, pow2(e)) == a,
    decreases e,
{
    lemma2_to64();
    if e > 0 {
        let size = pow2(e);
        let st = butterfly_stage(a, tw, size);
        lemma_group_counts(a.len(), e);
        lemma_stage_canonical(a, tw, size);
        lemma_inverse_levels_of_levels(st, tw, twi, (e - 1) as nat);
        lemma_div_is_ordered_by_denominator(a.len() as int, 2, size as int);
        lemma_inverse_stage_of_stage(a, tw, twi, size);
    }
}

/// The network undoes the inverse network on canonical input.
pub proof fn lemma_levels_of_inverse_levels(
    b: Seq<u32>,
    tw: Seq<u32>,
    twi: Seq<u32>,
    e: nat,
)
    requires
        canonical(b),
        b.len() % pow2(e) == 0,
        inverse_tables(tw, twi, b.len() / 2),
    ensures
        fft_levels(inverse_levels(b, twi, pow2(e)), tw, pow2(e)) == b,
    decreases e,
{
    lemma2_to64();
    if e > 0 {
        let size = pow2(e);
        let inner = inverse_levels(b, twi, size / 2);
        lemma_group_counts(b.len(), e);
        lemma_levels_canonical(b, twi, size / 2);
        lemma_levels_of_inverse_levels(b, tw, twi, (e - 1) as nat);
        lemma_div_is_ordered_by_denominator(b.len() as int, 2, size as int);
        lemma_stage_of_inverse_stage(inner, tw, twi, size);
    }
}

/// The bit-reverse permutation keeps canonical residues canonical.
pub proof fn lemma_permute_canonical(a: Seq<u32>, k: nat)
    requires
        canonical(a),
        a.len() == pow2(k),
    ensures
        canonical(bit_reverse_permute(a, k)),
        reduce(a) == a,
{
    let b = bit_reverse_permute(a, k);
    assert forall|i: int| 0 <= i < b.len() implies (#[trigger] b[i] as int) < p() by {
        lemma_bit_reverse_bound(i as nat, k);
    }
    assert forall|i: int| 0 <= i < a.len() implies reduce(a)[i] == a[i] by {
        lemma_small_mod(a[i] as nat, p() as nat);
    }
    assert(reduce(a) =~= a);
}

/// The inverse transform of the transform of a sequence of canonical
/// residues, whose length is a power of two, is that sequence: provided
/// that the two tables of twiddle factors are inverse to each other.
pub proof fn lemma_inverse_fft_of_fft(v: Seq<u32>, tw: Seq<u32>, twi: Seq<u32>, k: nat)
    requires
        v.len() == pow2(k),
        canonical(v),
        inverse_tables(tw, twi, v.len() / 2),
    ensures
        inverse_fft_spec(fft_spec(v, tw), twi) == v,
{
    lemma_log2_pow2(k);
    lemma_permute_canonical(v, k);
    let levels = fft_levels(v, tw, v.len());
    lemma_levels_canonical(v, tw, v.len());
    let f = fft_spec(v, tw);
    assert(f == bit_reverse_permute(levels, k));
    lemma_permute_canonical(levels, k);
    lemma_permute_canonical(f, k);
    lemma_bit_reverse_permute_involution(levels, k);
    lemma_pow2_pos(k);
    lemma_mod_self_0(pow2(k) as int);
    lemma_inverse_levels_of_levels(v, tw, twi, k);
}

/// The transform of the inverse transform of a sequence of canonical
/// residues, whose length is a power of two, is that sequence: provided
/// that the two tables of twiddle factors are inverse to each other.
pub proof fn lemma_fft_of_inverse_fft(v: Seq<u32>, tw: Seq<u32>, twi: Seq<u32>, k: nat)
    requires
        v.len() == pow2(k),
        canonical(v),
        inverse_tables(tw, twi, v.len() / 2),
    ensures
        fft_spec(inverse_fft_spec(v, twi), tw) == v,
{
    lemma_log2_pow2(k);
    lemma_permute_canonical(v, k);
    let permuted = bit_reverse_permute(v, k);
    let inv = inverse_fft_spec(v, twi);
    assert(inv == inverse_levels(permuted, twi, v.len()));
    lemma_levels_canonical(permuted, twi, v.len());
    lemma_permute_canonical(inv, k);
    lemma_pow2_pos(k);
    lemma_mod_self_0(pow2(k) as int);
    lemma_levels_of_inverse_levels(permuted, tw, twi, k);
    lemma_bit_reverse_permute_involution(v, k);
}

} // verus!
