//! Reversal of the binary digits of an index, and the permutation of a
//! sequence that it induces.

use crate::errors::FFTError;
use vstd::arithmetic::div_mod::*;
use vstd::arithmetic::mul::*;
use vstd::arithmetic::power2::*;
use vstd::prelude::*;

verus! {

/// The number whose `bits` binary digits are those of `i` in reverse order.
pub open spec fn bit_reverse(i: nat, bits: nat) -> nat
    decreases bits,
{
    if bits == 0 {
        0
    } else {
        (i % 2) * pow2((bits - 1) as nat) + bit_reverse(i / 2, (bits - 1) as nat)
    }
}

/// The sequence whose entry `i` is entry `bit_reverse(i, bits)` of `s`.
pub open spec fn bit_reverse_permute<T>(s: Seq<T>, bits: nat) -> Seq<T> {
    Seq::new(s.len(), |i: int| s[bit_reverse(i as nat, bits) as int])
}

pub proof fn lemma_bit_reverse_bound(i: nat, bits: nat)
    ensures
        bit_reverse(i, bits) < pow2(bits),
    decreases bits,
{
    if bits == 0 {
        lemma2_to64();
    } else {
        lemma_bit_reverse_bound(i / 2, (bits - 1) as nat);
        lemma_pow2_unfold(bits);
        let h = pow2((bits - 1) as nat) as int;
        assert((i % 2) * h <= h) by (nonlinear_arith)
            requires
                0 <= (i % 2) <= 1,
                h >= 0,
        ;
    }
}

/// Reversal seen from the most significant digit: the top digit of `i`
/// becomes the lowest digit of the result.
pub proof fn lemma_bit_reverse_top(i: nat, bits: nat)
    requires
        i < pow2(bits + 1),
    ensures
        bit_reverse(i, bits + 1) == 2 * bit_reverse(i % pow2(bits), bits) + i / pow2(bits),
    decreases bits,
{
    lemma_pow2_pos(bits);
    if bits == 0 {
        lemma2_to64();
        assert(bit_reverse(i / 2, 0) == 0);
        assert(bit_reverse(i, 1) == (i % 2) * pow2(0) + bit_reverse(i / 2, 0));
    } else {
        let h = pow2((bits - 1) as nat);
        lemma_pow2_unfold(bits);
        lemma_pow2_unfold(bits + 1);
        lemma_pow2_pos((bits - 1) as nat);
        // induction on i / 2 < 2^bits
        lemma_bit_reverse_top(i / 2, (bits - 1) as nat);
        // (i / 2) % h == (i % 2h) / 2 and (i / 2) / h == i / 2h
        lemma_mod_breakdown(i as int, 2, h as int);
        lemma_div_denominator(i as int, 2, h as int);
        let low = i % pow2(bits);
        assert(low == 2 * ((i / 2) % h) + i % 2);
        assert(low / 2 == (i / 2) % h);
        assert(low % 2 == i % 2);
        assert(bit_reverse(low, bits) == (low % 2) * h + bit_reverse(low / 2, (bits - 1) as nat));
        assert(2 * ((i % 2) * h) == (i % 2) * pow2(bits)) by (nonlinear_arith)
            requires
                pow2(bits) == 2 * h,
        ;
    }
}

/// Reversing an index that has a digit to spare doubles its reversal.
pub proof fn lemma_bit_reverse_small(i: nat, bits: nat)
    requires
        i < pow2(bits),
    ensures
        bit_reverse(i, bits + 1) == 2 * bit_reverse(i, bits),
{
    lemma_pow2_unfold(bits + 1);
    lemma_bit_reverse_top(i, bits);
    lemma_small_mod(i, pow2(bits));
    lemma_basic_div(i as int, pow2(bits) as int);
}

/// Reversing twice gives the index back.
pub proof fn lemma_bit_reverse_involution(i: nat, bits: nat)
    requires
        i < pow2(bits),
    ensures
        bit_reverse(bit_reverse(i, bits), bits) == i,
    decreases bits,
{
    if bits == 0 {
        lemma2_to64();
    } else {
        let b = (bits - 1) as nat;
        let h = pow2(b);
        lemma_pow2_unfold(bits);
        lemma_pow2_pos(b);
        lemma_bit_reverse_involution(i / 2, b);
        lemma_bit_reverse_bound(i / 2, b);
        lemma_bit_reverse_bound(i, bits);
        let y = bit_reverse(i, bits);
        let z = bit_reverse(i / 2, b);
        assert(y == (i % 2) * h + z);
        lemma_bit_reverse_top(y, b);
        lemma_fundamental_div_mod_converse(y as int, h as int, (i % 2) as int, z as int);
    }
}

/// The permutation undoes itself.
pub proof fn lemma_bit_reverse_permute_involution<T>(s: Seq<T>, bits: nat)
    requires
        s.len() == pow2(bits),
    ensures
        bit_reverse_permute(bit_reverse_permute(s, bits), bits) == s,
{
    let t = bit_reverse_permute(s, bits);
    assert forall|i: int| 0 <= i < s.len() implies bit_reverse_permute(t, bits)[i] == s[i] by {
        lemma_bit_reverse_bound(i as nat, bits);
        lemma_bit_reverse_involution(i as nat, bits);
    }
    assert(bit_reverse_permute(t, bits) =~= s);
}

/// The exponent `k` with `n == 2^k`, if `n` is a power of two.
pub fn log2_exact(n: usize) -> (r: Option<u32>)
    ensures
        r is Some <==> is_pow2(n as int),
        r matches Some(k) ==> n == pow2(k as nat) && k < 64,
{
    let mut x: usize = n;
    let mut k: u32 = 0;
    proof {
        lemma2_to64();
    }
    while x > 1 && x % 2 == 0
        invariant
            is_pow2(n as int) == is_pow2(x as int),
            n == x * pow2(k as nat),
            k < 64,
        decreases x,
    {
        proof {
            reveal(is_pow2);
            lemma_pow2_unfold((k + 1) as nat);
            assert(x * pow2(k as nat) == (x / 2) * (2 * pow2(k as nat))) by (nonlinear_arith)
                requires
                    x % 2 == 0,
            ;
            assert(pow2((k + 1) as nat) <= n) by (nonlinear_arith)
                requires
                    n == (x / 2) * pow2((k + 1) as nat),
                    x / 2 >= 1,
            ;
            if k + 1 >= 64 {
                lemma2_to64_rest();
                if k + 1 > 64 {
                    lemma_pow2_strictly_increases(64, (k + 1) as nat);
                }
            }
        }
        x = x / 2;
        k = k + 1;
    }
    proof {
        reveal(is_pow2);
        lemma_mul_basics(pow2(k as nat) as int);
    }
    if x == 1 {
        Some(k)
    } else {
        None
    }
}

/// The index whose `bits` binary digits are those of `i` in reverse order.
pub fn reverse_index(i: usize, bits: u32) -> (r: usize)
    requires
        i < pow2(bits as nat) <= usize::MAX + 1,
    ensures
        r == bit_reverse(i as nat, bits as nat),
        r < pow2(bits as nat),
{
    let mut r: usize = 0;
    let mut x: usize = i;
    let mut t: u32 = 0;
    proof {
        lemma2_to64();
    }
    while t < bits
        invariant
            t <= bits,
            i < pow2(bits as nat) <= usize::MAX + 1,
            r == bit_reverse(i as nat % pow2(t as nat), t as nat),
            r < pow2(t as nat),
            x == i as nat / pow2(t as nat),
        decreases bits - t,
    {
        proof {
            let p = pow2(t as nat);
            let low = i as nat % pow2((t + 1) as nat);
            lemma_pow2_pos(t as nat);
            lemma_pow2_unfold((t + 1) as nat);
            lemma_pow2_pos((t + 1) as nat);
            lemma_mod_bound(i as int, pow2((t + 1) as nat) as int);
            lemma_bit_reverse_top(low, t as nat);
            // low % p == i % p, low / p == (i / p) % 2, (i / p) / 2 == i / 2p
            assert(p * 2 == pow2((t + 1) as nat));
            lemma_mod_breakdown(i as int, p as int, 2);
            lemma_mod_mod(i as int, p as int, 2);
            lemma_div_denominator(i as int, p as int, 2);
            lemma_fundamental_div_mod_converse(
                low as int,
                p as int,
                ((i as nat / p) % 2) as int,
                (i as nat % p) as int,
            );
            if t + 1 < bits {
                lemma_pow2_strictly_increases((t + 1) as nat, bits as nat);
            }
        }
        r = 2 * r + x % 2;
        x = x / 2;
        t = t + 1;
    }
    proof {
        lemma_small_mod(i as nat, pow2(bits as nat));
    }
    r
}

/// The sequence in bit-reversed order: entry `i` of the result is entry
/// `bit_reverse(i, k)` of the input, whose length is `2^k`. A length that is
/// no power of two is reported as `InputError`.
pub fn bitrev_permutation<T: Copy>(input: &[T]) -> (r: Result<Vec<T>, FFTError>)
    ensures
        r is Ok <==> is_pow2(input.len() as int),
        r matches Err(e) ==> e == FFTError::InputError(input.len()),
        r matches Ok(out) ==> exists|k: nat|
            input.len() == pow2(k) && out@ == bit_reverse_permute(input@, k),
{
    let n: usize = input.len();
    match log2_exact(n) {
        None => Err(FFTError::InputError(n)),
        Some(k) => {
            let mut out: Vec<T> = Vec::new();
            let mut i: usize = 0;
            while i < n
                invariant
                    i <= n,
                    n == input.len(),
                    n == pow2(k as nat),
                    out@.len() == i,
                    forall|j: int|
                        0 <= j < i ==> out@[j] == input@[bit_reverse(j as nat, k as nat) as int],
                decreases n - i,
            {
                let j = reverse_index(i, k);
                out.push(input[j]);
                i = i + 1;
            }
            assert(out@ =~= bit_reverse_permute(input@, k as nat));
            Ok(out)
        },
    }
}

/// Puts the sequence in bit-reversed order: entry `i` becomes what entry
/// `bit_reverse(i, k)` was, for a length of `2^k`. A sequence whose length
/// is no power of two is left as it is.
pub fn in_place_bit_reverse_permute<T: Copy>(input: &mut Vec<T>)
    ensures
        is_pow2(old(input)@.len() as int) ==> exists|k: nat|
            old(input)@.len() == pow2(k) && final(input)@ == bit_reverse_permute(old(input)@, k),
        !is_pow2(old(input)@.len() as int) ==> final(input)@ == old(input)@,
{
    match bitrev_permutation(input.as_slice()) {
        Ok(permuted) => {
            *input = permuted;
        },
        Err(_) => {},
    }
}

} // verus!
