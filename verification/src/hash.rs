//! SHA3-256 over bytes and over field elements.
//!
//! The digest itself is computed by the `sha3` crate. Everything around it
//! (encoding integers as octets, message expansion, turning a digest into a
//! field element) is stated over the digest as a function of its input.

use crate::field::TEST_FIELD_MODULUS;
use crate::field::U32TestField;
use sha3::Digest;
use sha3::Sha3_256;
use vstd::arithmetic::div_mod::*;
use vstd::arithmetic::mul::*;
use vstd::arithmetic::power::*;
use vstd::prelude::*;

verus! {

/// Width of a SHA3-256 digest in bytes.
pub const DIGEST_SIZE: usize = 32;

/// Width of the byte encoding of a field element.
pub const ELEMENT_SIZE: usize = 4;

/// The SHA3-256 digest of `data`, as the `sha3` crate computes it.
pub uninterp spec fn sha3_256_digest(data: Seq<u8>) -> Seq<u8>;

/// Calls `sha3::Sha3_256::digest` (the provided method of `digest::Digest`).
/// The contract gives the result its name, `sha3_256_digest` of the input
/// bytes, and states its length: the output size of SHA3-256 is fixed at 32
/// bytes. Nothing else is claimed of the digest.
#[verifier::external_body]
pub(crate) fn sha3_256(data: &[u8]) -> (out: Vec<u8>)
    ensures
        out@ == sha3_256_digest(data@),
        out@.len() == DIGEST_SIZE,
{
    Sha3_256::digest(data).to_vec()
}

/// The big-endian encoding of `x` on `length` octets: octet `i` is the digit
/// of weight `256^(length - 1 - i)`.
pub open spec fn i2osp_spec(x: nat, length: nat) -> Seq<u8> {
    Seq::new(length, |i: int| ((x as int / pow(256, (length - 1 - i) as nat)) % 256) as u8)
}

/// Octet-wise exclusive or, as long as the shorter argument.
pub open spec fn strxor_spec(a: Seq<u8>, b: Seq<u8>) -> Seq<u8> {
    Seq::new(if a.len() <= b.len() { a.len() } else { b.len() }, |i: int| a[i] ^ b[i])
}

/// The integer that `bytes` encodes, least significant octet first.
pub open spec fn le_value(bytes: Seq<u8>) -> nat
    decreases bytes.len(),
{
    if bytes.len() == 0 {
        0
    } else {
        bytes[0] as nat + 256 * le_value(bytes.drop_first())
    }
}

/// The field element that a digest stands for: its bytes read as a
/// little-endian integer, reduced.
pub open spec fn digest_to_field(bytes: Seq<u8>) -> int {
    le_value(bytes) as int % (TEST_FIELD_MODULUS as int)
}

/// The four octets that encode the residue of `x`, most significant first.
pub open spec fn element_bytes(x: int) -> Seq<u8> {
    i2osp_spec((x % (TEST_FIELD_MODULUS as int)) as nat, ELEMENT_SIZE as nat)
}

/// Hash of one field element.
pub open spec fn hash_one_spec(x: int) -> int {
    digest_to_field(sha3_256_digest(element_bytes(x)))
}

/// Hash of an ordered pair of field elements.
pub open spec fn hash_two_spec(left: int, right: int) -> int {
    digest_to_field(sha3_256_digest(element_bytes(left) + element_bytes(right)))
}

/// Block `k` of the expansion, counted from zero. Block zero hashes `b0`
/// with the counter octet 1; block `k > 0` hashes the exclusive or of `b0`
/// and block `k - 1` with the counter octet `k`.
pub open spec fn expand_block(b0: Seq<u8>, dst_prime: Seq<u8>, k: nat) -> Seq<u8>
    decreases k,
{
    if k == 0 {
        sha3_256_digest(b0 + i2osp_spec(1, 1) + dst_prime)
    } else {
        sha3_256_digest(
            strxor_spec(b0, expand_block(b0, dst_prime, (k - 1) as nat)) + i2osp_spec(k, 1)
                + dst_prime,
        )
    }
}

/// The first `n` blocks of the expansion, one after the other.
pub open spec fn expand_stream(b0: Seq<u8>, dst_prime: Seq<u8>, n: nat) -> Seq<u8>
    decreases n,
{
    if n == 0 {
        Seq::empty()
    } else {
        expand_stream(b0, dst_prime, (n - 1) as nat) + expand_block(b0, dst_prime, (n - 1) as nat)
    }
}

/// Number of digest-sized blocks that cover `len_in_bytes` bytes.
pub open spec fn expand_block_count(len_in_bytes: nat) -> nat {
    ((len_in_bytes + DIGEST_SIZE - 1) / (DIGEST_SIZE as int)) as nat
}

/// The domain separation tag followed by its length on one octet.
pub open spec fn expand_dst_prime(dst: Seq<u8>) -> Seq<u8> {
    dst + i2osp_spec(dst.len(), 1)
}

/// The first message that is hashed: 64 zero octets, the message, the
/// requested length on two octets, a zero octet and the tag.
pub open spec fn expand_msg_prime(msg: Seq<u8>, dst: Seq<u8>, len_in_bytes: nat) -> Seq<u8> {
    i2osp_spec(0, 64) + msg + i2osp_spec(len_in_bytes, 2) + i2osp_spec(0, 1) + expand_dst_prime(
        dst,
    )
}

/// The `len_in_bytes` bytes that `msg` expands to under the tag `dst`.
pub open spec fn expand_message_spec(msg: Seq<u8>, dst: Seq<u8>, len_in_bytes: nat) -> Seq<u8> {
    let b0 = sha3_256_digest(expand_msg_prime(msg, dst, len_in_bytes));
    expand_stream(b0, expand_dst_prime(dst), expand_block_count(len_in_bytes)).subrange(
        0,
        len_in_bytes as int,
    )
}

/// Appends `src` to `out`.
fn append_bytes(out: &mut Vec<u8>, src: &[u8])
    ensures
        final(out)@ == old(out)@ + src@,
{
    let mut i: usize = 0;
    while i < src.len()
        invariant
            i <= src.len(),
            out@ == old(out)@ + src@.subrange(0, i as int),
        decreases src.len() - i,
    {
        out.push(src[i]);
        i = i + 1;
        assert(src@.subrange(0, i as int) == src@.subrange(0, i - 1).push(src@[i - 1]));
    }
    assert(src@.subrange(0, src.len() as int) == src@);
}

/// The field element that the bytes of a digest stand for.
pub fn field_from_digest(bytes: &[u8]) -> (r: u32)
    ensures
        r == digest_to_field(bytes@),
        r < TEST_FIELD_MODULUS,
{
    let n: usize = bytes.len();
    let mut acc: u64 = 0;
    let mut i: usize = n;
    assert(bytes@.subrange(n as int, n as int).len() == 0);
    while i > 0
        invariant
            i <= n,
            n == bytes.len(),
            acc < TEST_FIELD_MODULUS,
            acc == digest_to_field(bytes@.subrange(i as int, n as int)),
        decreases i,
    {
        i = i - 1;
        let ghost tail = bytes@.subrange(i as int, n as int);
        proof {
            assert(tail.drop_first() =~= bytes@.subrange(i + 1, n as int));
            let m = TEST_FIELD_MODULUS as int;
            let rest = le_value(tail.drop_first()) as int;
            // (b + 256 * rest) % m == (b + 256 * (rest % m)) % m
            lemma_mul_mod_noop_right(256, rest, m);
            lemma_add_mod_noop(bytes@[i as int] as int, 256 * rest, m);
            lemma_add_mod_noop(bytes@[i as int] as int, 256 * (rest % m), m);
        }
        acc = (acc * 256 + bytes[i] as u64) % (TEST_FIELD_MODULUS as u64);
    }
    assert(bytes@.subrange(0, n as int) == bytes@);
    acc as u32
}

/// The four octets that encode `x`, most significant first.
pub fn element_to_bytes(x: u32) -> (r: Vec<u8>)
    ensures
        r@ == element_bytes(x as int),
        r@.len() == ELEMENT_SIZE,
{
    proof {
        assert(pow(256, 4) == 0x1_0000_0000) by {
            reveal_with_fuel(pow, 5);
        }
    }
    Sha3Hasher::i2osp(U32TestField::representative(&x) as u64, 4)
}

/// A hasher of bytes and of field elements, built on SHA3-256.
pub struct Sha3Hasher;

impl Sha3Hasher {
    pub fn new() -> (r: Self) {
        Self
    }

    /// Expands `msg` to `len_in_bytes` bytes under the domain separation
    /// tag `dst`. Fails with the message `Abort` when more than 255 blocks
    /// would be needed. On success the output has exactly `len_in_bytes`
    /// bytes, every digest that went into it has `DIGEST_SIZE` bytes, and
    /// an output of at least one block begins with block zero.
    pub fn expand_message(msg: &[u8], dst: &[u8], len_in_bytes: u64) -> (r: Result<
        Vec<u8>,
        String,
    >)
        requires
            dst.len() <= 255,
            len_in_bytes <= usize::MAX,
        ensures
            r is Err <==> expand_block_count(len_in_bytes as nat) > 255,
            r matches Err(e) ==> e@ == "Abort"@,
            r matches Ok(bytes) ==> bytes@ == expand_message_spec(
                msg@,
                dst@,
                len_in_bytes as nat,
            ),
            r matches Ok(bytes) ==> bytes@.len() == len_in_bytes,
            r is Ok ==> sha3_256_digest(expand_msg_prime(msg@, dst@, len_in_bytes as nat)).len()
                == DIGEST_SIZE,
            r is Ok ==> forall|k: nat|
                k < expand_block_count(len_in_bytes as nat) ==> (#[trigger] expand_block(
                    sha3_256_digest(expand_msg_prime(msg@, dst@, len_in_bytes as nat)),
                    expand_dst_prime(dst@),
                    k,
                )).len() == DIGEST_SIZE,
            r matches Ok(bytes) ==> len_in_bytes >= DIGEST_SIZE ==> bytes@.subrange(
                0,
                DIGEST_SIZE as int,
            ) == expand_block(
                sha3_256_digest(expand_msg_prime(msg@, dst@, len_in_bytes as nat)),
                expand_dst_prime(dst@),
                0,
            ),
    {
        let ell: u64 = len_in_bytes / 32 + (if len_in_bytes % 32 == 0 {
            0
        } else {
            1
        });
        assert(ell == expand_block_count(len_in_bytes as nat));
        if ell > 255 {
            return Err("Abort".to_owned());
        }
        proof {
            lemma_pow1(256);
            lemma_pow_positive(256, 64);
            assert(pow(256, 2) == 65536) by {
                reveal_with_fuel(pow, 3);
            }
        }
        let mut dst_prime: Vec<u8> = Vec::new();
        append_bytes(&mut dst_prime, dst);
        let dst_len = Self::i2osp(dst.len() as u64, 1);
        append_bytes(&mut dst_prime, dst_len.as_slice());

        let mut msg_prime = Self::i2osp(0, 64);
        append_bytes(&mut msg_prime, msg);
        let l_i_b_str = Self::i2osp(len_in_bytes, 2);
        append_bytes(&mut msg_prime, l_i_b_str.as_slice());
        let zero = Self::i2osp(0, 1);
        append_bytes(&mut msg_prime, zero.as_slice());
        append_bytes(&mut msg_prime, dst_prime.as_slice());
        assert(msg_prime@ == expand_msg_prime(msg@, dst@, len_in_bytes as nat));
        let b_0 = sha3_256(msg_prime.as_slice());

        let mut first = b_0.clone();
        let one = Self::i2osp(1, 1);
        append_bytes(&mut first, one.as_slice());
        append_bytes(&mut first, dst_prime.as_slice());
        let mut last = sha3_256(first.as_slice());

        let mut b_vals: Vec<u8> = Vec::new();
        append_bytes(&mut b_vals, last.as_slice());
        let ghost dp = dst_prime@;
        let ghost b0 = b_0@;
        assert(b_vals@ == expand_stream(b0, dp, 1)) by {
            reveal_with_fuel(expand_stream, 2);
            assert(Seq::<u8>::empty() + last@ == last@);
        }
        assert(b_vals@.subrange(0, 32) =~= last@);
        let mut idx: u64 = 1;
        while idx < ell
            invariant
                1 <= idx,
                idx <= ell || ell == 0,
                ell <= 255,
                dp == dst_prime@,
                b0 == b_0@,
                pow(256, 1) == 256,
                last@ == expand_block(b0, dp, (idx - 1) as nat),
                b_vals@ == expand_stream(b0, dp, idx as nat),
                b_vals@.len() == idx * 32,
                b_vals@.subrange(0, 32) == expand_block(b0, dp, 0),
                forall|k: nat| k < idx ==> (#[trigger] expand_block(b0, dp, k)).len() == 32,
            decreases ell - idx,
        {
            let ghost before = b_vals@;
            let mut b_i = Self::strxor(b_0.as_slice(), last.as_slice());
            let counter = Self::i2osp(idx, 1);
            append_bytes(&mut b_i, counter.as_slice());
            append_bytes(&mut b_i, dst_prime.as_slice());
            last = sha3_256(b_i.as_slice());
            append_bytes(&mut b_vals, last.as_slice());
            idx = idx + 1;
            assert(b_vals@.subrange(0, 32) =~= before.subrange(0, 32));
        }
        proof {
            if ell == 0 {
                assert(expand_stream(b0, dp, 0).subrange(0, 0) =~= b_vals@.subrange(0, 0));
            }
        }
        let ghost stream = b_vals@;
        b_vals.truncate(len_in_bytes as usize);
        proof {
            if len_in_bytes >= 32 {
                assert(b_vals@.subrange(0, 32) =~= stream.subrange(0, 32));
            }
        }
        Ok(b_vals)
    }

    /// Hashes one field element into a field element.
    pub fn hash_one(&self, input: &u32) -> (r: u32)
        ensures
            r == hash_one_spec(*input as int),
            r < TEST_FIELD_MODULUS,
    {
        let bytes = element_to_bytes(*input);
        let digest = sha3_256(bytes.as_slice());
        field_from_digest(digest.as_slice())
    }

    /// Hashes an ordered pair of field elements into a field element.
    pub fn hash_two(&self, left: &u32, right: &u32) -> (r: u32)
        ensures
            r == hash_two_spec(*left as int, *right as int),
            r < TEST_FIELD_MODULUS,
    {
        let mut bytes = element_to_bytes(*left);
        let right_bytes = element_to_bytes(*right);
        append_bytes(&mut bytes, right_bytes.as_slice());
        let digest = sha3_256(bytes.as_slice());
        field_from_digest(digest.as_slice())
    }

    /// The big-endian encoding of `x` on `length` octets.
    pub fn i2osp(x: u64, length: u64) -> (r: Vec<u8>)
        requires
            (x as int) < pow(256, length as nat),
            length <= usize::MAX,
        ensures
            r@ == i2osp_spec(x as nat, length as nat),
    {
        let n: usize = length as usize;
        let mut digits: Vec<u8> = Vec::new();
        digits.resize(n, 0u8);
        let mut x_aux: u64 = x;
        let mut j: usize = 0;
        proof {
            lemma_pow0(256);
        }
        while j < n
            invariant
                j <= n,
                n == length,
                digits@.len() == n,
                x_aux as int == x as int / pow(256, j as nat),
                forall|i: int| n - j <= i < n ==> digits@[i] == i2osp_spec(x as nat, n as nat)[i],
            decreases n - j,
        {
            proof {
                // x / 256^(j + 1) == (x / 256^j) / 256
                lemma_pow_positive(256, j as nat);
                lemma_pow_adds(256, j as nat, 1);
                lemma_pow1(256);
                lemma_div_denominator(x as int, pow(256, j as nat), 256);
            }
            digits.set(n - 1 - j, (x_aux % 256) as u8);
            x_aux = x_aux / 256;
            j = j + 1;
        }
        assert(digits@ =~= i2osp_spec(x as nat, length as nat));
        digits
    }

    /// Octet-wise exclusive or of `a` and `b`, as long as the shorter one.
    pub fn strxor(a: &[u8], b: &[u8]) -> (r: Vec<u8>)
        ensures
            r@ == strxor_spec(a@, b@),
    {
        let n: usize = if a.len() <= b.len() {
            a.len()
        } else {
            b.len()
        };
        let mut out: Vec<u8> = Vec::new();
        let mut i: usize = 0;
        while i < n
            invariant
                i <= n,
                n <= a.len(),
                n <= b.len(),
                out@.len() == i,
                forall|k: int| 0 <= k < i ==> out@[k] == a@[k] ^ b@[k],
            decreases n - i,
        {
            out.push(a[i] ^ b[i]);
            i = i + 1;
        }
        assert(out@ =~= strxor_spec(a@, b@));
        out
    }
}

} // verus!
