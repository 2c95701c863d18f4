//! Binary Merkle trees over field elements.
//!
//! A leaf is the hash of one element, an inner node the hash of its left
//! and right child. A sequence whose length is no power of two is padded by
//! repeating its last element. An inclusion proof holds the element, its
//! position and the siblings met on the way from the leaf to the root.

use crate::hash::Sha3Hasher;
use crate::hash::hash_one_spec;
use crate::hash::hash_two_spec;
use vstd::arithmetic::div_mod::*;
use vstd::arithmetic::power2::*;
use vstd::prelude::*;

verus! {

/// The least power of two that is at least `n`.
pub open spec fn next_pow2(n: nat) -> nat
    decreases n,
{
    if n <= 1 {
        1
    } else {
        2 * next_pow2((n + 1) / 2)
    }
}

/// `values`, followed by copies of its last entry up to the next power of
/// two.
pub open spec fn padded(values: Seq<u32>) -> Seq<u32> {
    Seq::new(
        next_pow2(values.len()),
        |i: int|
            if i < values.len() {
                values[i]
            } else {
                values[values.len() - 1]
            },
    )
}

/// The hashes of the entries, one by one.
pub open spec fn hash_each(values: Seq<u32>) -> Seq<u32> {
    Seq::new(values.len(), |i: int| hash_one_spec(values[i] as int) as u32)
}

/// The lowest level of the tree over `values`.
pub open spec fn leaf_level(values: Seq<u32>) -> Seq<u32> {
    hash_each(padded(values))
}

/// The level above `level`: node `i` hashes nodes `2 * i` and `2 * i + 1`.
pub open spec fn next_level(level: Seq<u32>) -> Seq<u32> {
    Seq::new(
        level.len() / 2,
        |i: int| hash_two_spec(level[2 * i] as int, level[2 * i + 1] as int) as u32,
    )
}

/// The single node that remains when `level` is halved again and again.
pub open spec fn root_of(level: Seq<u32>) -> u32
    decreases level.len(),
{
    if level.len() <= 1 {
        level[0]
    } else {
        root_of(next_level(level))
    }
}

/// The root of the tree over `values`.
pub open spec fn merkle_root(values: Seq<u32>) -> u32 {
    root_of(leaf_level(values))
}

/// The position of the other child of the parent of node `index`.
pub open spec fn sibling(index: int) -> int {
    if index % 2 == 0 {
        index + 1
    } else {
        index - 1
    }
}

/// The siblings met on the way from node `index` of `level` to the root.
pub open spec fn path_of(level: Seq<u32>, index: int) -> Seq<u32>
    decreases level.len(),
{
    if level.len() <= 1 {
        Seq::empty()
    } else {
        seq![level[sibling(index)]] + path_of(next_level(level), index / 2)
    }
}

/// The node reached from the node `acc` at position `index` by hashing it
/// with each sibling of `path` in turn, on the side that the position tells.
pub open spec fn climb(acc: u32, index: int, path: Seq<u32>) -> u32
    decreases path.len(),
{
    if path.len() == 0 {
        acc
    } else {
        let parent = if index % 2 == 0 {
            hash_two_spec(acc as int, path[0] as int) as u32
        } else {
            hash_two_spec(path[0] as int, acc as int) as u32
        };
        climb(parent, index / 2, path.drop_first())
    }
}

/// Whether the proof `(value, index, path)` leads to `root`: the position
/// is one of a tree of the height of the path, and the climb from the hash
/// of the value ends at `root`.
pub open spec fn proof_leads_to(root: u32, value: u32, index: int, path: Seq<u32>) -> bool {
    &&& 0 <= index < pow2(path.len())
    &&& climb(hash_one_spec(value as int) as u32, index, path) == root
}

pub proof fn lemma_next_pow2(n: nat)
    ensures
        is_pow2(next_pow2(n) as int),
        next_pow2(n) >= n,
        next_pow2(n) >= 1,
        n >= 1 ==> next_pow2(n) < 2 * n,
    decreases n,
{
    reveal(is_pow2);
    if n > 1 {
        lemma_next_pow2((n + 1) / 2);
    }
}

/// Climbing from a node along its own path ends at the root.
pub proof fn lemma_climb_path(level: Seq<u32>, index: int)
    requires
        is_pow2(level.len() as int),
        0 <= index < level.len(),
    ensures
        climb(level[index], index, path_of(level, index)) == root_of(level),
    decreases level.len(),
{
    reveal(is_pow2);
    if level.len() > 1 {
        let up = next_level(level);
        let path = path_of(level, index);
        assert(path.drop_first() =~= path_of(up, index / 2));
        assert(path[0] == level[sibling(index)]);
        lemma_climb_path(up, index / 2);
    }
}

/// An inclusion proof: an element, its position among the leaves and the
/// siblings on the way up, lowest first.
#[derive(Debug, Clone, PartialEq, Eq)]
pub struct Proof {
    pub value: u32,
    pub index: usize,
    pub merkle_path: Vec<u32>,
}

impl Proof {
    /// Whether the proof leads to `root`: the element is hashed, then
    /// combined with each sibling in turn, the bit of the position at that
    /// height deciding which of the two comes first. A position that has
    /// more bits than the path has siblings is refused.
    pub fn verify(&self, root: u32) -> (r: bool)
        ensures
            r == proof_leads_to(root, self.value, self.index as int, self.merkle_path@),
    {
        let hasher = Sha3Hasher::new();
        let mut acc: u32 = hasher.hash_one(&self.value);
        let mut idx: usize = self.index;
        let mut l: usize = 0;
        let n: usize = self.merkle_path.len();
        let ghost start = acc;
        assert(self.merkle_path@.subrange(0, n as int) == self.merkle_path@);
        proof {
            lemma2_to64();
        }
        while l < n
            invariant
                l <= n,
                n == self.merkle_path.len(),
                idx == self.index as int / pow2(l as nat) as int,
                climb(acc, idx as int, self.merkle_path@.subrange(l as int, n as int)) == climb(
                    start,
                    self.index as int,
                    self.merkle_path@,
                ),
            decreases n - l,
        {
            let ghost rest = self.merkle_path@.subrange(l as int, n as int);
            assert(rest.drop_first() =~= self.merkle_path@.subrange(l + 1, n as int));
            proof {
                lemma_pow2_pos(l as nat);
                lemma_pow2_unfold((l + 1) as nat);
                vstd::arithmetic::div_mod::lemma_div_denominator(
                    self.index as int,
                    pow2(l as nat) as int,
                    2,
                );
                vstd::arithmetic::mul::lemma_mul_is_commutative(pow2(l as nat) as int, 2);
            }
            let sib: u32 = self.merkle_path[l];
            acc = if idx % 2 == 0 {
                hasher.hash_two(&acc, &sib)
            } else {
                hasher.hash_two(&sib, &acc)
            };
            idx = idx / 2;
            l = l + 1;
        }
        proof {
            lemma_pow2_pos(n as nat);
            if self.index < pow2(n as nat) {
                vstd::arithmetic::div_mod::lemma_basic_div(self.index as int, pow2(n as nat) as int);
            } else {
                vstd::arithmetic::div_mod::lemma_div_non_zero(
                    self.index as int,
                    pow2(n as nat) as int,
                );
            }
        }
        idx == 0 && acc == root
    }
}

/// A Merkle tree over a sequence of field elements, with all its levels.
#[derive(Debug, Clone, PartialEq, Eq)]
pub struct MerkleTree {
    pub root: u32,
    pub leaves: Vec<u32>,
    pub levels: Vec<Vec<u32>>,
}

impl MerkleTree {
    /// The levels are those of the tree over `leaves`, from the leaf hashes
    /// up to the root, and `root` is its root.
    pub open spec fn wf(&self) -> bool {
        &&& self.leaves@.len() > 0
        &&& self.levels@.len() > 0
        &&& self.levels@[0]@ == leaf_level(self.leaves@)
        &&& forall|l: int|
            0 <= l < self.levels@.len() - 1 ==> (#[trigger] self.levels@[l + 1])@ == next_level(
                self.levels@[l]@,
            )
        &&& forall|l: int|
            0 <= l < self.levels@.len() ==> is_pow2((#[trigger] self.levels@[l])@.len() as int)
        &&& forall|l: int|
            0 <= l < self.levels@.len() - 1 ==> (#[trigger] self.levels@[l])@.len() > 1
        &&& self.levels@[self.levels@.len() - 1]@.len() == 1
        &&& self.root == self.levels@[self.levels@.len() - 1]@[0]
    }

    /// The elements that the tree commits to. In a tree that is `wf`, the
    /// levels and the root follow from them: the root is
    /// `merkle_root(self@)`, as `lemma_root` shows.
    pub open spec fn view(&self) -> Seq<u32> {
        self.leaves@
    }

    /// Builds the tree over `values`. There is no tree over no element.
    pub fn build(values: &[u32]) -> (r: Option<MerkleTree>)
        ensures
            r is Some <==> values@.len() > 0,
            r matches Some(tree) ==> {
                &&& tree.wf()
                &&& tree@ == values@
                &&& tree.root == merkle_root(values@)
            },
    {
        let n: usize = values.len();
        if n == 0 {
            return None;
        }
        let hasher = Sha3Hasher::new();
        let mut leaves: Vec<u32> = Vec::new();
        let mut level: Vec<u32> = Vec::new();
        let mut i: usize = 0;
        while i < n
            invariant
                i <= n,
                n == values.len(),
                leaves@ == values@.subrange(0, i as int),
                level@.len() == i,
                forall|j: int| 0 <= j < i ==> level@[j] == leaf_level(values@)[j],
            decreases n - i,
        {
            proof {
                lemma_next_pow2(n as nat);
                assert(values@.subrange(0, i + 1) =~= values@.subrange(0, i as int).push(
                    values@[i as int],
                ));
            }
            leaves.push(values[i]);
            level.push(hasher.hash_one(&values[i]));
            i = i + 1;
        }
        assert(values@.subrange(0, n as int) == values@);
        // pad with the hash of the last element
        let last: u32 = level[n - 1];
        proof {
            lemma_next_pow2(n as nat);
        }
        while log2_is_none(level.len())
            invariant
                n == values.len(),
                n >= 1,
                n <= level@.len() <= next_pow2(n as nat),
                last == leaf_level(values@)[n - 1],
                forall|j: int| 0 <= j < level@.len() ==> level@[j] == leaf_level(values@)[j],
            decreases next_pow2(n as nat) - level@.len(),
        {
            proof {
                lemma_next_pow2(n as nat);
            }
            level.push(last);
        }
        proof {
            lemma_pow2_between(n as nat, level@.len());
            assert(level@ =~= leaf_level(values@));
        }
        let mut levels: Vec<Vec<u32>> = Vec::new();
        let ghost bottom = level@;
        while level.len() > 1
            invariant
                is_pow2(level@.len() as int),
                bottom == leaf_level(values@),
                root_of(level@) == root_of(bottom),
                levels@.len() == 0 ==> level@ == bottom,
                levels@.len() > 0 ==> levels@[0]@ == bottom,
                levels@.len() > 0 ==> level@ == next_level(levels@[levels@.len() - 1]@),
                forall|l: int|
                    0 <= l < levels@.len() - 1 ==> (#[trigger] levels@[l + 1])@ == next_level(
                        levels@[l]@,
                    ),
                forall|l: int| 0 <= l < levels@.len() ==> is_pow2((#[trigger] levels@[l])@.len() as int),
                forall|l: int| 0 <= l < levels@.len() ==> (#[trigger] levels@[l])@.len() > 1,
            decreases level@.len(),
        {
            let half: usize = level.len() / 2;
            let mut up: Vec<u32> = Vec::new();
            let mut j: usize = 0;
            proof {
                reveal(is_pow2);
            }
            while j < half
                invariant
                    j <= half,
                    half == level@.len() / 2,
                    level@.len() % 2 == 0,
                    level@.len() == level.len(),
                    up@.len() == j,
                    forall|t: int| 0 <= t < j ==> up@[t] == next_level(level@)[t],
                decreases half - j,
            {
                up.push(hasher.hash_two(&level[2 * j], &level[2 * j + 1]));
                j = j + 1;
            }
            assert(up@ =~= next_level(level@));
            levels.push(level);
            level = up;
        }
        proof {
            reveal(is_pow2);
        }
        let root: u32 = level[0];
        levels.push(level);
        Some(MerkleTree { root, leaves, levels })
    }

    /// The inclusion proof of the element at position `pos`, if there is
    /// one.
    pub fn get_proof_by_pos(&self, pos: usize) -> (r: Option<Proof>)
        requires
            self.wf(),
        ensures
            r is Some <==> pos < self@.len(),
            r matches Some(proof) ==> {
                &&& proof.value == self@[pos as int]
                &&& proof.index == pos
                &&& proof.merkle_path@ == path_of(leaf_level(self@), pos as int)
                &&& proof_leads_to(self.root, proof.value, proof.index as int, proof.merkle_path@)
            },
    {
        if pos >= self.leaves.len() {
            return None;
        }
        let depth: usize = self.levels.len() - 1;
        let mut path: Vec<u32> = Vec::new();
        let mut idx: usize = pos;
        let mut l: usize = 0;
        proof {
            lemma_next_pow2(self.leaves@.len());
            assert(Seq::<u32>::empty() + path_of(self.levels@[0]@, pos as int) =~= path_of(
                self.levels@[0]@,
                pos as int,
            ));
        }
        while l < depth
            invariant
                self.wf(),
                depth == self.levels@.len() - 1,
                l <= depth,
                idx < self.levels@[l as int]@.len(),
                path@ + path_of(self.levels@[l as int]@, idx as int) == path_of(
                    self.levels@[0]@,
                    pos as int,
                ),
            decreases depth - l,
        {
            let level = &self.levels[l];
            proof {
                reveal(is_pow2);
                let rest = path_of(level@, idx as int);
                assert(rest == seq![level@[sibling(idx as int)]] + path_of(
                    next_level(level@),
                    idx as int / 2,
                ));
                assert(self.levels@[l + 1]@ == next_level(level@));
                assert((path@.push(level@[sibling(idx as int)])) + path_of(
                    next_level(level@),
                    idx as int / 2,
                ) =~= path@ + rest);
            }
            let sib: usize = if idx % 2 == 0 {
                idx + 1
            } else {
                idx - 1
            };
            path.push(level[sib]);
            idx = idx / 2;
            l = l + 1;
        }
        proof {
            assert(path_of(self.levels@[depth as int]@, idx as int) =~= Seq::<u32>::empty());
            assert(path@ + Seq::<u32>::empty() =~= path@);
            let bottom = leaf_level(self@);
            lemma_climb_path(bottom, pos as int);
            self.lemma_root();
            lemma_path_height(self@, pos as int);
            lemma_tree_height(self@.len());
        }
        Some(Proof { value: self.leaves[pos], index: pos, merkle_path: path })
    }

    /// The stored root is the root of the tree over the leaves.
    pub proof fn lemma_root(&self)
        requires
            self.wf(),
        ensures
            self.root == merkle_root(self@),
    {
        self.lemma_root_from(0);
    }

    proof fn lemma_root_from(&self, l: int)
        requires
            self.wf(),
            0 <= l < self.levels@.len(),
        ensures
            root_of(self.levels@[l]@) == self.root,
        decreases self.levels@.len() - l,
    {
        if l < self.levels@.len() - 1 {
            self.lemma_root_from(l + 1);
            assert(self.levels@[l + 1]@ == next_level(self.levels@[l]@));
        }
    }
}

/// Whether `n` is no power of two.
fn log2_is_none(n: usize) -> (r: bool)
    ensures
        r == !is_pow2(n as int),
{
    crate::bit_reverse::log2_exact(n).is_none()
}

/// A power of two between `n` and the least power of two above `n` is that
/// least power.
proof fn lemma_pow2_between(n: nat, m: nat)
    requires
        n >= 1,
        n <= m <= next_pow2(n),
        is_pow2(m as int),
    ensures
        m == next_pow2(n),
    decreases n,
{
    reveal(is_pow2);
    if n > 1 {
        // m >= n >= 2 is even; halve both
        lemma_pow2_between((n + 1) / 2, m / 2);
    }
}

/// The tree over a sequence opens every position to a proof that leads to
/// its root.
pub proof fn lemma_open_verifies(values: Seq<u32>, pos: int)
    requires
        0 <= pos < values.len(),
    ensures
        proof_leads_to(
            merkle_root(values),
            values[pos],
            pos,
            path_of(leaf_level(values), pos),
        ),
{
    lemma_next_pow2(values.len());
    lemma_climb_path(leaf_level(values), pos);
    lemma_path_height(values, pos);
    lemma_tree_height(values.len());
}

/// A proof whose position lies outside the tree that its path spans leads
/// to no root: turning on a bit of the position above the height of the
/// path makes a proof fail.
pub proof fn lemma_position_outside_tree(root: u32, value: u32, index: int, path: Seq<u32>)
    requires
        index >= pow2(path.len()),
    ensures
        !proof_leads_to(root, value, index, path),
{
}

/// The height of the tree over `len` elements, which is the length of its
/// inclusion proofs.
pub open spec fn tree_height(len: nat) -> nat
    decreases len,
{
    if len <= 1 {
        0
    } else {
        1 + tree_height((len + 1) / 2)
    }
}

/// The tree over `len` elements has `2^height` leaves.
pub proof fn lemma_tree_height(len: nat)
    ensures
        next_pow2(len) == pow2(tree_height(len)),
    decreases len,
{
    lemma2_to64();
    if len > 1 {
        lemma_tree_height((len + 1) / 2);
        lemma_pow2_unfold(tree_height(len));
    }
}

/// The length of an inclusion proof is the height of the tree.
pub proof fn lemma_path_height(values: Seq<u32>, pos: int)
    ensures
        path_of(leaf_level(values), pos).len() == tree_height(values.len()),
{
    lemma_tree_height(values.len());
    lemma_path_of_len(leaf_level(values), pos, tree_height(values.len()));
}

/// The path of a node in a level of `2^e` nodes has `e` siblings.
pub proof fn lemma_path_of_len(level: Seq<u32>, index: int, e: nat)
    requires
        level.len() == pow2(e),
    ensures
        path_of(level, index).len() == e,
    decreases e,
{
    lemma2_to64();
    lemma_pow2_pos(e);
    if e > 0 {
        lemma_pow2_unfold(e);
        lemma_pow2_pos((e - 1) as nat);
        lemma_path_of_len(next_level(level), index / 2, (e - 1) as nat);
    }
}

/// The height of the tree over `len` elements.
pub fn merkle_height(len: usize) -> (r: usize)
    ensures
        r == tree_height(len as nat),
        r <= 64,
    decreases len,
{
    if len <= 1 {
        0
    } else {
        let half: usize = len / 2 + len % 2;
        proof {
            lemma_height_bound(half as nat);
        }
        1 + merkle_height(half)
    }
}

/// A tree over fewer than `2^64` elements is lower than 64.
pub proof fn lemma_height_bound(len: nat)
    requires
        len <= usize::MAX / 2 + 1,
    ensures
        tree_height(len) <= 63,
{
    lemma_tree_height(len);
    lemma_next_pow2(len);
    lemma2_to64_rest();
    if tree_height(len) > 63 {
        if tree_height(len) > 64 {
            lemma_pow2_strictly_increases(64, tree_height(len));
        }
    }
}

} // verus!
