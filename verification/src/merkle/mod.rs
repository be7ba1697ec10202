//! Binary Merkle trees over 32-byte leaves.

pub mod laws;
pub mod leaf;

pub use leaf::{hash_leaf_column_encoded, hash_leaf_row_blinded};

use core::marker::PhantomData;

use vstd::arithmetic::power2::*;
use vstd::prelude::*;

use crate::bits;
use crate::field::TowerField;
use crate::hashers;
use crate::hashers::{DefaultHasher, Hasher};

verus! {

#[derive(Clone, Copy, Debug, PartialEq, Eq, Structural)]
pub enum Error {
    LeafIndexOutOfBounds { leaf_index: usize, num_leaves: usize },
    SubtreeUnaligned,
    SubtreeInternalIndexOutOfBounds,
}

/// A hash.
pub type Digest = [u8; 32];

// ---------------------------------------------------------------
// Trees over sequences
// ---------------------------------------------------------------

/// The hash of an inner node.
pub open spec fn node_hash<H: Hasher>(left: Seq<u8>, right: Seq<u8>) -> Seq<u8> {
    hashers::digest::<H>(seq![1u8] + left + right)
}

/// The root over `2^height` leaves.
pub open spec fn root_of<H: Hasher>(leaves: Seq<Digest>, height: nat) -> Seq<u8>
    decreases height,
{
    if height == 0 {
        leaves[0]@
    } else {
        let half = pow2((height - 1) as nat) as int;
        node_hash::<H>(
            root_of::<H>(leaves.take(half), (height - 1) as nat),
            root_of::<H>(leaves.skip(half), (height - 1) as nat),
        )
    }
}

/// Leaves `j·2^height` to `(j+1)·2^height`.
pub open spec fn block(leaves: Seq<Digest>, height: nat, j: int) -> Seq<Digest> {
    leaves.subrange(j * pow2(height), (j + 1) * pow2(height))
}

/// The root over block `j`.
pub open spec fn block_root<H: Hasher>(leaves: Seq<Digest>, height: nat, j: int) -> Seq<u8> {
    root_of::<H>(block(leaves, height, j), height)
}

/// The other child of the parent of `j`.
pub open spec fn sibling(j: int) -> int {
    if j % 2 == 0 {
        j + 1
    } else {
        j - 1
    }
}

/// The hash of a node and its sibling, in their order.
pub open spec fn combined<H: Hasher>(current: Seq<u8>, j: nat, other: Seq<u8>) -> Seq<u8> {
    if j % 2 == 0 {
        node_hash::<H>(current, other)
    } else {
        node_hash::<H>(other, current)
    }
}

/// What a sibling path leads to from node `j` of its layer.
pub open spec fn folded<H: Hasher>(current: Seq<u8>, j: nat, path: Seq<Digest>) -> Seq<u8>
    decreases path.len(),
{
    if path.len() == 0 {
        current
    } else {
        folded::<H>(combined::<H>(current, j, path[0]@), j / 2, path.skip(1))
    }
}

/// `path` holds the siblings of node `j` of layer `height` and of its
/// ancestors, up to the children of the root of a tree of `depth` layers.
pub open spec fn is_path<H: Hasher>(
    leaves: Seq<Digest>,
    depth: nat,
    height: nat,
    j: nat,
    path: Seq<Digest>,
) -> bool {
    &&& path.len() == depth - height
    &&& forall|k: int|
        0 <= k < path.len() ==> (#[trigger] path[k])@ == block_root::<H>(
            leaves,
            height + k as nat,
            sibling(j as int / pow2(k as nat) as int),
        )
}

/// The hash that is all zeros.
pub open spec fn zero_hash() -> Seq<u8> {
    Seq::new(32, |i: int| 0u8)
}

/// `all` is the leaves, and zero leaves up to the next power of two.
pub open spec fn is_padded(leaves: Seq<Digest>, all: Seq<Digest>) -> bool {
    &&& all.len() == pow2(bits::ceil_log2(leaves.len()))
    &&& forall|i: int| 0 <= i < leaves.len() ==> #[trigger] all[i] == leaves[i]
    &&& forall|i: int| leaves.len() <= i < all.len() ==> (#[trigger] all[i])@ == zero_hash()
}

// ---------------------------------------------------------------
// Trees in an array
// ---------------------------------------------------------------

/// Every inner node of the array is the hash of its children.
pub open spec fn linked_from<H: Hasher>(nodes: Seq<Digest>, from: int, leaves: int) -> bool {
    forall|i: int|
        from <= i < leaves - 1 ==> (#[trigger] nodes[i])@ == node_hash::<H>(
            nodes[2 * i + 1]@,
            nodes[2 * i + 2]@,
        )
}

/// Where node `j` of layer `height` stands.
pub open spec fn place(depth: nat, height: nat, j: int) -> int {
    pow2((depth - height) as nat) - 1 + j
}

/// The layer of the node at place `n`.
pub open spec fn node_height(depth: nat, n: nat) -> nat {
    (depth - bits::floor_log2(n + 1)) as nat
}

/// Which node of its layer stands at place `n`.
pub open spec fn node_index(n: nat) -> nat {
    (n + 1 - pow2(bits::floor_log2(n + 1))) as nat
}

/// Every place of the array holds a node of some layer.
proof fn lemma_node_place(depth: nat, n: nat)
    requires
        n < 2 * pow2(depth) - 1,
    ensures
        node_height(depth, n) <= depth,
        bits::floor_log2(n + 1) <= depth,
        node_index(n) < pow2((depth - node_height(depth, n)) as nat),
        n == place(depth, node_height(depth, n), node_index(n) as int),
{
    let l = bits::floor_log2(n + 1);
    bits::lemma_floor_log2(n + 1);
    lemma_pow2_unfold(depth + 1);
    lemma_pow2_unfold(l + 1);
    if l > depth {
        bits::lemma_pow2_monotone(depth + 1, l);
    }
}

/// A Merkle tree, as an array with the root first and the leaves last.
#[derive(Debug)]
pub struct MerkleTree<F: TowerField, H: Hasher = DefaultHasher> {
    nodes: Vec<Digest>,
    num_leaves: usize,
    built: bool,
    marker: PhantomData<(F, H)>,
}

impl<F: TowerField, H: Hasher> Clone for MerkleTree<F, H> {
    fn clone(&self) -> (r: Self)
        ensures
            r.size() == self.size(),
            r.leaves() == self.leaves(),
            r.is_built() == self.is_built(),
            r.wf() == self.wf(),
            r.linked() == self.linked(),
    {
        let mut nodes: Vec<Digest> = Vec::with_capacity(self.nodes.len());
        let mut i: usize = 0;
        while i < self.nodes.len()
            invariant
                i <= self.nodes@.len(),
                nodes@ =~= self.nodes@.take(i as int),
            decreases self.nodes@.len() - i,
        {
            nodes.push(self.nodes[i]);
            i = i + 1;
        }
        assert(nodes@ =~= self.nodes@);
        MerkleTree { nodes, num_leaves: self.num_leaves, built: self.built, marker: PhantomData }
    }
}

impl<F: TowerField, H: Hasher> MerkleTree<F, H> {
    /// The number of leaves, with padding.
    pub closed spec fn size(self) -> nat {
        self.num_leaves as nat
    }

    /// The leaves, with padding.
    pub closed spec fn leaves(self) -> Seq<Digest> {
        if self.num_leaves == 0 {
            Seq::empty()
        } else {
            self.nodes@.skip(self.num_leaves - 1)
        }
    }

    /// The array holds a tree: a power of two of leaves, or none.
    pub closed spec fn wf(self) -> bool {
        if self.num_leaves == 0 {
            self.nodes@.len() == 0
        } else {
            &&& bits::is_power_of_two(self.num_leaves as nat)
            &&& self.nodes@.len() == 2 * self.num_leaves - 1
            &&& 2 * self.num_leaves <= usize::MAX
        }
    }

    /// The hashes of the inner nodes stand.
    pub closed spec fn linked(self) -> bool {
        self.wf() && self.built && linked_from::<H>(self.nodes@, 0, self.num_leaves as int)
    }

    /// Whether the inner nodes were ever computed.
    pub closed spec fn is_built(self) -> bool {
        self.built
    }

    /// The number of layers above the leaves.
    pub open spec fn depth(self) -> nat {
        bits::floor_log2(self.size())
    }

    /// Where the leaves start.
    pub open spec fn offset(self) -> nat {
        if self.size() == 0 {
            0
        } else {
            (self.size() - 1) as nat
        }
    }

    /// The size of a tree is zero or a power of two, and its leaves are as many.
    pub proof fn lemma_size(self)
        requires
            self.wf(),
        ensures
            self.leaves().len() == self.size(),
            self.size() > 0 ==> self.size() == pow2(self.depth()),
            self.size() <= usize::MAX,
    {
        if self.num_leaves > 0 {
            let k = choose|k: nat| self.num_leaves as nat == #[trigger] pow2(k);
            bits::lemma_pow2_monotone(k, k + 1);
            bits::lemma_floor_log2_unique(self.num_leaves as nat, k);
        }
    }

    /// A tree whose inner nodes stand is well-formed.
    pub proof fn lemma_linked_wf(self)
        requires
            self.linked(),
        ensures
            self.wf(),
            self.is_built(),
    {
    }

    /// The nodes of the array are the roots of the blocks.
    proof fn lemma_node(self, height: nat, j: int)
        requires
            self.linked(),
            self.size() > 0,
            height <= self.depth(),
            0 <= j < pow2((self.depth() - height) as nat),
        ensures
            0 <= place(self.depth(), height, j) < self.nodes@.len(),
            self.nodes@[place(self.depth(), height, j)]@ == block_root::<H>(
                self.leaves(),
                height,
                j,
            ),
            (j + 1) * pow2(height) <= self.size(),
        decreases height,
    {
        self.lemma_size();
        let d = self.depth();
        let width = pow2((d - height) as nat);
        let span = pow2(height);
        lemma_pow2_adds((d - height) as nat, height);
        lemma_pow2_pos(height);
        lemma_pow2_pos((d - height) as nat);
        assert((j + 1) * span <= width * span) by (nonlinear_arith)
            requires
                j + 1 <= width,
                span > 0,
        ;
        assert(width <= width * span) by (nonlinear_arith)
            requires
                span >= 1,
                width > 0,
        ;
        let leaves = self.leaves();
        let b = block(leaves, height, j);
        assert(0 <= j * span) by (nonlinear_arith)
            requires
                0 <= j,
                span > 0,
        ;
        lemma2_to64();
        if height == 0 {
            assert(j * 1 == j && (j + 1) * 1 == j + 1);
            assert(b[0] == leaves[j]);
        } else {
            let h = (height - 1) as nat;
            lemma_pow2_unfold(height);
            lemma_pow2_unfold((d - h) as nat);
            self.lemma_node(h, 2 * j);
            self.lemma_node(h, 2 * j + 1);
            let half = pow2(h) as int;
            assert(j * span == (2 * j) * half && (2 * j + 1) * half == j * span + half && (2 * j + 1
                + 1) * half == (j + 1) * span && (j + 1) * span == j * span + span)
                by (nonlinear_arith)
                requires
                    span == 2 * half,
            ;
            assert(b.take(half) =~= block(leaves, h, 2 * j));
            assert(b.skip(half) =~= block(leaves, h, 2 * j + 1));
            let i = place(d, height, j);
            assert(2 * i + 1 == place(d, h, 2 * j));
            assert(2 * i + 2 == place(d, h, 2 * j + 1));
            assert(i < self.num_leaves - 1) by (nonlinear_arith)
                requires
                    i == width - 1 + j,
                    j < width,
                    self.num_leaves == width * span,
                    span >= 2,
            ;
        }
    }

    /// Builds a tree over hashes, padded with zero leaves to a power of two.
    pub fn new(leaves: &[Digest]) -> (r: Self)
        requires
            leaves@.len() <= usize::MAX / 4 + 1,
        ensures
            r.linked(),
            leaves@.len() == 0 ==> r.size() == 0,
            leaves@.len() > 0 ==> is_padded(leaves@, r.leaves()),
    {
        if leaves.len() == 0 {
            return Self::empty();
        }
        let (mut tree, leaf_offset) = Self::allocate_tree(leaves.len());
        let n: usize = tree.num_leaves;
        proof {
            tree.lemma_size();
            bits::lemma_ceil_log2(leaves@.len());
        }
        let mut i: usize = 0;
        while i < n
            invariant
                i <= n,
                n == tree.num_leaves,
                n > 0,
                n as nat == pow2(bits::ceil_log2(leaves@.len())),
                leaves@.len() <= n,
                tree.wf(),
                leaf_offset == n - 1,
                forall|k: int|
                    0 <= k < i ==> is_leaf(leaves@, k, #[trigger] tree.nodes@[n - 1 + k]),
            decreases n - i,
        {
            let hash: Digest = if i < leaves.len() {
                leaves[i]
            } else {
                [0u8; 32]
            };
            let ghost before = tree.nodes@;
            tree.nodes[leaf_offset + i] = hash;
            proof {
                if i >= leaves@.len() {
                    assert(hash@ =~= zero_hash());
                }
                assert forall|k: int| 0 <= k < i + 1 implies is_leaf(
                    leaves@,
                    k,
                    #[trigger] tree.nodes@[n - 1 + k],
                ) by {
                    if k < i {
                        assert(tree.nodes@[n - 1 + k] == before[n - 1 + k]);
                    }
                }
            }
            i = i + 1;
        }
        proof {
            assert forall|k: int| 0 <= k < n implies is_leaf(
                leaves@,
                k,
                #[trigger] tree.leaves()[k],
            ) by {
                assert(tree.leaves()[k] == tree.nodes@[n - 1 + k]);
            }
        }
        tree.build_layers(leaf_offset);
        tree
    }

    pub fn num_leaves(&self) -> (r: usize)
        ensures
            r == self.size(),
    {
        self.num_leaves
    }

    /// The leaf layer, for writing. The inner nodes stay as they are until
    /// `build_layers`.
    pub fn leaves_mut(&mut self, leaf_offset: usize) -> (r: &mut [Digest])
        requires
            old(self).wf(),
            leaf_offset == old(self).offset(),
        ensures
            r@ == old(self).leaves(),
            final(self).size() == old(self).size(),
            final(self).is_built() == old(self).is_built(),
            final(r)@.len() == r@.len() ==> final(self).wf() && final(self).leaves() == final(r)@,
    {
        proof {
            self.lemma_size();
        }
        let all: &mut [Digest] = self.nodes.as_mut_slice();
        let (_, leaves) = all.split_at_mut(leaf_offset);
        leaves
    }

    /// The root; zero for a tree without leaves.
    pub fn root(&self) -> (r: Digest)
        requires
            self.linked(),
        ensures
            self.size() == 0 ==> r@ == zero_hash(),
            self.size() > 0 ==> r@ == root_of::<H>(self.leaves(), self.depth()),
    {
        if self.nodes.len() == 0 {
            let zero: Digest = [0u8; 32];
            proof {
                assert(zero@ =~= zero_hash());
            }
            return zero;
        }
        proof {
            self.lemma_size();
            lemma2_to64();
            self.lemma_node(self.depth(), 0);
            assert(0 * pow2(self.depth()) == 0 && 1 * pow2(self.depth()) == pow2(self.depth()));
            assert(block(self.leaves(), self.depth(), 0) =~= self.leaves());
        }
        self.nodes[0]
    }

    /// The siblings on the way from a node up to the root.
    fn siblings(&self, start: usize, Ghost(height): Ghost<nat>, Ghost(j): Ghost<nat>) -> (r: Vec<
        Digest,
    >)
        requires
            self.linked(),
            self.size() > 0,
            height <= self.depth(),
            j < pow2((self.depth() - height) as nat),
            start == place(self.depth(), height, j as int),
        ensures
            is_path::<H>(self.leaves(), self.depth(), height, j, r@),
    {
        let mut path: Vec<Digest> = Vec::new();
        let mut node_idx: usize = start;
        let ghost mut h = height;
        let ghost mut i = j;
        let ghost d = self.depth();
        proof {
            lemma2_to64();
            self.lemma_size();
            self.lemma_node(height, j as int);
            assert(j as int / 1 == j);
        }
        while node_idx > 0
            invariant
                self.linked(),
                self.size() > 0,
                d == self.depth(),
                height <= h <= d,
                i < pow2((d - h) as nat),
                node_idx == place(d, h, i as int),
                path@.len() == h - height,
                i as int == j as int / pow2((h - height) as nat) as int,
                node_idx < self.nodes@.len(),
                self.nodes@.len() <= usize::MAX,
                forall|k: int|
                    0 <= k < path@.len() ==> (#[trigger] path@[k])@ == block_root::<H>(
                        self.leaves(),
                        height + k as nat,
                        sibling(j as int / pow2(k as nat) as int),
                    ),
            decreases node_idx,
        {
            proof {
                lemma2_to64();
                if h == d {
                    assert(i == 0);
                }
                lemma_pow2_unfold((d - h) as nat);
                lemma_pow2_unfold((h + 1 - height) as nat);
                lemma_pow2_pos((h - height) as nat);
                vstd::arithmetic::div_mod::lemma_div_denominator(
                    j as int,
                    pow2((h - height) as nat) as int,
                    2,
                );
                let s = sibling(i as int);
                self.lemma_node(h, s);
                assert(node_idx % 2 != 0 <==> i % 2 == 0);
            }
            let sibling_idx: usize = if node_idx % 2 != 0 {
                node_idx + 1
            } else {
                node_idx - 1
            };
            path.push(self.nodes[sibling_idx]);
            node_idx = (node_idx - 1) / 2;
            proof {
                h = h + 1;
                i = i / 2;
            }
        }
        proof {
            lemma_pow2_pos((d - h) as nat);
            if h < d {
                bits::lemma_pow2_monotone(0, (d - h) as nat);
                lemma2_to64();
                lemma_pow2_unfold((d - h) as nat);
                lemma_pow2_pos((d - h - 1) as nat);
            }
        }
        path
    }

    /// The sibling path from a leaf up to the root.
    pub fn prove(&self, leaf_index: usize) -> (r: Result<Vec<Digest>, Error>)
        requires
            self.linked(),
        ensures
            match r {
                Ok(path) => leaf_index < self.size() && is_path::<H>(
                    self.leaves(),
                    self.depth(),
                    0,
                    leaf_index as nat,
                    path@,
                ),
                Err(e) => leaf_index >= self.size() && e == (Error::LeafIndexOutOfBounds {
                    leaf_index,
                    num_leaves: self.size() as usize,
                }),
            },
    {
        if leaf_index >= self.num_leaves {
            return Err(
                Error::LeafIndexOutOfBounds { leaf_index, num_leaves: self.num_leaves },
            );
        }
        proof {
            self.lemma_size();
        }
        Ok(self.siblings((self.num_leaves - 1) + leaf_index, Ghost(0), Ghost(leaf_index as nat)))
    }

    /// Whether a sibling path leads from a leaf to the root.
    pub fn verify(root: &Digest, leaf_hash: Digest, leaf_index: usize, proof_path: &[Digest]) -> (r:
        bool)
        ensures
            r == (folded::<H>(leaf_hash@, leaf_index as nat, proof_path@) == root@),
    {
        same_hash(&fold_path::<H>(leaf_hash, leaf_index, proof_path), root)
    }

    fn empty() -> (r: Self)
        ensures
            r.linked(),
            r.size() == 0,
    {
        MerkleTree { nodes: Vec::new(), num_leaves: 0, built: true, marker: PhantomData }
    }

    /// A tree with room for so many leaves, padded to a power of two, all of
    /// them zero, and the index of its first leaf.
    pub fn allocate_tree(num_leaves: usize) -> (r: (Self, usize))
        requires
            num_leaves <= usize::MAX / 4 + 1,
        ensures
            r.0.wf(),
            !r.0.is_built(),
            r.0.size() == pow2(bits::ceil_log2(num_leaves as nat)),
            r.0.leaves().len() == r.0.size(),
            forall|i: int| 0 <= i < r.0.size() ==> (#[trigger] r.0.leaves()[i])@ == zero_hash(),
            r.1 == r.0.offset(),
    {
        let mut size: usize = 1;
        let ghost mut k: nat = 0;
        let ghost c = bits::ceil_log2(num_leaves as nat);
        proof {
            lemma2_to64();
            bits::lemma_ceil_log2(num_leaves as nat);
        }
        while size < num_leaves
            invariant
                size as nat == pow2(k),
                k <= c,
                num_leaves <= usize::MAX / 4 + 1,
                num_leaves as nat <= pow2(c),
                c > 0 ==> pow2((c - 1) as nat) < num_leaves,
                size <= usize::MAX / 4 + 1,
            decreases c - k,
        {
            proof {
                lemma_pow2_unfold(k + 1);
                if k + 1 > c {
                    assert(k == c);
                }
                if k + 1 <= c - 1 {
                    bits::lemma_pow2_monotone(k + 1, (c - 1) as nat);
                }
                lemma_quarter(k, num_leaves as nat);
                k = k + 1;
            }
            size = size * 2;
        }
        proof {
            if k < c {
                bits::lemma_pow2_monotone(k, (c - 1) as nat);
            }
            assert(k == c);
        }
        let zero: Digest = [0u8; 32];
        let nodes: Vec<Digest> = vec![zero; 2 * size - 1];
        assert(zero@ =~= zero_hash());
        (MerkleTree { nodes, num_leaves: size, built: false, marker: PhantomData }, size - 1)
    }

    /// Computes the inner nodes from the leaves.
    pub fn build_layers(&mut self, leaf_offset: usize)
        requires
            old(self).wf(),
            leaf_offset == old(self).offset(),
        ensures
            final(self).linked(),
            final(self).size() == old(self).size(),
            final(self).leaves() == old(self).leaves(),
    {
        let n: usize = self.num_leaves;
        let mut i: usize = leaf_offset;
        while i > 0
            invariant
                self.wf(),
                self.num_leaves == n,
                n == old(self).num_leaves,
                i <= leaf_offset,
                n == 0 ==> leaf_offset == 0,
                n > 0 ==> leaf_offset == n - 1,
                self.leaves() == old(self).leaves(),
                linked_from::<H>(self.nodes@, i as int, n as int),
            decreases i,
        {
            i = i - 1;
            let ghost before = self.nodes@;
            let hash: Digest = hash_pair::<H>(&self.nodes[2 * i + 1], &self.nodes[2 * i + 2]);
            self.nodes[i] = hash;
            proof {
                assert(self.leaves() =~= before.skip(n - 1));
                assert forall|k: int| i <= k < n - 1 implies (#[trigger] self.nodes@[k])@
                    == node_hash::<H>(self.nodes@[2 * k + 1]@, self.nodes@[2 * k + 2]@) by {
                    if k > i {
                        assert(before[k]@ == node_hash::<H>(
                            before[2 * k + 1]@,
                            before[2 * k + 2]@,
                        ));
                    }
                }
            }
        }
        self.built = true;
    }

    /// The root of the subtree over the `2^subtree_height` leaves from a given
    /// one on.
    pub fn get_internal_root(&self, leaf_start_idx: usize, subtree_height: usize) -> (r: Result<
        Digest,
        Error,
    >)
        requires
            self.linked(),
            subtree_height < usize::BITS,
            leaf_start_idx + pow2(subtree_height as nat) <= usize::MAX,
        ensures
            ({
                let span = pow2(subtree_height as nat);
                match r {
                    Ok(root) => {
                        &&& leaf_start_idx as nat % span == 0
                        &&& leaf_start_idx + span <= self.size()
                        &&& root@ == block_root::<H>(
                            self.leaves(),
                            subtree_height as nat,
                            (leaf_start_idx as nat / span) as int,
                        )
                    },
                    Err(e) => if leaf_start_idx as nat % span != 0 {
                        e == Error::SubtreeUnaligned
                    } else {
                        &&& leaf_start_idx + span > self.size()
                        &&& e == (Error::LeafIndexOutOfBounds {
                            leaf_index: (leaf_start_idx + span) as usize,
                            num_leaves: self.size() as usize,
                        })
                    },
                }
            }),
    {
        let span: usize = span_of(subtree_height);
        if leaf_start_idx % span != 0 {
            return Err(Error::SubtreeUnaligned);
        }
        if leaf_start_idx + span > self.num_leaves {
            return Err(
                Error::LeafIndexOutOfBounds {
                    leaf_index: leaf_start_idx + span,
                    num_leaves: self.num_leaves,
                },
            );
        }
        proof {
            self.lemma_subtree(leaf_start_idx as nat, subtree_height as nat);
            self.lemma_size();
        }
        let node_idx: usize = self.subtree_node(leaf_start_idx, subtree_height);
        proof {
            self.lemma_node(
                subtree_height as nat,
                (leaf_start_idx as nat / pow2(subtree_height as nat)) as int,
            );
        }
        Ok(self.nodes[node_idx])
    }

    /// Where the root of a subtree stands.
    fn subtree_node(&self, leaf_start_idx: usize, subtree_height: usize) -> (r: usize)
        requires
            self.wf(),
            self.size() > 0,
            subtree_height <= self.depth(),
            leaf_start_idx as nat % pow2(subtree_height as nat) == 0,
            self.size() - 1 + leaf_start_idx <= usize::MAX,
        ensures
            r == place(
                self.depth(),
                subtree_height as nat,
                (leaf_start_idx as nat / pow2(subtree_height as nat)) as int,
            ),
    {
        proof {
            lemma_pow2_pos(subtree_height as nat);
        }
        let mut node_idx: usize = (self.num_leaves - 1) + leaf_start_idx;
        let mut level: usize = 0;
        let ghost d = self.depth();
        let ghost span = pow2(subtree_height as nat);
        let ghost start = leaf_start_idx as nat;
        proof {
            lemma2_to64();
            self.lemma_size();
            assert(start / 1 == start);
        }
        while level < subtree_height
            invariant
                level <= subtree_height <= d,
                start % span == 0,
                span > 0,
                span == pow2(subtree_height as nat),
                node_idx == pow2((d - level) as nat) - 1 + start / pow2(level as nat),
            decreases subtree_height - level,
        {
            proof {
                let k = level as nat;
                lemma_pow2_unfold((d - k) as nat);
                lemma_pow2_unfold(k + 1);
                lemma_pow2_pos(k);
                lemma_pow2_pos((d - k - 1) as nat);
                vstd::arithmetic::div_mod::lemma_div_denominator(start as int, pow2(k) as int, 2);
                // start is a multiple of 2^(k+1), so the node is a left child
                let rest = pow2((subtree_height - k - 1) as nat);
                lemma_pow2_adds(k + 1, (subtree_height - k - 1) as nat);
                let q = start / span;
                vstd::arithmetic::div_mod::lemma_fundamental_div_mod(start as int, span as int);
                assert(start == pow2(k) * (2 * (rest * q))) by (nonlinear_arith)
                    requires
                        start == span * q,
                        span == pow2(k + 1) * rest,
                        pow2(k + 1) == 2 * pow2(k),
                ;
                vstd::arithmetic::div_mod::lemma_div_multiples_vanish(
                    (2 * (rest * q)) as int,
                    pow2(k) as int,
                );
                assert(start / pow2(k) == 2 * (rest * q));
            }
            node_idx = (node_idx - 1) / 2;
            level = level + 1;
        }
        node_idx
    }

    /// A subtree among the leaves is no higher than the tree, and its root is
    /// one of its layer.
    proof fn lemma_subtree(self, start: nat, height: nat)
        requires
            self.wf(),
            start + pow2(height) <= self.size(),
        ensures
            self.size() > 0,
            height <= self.depth(),
            start / pow2(height) < pow2((self.depth() - height) as nat),
    {
        let d = self.depth();
        let span = pow2(height);
        lemma_pow2_pos(height);
        self.lemma_size();
        if d < height {
            bits::lemma_pow2_monotone(d + 1, height);
            lemma_pow2_unfold(d + 1);
        }
        lemma_pow2_adds((d - height) as nat, height);
        let width = pow2((d - height) as nat);
        assert(start / span < width) by (nonlinear_arith)
            requires
                start < width * span,
                span > 0,
        ;
    }

    /// The sibling path from the root of a subtree up to the root. An aligned
    /// subtree past the leaves stands for the node that its place in the array
    /// gives: a subtree `j` places past the first of its layer reaches into the
    /// layers below.
    pub fn prove_subtree(&self, leaf_start_idx: usize, subtree_height: usize) -> (r: Result<
        Vec<Digest>,
        Error,
    >)
        requires
            self.linked(),
            subtree_height < usize::BITS,
            leaf_start_idx as nat % pow2(subtree_height as nat) == 0 ==> {
                &&& self.size() > 0
                &&& subtree_height <= self.depth()
                &&& self.size() - 1 + leaf_start_idx <= usize::MAX
                &&& place(
                    self.depth(),
                    subtree_height as nat,
                    (leaf_start_idx as nat / pow2(subtree_height as nat)) as int,
                ) < 2 * self.size() - 1
            },
        ensures
            ({
                let span = pow2(subtree_height as nat);
                let j = leaf_start_idx as nat / span;
                match r {
                    Ok(path) => {
                        let n = place(self.depth(), subtree_height as nat, j as int) as nat;
                        &&& leaf_start_idx as nat % span == 0
                        &&& is_path::<H>(
                            self.leaves(),
                            self.depth(),
                            node_height(self.depth(), n),
                            node_index(n),
                            path@,
                        )
                        &&& leaf_start_idx + span <= self.size() ==> is_path::<H>(
                            self.leaves(),
                            self.depth(),
                            subtree_height as nat,
                            j,
                            path@,
                        )
                    },
                    Err(e) => leaf_start_idx as nat % span != 0 && e == Error::SubtreeUnaligned,
                }
            }),
    {
        let span: usize = span_of(subtree_height);
        if leaf_start_idx % span != 0 {
            return Err(Error::SubtreeUnaligned);
        }
        let node_idx: usize = self.subtree_node(leaf_start_idx, subtree_height);
        let ghost d = self.depth();
        let ghost n = node_idx as nat;
        proof {
            self.lemma_size();
            lemma_node_place(d, n);
            if leaf_start_idx + span <= self.size() {
                self.lemma_subtree(leaf_start_idx as nat, subtree_height as nat);
                let width = (d - subtree_height) as nat;
                lemma_pow2_pos(width);
                lemma_pow2_unfold(width + 1);
                bits::lemma_floor_log2_unique(n + 1, width);
            }
        }
        Ok(self.siblings(node_idx, Ghost(node_height(d, n)), Ghost(node_index(n))))
    }

    /// Whether a sibling path leads from the root of a subtree to the root.
    pub fn verify_subtree(
        root: &Digest,
        subtree_root: Digest,
        leaf_start_idx: usize,
        subtree_height: usize,
        proof_path: &[Digest],
    ) -> (r: bool)
        requires
            subtree_height < usize::BITS,
        ensures
            r == (folded::<H>(
                subtree_root@,
                leaf_start_idx as nat / pow2(subtree_height as nat),
                proof_path@,
            ) == root@),
    {
        let j: usize = leaf_start_idx / span_of(subtree_height);
        same_hash(&fold_path::<H>(subtree_root, j, proof_path), root)
    }
}

/// `hash` is leaf `k` of the padded leaves.
spec fn is_leaf(leaves: Seq<Digest>, k: int, hash: Digest) -> bool {
    if k < leaves.len() {
        hash == leaves[k]
    } else {
        hash@ == zero_hash()
    }
}

/// A quarter of the machine range, doubled below another such number.
proof fn lemma_quarter(k: nat, n: nat)
    requires
        pow2(k) < n <= usize::MAX / 4 + 1,
    ensures
        2 * pow2(k) <= usize::MAX / 4 + 1,
{
    lemma2_to64();
    lemma2_to64_rest();
    lemma_pow2_unfold(k + 1);
    let top = (usize::BITS - 2) as nat;
    assert(pow2(top) == usize::MAX / 4 + 1);
    if k + 1 > top {
        bits::lemma_pow2_monotone(top, k);
    } else {
        bits::lemma_pow2_monotone(k + 1, top);
    }
}

/// `2^height`.
fn span_of(height: usize) -> (r: usize)
    requires
        height < usize::BITS,
    ensures
        r as nat == pow2(height as nat),
        r > 0,
{
    proof {
        lemma_pow2_pos(height as nat);
        lemma2_to64();
        lemma2_to64_rest();
        bits::lemma_pow2_monotone(height as nat, (usize::BITS - 1) as nat);
        vstd::bits::lemma_usize_shl_is_mul(1, height);
    }
    1usize << height
}

/// The hash of two children.
fn hash_pair<H: Hasher>(left: &Digest, right: &Digest) -> (r: Digest)
    ensures
        r@ == node_hash::<H>(left@, right@),
{
    let mut h = H::new();
    h.update(&[1u8]);
    h.update(left);
    h.update(right);
    proof {
        assert(h.absorbed() =~= seq![1u8] + left@ + right@);
    }
    h.finalize()
}

/// What a sibling path leads to.
fn fold_path<H: Hasher>(start: Digest, index: usize, path: &[Digest]) -> (r: Digest)
    ensures
        r@ == folded::<H>(start@, index as nat, path@),
{
    let mut current: Digest = start;
    let mut j: usize = index;
    let mut i: usize = 0;
    proof {
        assert(path@.skip(0) =~= path@);
    }
    while i < path.len()
        invariant
            i <= path@.len(),
            folded::<H>(current@, j as nat, path@.skip(i as int)) == folded::<H>(
                start@,
                index as nat,
                path@,
            ),
        decreases path@.len() - i,
    {
        proof {
            assert(path@.skip(i as int).skip(1) =~= path@.skip(i + 1));
        }
        current = if j % 2 == 0 {
            hash_pair::<H>(&current, &path[i])
        } else {
            hash_pair::<H>(&path[i], &current)
        };
        j = j / 2;
        i = i + 1;
    }
    current
}

/// Whether two hashes are the same.
fn same_hash(a: &Digest, b: &Digest) -> (r: bool)
    ensures
        r == (a@ == b@),
{
    let mut i: usize = 0;
    while i < 32
        invariant
            i <= 32,
            forall|k: int| 0 <= k < i ==> a@[k] == b@[k],
        decreases 32 - i,
    {
        if a[i] != b[i] {
            return false;
        }
        i = i + 1;
    }
    proof {
        assert(a@ =~= b@);
    }
    true
}

/// The array holds the tree layer by layer: the root stands first, the children
/// of a node twice as far and one or two further, and every place is that of
/// one node.
pub proof fn law_places(depth: nat, height: nat, j: int, n: nat)
    requires
        0 < height <= depth,
        0 <= j < pow2((depth - height) as nat),
        n < 2 * pow2(depth) - 1,
    ensures
        place(depth, depth, 0) == 0,
        place(depth, (height - 1) as nat, 2 * j) == 2 * place(depth, height, j) + 1,
        place(depth, (height - 1) as nat, 2 * j + 1) == 2 * place(depth, height, j) + 2,
        node_height(depth, n) <= depth,
        node_index(n) < pow2((depth - node_height(depth, n)) as nat),
        n == place(depth, node_height(depth, n), node_index(n) as int),
{
    lemma_node_place(depth, n);
    lemma2_to64();
    lemma_pow2_unfold((depth - height + 1) as nat);
}

} // verus!
