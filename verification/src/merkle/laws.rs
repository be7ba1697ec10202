//! What sibling paths prove.

use vstd::arithmetic::div_mod::*;
use vstd::arithmetic::power2::*;
use vstd::prelude::*;

use super::leaf;
use super::{Digest, MerkleTree};
use crate::bits;
use crate::bytes;
use crate::field::TowerField;
use crate::hashers;
use crate::hashers::Hasher;
use crate::merkle;

verus! {

/// Two byte strings with one hash.
pub open spec fn collide<H: Hasher>(x: Seq<u8>, y: Seq<u8>) -> bool {
    x != y && hashers::digest::<H>(x) == hashers::digest::<H>(y)
}

/// `H` has a collision.
pub open spec fn has_collision<H: Hasher>() -> bool {
    exists|x: Seq<u8>, y: Seq<u8>| #[trigger] collide::<H>(x, y)
}

/// A block is its two halves.
proof fn lemma_halves<H: Hasher>(leaves: Seq<Digest>, depth: nat, height: nat, j: nat)
    requires
        leaves.len() == pow2(depth),
        height < depth,
        j < pow2((depth - height) as nat),
    ensures
        merkle::combined::<H>(
            merkle::block_root::<H>(leaves, height, j as int),
            j,
            merkle::block_root::<H>(leaves, height, merkle::sibling(j as int)),
        ) == merkle::block_root::<H>(leaves, height + 1, j as int / 2),
{
    let up = height + 1;
    let p = j as int / 2;
    let half = pow2(height) as int;
    let span = pow2(up) as int;
    lemma_pow2_unfold(up);
    lemma_pow2_unfold((depth - height) as nat);
    lemma_pow2_adds((depth - up) as nat, up);
    lemma_pow2_pos(height);
    let width = pow2((depth - up) as nat) as int;
    assert(0 <= p < width);
    assert(0 <= p * span && (p + 1) * span <= width * span) by (nonlinear_arith)
        requires
            0 <= p < width,
            span > 0,
    ;
    assert(p * span == (2 * p) * half && (2 * p + 1) * half == p * span + half && (2 * p + 1 + 1)
        * half == (p + 1) * span && (p + 1) * span == p * span + span) by (nonlinear_arith)
        requires
            span == 2 * half,
    ;
    let b = merkle::block(leaves, up, p);
    assert(b.take(half) =~= merkle::block(leaves, height, 2 * p));
    assert(b.skip(half) =~= merkle::block(leaves, height, 2 * p + 1));
}

/// The siblings that a proof holds lead to the root.
pub proof fn law_paths_verify<H: Hasher>(
    leaves: Seq<Digest>,
    depth: nat,
    height: nat,
    j: nat,
    path: Seq<Digest>,
)
    requires
        leaves.len() == pow2(depth),
        height <= depth,
        j < pow2((depth - height) as nat),
        merkle::is_path::<H>(leaves, depth, height, j, path),
    ensures
        merkle::folded::<H>(merkle::block_root::<H>(leaves, height, j as int), j, path)
            == merkle::root_of::<H>(leaves, depth),
    decreases depth - height,
{
    lemma2_to64();
    if height == depth {
        assert(0 * pow2(depth) == 0 && 1 * pow2(depth) == pow2(depth));
        assert(merkle::block(leaves, depth, 0) =~= leaves);
    } else {
        assert(j as int / 1 == j);
        assert(path[0]@ == merkle::block_root::<H>(leaves, height, merkle::sibling(j as int)));
        lemma_halves::<H>(leaves, depth, height, j);
        let rest = path.skip(1);
        assert forall|k: int| 0 <= k < rest.len() implies (#[trigger] rest[k])@
            == merkle::block_root::<H>(
            leaves,
            height + 1 + k as nat,
            merkle::sibling((j / 2) as int / pow2(k as nat) as int),
        ) by {
            assert(rest[k] == path[k + 1]);
            lemma_pow2_unfold(k as nat + 1);
            lemma_pow2_pos(k as nat);
            lemma_div_denominator(j as int, 2, pow2(k as nat) as int);
        }
        lemma_pow2_unfold((depth - height) as nat);
        law_paths_verify::<H>(leaves, depth, height + 1, j / 2, rest);
    }
}

/// What `prove` returns for a leaf of a tree, `verify` accepts against the
/// root of that tree.
pub proof fn law_proofs_verify<F: TowerField, H: Hasher>(
    tree: MerkleTree<F, H>,
    leaf_index: nat,
    path: Seq<Digest>,
)
    requires
        tree.linked(),
        leaf_index < tree.size(),
        merkle::is_path::<H>(tree.leaves(), tree.depth(), 0, leaf_index, path),
    ensures
        merkle::folded::<H>(tree.leaves()[leaf_index as int]@, leaf_index, path)
            == merkle::root_of::<H>(tree.leaves(), tree.depth()),
{
    tree.lemma_linked_wf();
    tree.lemma_size();
    lemma2_to64();
    let leaves = tree.leaves();
    let j = leaf_index as int;
    assert(j * 1 == j && (j + 1) * 1 == j + 1);
    assert(merkle::block(leaves, 0, j)[0] == leaves[j]);
    law_paths_verify::<H>(leaves, tree.depth(), 0, leaf_index, path);
}

/// Trees over the same leaves have the same root, however they were filled.
pub proof fn law_same_leaves_same_root<F: TowerField, H: Hasher>(
    a: MerkleTree<F, H>,
    b: MerkleTree<F, H>,
)
    requires
        a.linked(),
        b.linked(),
        a.leaves() == b.leaves(),
    ensures
        merkle::root_of::<H>(a.leaves(), a.depth()) == merkle::root_of::<H>(
            b.leaves(),
            b.depth(),
        ),
{
    a.lemma_linked_wf();
    b.lemma_linked_wf();
    a.lemma_size();
    b.lemma_size();
}

/// Leaves and the same leaves with their padding spelled out have one root.
pub proof fn law_padding_keeps_the_root<H: Hasher>(
    leaves: Seq<Digest>,
    padded: Seq<Digest>,
    again: Seq<Digest>,
)
    requires
        leaves.len() > 0,
        merkle::is_padded(leaves, padded),
        merkle::is_padded(padded, again),
    ensures
        again == padded,
        merkle::root_of::<H>(again, bits::floor_log2(again.len())) == merkle::root_of::<H>(
            padded,
            bits::floor_log2(padded.len()),
        ),
{
    let k = bits::ceil_log2(leaves.len());
    lemma_pow2_pos(k);
    bits::lemma_ceil_log2(pow2(k));
    let c = bits::ceil_log2(pow2(k));
    if c > 0 {
        bits::lemma_pow2_monotone(k, (c - 1) as nat);
    }
    if c < k {
        bits::lemma_pow2_monotone(c + 1, k);
        lemma_pow2_unfold(c + 1);
        lemma_pow2_pos(c);
    }
    assert(again =~= padded);
}

/// Whoever makes paths of one length lead from two different hashes at one
/// index to one root has found a collision.
pub proof fn law_paths_bind<H: Hasher>(
    x: Seq<u8>,
    y: Seq<u8>,
    j: nat,
    p: Seq<Digest>,
    q: Seq<Digest>,
)
    requires
        x.len() == 32,
        y.len() == 32,
        x != y,
        p.len() == q.len(),
        merkle::folded::<H>(x, j, p) == merkle::folded::<H>(y, j, q),
    ensures
        has_collision::<H>(),
    decreases p.len(),
{
    if p.len() > 0 {
        let (a, b) = if j % 2 == 0 {
            (seq![1u8] + x + p[0]@, seq![1u8] + y + q[0]@)
        } else {
            (seq![1u8] + p[0]@ + x, seq![1u8] + q[0]@ + y)
        };
        let (cx, cy) = (
            merkle::combined::<H>(x, j, p[0]@),
            merkle::combined::<H>(y, j, q[0]@),
        );
        assert(a != b) by {
            if a == b {
                if j % 2 == 0 {
                    assert(x =~= a.subrange(1, 33));
                    assert(y =~= b.subrange(1, 33));
                } else {
                    assert(x =~= a.subrange(33, 65));
                    assert(y =~= b.subrange(33, 65));
                }
            }
        }
        if cx == cy {
            assert(collide::<H>(a, b));
        } else {
            law_paths_bind::<H>(cx, cy, j / 2, p.skip(1), q.skip(1));
        }
    }
}

/// Two lists of leaves of one length with one root are the same, or give a
/// collision.
pub proof fn law_roots_bind<H: Hasher>(a: Seq<Digest>, b: Seq<Digest>, height: nat)
    requires
        a.len() == pow2(height),
        b.len() == pow2(height),
        merkle::root_of::<H>(a, height) == merkle::root_of::<H>(b, height),
        exists|i: int| 0 <= i < a.len() && (#[trigger] a[i])@ != b[i]@,
    ensures
        has_collision::<H>(),
    decreases height,
{
    lemma2_to64();
    let i = choose|i: int| 0 <= i < a.len() && (#[trigger] a[i])@ != b[i]@;
    if height > 0 {
        let h = (height - 1) as nat;
        let half = pow2(h) as int;
        lemma_pow2_unfold(height);
        let (al, ar) = (a.take(half), a.skip(half));
        let (bl, br) = (b.take(half), b.skip(half));
        let (x, y) = (merkle::root_of::<H>(al, h), merkle::root_of::<H>(ar, h));
        let (z, w) = (merkle::root_of::<H>(bl, h), merkle::root_of::<H>(br, h));
        lemma_root_len::<H>(al, h);
        lemma_root_len::<H>(ar, h);
        lemma_root_len::<H>(bl, h);
        lemma_root_len::<H>(br, h);
        let (s, t) = (seq![1u8] + x + y, seq![1u8] + z + w);
        if s != t {
            assert(collide::<H>(s, t));
        } else {
            assert(x =~= s.subrange(1, 33));
            assert(z =~= t.subrange(1, 33));
            assert(y =~= s.subrange(33, 65));
            assert(w =~= t.subrange(33, 65));
            if i < half {
                assert(al[i]@ != bl[i]@);
                law_roots_bind::<H>(al, bl, h);
            } else {
                assert(ar[i - half]@ != br[i - half]@);
                law_roots_bind::<H>(ar, br, h);
            }
        }
    }
}

proof fn lemma_root_len<H: Hasher>(leaves: Seq<Digest>, height: nat)
    ensures
        merkle::root_of::<H>(leaves, height).len() == 32,
{
}

/// The length in front keeps the data of a row apart from its code: rows that
/// are hashed from the same bytes have the same data and noise, and the same
/// code.
pub proof fn law_row_leaves_cannot_collide(
    row: int,
    data_a: Seq<(&[u8], usize)>,
    code_a: Seq<(&[u8], usize)>,
    noise_a: Seq<u8>,
    data_b: Seq<(&[u8], usize)>,
    code_b: Seq<(&[u8], usize)>,
    noise_b: Seq<u8>,
)
    requires
        leaf::in_views(data_a, row),
        leaf::in_views(data_b, row),
        leaf::cells_width(data_a) + noise_a.len() <= u64::MAX,
        leaf::cells_width(data_b) + noise_b.len() <= u64::MAX,
        leaf::row_preimage(row, data_a, code_a, noise_a) == leaf::row_preimage(
            row,
            data_b,
            code_b,
            noise_b,
        ),
    ensures
        leaf::cells_bytes(data_a, row) + noise_a == leaf::cells_bytes(data_b, row) + noise_b,
        leaf::cells_bytes(code_a, row) == leaf::cells_bytes(code_b, row),
{
    let (x, y) = (
        leaf::row_preimage(row, data_a, code_a, noise_a),
        leaf::row_preimage(row, data_b, code_b, noise_b),
    );
    let m = leaf::cells_width(data_a) + noise_a.len();
    let n = leaf::cells_width(data_b) + noise_b.len();
    lemma_cells_len(data_a, row);
    lemma_cells_len(data_b, row);
    bytes::lemma_le_bytes_len(m, 8);
    bytes::lemma_le_bytes_len(n, 8);
    assert(x.subrange(1, 9) =~= bytes::le_bytes(m, 8));
    assert(y.subrange(1, 9) =~= bytes::le_bytes(n, 8));
    bytes::lemma_byte_pow_values();
    bytes::law_le_injective(m, n, 8);
    let k = 9 + m;
    assert(x.subrange(9, k as int) =~= leaf::cells_bytes(data_a, row) + noise_a);
    assert(y.subrange(9, k as int) =~= leaf::cells_bytes(data_b, row) + noise_b);
    assert(x.skip(k as int) =~= leaf::cells_bytes(code_a, row));
    assert(y.skip(k as int) =~= leaf::cells_bytes(code_b, row));
}

proof fn lemma_cells_len(views: Seq<(&[u8], usize)>, cell: int)
    requires
        leaf::in_views(views, cell),
    ensures
        leaf::cells_bytes(views, cell).len() == leaf::cells_width(views),
    decreases views.len(),
{
    if views.len() > 0 {
        let last = views[views.len() - 1];
        assert(0 <= cell * last.1 && cell * last.1 + last.1 <= last.0@.len());
        assert forall|i: int| 0 <= i < views.drop_last().len() implies 0 <= cell * (
        #[trigger] views.drop_last()[i]).1 && cell * views.drop_last()[i].1
            + views.drop_last()[i].1 <= views.drop_last()[i].0@.len() by {
            assert(views.drop_last()[i] == views[i]);
        }
        lemma_cells_len(views.drop_last(), cell);
    }
}

/// An inner node is the hash of a one, its left child and its right child: a
/// node at an even place is the left child of its parent.
pub proof fn law_parents<H: Hasher>(current: Seq<u8>, other: Seq<u8>, j: nat)
    ensures
        merkle::combined::<H>(current, 2 * j, other) == H::hash(seq![1u8] + current + other)@,
        merkle::combined::<H>(current, 2 * j + 1, other) == H::hash(seq![1u8] + other + current)@,
        merkle::sibling((2 * j) as int) == 2 * j + 1,
        merkle::sibling((2 * j + 1) as int) == 2 * j,
{
}

/// The root over leaves is the hash of a one, the root over their first half
/// and the root over their second; over one leaf it is the leaf.
pub proof fn law_root_of_halves<H: Hasher>(a: Seq<Digest>, b: Seq<Digest>, leaf: Digest, h: nat)
    requires
        a.len() == pow2(h),
        b.len() == pow2(h),
    ensures
        merkle::root_of::<H>(a + b, h + 1) == H::hash(
            seq![1u8] + merkle::root_of::<H>(a, h) + merkle::root_of::<H>(b, h),
        )@,
        merkle::root_of::<H>(seq![leaf], 0) == leaf@,
{
    let half = pow2(h) as int;
    assert((a + b).take(half) =~= a);
    assert((a + b).skip(half) =~= b);
}

/// No leaf is hashed from the string that an inner node is hashed from.
pub proof fn law_leaves_are_no_nodes(
    row: int,
    data: Seq<(&[u8], usize)>,
    code: Seq<(&[u8], usize)>,
    noise: Seq<u8>,
    rows: nat,
    width: int,
    left: Seq<u8>,
    right: Seq<u8>,
)
    ensures
        leaf::row_preimage(row, data, code, noise)[0] == 0,
        leaf::column_preimage(code, row, rows, width)[0] == 0,
        leaf::row_preimage(row, data, code, noise) != seq![1u8] + left + right,
        leaf::column_preimage(code, row, rows, width) != seq![1u8] + left + right,
{
    assert((seq![1u8] + left + right)[0] == 1);
    assert(leaf::row_preimage(row, data, code, noise)[0] == 0);
}

/// A row leaf is hashed from a zero, eight bytes that write the length of data
/// and noise, the data, the noise, and the code.
pub proof fn law_row_leaf_parts(
    row: int,
    data: Seq<(&[u8], usize)>,
    code: Seq<(&[u8], usize)>,
    noise: Seq<u8>,
)
    requires
        leaf::in_views(data, row),
        leaf::cells_width(data) + noise.len() <= u64::MAX,
    ensures
        ({
            let s = leaf::row_preimage(row, data, code, noise);
            let d = leaf::cells_bytes(data, row);
            let n = (9 + d.len()) as int;
            &&& s[0] == 0
            &&& bytes::le_value(s.subrange(1, 9)) == d.len() + noise.len()
            &&& s.subrange(9, n) == d
            &&& s.subrange(n, n + noise.len()) == noise
            &&& s.skip(n + noise.len()) == leaf::cells_bytes(code, row)
        }),
{
    let s = leaf::row_preimage(row, data, code, noise);
    let d = leaf::cells_bytes(data, row);
    let n = (9 + d.len()) as int;
    let len = leaf::cells_width(data) + noise.len();
    lemma_cells_len(data, row);
    bytes::lemma_le_bytes_len(len, 8);
    bytes::lemma_byte_pow_values();
    bytes::law_le_round_trip(len, 8);
    assert(s.subrange(1, 9) =~= bytes::le_bytes(len, 8));
    assert(s.subrange(9, n) =~= d);
    assert(s.subrange(n, n + noise.len()) =~= noise);
    assert(s.skip(n + noise.len()) =~= leaf::cells_bytes(code, row));
}

/// The cells of a leaf stand in the order of the views: behind the cells of
/// the views before, cell `cell` of view `i` is `width` bytes of it from
/// `cell` times `width` on.
pub proof fn law_cells_in_order(views: Seq<(&[u8], usize)>, cell: int, i: int)
    requires
        leaf::in_views(views, cell),
        0 <= i < views.len(),
    ensures
        ({
            let before = leaf::cells_bytes(views.take(i), cell).len() as int;
            let w = views[i].1 as int;
            &&& leaf::cells_bytes(views, cell).subrange(before, before + w)
                == views[i].0@.subrange(cell * w, cell * w + w)
            &&& leaf::cells_bytes(views.take(i + 1), cell).len() == before + w
        }),
    decreases views.len(),
{
    let head = views.drop_last();
    assert forall|k: int| 0 <= k < head.len() implies 0 <= cell * (#[trigger] head[k]).1 && cell
        * head[k].1 + head[k].1 <= head[k].0@.len() by {
        assert(head[k] == views[k]);
    }
    let last = views[views.len() - 1];
    assert(0 <= cell * last.1 && cell * last.1 + last.1 <= last.0@.len());
    let all = leaf::cells_bytes(views, cell);
    let part = leaf::cells_bytes(head, cell);
    if i == views.len() - 1 {
        assert(views.take(i) =~= head);
        assert(views.take(i + 1) =~= views);
        assert(all.subrange(part.len() as int, part.len() + last.1) =~= leaf::cell_bytes(
            last,
            cell,
        ));
    } else {
        law_cells_in_order(head, cell, i);
        assert(head.take(i) =~= views.take(i) && head.take(i + 1) =~= views.take(i + 1));
        assert(head[i] == views[i]);
        let before = leaf::cells_bytes(views.take(i), cell).len() as int;
        lemma_cells_prefix(head, cell, i + 1);
        assert(all.subrange(before, before + views[i].1) =~= part.subrange(
            before,
            before + views[i].1,
        ));
    }
}

proof fn lemma_cells_prefix(views: Seq<(&[u8], usize)>, cell: int, n: int)
    requires
        0 <= n <= views.len(),
    ensures
        leaf::cells_bytes(views.take(n), cell).len() <= leaf::cells_bytes(views, cell).len(),
    decreases views.len(),
{
    if n == views.len() {
        assert(views.take(n) =~= views);
    } else {
        lemma_cells_prefix(views.drop_last(), cell, n);
        assert(views.drop_last().take(n) =~= views.take(n));
    }
}

/// A column leaf is hashed from a zero and the cells of the column, one row of
/// the grid after the other: those of row `r` are cell `r · width + col` of
/// every view.
pub proof fn law_column_leaf_cells(
    views: Seq<(&[u8], usize)>,
    col: int,
    rows: nat,
    width: int,
    r: nat,
)
    requires
        r < rows,
        forall|k: int| 0 <= k < rows ==> leaf::in_views(views, #[trigger] (k * width) + col),
    ensures
        ({
            let s = leaf::column_preimage(views, col, rows, width);
            let w = leaf::cells_width(views);
            &&& s.len() == 1 + rows * w
            &&& s[0] == 0
            &&& s.subrange((1 + r * w) as int, (1 + r * w + w) as int) == leaf::cells_bytes(
                views,
                r * width + col,
            )
        }),
    decreases rows,
{
    let w = leaf::cells_width(views);
    let m = (rows - 1) as nat;
    let s = leaf::column_preimage(views, col, rows, width);
    let t = leaf::column_preimage(views, col, m, width);
    assert(leaf::in_views(views, (m as int * width) + col));
    let cells = leaf::cells_bytes(views, m * width + col);
    lemma_cells_len(views, m * width + col);
    lemma_column_len(views, col, m, width);
    assert(rows * w == m * w + w) by (nonlinear_arith)
        requires
            rows == m + 1,
    ;
    assert(s =~= t + cells);
    if r == m {
        assert(s.subrange((1 + r * w) as int, (1 + r * w + w) as int) =~= cells);
    } else {
        law_column_leaf_cells(views, col, m, width, r);
        assert(r * w + w <= m * w) by (nonlinear_arith)
            requires
                r + 1 <= m,
                w >= 0,
        ;
        assert(s.subrange((1 + r * w) as int, (1 + r * w + w) as int) =~= t.subrange(
            (1 + r * w) as int,
            (1 + r * w + w) as int,
        ));
    }
}

proof fn lemma_column_len(views: Seq<(&[u8], usize)>, col: int, rows: nat, width: int)
    requires
        forall|k: int| 0 <= k < rows ==> leaf::in_views(views, #[trigger] (k * width) + col),
    ensures
        leaf::column_bytes(views, col, rows, width).len() == rows * leaf::cells_width(views),
    decreases rows,
{
    let w = leaf::cells_width(views);
    if rows == 0 {
        assert(0 * w == 0) by (nonlinear_arith);
    } else {
        let m = (rows - 1) as nat;
        assert(leaf::in_views(views, (m as int * width) + col));
        lemma_column_len(views, col, m, width);
        lemma_cells_len(views, m * width + col);
        assert(rows * w == m * w + w) by (nonlinear_arith)
            requires
                rows == m + 1,
        ;
    }
}

} // verus!
