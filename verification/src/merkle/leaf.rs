//! Leaves of the tree.

use vstd::prelude::*;

use super::Digest;
use crate::bytes;
use crate::hashers;
use crate::hashers::Hasher;

verus! {

/// Cell `cell` of a view that stores cells of a fixed width.
pub open spec fn cell_bytes(view: (&[u8], usize), cell: int) -> Seq<u8> {
    view.0@.subrange(cell * view.1, cell * view.1 + view.1)
}

/// Cell `cell` of every view, one after the other.
pub open spec fn cells_bytes(views: Seq<(&[u8], usize)>, cell: int) -> Seq<u8>
    decreases views.len(),
{
    if views.len() == 0 {
        Seq::empty()
    } else {
        cells_bytes(views.drop_last(), cell) + cell_bytes(views.last(), cell)
    }
}

/// The bytes of one cell of every view.
pub open spec fn cells_width(views: Seq<(&[u8], usize)>) -> nat
    decreases views.len(),
{
    if views.len() == 0 {
        0
    } else {
        cells_width(views.drop_last()) + views.last().1 as nat
    }
}

/// Every view reaches past cell `cell`.
pub open spec fn in_views(views: Seq<(&[u8], usize)>, cell: int) -> bool {
    forall|i: int|
        0 <= i < views.len() ==> 0 <= cell * (#[trigger] views[i]).1 && cell * views[i].1
            + views[i].1 <= views[i].0@.len()
}

/// Absorbs one cell of every view.
fn absorb_cells<H: Hasher>(hasher: &mut H, views: &[(&[u8], usize)], cell: usize)
    requires
        in_views(views@, cell as int),
    ensures
        final(hasher).absorbed() == old(hasher).absorbed() + cells_bytes(views@, cell as int),
{
    let mut i: usize = 0;
    proof {
        assert(views@.take(0) =~= Seq::<(&[u8], usize)>::empty());
        assert(hasher.absorbed() + cells_bytes(views@.take(0), cell as int)
            =~= hasher.absorbed());
    }
    while i < views.len()
        invariant
            i <= views@.len(),
            in_views(views@, cell as int),
            hasher.absorbed() == old(hasher).absorbed() + cells_bytes(
                views@.take(i as int),
                cell as int,
            ),
        decreases views@.len() - i,
    {
        let (base, width) = views[i];
        assert(views@[i as int] == (base, width));
        proof {
            let item = views@[i as int];
            assert(0 <= cell * item.1 && cell * item.1 + item.1 <= item.0@.len());
            assert(base@.len() == base.len());
        }
        let start: usize = cell * width;
        hasher.update(vstd::slice::slice_subrange(base, start, start + width));
        proof {
            assert(views@.take(i + 1).drop_last() =~= views@.take(i as int));
            assert(hasher.absorbed() =~= old(hasher).absorbed() + cells_bytes(
                views@.take(i + 1),
                cell as int,
            ));
        }
        i = i + 1;
    }
    proof {
        assert(views@.take(views@.len() as int) =~= views@);
    }
}

/// What a blinded row leaf is the hash of.
pub open spec fn row_preimage(
    row: int,
    data: Seq<(&[u8], usize)>,
    code: Seq<(&[u8], usize)>,
    noise: Seq<u8>,
) -> Seq<u8> {
    seq![0u8] + bytes::le_bytes(cells_width(data) + noise.len(), 8) + cells_bytes(data, row)
        + noise + cells_bytes(code, row)
}

/// Hashes one row into a blinded leaf: a tag, the length of data and noise,
/// the data, the noise and the code. The length marks the boundary between
/// the noise and the code.
pub fn hash_leaf_row_blinded<H: Hasher>(
    row_idx: usize,
    data_views: &[(&[u8], usize)],
    code_views: &[(&[u8], usize)],
    noise_bytes: &[u8],
) -> (r: Digest)
    requires
        in_views(data_views@, row_idx as int),
        in_views(code_views@, row_idx as int),
        cells_width(data_views@) + noise_bytes@.len() <= usize::MAX,
    ensures
        r@ == hashers::digest::<H>(
            row_preimage(row_idx as int, data_views@, code_views@, noise_bytes@),
        ),
{
    let mut hasher = H::new();
    let mut width: usize = 0;
    let mut i: usize = 0;
    while i < data_views.len()
        invariant
            i <= data_views@.len(),
            width == cells_width(data_views@.take(i as int)),
            cells_width(data_views@) <= usize::MAX,
        decreases data_views@.len() - i,
    {
        proof {
            assert(data_views@.take(i + 1).drop_last() =~= data_views@.take(i as int));
            lemma_width_grows(data_views@, i + 1);
        }
        width = width + data_views[i].1;
        i = i + 1;
    }
    proof {
        assert(data_views@.take(data_views@.len() as int) =~= data_views@);
    }
    hasher.update(&[0u8]);
    let len: Vec<u8> = bytes::to_le((width + noise_bytes.len()) as u128, 8);
    hasher.update(len.as_slice());
    absorb_cells(&mut hasher, data_views, row_idx);
    if noise_bytes.len() > 0 {
        hasher.update(noise_bytes);
    }
    absorb_cells(&mut hasher, code_views, row_idx);
    proof {
        assert(hasher.absorbed() =~= row_preimage(
            row_idx as int,
            data_views@,
            code_views@,
            noise_bytes@,
        ));
    }
    hasher.finalize()
}

proof fn lemma_width_grows(views: Seq<(&[u8], usize)>, n: int)
    requires
        0 <= n <= views.len(),
    ensures
        cells_width(views.take(n)) <= cells_width(views),
    decreases views.len(),
{
    if n < views.len() {
        lemma_width_grows(views.drop_last(), n);
        assert(views.drop_last().take(n) =~= views.take(n));
    } else {
        assert(views.take(n) =~= views);
    }
}

/// The cells of one grid column, row after row.
pub open spec fn column_bytes(
    views: Seq<(&[u8], usize)>,
    col: int,
    rows: nat,
    width: int,
) -> Seq<u8>
    decreases rows,
{
    if rows == 0 {
        Seq::empty()
    } else {
        column_bytes(views, col, (rows - 1) as nat, width) + cells_bytes(
            views,
            (rows - 1) * width + col,
        )
    }
}

/// What a column leaf is the hash of.
pub open spec fn column_preimage(
    views: Seq<(&[u8], usize)>,
    col: int,
    rows: nat,
    width: int,
) -> Seq<u8> {
    seq![0u8] + column_bytes(views, col, rows, width)
}

/// Hashes one column of a grid into a leaf: a tag and the encoded cells. The
/// raw data is not hashed.
pub fn hash_leaf_column_encoded<H: Hasher>(
    col_idx: usize,
    grid_rows: usize,
    encoded_width: usize,
    code_views: &[(&[u8], usize)],
) -> (r: Digest)
    requires
        grid_rows > 0 ==> (grid_rows - 1) * encoded_width + col_idx <= usize::MAX,
        forall|row: int|
            0 <= row < grid_rows ==> in_views(
                code_views@,
                #[trigger] (row * encoded_width) + col_idx,
            ),
    ensures
        r@ == hashers::digest::<H>(
            seq![0u8] + column_bytes(
                code_views@,
                col_idx as int,
                grid_rows as nat,
                encoded_width as int,
            ),
        ),
        r@ == hashers::digest::<H>(
            column_preimage(
                code_views@,
                col_idx as int,
                grid_rows as nat,
                encoded_width as int,
            ),
        ),
{
    let mut hasher = H::new();
    hasher.update(&[0u8]);
    let mut row: usize = 0;
    proof {
        assert(hasher.absorbed() =~= seq![0u8] + column_bytes(
            code_views@,
            col_idx as int,
            0,
            encoded_width as int,
        ));
    }
    while row < grid_rows
        invariant
            row <= grid_rows,
            grid_rows > 0 ==> (grid_rows - 1) * encoded_width + col_idx <= usize::MAX,
            forall|row: int|
                0 <= row < grid_rows ==> in_views(
                    code_views@,
                    #[trigger] (row * encoded_width) + col_idx,
                ),
            hasher.absorbed() == seq![0u8] + column_bytes(
                code_views@,
                col_idx as int,
                row as nat,
                encoded_width as int,
            ),
        decreases grid_rows - row,
    {
        proof {
            assert(row * encoded_width <= (grid_rows - 1) * encoded_width) by (nonlinear_arith)
                requires
                    row <= grid_rows - 1,
                    encoded_width >= 0,
            ;
            assert(in_views(code_views@, (row as int * encoded_width) + col_idx));
        }
        let cell: usize = row * encoded_width + col_idx;
        absorb_cells(&mut hasher, code_views, cell);
        proof {
            assert(hasher.absorbed() =~= seq![0u8] + column_bytes(
                code_views@,
                col_idx as int,
                row as nat + 1,
                encoded_width as int,
            ));
        }
        row = row + 1;
    }
    hasher.finalize()
}

} // verus!
