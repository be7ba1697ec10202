//! Sampling of the matrix.

use hekate_math::matrix::ByteSparseMatrix;
use vstd::prelude::*;

use super::prg;
use super::prg::{AesCtrPrg, Exhausted};
use crate::bytes;

verus! {

/// A sparse matrix of `hekate_math`: as many non-zero entries in every row.
#[verifier::external_type_specification]
#[verifier::external_body]
pub struct ExByteSparseMatrix(ByteSparseMatrix);

/// The weights of a matrix, row after row.
pub uninterp spec fn matrix_weights(m: ByteSparseMatrix) -> Seq<u8>;

/// The columns of a matrix's entries, row after row.
pub uninterp spec fn matrix_columns(m: ByteSparseMatrix) -> Seq<u32>;

/// The rows, the columns and the entries per row that a matrix was made with.
pub uninterp spec fn matrix_shape(m: ByteSparseMatrix) -> (usize, usize, usize);

/// `ByteSparseMatrix::new`: a matrix with the given shape, weights and
/// columns. It asks for binary weights, columns within the matrix, and as
/// many of both as the shape says.
#[verifier::external_body]
fn sparse_matrix(
    rows: usize,
    cols: usize,
    degree: usize,
    weights: Vec<u8>,
    col_indices: Vec<u32>,
) -> (r: ByteSparseMatrix)
    requires
        rows * degree <= usize::MAX,
        weights@.len() == rows * degree,
        col_indices@.len() == rows * degree,
        forall|i: int| 0 <= i < weights@.len() ==> #[trigger] weights@[i] <= 1,
        forall|i: int| 0 <= i < col_indices@.len() ==> #[trigger] col_indices@[i] < cols,
    ensures
        matrix_shape(r) == (rows, cols, degree),
        matrix_weights(r) == weights@,
        matrix_columns(r) == col_indices@,
{
    ByteSparseMatrix::new(rows, cols, degree, weights, col_indices)
}

// ---------------------------------------------------------------
// What is sampled
// ---------------------------------------------------------------

/// The word of four bytes at a place of a stream.
pub open spec fn word_at(key: Seq<u8>, stream: u64, p: nat) -> nat {
    bytes::le_value(prg::stream_bytes(key, stream, p, 4))
}

/// A number below `n` from the word at `p` or after it, and where the stream
/// stands then: the high half of `word · n`, one more where a second word
/// carries into it. None where the stream ends.
pub open spec fn sample(key: Seq<u8>, stream: u64, p: nat, n: nat) -> Option<(nat, nat)> {
    let a = prg::aligned(p, 4);
    let x = word_at(key, stream, a) * n;
    let (hi, lo) = (x / 0x100000000, x % 0x100000000);
    if a + 4 > prg::stream_len() {
        None
    } else if lo <= 0x100000000 - n {
        Some((hi, a + 4))
    } else {
        let b = prg::aligned(a + 4, 4);
        let carry = word_at(key, stream, b) * n / 0x100000000;
        if b + 4 > prg::stream_len() {
            None
        } else if lo + carry >= 0x100000000 {
            Some((hi + 1, b + 4))
        } else {
            Some((hi, b + 4))
        }
    }
}

/// The first number sampled that is not among `used`.
pub open spec fn sample_new(
    key: Seq<u8>,
    stream: u64,
    p: nat,
    n: nat,
    used: Seq<u32>,
) -> Option<(nat, nat)>
    decreases prg::stream_len() - p,
{
    match sample(key, stream, p, n) {
        None => None,
        Some((c, q)) => if used.contains(c as u32) {
            if p < q <= prg::stream_len() {
                sample_new(key, stream, q, n, used)
            } else {
                None
            }
        } else {
            Some((c, q))
        },
    }
}

/// A row: `degree` numbers below `n`, each the first one that is new.
pub open spec fn sample_row(key: Seq<u8>, stream: u64, p: nat, n: nat, degree: nat) -> Option<
    (Seq<u32>, nat),
>
    decreases degree,
{
    if degree == 0 {
        Some((Seq::empty(), p))
    } else {
        match sample_row(key, stream, p, n, (degree - 1) as nat) {
            None => None,
            Some((row, q)) => match sample_new(key, stream, q, n, row) {
                None => None,
                Some((c, e)) => Some((row.push(c as u32), e)),
            },
        }
    }
}

/// So many rows of one stream, from its start.
pub open spec fn sample_rows(key: Seq<u8>, stream: u64, n: nat, degree: nat, rows: nat) -> Option<
    (Seq<u32>, nat),
>
    decreases rows,
{
    if rows == 0 {
        Some((Seq::empty(), 0))
    } else {
        match sample_rows(key, stream, n, degree, (rows - 1) as nat) {
            None => None,
            Some((head, p)) => match sample_row(key, stream, p, n, degree) {
                None => None,
                Some((row, q)) => Some((head + row, q)),
            },
        }
    }
}

/// Rows sampled from one stream.
pub const GEN_CHUNK_ROWS: usize = 256;

/// The columns of the first `rows` rows of the matrix: every 256 rows are
/// sampled from a stream of their own.
pub open spec fn expander_columns(key: Seq<u8>, n: nat, degree: nat, rows: nat) -> Option<Seq<u32>>
    decreases rows,
{
    if rows == 0 || degree == 0 {
        Some(Seq::empty())
    } else {
        let chunk = ((rows - 1) as nat / 256) as u64;
        let here = ((rows - 1) % 256 + 1) as nat;
        match (
            expander_columns(key, n, degree, (rows - here) as nat),
            sample_rows(key, chunk, n, degree, here),
        ) {
            (Some(head), Some((tail, _))) => Some(head + tail),
            _ => None,
        }
    }
}

/// Every row has different columns, all of them within the matrix.
pub open spec fn is_expander(columns: Seq<u32>, rows: nat, cols: nat, degree: nat) -> bool {
    &&& columns.len() == rows * degree
    &&& forall|i: int| 0 <= i < columns.len() ==> #[trigger] columns[i] < cols
    &&& forall|r: int, d: int, e: int|
        0 <= r < rows && 0 <= d < e < degree ==> #[trigger] columns[r * degree + d]
            != #[trigger] columns[r * degree + e]
}

// ---------------------------------------------------------------
// Facts about the samples
// ---------------------------------------------------------------

proof fn lemma_word(key: Seq<u8>, stream: u64, p: nat)
    ensures
        word_at(key, stream, p) < 0x100000000,
{
    bytes::lemma_le_value_bound(prg::stream_bytes(key, stream, p, 4));
    bytes::lemma_byte_pow_values();
}

proof fn lemma_sample(key: Seq<u8>, stream: u64, p: nat, n: nat)
    requires
        0 < n <= u32::MAX,
    ensures
        sample(key, stream, p, n) matches Some((c, q)) ==> c < n && p < q <= prg::stream_len(),
{
    let a = prg::aligned(p, 4);
    lemma_aligned_ge(p);
    lemma_aligned_ge(a + 4);
    lemma_word(key, stream, a);
    let w = word_at(key, stream, a);
    let x = w * n;
    assert(x <= (0x100000000 - 1) * n && 0 <= x) by (nonlinear_arith)
        requires
            x == w * n,
            0 <= w <= 0x100000000 - 1,
            n > 0,
    ;
    let (hi, lo) = (x / 0x100000000, x % 0x100000000);
    assert(x == 0x100000000 * hi + lo);
    assert(hi < n);
    if hi == n - 1 {
        assert(lo <= 0x100000000 - n);
    }
}

proof fn lemma_aligned_ge(p: nat)
    ensures
        p <= prg::aligned(p, 4) < p + 128,
{
}

proof fn lemma_sample_new(key: Seq<u8>, stream: u64, p: nat, n: nat, used: Seq<u32>)
    requires
        0 < n <= u32::MAX,
    ensures
        sample_new(key, stream, p, n, used) matches Some((c, q)) ==> c < n && !used.contains(
            c as u32,
        ),
    decreases prg::stream_len() - p,
{
    lemma_sample(key, stream, p, n);
    match sample(key, stream, p, n) {
        Some((c, q)) => {
            if used.contains(c as u32) {
                lemma_sample_new(key, stream, q, n, used);
            }
        },
        None => {},
    }
}

/// The columns of a row are different and below the number of columns.
proof fn lemma_sample_row(key: Seq<u8>, stream: u64, p: nat, n: nat, degree: nat)
    requires
        0 < n <= u32::MAX,
    ensures
        sample_row(key, stream, p, n, degree) matches Some((row, _)) ==> row.len() == degree && (
        forall|i: int| 0 <= i < degree ==> #[trigger] row[i] < n) && (forall|i: int, j: int|
            0 <= i < j < degree ==> #[trigger] row[i] != #[trigger] row[j]),
    decreases degree,
{
    if degree > 0 {
        lemma_sample_row(key, stream, p, n, (degree - 1) as nat);
        match sample_row(key, stream, p, n, (degree - 1) as nat) {
            Some((row, q)) => {
                lemma_sample_new(key, stream, q, n, row);
                match sample_new(key, stream, q, n, row) {
                    Some((c, e)) => {
                        assert forall|i: int| 0 <= i < degree - 1 implies #[trigger] row[i]
                            != c as u32 by {
                            if row[i] == c as u32 {
                                assert(row.contains(c as u32));
                            }
                        }
                    },
                    None => {},
                }
            },
            None => {},
        }
    }
}

/// Rows put together make an expander.
proof fn lemma_append(
    head: Seq<u32>,
    tail: Seq<u32>,
    a: nat,
    b: nat,
    cols: nat,
    degree: nat,
)
    requires
        is_expander(head, a, cols, degree),
        is_expander(tail, b, cols, degree),
    ensures
        is_expander(head + tail, a + b, cols, degree),
{
    let all = head + tail;
    assert((a + b) * degree == a * degree + b * degree) by (nonlinear_arith);
    assert forall|r: int, d: int, e: int|
        0 <= r < a + b && 0 <= d < e < degree implies #[trigger] all[r * degree + d]
        != #[trigger] all[r * degree + e] by {
        if r < a {
            assert(0 <= r * degree && r * degree + degree <= a * degree) by (nonlinear_arith)
                requires
                    0 <= r,
                    r + 1 <= a,
                    degree >= 0,
            ;
            assert(head[r * degree + d] != head[r * degree + e]);
        } else {
            let s = r - a;
            assert(r * degree == a * degree + s * degree) by (nonlinear_arith)
                requires
                    r == a + s,
            ;
            assert(0 <= s * degree && s * degree + degree <= b * degree) by (nonlinear_arith)
                requires
                    0 <= s,
                    s + 1 <= b,
                    degree >= 0,
            ;
            assert(tail[s * degree + d] != tail[s * degree + e]);
        }
    }
}

proof fn lemma_sample_rows(key: Seq<u8>, stream: u64, n: nat, degree: nat, rows: nat)
    requires
        0 < n <= u32::MAX,
    ensures
        sample_rows(key, stream, n, degree, rows) matches Some((all, _)) ==> is_expander(
            all,
            rows,
            n,
            degree,
        ),
    decreases rows,
{
    if rows == 0 {
        assert(0 * degree == 0) by (nonlinear_arith);
    } else {
        let k = (rows - 1) as nat;
        lemma_sample_rows(key, stream, n, degree, k);
        match sample_rows(key, stream, n, degree, k) {
            Some((head, p)) => {
                lemma_sample_row(key, stream, p, n, degree);
                match sample_row(key, stream, p, n, degree) {
                    Some((row, q)) => {
                        assert(1 * degree == degree);
                        assert forall|r: int, d: int, e: int|
                            0 <= r < 1 && 0 <= d < e < degree implies #[trigger] row[r * degree + d]
                            != #[trigger] row[r * degree + e] by {
                            assert(r * degree == 0) by (nonlinear_arith)
                                requires
                                    r == 0,
                            ;
                        }
                        assert(is_expander(row, 1, n, degree));
                        lemma_append(head, row, k, 1, n, degree);
                    },
                    None => {},
                }
            },
            None => {},
        }
    }
}

/// The sampled matrix is an expander: in characteristic two, a column that
/// occurred twice in a row would cancel.
pub proof fn law_rows_do_not_collapse(key: Seq<u8>, n: nat, degree: nat, rows: nat)
    requires
        0 < n <= u32::MAX,
    ensures
        expander_columns(key, n, degree, rows) matches Some(all) ==> is_expander(
            all,
            rows,
            n,
            degree,
        ),
    decreases rows,
{
    if rows == 0 || degree == 0 {
        assert(rows * degree == 0) by (nonlinear_arith)
            requires
                rows == 0 || degree == 0,
        ;
    } else {
        let chunk = ((rows - 1) as nat / 256) as u64;
        let here = ((rows - 1) % 256 + 1) as nat;
        let k = (rows - here) as nat;
        law_rows_do_not_collapse(key, n, degree, k);
        lemma_sample_rows(key, chunk, n, degree, here);
        match (
            expander_columns(key, n, degree, k),
            sample_rows(key, chunk, n, degree, here),
        ) {
            (Some(head), Some((tail, _))) => {
                lemma_append(head, tail, k, here, n, degree);
            },
            _ => {},
        }
    }
}

// ---------------------------------------------------------------
// Sampling
// ---------------------------------------------------------------

/// Draws a number below `n`, as uniform sampling with one corrective draw
/// does.
fn draw(rng: &mut AesCtrPrg, n: u32) -> (r: Result<u32, Exhausted>)
    requires
        old(rng).wf(),
        n > 0,
    ensures
        final(rng).wf(),
        final(rng).key() == old(rng).key(),
        final(rng).stream() == old(rng).stream(),
        match r {
            Ok(c) => sample(
                old(rng).key(),
                old(rng).stream(),
                old(rng).position(),
                n as nat,
            ) == Some((c as nat, final(rng).position())) && c < n,
            Err(_) => sample(
                old(rng).key(),
                old(rng).stream(),
                old(rng).position(),
                n as nat,
            ) is None,
        },
{
    let ghost p = rng.position();
    proof {
        lemma_sample(rng.key(), rng.stream(), p, n as nat);
    }
    let x: u32 = match rng.try_next_u32() {
        Ok(x) => x,
        Err(e) => {
            return Err(e);
        },
    };
    proof {
        assert(x * n <= 0xFFFFFFFF * 0xFFFFFFFF) by (nonlinear_arith)
            requires
                0 <= x <= 0xFFFFFFFF,
                0 <= n <= 0xFFFFFFFF,
        ;
    }
    let product: u64 = (x as u64) * (n as u64);
    let hi: u64 = product / 0x100000000;
    let lo: u64 = product % 0x100000000;
    if lo <= 0x100000000 - (n as u64) {
        return Ok(hi as u32);
    }
    let y: u32 = match rng.try_next_u32() {
        Ok(y) => y,
        Err(e) => {
            return Err(e);
        },
    };
    proof {
        assert(y * n <= 0xFFFFFFFF * 0xFFFFFFFF) by (nonlinear_arith)
            requires
                0 <= y <= 0xFFFFFFFF,
                0 <= n <= 0xFFFFFFFF,
        ;
    }
    let carry: u64 = (y as u64) * (n as u64) / 0x100000000;
    if lo + carry >= 0x100000000 {
        Ok((hi + 1) as u32)
    } else {
        Ok(hi as u32)
    }
}

/// Whether a number occurs in a slice from some place on.
fn occurs(v: &Vec<u32>, from: usize, c: u32) -> (r: bool)
    requires
        from <= v@.len(),
    ensures
        r == v@.skip(from as int).contains(c),
{
    let ghost tail = v@.skip(from as int);
    let mut i: usize = from;
    while i < v.len()
        invariant
            from <= i <= v@.len(),
            tail == v@.skip(from as int),
            forall|k: int| 0 <= k < i - from ==> #[trigger] tail[k] != c,
        decreases v@.len() - i,
    {
        if v[i] == c {
            assert(tail[i - from] == c);
            return true;
        }
        i = i + 1;
    }
    false
}

/// Draws until the number is new.
fn draw_new(rng: &mut AesCtrPrg, n: u32, v: &Vec<u32>, from: usize) -> (r: Result<u32, Exhausted>)
    requires
        old(rng).wf(),
        n > 0,
        from <= v@.len(),
    ensures
        final(rng).wf(),
        final(rng).key() == old(rng).key(),
        final(rng).stream() == old(rng).stream(),
        ({
            let want = sample_new(
                old(rng).key(),
                old(rng).stream(),
                old(rng).position(),
                n as nat,
                v@.skip(from as int),
            );
            match r {
                Ok(c) => want == Some((c as nat, final(rng).position())),
                Err(_) => want is None,
            }
        }),
{
    let ghost used = v@.skip(from as int);
    let ghost want = sample_new(rng.key(), rng.stream(), rng.position(), n as nat, used);
    loop
        invariant
            rng.wf(),
            n > 0,
            from <= v@.len(),
            used == v@.skip(from as int),
            rng.key() == old(rng).key(),
            rng.stream() == old(rng).stream(),
            want == sample_new(
                old(rng).key(),
                old(rng).stream(),
                old(rng).position(),
                n as nat,
                used,
            ),
            want == sample_new(rng.key(), rng.stream(), rng.position(), n as nat, used),
        decreases prg::stream_len() - rng.position(),
    {
        proof {
            lemma_sample(rng.key(), rng.stream(), rng.position(), n as nat);
        }
        match draw(rng, n) {
            Err(e) => {
                return Err(e);
            },
            Ok(c) => {
                if !occurs(v, from, c) {
                    return Ok(c);
                }
            },
        }
    }
}

/// Appends one row.
fn push_row(rng: &mut AesCtrPrg, n: u32, degree: usize, v: &mut Vec<u32>) -> (r: Result<
    (),
    Exhausted,
>)
    requires
        old(rng).wf(),
        n > 0,
        old(v)@.len() + degree <= usize::MAX,
    ensures
        final(rng).wf(),
        final(rng).key() == old(rng).key(),
        final(rng).stream() == old(rng).stream(),
        ({
            let want = sample_row(
                old(rng).key(),
                old(rng).stream(),
                old(rng).position(),
                n as nat,
                degree as nat,
            );
            match r {
                Ok(_) => want matches Some((row, q)) && q == final(rng).position() && final(v)@
                    == old(v)@ + row,
                Err(_) => want is None,
            }
        }),
{
    let from: usize = v.len();
    let ghost (key, stream, p) = (rng.key(), rng.stream(), rng.position());
    let mut d: usize = 0;
    let ghost mut row: Seq<u32> = Seq::empty();
    proof {
        assert(v@ + row =~= v@);
    }
    while d < degree
        invariant
            d <= degree,
            rng.wf(),
            n > 0,
            rng.key() == key,
            rng.stream() == stream,
            from == old(v)@.len(),
            key == old(rng).key(),
            stream == old(rng).stream(),
            p == old(rng).position(),
            from + degree <= usize::MAX,
            row.len() == d,
            v@ == old(v)@ + row,
            sample_row(key, stream, p, n as nat, d as nat) == Some((row, rng.position())),
        decreases degree - d,
    {
        proof {
            assert(v@.skip(from as int) =~= row);
        }
        match draw_new(rng, n, v, from) {
            Err(e) => {
                proof {
                    lemma_row_none(key, stream, p, n as nat, d as nat + 1, degree as nat);
                }
                return Err(e);
            },
            Ok(c) => {
                v.push(c);
                proof {
                    row = row.push(c);
                    assert(v@ =~= old(v)@ + row);
                }
            },
        }
        d = d + 1;
    }
    Ok(())
}

/// Where a shorter row cannot be sampled, nor can a longer one.
proof fn lemma_row_none(key: Seq<u8>, stream: u64, p: nat, n: nat, a: nat, b: nat)
    requires
        a <= b,
        sample_row(key, stream, p, n, a) is None,
    ensures
        sample_row(key, stream, p, n, b) is None,
    decreases b,
{
    if a < b {
        lemma_row_none(key, stream, p, n, a, (b - 1) as nat);
    }
}

/// Where fewer rows cannot be sampled, nor can more.
proof fn lemma_rows_none(key: Seq<u8>, stream: u64, n: nat, degree: nat, a: nat, b: nat)
    requires
        a <= b,
        sample_rows(key, stream, n, degree, a) is None,
    ensures
        sample_rows(key, stream, n, degree, b) is None,
    decreases b,
{
    if a < b {
        lemma_rows_none(key, stream, n, degree, a, (b - 1) as nat);
    }
}

/// Appends the rows of one stream.
fn push_rows(
    seed: [u8; 32],
    stream: u64,
    n: u32,
    degree: usize,
    rows: usize,
    v: &mut Vec<u32>,
) -> (r: Result<(), Exhausted>)
    requires
        n > 0,
        old(v)@.len() + rows * degree <= usize::MAX,
    ensures
        ({
            let want = sample_rows(seed@, stream, n as nat, degree as nat, rows as nat);
            match r {
                Ok(_) => want matches Some((all, _)) && final(v)@ == old(v)@ + all,
                Err(_) => want is None,
            }
        }),
{
    let mut rng = AesCtrPrg::from_seed(seed);
    rng.set_stream(stream);
    let ghost start = v@;
    let ghost mut all: Seq<u32> = Seq::empty();
    let mut k: usize = 0;
    proof {
        assert(v@ + all =~= v@);
        assert(0 * degree == 0) by (nonlinear_arith);
    }
    while k < rows
        invariant
            k <= rows,
            n > 0,
            rng.wf(),
            rng.key() == seed@,
            rng.stream() == stream,
            start == old(v)@,
            v@ == start + all,
            all.len() == k * degree,
            start.len() + rows * degree <= usize::MAX,
            sample_rows(seed@, stream, n as nat, degree as nat, k as nat) == Some(
                (all, rng.position()),
            ),
        decreases rows - k,
    {
        proof {
            assert(k * degree + degree == (k + 1) * degree && (k + 1) * degree <= rows * degree)
                by (nonlinear_arith)
                requires
                    k + 1 <= rows,
                    degree >= 0,
            ;
            lemma_sample_row(seed@, stream, rng.position(), n as nat, degree as nat);
        }
        let ghost p = rng.position();
        match push_row(&mut rng, n, degree, v) {
            Err(e) => {
                proof {
                    lemma_rows_none(
                        seed@,
                        stream,
                        n as nat,
                        degree as nat,
                        k as nat + 1,
                        rows as nat,
                    );
                }
                return Err(e);
            },
            Ok(()) => {
                proof {
                    let row = sample_row(seed@, stream, p, n as nat, degree as nat)->Some_0.0;
                    all = all + row;
                    assert(v@ =~= start + all);
                }
            },
        }
        k = k + 1;
    }
    Ok(())
}

/// The last chunk of `b` rows starts at or after every earlier chunk.
proof fn lemma_chunk_start(a: nat, b: nat)
    requires
        a < b,
        a % 256 == 0,
    ensures
        a <= b - ((b - 1) % 256 + 1),
{
    let q = (b - 1) / 256;
    assert(b - 1 == 256 * q + (b - 1) % 256);
    assert(a == 256 * (a / 256));
}

/// Where the first chunks cannot be sampled, nor can the whole.
proof fn lemma_chunks_none(key: Seq<u8>, n: nat, degree: nat, a: nat, b: nat)
    requires
        a <= b,
        a % 256 == 0 || a == b,
        expander_columns(key, n, degree, a) is None,
    ensures
        expander_columns(key, n, degree, b) is None,
    decreases b,
{
    if a < b {
        let here = ((b - 1) % 256 + 1) as nat;
        let k = (b - here) as nat;
        lemma_chunk_start(a, b);
        lemma_chunks_none(key, n, degree, a, k);
    }
}

/// The columns of the matrix.
fn sample_columns(seed: [u8; 32], n: u32, degree: usize, rows: usize) -> (r: Result<
    Vec<u32>,
    Exhausted,
>)
    requires
        n > 0,
        0 < degree,
        rows * degree <= usize::MAX,
    ensures
        match r {
            Ok(v) => expander_columns(seed@, n as nat, degree as nat, rows as nat) == Some(v@),
            Err(_) => expander_columns(seed@, n as nat, degree as nat, rows as nat) is None,
        },
{
    let mut v: Vec<u32> = Vec::new();
    let mut done: usize = 0;
    let mut chunk: u64 = 0;
    proof {
        assert(0 * degree == 0) by (nonlinear_arith);
        assert(v@ =~= Seq::<u32>::empty());
    }
    while done < rows
        invariant
            done <= rows,
            n > 0,
            degree > 0,
            rows * degree <= usize::MAX,
            done < rows ==> done == 256 * chunk,
            v@.len() == done * degree,
            expander_columns(seed@, n as nat, degree as nat, done as nat) == Some(v@),
        decreases rows - done,
    {
        let left: usize = rows - done;
        let here: usize = if left < GEN_CHUNK_ROWS {
            left
        } else {
            GEN_CHUNK_ROWS
        };
        let ghost next = (done + here) as nat;
        proof {
            assert(done * degree + here * degree == (done + here) * degree && (done + here) * degree
                <= rows * degree) by (nonlinear_arith)
                requires
                    done + here <= rows,
                    degree >= 0,
            ;
            assert((next - 1) as nat / 256 == chunk);
            assert((next - 1) % 256 + 1 == here);
            lemma_sample_rows(seed@, chunk, n as nat, degree as nat, here as nat);
        }
        let ghost before = v@;
        match push_rows(seed, chunk, n, degree, here, &mut v) {
            Err(e) => {
                proof {
                    assert(expander_columns(seed@, n as nat, degree as nat, next) is None);
                    lemma_chunks_none(seed@, n as nat, degree as nat, next, rows as nat);
                }
                return Err(e);
            },
            Ok(()) => {},
        }
        done = done + here;
        if done < rows {
            chunk = chunk + 1;
        }
    }
    Ok(v)
}

/// A sample is `n` times the fraction that two words of the stream write,
/// rounded down; the second word is read only where it can make a difference.
pub proof fn law_sample_scales(key: Seq<u8>, stream: u64, p: nat, n: nat)
    requires
        0 < n <= u32::MAX,
    ensures
        ({
            let a = prg::aligned(p, 4);
            let b = prg::aligned(a + 4, 4);
            let (w, v) = (word_at(key, stream, a), word_at(key, stream, b));
            sample(key, stream, p, n) matches Some((c, q)) ==> {
                &&& c == (w * 0x100000000 + v) * n / 0x10000000000000000
                &&& q == a + 4 || q == b + 4
                &&& q == a + 4 ==> forall|u: nat|
                    u < 0x100000000 ==> c == #[trigger] ((w * 0x100000000 + u) * n)
                        / 0x10000000000000000
            }
        }),
{
    let a = prg::aligned(p, 4);
    let b = prg::aligned(a + 4, 4);
    let (w, v) = (word_at(key, stream, a), word_at(key, stream, b));
    lemma_word(key, stream, b);
    lemma_scaled(w, v, n);
    let x = w * n;
    if x % 0x100000000 <= 0x100000000 - n {
        assert forall|u: nat| u < 0x100000000 implies x / 0x100000000 == #[trigger] ((w
            * 0x100000000 + u) * n) / 0x10000000000000000 by {
            lemma_scaled(w, u, n);
        }
    }
}

proof fn lemma_scaled(w: nat, v: nat, n: nat)
    requires
        v < 0x100000000,
        0 < n <= u32::MAX,
    ensures
        ({
            let (hi, lo) = ((w * n) / 0x100000000, (w * n) % 0x100000000);
            let carry = v * n / 0x100000000;
            &&& (w * 0x100000000 + v) * n / 0x10000000000000000 == (if lo + carry >= 0x100000000 {
                hi + 1
            } else {
                hi
            })
            &&& carry < n
        }),
{
    let (x, y) = (w * n, v * n);
    let t = (w * 0x100000000 + v) * n;
    assert(t == x * 0x100000000 + y) by (nonlinear_arith)
        requires
            t == (w * 0x100000000 + v) * n,
            x == w * n,
            y == v * n,
    ;
    assert(y <= 0xFFFFFFFF * n && 0 <= y) by (nonlinear_arith)
        requires
            y == v * n,
            0 <= v <= 0xFFFFFFFF,
            n > 0,
    ;
    let (hi, lo) = (x / 0x100000000, x % 0x100000000);
    let (carry, rest) = (y / 0x100000000, y % 0x100000000);
    assert(t == hi * 0x10000000000000000 + (lo + carry) * 0x100000000 + rest);
    assert(carry < n);
}

/// What a row takes next: the number sampled, where it is new; where it is
/// not, what it takes from where the stream stands then.
pub proof fn law_repeats_are_skipped(key: Seq<u8>, stream: u64, p: nat, n: nat, used: Seq<u32>)
    requires
        0 < n <= u32::MAX,
    ensures
        match sample(key, stream, p, n) {
            None => sample_new(key, stream, p, n, used) is None,
            Some((c, q)) => c <= u32::MAX && sample_new(key, stream, p, n, used) == (
            if exists|i: int| 0 <= i < used.len() && #[trigger] used[i] == c {
                sample_new(key, stream, q, n, used)
            } else {
                Some((c, q))
            }),
        },
{
    lemma_sample(key, stream, p, n);
}

/// The rows sampled first stand first.
proof fn lemma_rows_prefix(key: Seq<u8>, stream: u64, n: nat, degree: nat, a: nat, b: nat)
    requires
        0 < n <= u32::MAX,
        a <= b,
        sample_rows(key, stream, n, degree, b) is Some,
    ensures
        sample_rows(key, stream, n, degree, a) is Some,
        sample_rows(key, stream, n, degree, a)->Some_0.0 == sample_rows(
            key,
            stream,
            n,
            degree,
            b,
        )->Some_0.0.take((a * degree) as int),
    decreases b,
{
    let whole = sample_rows(key, stream, n, degree, b)->Some_0.0;
    lemma_sample_rows(key, stream, n, degree, b);
    if a == b {
        assert(whole.take((a * degree) as int) =~= whole);
    } else {
        let k = (b - 1) as nat;
        lemma_rows_prefix(key, stream, n, degree, a, k);
        lemma_sample_rows(key, stream, n, degree, k);
        let head = sample_rows(key, stream, n, degree, k)->Some_0.0;
        assert(a * degree <= k * degree) by (nonlinear_arith)
            requires
                a <= k,
        ;
        assert(whole.take((a * degree) as int) =~= head.take((a * degree) as int));
    }
}

/// The rows of the matrix from `256 c` on, as many as there are before the
/// next multiple of 256, are the rows drawn from the start of stream `c`:
/// every 256 rows have a stream of their own, numbered in order.
pub proof fn law_chunks_have_streams(key: Seq<u8>, n: nat, degree: nat, rows: nat, c: u64, m: nat)
    requires
        0 < n <= u32::MAX,
        0 < degree,
        m <= 256,
        256 * c + m <= rows,
        rows <= u64::MAX,
        expander_columns(key, n, degree, rows) is Some,
    ensures
        sample_rows(key, c, n, degree, m) matches Some((drawn, _)) && drawn == expander_columns(
            key,
            n,
            degree,
            rows,
        )->Some_0.subrange((256 * c * degree) as int, ((256 * c + m) * degree) as int),
    decreases rows,
{
    let all = expander_columns(key, n, degree, rows)->Some_0;
    law_rows_do_not_collapse(key, n, degree, rows);
    let from = 256 * c * degree;
    let to = (256 * c + m) * degree;
    assert(0 <= from <= to <= rows * degree && to == from + m * degree) by (nonlinear_arith)
        requires
            from == 256 * c * degree,
            to == (256 * c + m) * degree,
            256 * c + m <= rows,
            degree >= 0,
            m >= 0,
            c >= 0,
    ;
    if m == 0 {
        assert(all.subrange(from as int, to as int) =~= Seq::<u32>::empty()) by {
            assert(m * degree == 0) by (nonlinear_arith)
                requires
                    m == 0,
            ;
        }
    } else {
        let chunk = ((rows - 1) as nat / 256) as u64;
        let here = ((rows - 1) % 256 + 1) as nat;
        let k = (rows - here) as nat;
        let head = expander_columns(key, n, degree, k)->Some_0;
        law_rows_do_not_collapse(key, n, degree, k);
        assert(k == 256 * chunk);
        if c == chunk {
            let tail = sample_rows(key, chunk, n, degree, here)->Some_0.0;
            lemma_sample_rows(key, chunk, n, degree, here);
            lemma_rows_prefix(key, chunk, n, degree, m, here);
            assert(k * degree == from) by (nonlinear_arith)
                requires
                    k == 256 * c,
                    from == 256 * c * degree,
            ;
            assert(m * degree <= here * degree) by (nonlinear_arith)
                requires
                    m <= here,
            ;
            assert(all.subrange(from as int, to as int) =~= tail.take((m * degree) as int));
        } else {
            assert(c < chunk) by {
                assert(256 * c < rows);
            }
            assert(256 * c + m <= k);
            law_chunks_have_streams(key, n, degree, k, c, m);
            assert(to <= k * degree) by (nonlinear_arith)
                requires
                    to == (256 * c + m) * degree,
                    256 * c + m <= k,
                    degree >= 0,
            ;
            assert(all.subrange(from as int, to as int) =~= head.subrange(
                from as int,
                to as int,
            ));
        }
    }
}

/// Row `r` of the matrix is drawn from stream `r / 256`, after the `r mod 256`
/// rows before it in that stream.
pub proof fn law_row_of_its_stream(key: Seq<u8>, n: nat, degree: nat, rows: nat, r: nat)
    requires
        0 < n <= u32::MAX,
        0 < degree,
        r < rows <= u64::MAX,
        expander_columns(key, n, degree, rows) is Some,
    ensures
        ({
            let stream = (r / 256) as u64;
            let all = expander_columns(key, n, degree, rows)->Some_0;
            &&& sample_rows(key, stream, n, degree, r % 256) matches Some((_, p))
            &&& sample_row(key, stream, p, n, degree) matches Some((row, _))
            &&& row == all.subrange((r * degree) as int, ((r + 1) * degree) as int)
        }),
{
    let stream = (r / 256) as u64;
    let k = r % 256;
    let all = expander_columns(key, n, degree, rows)->Some_0;
    law_rows_do_not_collapse(key, n, degree, rows);
    law_chunks_have_streams(key, n, degree, rows, stream, k + 1);
    let (head, p) = sample_rows(key, stream, n, degree, k)->Some_0;
    lemma_sample_rows(key, stream, n, degree, k);
    lemma_sample_row(key, stream, p, n, degree);
    let row = sample_row(key, stream, p, n, degree)->Some_0.0;
    let from = 256 * stream * degree;
    assert(r * degree == from + k * degree && (r + 1) * degree == from + (k + 1) * degree && (
    256 * stream + (k + 1)) * degree == (r + 1) * degree && (k + 1) * degree == k * degree
        + degree && 0 <= from && 0 <= k * degree && (r + 1) * degree <= rows * degree)
        by (nonlinear_arith)
        requires
            r == 256 * stream + k,
            from == 256 * stream * degree,
            r + 1 <= rows,
            stream >= 0,
            k >= 0,
            degree >= 0,
    ;
    let drawn = all.subrange(from as int, ((r + 1) * degree) as int);
    assert(drawn == head + row);
    assert(drawn.skip((k * degree) as int) =~= row);
    assert(drawn.skip((k * degree) as int) =~= all.subrange(
        (r * degree) as int,
        ((r + 1) * degree) as int,
    ));
}

/// The shapes that a matrix can have.
pub open spec fn shape_ok(rows: nat, cols: nat, degree: nat) -> bool {
    &&& 0 < cols <= u32::MAX
    &&& degree <= cols
    &&& degree <= 256
    &&& rows * degree <= usize::MAX
}

/// The matrix of a seed and a shape.
pub open spec fn is_matrix_of(
    m: ByteSparseMatrix,
    rows: usize,
    cols: usize,
    degree: usize,
    seed: Seq<u8>,
) -> bool {
    &&& matrix_shape(m) == (rows, cols, degree)
    &&& Some(matrix_columns(m)) == expander_columns(
        seed,
        cols as nat,
        degree as nat,
        rows as nat,
    )
    &&& is_expander(matrix_columns(m), rows as nat, cols as nat, degree as nat)
    &&& matrix_weights(m) == Seq::new((rows * degree) as nat, |i: int| 1u8)
}

/// The matrix is binary: each row has one in `degree` different columns, and
/// nothing else is listed.
pub proof fn law_matrix_is_binary(
    m: ByteSparseMatrix,
    rows: usize,
    cols: usize,
    degree: usize,
    seed: Seq<u8>,
    r: int,
    i: int,
    j: int,
)
    requires
        is_matrix_of(m, rows, cols, degree, seed),
        0 <= r < rows,
        0 <= i < j < degree,
    ensures
        matrix_shape(m) == (rows, cols, degree),
        matrix_columns(m).len() == rows * degree,
        matrix_weights(m).len() == rows * degree,
        matrix_weights(m)[r * degree + i] == 1,
        matrix_weights(m)[r * degree + j] == 1,
        matrix_columns(m)[r * degree + i] < cols,
        matrix_columns(m)[r * degree + j] < cols,
        matrix_columns(m)[r * degree + i] != matrix_columns(m)[r * degree + j],
{
    assert(0 <= r * degree && r * degree + degree <= rows * degree) by (nonlinear_arith)
        requires
            0 <= r < rows,
            0 <= degree,
    ;
}

/// Both sides of the protocol derive one matrix: what a seed and a shape give
/// does not depend on who samples it.
pub proof fn law_seed_determines_the_matrix(
    a: ByteSparseMatrix,
    b: ByteSparseMatrix,
    rows: usize,
    cols: usize,
    degree: usize,
    seed: Seq<u8>,
)
    requires
        is_matrix_of(a, rows, cols, degree, seed),
        is_matrix_of(b, rows, cols, degree, seed),
    ensures
        matrix_shape(a) == matrix_shape(b),
        matrix_columns(a) == matrix_columns(b),
        matrix_weights(a) == matrix_weights(b),
{
}

/// Samples a binary matrix with `degree` entries in every row, for encoding.
/// The seed determines the matrix, so that both sides of the protocol derive
/// the same one.
pub fn generate_expander_matrix(rows: usize, cols: usize, degree: usize, seed: [u8; 32]) -> (r:
    ByteSparseMatrix)
    requires
        shape_ok(rows as nat, cols as nat, degree as nat),
        expander_columns(seed@, cols as nat, degree as nat, rows as nat) is Some,
    ensures
        is_matrix_of(r, rows, cols, degree, seed@),
{
    let total: usize = rows * degree;
    proof {
        law_rows_do_not_collapse(seed@, cols as nat, degree as nat, rows as nat);
    }
    if degree == 0 {
        let (weights, columns): (Vec<u8>, Vec<u32>) = (Vec::new(), Vec::new());
        proof {
            assert(rows * degree == 0) by (nonlinear_arith)
                requires
                    degree == 0,
            ;
            assert(weights@ =~= Seq::new(0, |i: int| 1u8));
            assert(columns@ =~= Seq::<u32>::empty());
        }
        return sparse_matrix(rows, cols, degree, weights, columns);
    }
    let columns: Vec<u32> = match sample_columns(seed, cols as u32, degree, rows) {
        Ok(v) => v,
        Err(_) => Vec::new(),
    };
    let weights: Vec<u8> = vec![1u8; total];
    proof {
        assert(weights@ =~= Seq::new((rows * degree) as nat, |i: int| 1u8));
    }
    sparse_matrix(rows, cols, degree, weights, columns)
}

/// The matrix of a seed, where its streams are long enough to sample it; none
/// where one of them ends before every row has different columns.
pub fn try_generate_expander_matrix(rows: usize, cols: usize, degree: usize, seed: [u8; 32]) -> (r:
    Option<ByteSparseMatrix>)
    requires
        shape_ok(rows as nat, cols as nat, degree as nat),
    ensures
        match r {
            Some(m) => is_matrix_of(m, rows, cols, degree, seed@),
            None => expander_columns(seed@, cols as nat, degree as nat, rows as nat) is None,
        },
{
    if degree > 0 {
        match sample_columns(seed, cols as u32, degree, rows) {
            Ok(_) => {},
            Err(_) => {
                return None;
            },
        }
    }
    Some(generate_expander_matrix(rows, cols, degree, seed))
}

} // verus!
