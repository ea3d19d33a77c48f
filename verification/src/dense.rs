//! Dense matrices stored row by row: taking the leading rows or columns
//! of one, and transposing it.

use vstd::prelude::*;

verus! {

/// Where entry `(i, j)` of a matrix with `cols` columns stands in its
/// row-major storage.
pub open spec fn at(cols: int, i: int, j: int) -> int {
    i * cols + j
}

/// `out` is the row-major storage of the first `k` columns of the
/// `rows` by `cols` matrix stored in `data`.
pub open spec fn is_leading_columns<T>(
    out: Seq<T>,
    data: Seq<T>,
    rows: int,
    cols: int,
    k: int,
) -> bool {
    &&& out.len() == rows * k
    &&& forall|i: int, j: int|
        0 <= i < rows && 0 <= j < k ==> out[#[trigger] at(k, i, j)] == data[at(cols, i, j)]
}

/// `out` is the row-major storage of the transpose of the `rows` by
/// `cols` matrix stored in `data`.
pub open spec fn is_transpose<T>(out: Seq<T>, data: Seq<T>, rows: int, cols: int) -> bool {
    &&& out.len() == rows * cols
    &&& forall|i: int, j: int|
        0 <= i < rows && 0 <= j < cols ==> out[#[trigger] at(rows, j, i)] == data[at(cols, i, j)]
}

/// An entry of a `rows` by `cols` matrix stands inside the storage, in a
/// row that ends before the next begins.
pub proof fn lemma_at_in_bounds(rows: int, cols: int, i: int, j: int)
    requires
        0 <= i < rows,
        0 <= j < cols,
    ensures
        0 <= i * cols,
        i * cols <= at(cols, i, j) < (i + 1) * cols,
        (i + 1) * cols <= rows * cols,
        (i + 1) * cols == i * cols + cols,
{
    assert(0 <= i * cols) by (nonlinear_arith)
        requires
            0 <= i,
            0 <= cols,
    ;
    assert((i + 1) * cols == i * cols + cols) by (nonlinear_arith);
    assert((i + 1) * cols <= rows * cols) by (nonlinear_arith)
        requires
            i + 1 <= rows,
            0 <= cols,
    ;
}

/// The first `k` columns of the `rows` by `cols` matrix stored row by row
/// in `data`, stored row by row.
pub fn leading_columns<T: Copy>(data: &Vec<T>, rows: usize, cols: usize, k: usize) -> (out: Vec<T>)
    requires
        data.len() == rows * cols,
        k <= cols,
    ensures
        is_leading_columns(out@, data@, rows as int, cols as int, k as int),
{
    let mut out: Vec<T> = Vec::new();
    let mut i: usize = 0;
    while i < rows
        invariant
            i <= rows,
            k <= cols,
            data.len() == rows * cols,
            out.len() == i * k,
            forall|a: int, b: int|
                0 <= a < i && 0 <= b < k ==> out@[#[trigger] at(k as int, a, b)] == data@[at(
                    cols as int,
                    a,
                    b,
                )],
        decreases rows - i,
    {
        let mut j: usize = 0;
        while j < k
            invariant
                i < rows,
                j <= k <= cols,
                data.len() == rows * cols,
                out.len() == i * k + j,
                forall|a: int, b: int|
                    0 <= a < i && 0 <= b < k ==> out@[#[trigger] at(k as int, a, b)] == data@[at(
                        cols as int,
                        a,
                        b,
                    )],
                forall|b: int|
                    0 <= b < j ==> out@[#[trigger] at(k as int, i as int, b)] == data@[at(
                        cols as int,
                        i as int,
                        b,
                    )],
            decreases k - j,
        {
            proof {
                lemma_at_in_bounds(rows as int, cols as int, i as int, j as int);
                assert forall|a: int, b: int| 0 <= a < i && 0 <= b < k implies at(k as int, a, b)
                    < out.len() by {
                    lemma_at_in_bounds(i as int, k as int, a, b);
                }
                assert forall|b: int| 0 <= b < j implies at(k as int, i as int, b)
                    < out.len() by {}
            }
            out.push(data[i * cols + j]);
            j += 1;
        }
        proof {
            assert(i * k + k == (i + 1) * k) by (nonlinear_arith);
        }
        i += 1;
    }
    out
}

/// The first `k` rows of the matrix with `cols` columns stored row by row
/// in `data`: the first `k * cols` entries of the storage.
pub fn leading_rows<T: Copy>(data: &Vec<T>, cols: usize, k: usize) -> (out: Vec<T>)
    requires
        k * cols <= data.len(),
    ensures
        out@ == data@.subrange(0, k * cols),
{
    let n: usize = k * cols;
    let mut out: Vec<T> = Vec::new();
    let mut p: usize = 0;
    while p < n
        invariant
            p <= n <= data.len(),
            out@ == data@.subrange(0, p as int),
        decreases n - p,
    {
        out.push(data[p]);
        assert(out@ =~= data@.subrange(0, p + 1));
        p += 1;
    }
    out
}

/// The transpose of the `rows` by `cols` matrix stored row by row in
/// `data`, stored row by row.
pub fn transpose<T: Copy>(data: &Vec<T>, rows: usize, cols: usize) -> (out: Vec<T>)
    requires
        data.len() == rows * cols,
    ensures
        is_transpose(out@, data@, rows as int, cols as int),
{
    let mut out: Vec<T> = Vec::new();
    let mut j: usize = 0;
    while j < cols
        invariant
            j <= cols,
            data.len() == rows * cols,
            out.len() == j * rows,
            forall|a: int, b: int|
                0 <= a < rows && 0 <= b < j ==> out@[#[trigger] at(rows as int, b, a)] == data@[at(
                    cols as int,
                    a,
                    b,
                )],
        decreases cols - j,
    {
        let mut i: usize = 0;
        while i < rows
            invariant
                j < cols,
                i <= rows,
                data.len() == rows * cols,
                out.len() == j * rows + i,
                forall|a: int, b: int|
                    0 <= a < rows && 0 <= b < j ==> out@[#[trigger] at(rows as int, b, a)]
                        == data@[at(cols as int, a, b)],
                forall|a: int|
                    0 <= a < i ==> out@[#[trigger] at(rows as int, j as int, a)] == data@[at(
                        cols as int,
                        a,
                        j as int,
                    )],
            decreases rows - i,
        {
            proof {
                lemma_at_in_bounds(rows as int, cols as int, i as int, j as int);
                assert forall|a: int, b: int| 0 <= a < rows && 0 <= b < j implies at(
                    rows as int,
                    b,
                    a,
                ) < out.len() by {
                    lemma_at_in_bounds(j as int, rows as int, b, a);
                }
            }
            out.push(data[i * cols + j]);
            i += 1;
        }
        proof {
            assert(j * rows + rows == (j + 1) * rows) by (nonlinear_arith);
        }
        j += 1;
    }
    proof {
        assert(cols * rows == rows * cols) by (nonlinear_arith);
    }
    out
}

/// The thin factors of a full QR decomposition of an `m` by `n` matrix:
/// the first `k` columns of the `m` by `m` factor `q_full` and the first
/// `k` rows of the `m` by `n` factor `r_full`, each stored row by row.
pub fn extract_thin_qr<T: Copy>(
    q_full: &Vec<T>,
    r_full: &Vec<T>,
    m: usize,
    n: usize,
    k: usize,
) -> (thin: (Vec<T>, Vec<T>))
    requires
        q_full.len() == m * m,
        r_full.len() == m * n,
        k <= m,
    ensures
        is_leading_columns(thin.0@, q_full@, m as int, m as int, k as int),
        thin.1@ == r_full@.subrange(0, k * n),
{
    proof {
        assert(k * n <= m * n) by (nonlinear_arith)
            requires
                k <= m,
                0 <= n,
        ;
    }
    let q_vec = leading_columns(q_full, m, m, k);
    let r_vec = leading_rows(r_full, n, k);
    (q_vec, r_vec)
}

} // verus!
