//! Dense matrices of `M` rows and `N` columns over `u16`, stored row after row.
use vstd::prelude::*;
use crate::text::{dec, push_nat};

verus! {

/// A matrix of `M` rows and `N` columns, its entries stored row after row.
pub struct Matrix<T, const M: usize, const N: usize> {
    data: Vec<T>,
}

impl<T, const M: usize, const N: usize> View for Matrix<T, M, N> {
    type V = Seq<T>;

    /// The entries, row after row.
    closed spec fn view(&self) -> Seq<T> {
        self.data@
    }
}

/// The sum of `a[i][j] * b[j][k]` over the first `n` values of `j`, where `a` has `cols`
/// columns and `b` has `kcols` columns, both stored row after row.
pub open spec fn dot(a: Seq<u16>, b: Seq<u16>, i: int, k: int, cols: int, kcols: int, n: int) -> int
    decreases n,
{
    if n <= 0 {
        0
    } else {
        dot(a, b, i, k, cols, kcols, n - 1) + a[i * cols + n - 1] * b[(n - 1) * kcols + k]
    }
}

/// The first `n` entries of line `m` of the text, each followed by a space, entry `n` of
/// line `m` being `a[m * rows + n]`.
pub open spec fn row_text(a: Seq<u16>, m: int, rows: int, n: int) -> Seq<char>
    decreases n,
{
    if n <= 0 {
        Seq::empty()
    } else {
        row_text(a, m, rows, n - 1) + dec(a[m * rows + n - 1] as int) + seq![' ']
    }
}

/// Line `m` of the text: its `cols` entries separated by spaces, then a newline.
pub open spec fn line_text(a: Seq<u16>, m: int, rows: int, cols: int) -> Seq<char> {
    row_text(a, m, rows, cols - 1) + dec(a[m * rows + cols - 1] as int) + seq!['\n']
}

/// The first `m` lines of the text; nothing when there are no columns.
pub open spec fn matrix_text(a: Seq<u16>, rows: int, cols: int, m: int) -> Seq<char>
    decreases m,
{
    if m <= 0 || cols <= 0 {
        Seq::empty()
    } else {
        matrix_text(a, rows, cols, m - 1) + line_text(a, m - 1, rows, cols)
    }
}

impl<const M: usize, const N: usize> Matrix<u16, M, N> {
    /// The matrix holds `M * N` entries.
    pub open spec fn wf(&self) -> bool {
        self@.len() == M * N
    }

    /// The zero matrix.
    pub fn new() -> (r: Self)
        requires
            M * N <= usize::MAX,
        ensures
            r.wf(),
            r@ == Seq::new((M * N) as nat, |i: int| 0u16),
    {
        let n: usize = M * N;
        let mut data: Vec<u16> = Vec::new();
        let mut i: usize = 0;
        while i < n
            invariant
                n == M * N,
                0 <= i <= n,
                data@ == Seq::new(i as nat, |j: int| 0u16),
            decreases n - i,
        {
            data.push(0);
            i += 1;
        }
        Self { data }
    }

    /// The matrix with the entries `data`, row after row.
    pub fn from_vec(data: Vec<u16>) -> (r: Self)
        requires
            data.len() == M * N,
        ensures
            r.wf(),
            r@ == data@,
    {
        Self { data }
    }

    /// The entries, row after row.
    pub fn entries(&self) -> (r: Vec<u16>)
        ensures
            r@ == self@,
    {
        self.data.clone()
    }

    /// The entry at `index`, found at position `index.0 * M + index.1` of the entries.
    pub fn index(&self, index: (usize, usize)) -> (r: u16)
        requires
            self.wf(),
            index.0 * M + index.1 < M * N,
        ensures
            r == self@[index.0 * M + index.1],
    {
        let len = self.data.len();
        proof {
            assert(index.0 * M <= index.0 * M + index.1 < len);
        }
        self.data[index.0 * M + index.1]
    }

    /// Sets the entry at `index`, position `index.0 * M + index.1` of the entries, to `v`.
    pub fn set(&mut self, index: (usize, usize), v: u16)
        requires
            old(self).wf(),
            index.0 * M + index.1 < M * N,
        ensures
            final(self).wf(),
            final(self)@ == old(self)@.update(index.0 * M + index.1, v),
    {
        let len = self.data.len();
        proof {
            assert(index.0 * M <= index.0 * M + index.1 < len);
        }
        let p = index.0 * M + index.1;
        self.data.set(p, v);
    }

    /// The entrywise sum.
    pub fn add(self, rhs: &Self) -> (r: Self)
        requires
            self.wf(),
            rhs.wf(),
            forall|i: int| 0 <= i < M * N ==> self@[i] + rhs@[i] <= u16::MAX,
        ensures
            r.wf(),
            forall|i: int| 0 <= i < M * N ==> #[trigger] r@[i] == self@[i] + rhs@[i],
    {
        proof {
            assert(self@ == self.data@);
            assert(rhs@ == rhs.data@);
        }
        let mut data = self.data;
        let mut i: usize = 0;
        while i < data.len()
            invariant
                data.len() == M * N,
                rhs.data.len() == M * N,
                0 <= i <= data.len(),
                forall|j: int| 0 <= j < M * N ==> self.data@[j] + rhs.data@[j] <= u16::MAX,
                forall|j: int| 0 <= j < i ==> #[trigger] data@[j] == self.data@[j] + rhs.data@[j],
                forall|j: int| i <= j < data.len() ==> #[trigger] data@[j] == self.data@[j],
            decreases data.len() - i,
        {
            let v = data[i] + rhs.data[i];
            data.set(i, v);
            i += 1;
        }
        Self { data }
    }

    /// The matrix product: entry `(i, k)` is the sum over `j` of `self[i][j] * rhs[j][k]`.
    pub fn mul<const K: usize>(&self, rhs: &Matrix<u16, N, K>) -> (r: Matrix<u16, M, K>)
        requires
            self.wf(),
            rhs.wf(),
            M * K <= usize::MAX,
            forall|i: int, k: int|
                0 <= i < M && 0 <= k < K ==> #[trigger] dot(self@, rhs@, i, k, N as int, K as int, N as int)
                    <= u16::MAX,
        ensures
            r.wf(),
            forall|i: int, k: int|
                0 <= i < M && 0 <= k < K ==> #[trigger] r@[i * K + k] == dot(self@, rhs@, i, k, N as int, K as int, N as int),
    {
        proof {
            assert(self@ == self.data@);
            assert(rhs@ == rhs.data@);
        }
        let mut data: Vec<u16> = Vec::new();
        let mut i: usize = 0;
        while i < M
            invariant
                self.data.len() == M * N,
                rhs.data.len() == N * K,
                M * K <= usize::MAX,
                0 <= i <= M,
                data.len() == i * K,
                forall|a: int, k: int|
                    0 <= a < M && 0 <= k < K ==> #[trigger] dot(self.data@, rhs.data@, a, k, N as int, K as int, N as int)
                        <= u16::MAX,
                forall|a: int, k: int|
                    0 <= a < i && 0 <= k < K ==> #[trigger] data@[a * K + k] == dot(self.data@, rhs.data@, a, k, N as int, K as int, N as int),
            decreases M - i,
        {
            let mut k: usize = 0;
            while k < K
                invariant
                    self.data.len() == M * N,
                    rhs.data.len() == N * K,
                    M * K <= usize::MAX,
                    0 <= i < M,
                    0 <= k <= K,
                    data.len() == i * K + k,
                    forall|a: int, c: int|
                        0 <= a < M && 0 <= c < K ==> #[trigger] dot(self.data@, rhs.data@, a, c, N as int, K as int, N as int)
                            <= u16::MAX,
                    forall|a: int, c: int|
                        0 <= a < i && 0 <= c < K ==> #[trigger] data@[a * K + c] == dot(self.data@, rhs.data@, a, c, N as int, K as int, N as int),
                    forall|c: int| 0 <= c < k ==> #[trigger] data@[i * K + c] == dot(self.data@, rhs.data@, i as int, c, N as int, K as int, N as int),
                decreases K - k,
            {
                let acc = self.dot_at(rhs, i, k);
                proof {
                    lemma_index_in_range(i as int, k as int, M as int, K as int);
                }
                data.push(acc);
                proof {
                    assert forall|a: int, c: int|
                        0 <= a < i && 0 <= c < K implies #[trigger] data@[a * K + c] == dot(self.data@, rhs.data@, a, c, N as int, K as int, N as int) by {
                        lemma_index_in_range(a, c, i as int, K as int);
                    }
                }
                k += 1;
            }
            proof {
                assert forall|a: int, c: int|
                    0 <= a < i + 1 && 0 <= c < K implies #[trigger] data@[a * K + c] == dot(self.data@, rhs.data@, a, c, N as int, K as int, N as int) by {
                    if a == i {
                    }
                }
                assert((i + 1) * K == i * K + K) by (nonlinear_arith);
            }
            i += 1;
        }
        Matrix { data }
    }

    /// Entry `(i, k)` of the product with `rhs`.
    fn dot_at<const K: usize>(&self, rhs: &Matrix<u16, N, K>, i: usize, k: usize) -> (r: u16)
        requires
            self.data.len() == M * N,
            rhs.data.len() == N * K,
            i < M,
            k < K,
            dot(self.data@, rhs.data@, i as int, k as int, N as int, K as int, N as int) <= u16::MAX,
        ensures
            r == dot(self.data@, rhs.data@, i as int, k as int, N as int, K as int, N as int),
    {
        let mut acc: u16 = 0;
        let mut j: usize = 0;
        while j < N
            invariant
                self.data.len() == M * N,
                rhs.data.len() == N * K,
                i < M,
                k < K,
                0 <= j <= N,
                dot(self.data@, rhs.data@, i as int, k as int, N as int, K as int, N as int) <= u16::MAX,
                acc == dot(self.data@, rhs.data@, i as int, k as int, N as int, K as int, j as int),
            decreases N - j,
        {
            proof {
                lemma_index_in_range(i as int, j as int, M as int, N as int);
                lemma_index_in_range(j as int, k as int, N as int, K as int);
                lemma_dot_mono(self.data@, rhs.data@, i as int, k as int, N as int, K as int, j + 1, N as int);
            }
            acc = acc + self.data[i * N + j] * rhs.data[j * K + k];
            j += 1;
        }
        acc
    }

    /// Reduces every entry modulo `m`.
    pub fn reduce(&mut self, m: u16)
        requires
            m > 0,
        ensures
            final(self)@.len() == old(self)@.len(),
            old(self).wf() ==> final(self).wf(),
            forall|i: int| 0 <= i < old(self)@.len() ==> #[trigger] final(self)@[i] == old(self)@[i] % m,
    {
        let mut i: usize = 0;
        while i < self.data.len()
            invariant
                m > 0,
                self.data.len() == old(self).data.len(),
                0 <= i <= self.data.len(),
                forall|j: int| 0 <= j < i ==> #[trigger] self.data@[j] == old(self).data@[j] % m,
                forall|j: int| i <= j < self.data.len() ==> #[trigger] self.data@[j] == old(self).data@[j],
            decreases self.data.len() - i,
        {
            let v = self.data[i] % m;
            self.data.set(i, v);
            i += 1;
        }
    }

    /// The matrix as text: one line per row, its entries separated by spaces, entry `n` of
    /// line `m` being the one at `(m, n)`; nothing when there are no columns.
    pub fn to_text(&self) -> (r: String)
        requires
            self.wf(),
            M > 0 && N > 0 ==> (M - 1) * M + N - 1 < M * N,
        ensures
            r@ == matrix_text(self@, M as int, N as int, M as int),
    {
        let mut out = String::new();
        if N == 0 {
            return out;
        }
        let mut m: usize = 0;
        while m < M
            invariant
                self.data.len() == M * N,
                N > 0,
                M > 0 ==> (M - 1) * M + N - 1 < M * N,
                0 <= m <= M,
                out@ == matrix_text(self.data@, M as int, N as int, m as int),
            decreases M - m,
        {
            let ghost start = out@;
            proof {
                lemma_text_index(m as int, N as int - 1, M as int, N as int);
            }
            let mut n: usize = 0;
            while n < N - 1
                invariant
                    self.data.len() == M * N,
                    N > 0,
                    (M - 1) * M + N - 1 < M * N,
                    0 <= m < M,
                    0 <= n <= N - 1,
                    out@ == start + row_text(self.data@, m as int, M as int, n as int),
                decreases N - 1 - n,
            {
                proof {
                    lemma_text_index(m as int, n as int, M as int, N as int);
                }
                push_nat(&mut out, self.data[m * M + n] as u64);
                proof {
                    reveal_strlit(" ");
                }
                out.append(" ");
                n += 1;
            }
            push_nat(&mut out, self.data[m * M + N - 1] as u64);
            proof {
                reveal_strlit("\n");
            }
            out.append("\n");
            m += 1;
        }
        out
    }
}

proof fn lemma_index_in_range(i: int, k: int, m: int, kk: int)
    requires
        0 <= i < m,
        0 <= k < kk,
    ensures
        0 <= i * kk + k < m * kk,
        i * kk + k + 1 <= (i + 1) * kk,
        (i + 1) * kk <= m * kk,
{
    assert(0 <= i * kk) by (nonlinear_arith)
        requires
            0 <= i,
            0 <= kk,
    ;
    assert((i + 1) * kk == i * kk + kk) by (nonlinear_arith);
    assert((i + 1) * kk <= m * kk) by (nonlinear_arith)
        requires
            i + 1 <= m,
            0 <= kk,
    ;
}

proof fn lemma_text_index(m: int, n: int, rows: int, cols: int)
    requires
        0 <= m < rows,
        0 <= n < cols,
        (rows - 1) * rows + cols - 1 < rows * cols,
    ensures
        0 <= m * rows + n < rows * cols,
{
    assert(0 <= m * rows) by (nonlinear_arith)
        requires
            0 <= m,
            0 <= rows,
    ;
    assert(m * rows <= (rows - 1) * rows) by (nonlinear_arith)
        requires
            m <= rows - 1,
            0 <= rows,
    ;
}

proof fn lemma_dot_mono(a: Seq<u16>, b: Seq<u16>, i: int, k: int, cols: int, kcols: int, n1: int, n2: int)
    requires
        n1 <= n2,
    ensures
        dot(a, b, i, k, cols, kcols, n1) <= dot(a, b, i, k, cols, kcols, n2),
    decreases n2 - n1,
{
    if n1 < n2 {
        lemma_dot_mono(a, b, i, k, cols, kcols, n1, n2 - 1);
        if n2 > 0 {
            assert(a[i * cols + n2 - 1] * b[(n2 - 1) * kcols + k] >= 0) by (nonlinear_arith)
                requires
                    a[i * cols + n2 - 1] >= 0,
                    b[(n2 - 1) * kcols + k] >= 0,
            ;
        }
    }
}

} // verus!
