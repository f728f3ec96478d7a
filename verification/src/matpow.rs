//! Powers of square matrices with every entry reduced modulo a small number, by repeated
//! squaring, and the algebra of square matrices over the integers that shows them right.
use vstd::prelude::*;
use vstd::arithmetic::div_mod::{
    lemma_add_mod_noop, lemma_fundamental_div_mod_converse, lemma_mul_mod_noop, lemma_small_mod,
};
use crate::matrix::{dot, Matrix};

verus! {

/// `f(0) + f(1) + ... + f(n - 1)`.
pub open spec fn sum(f: spec_fn(int) -> int, n: int) -> int
    decreases n,
{
    if n <= 0 {
        0
    } else {
        sum(f, n - 1) + f(n - 1)
    }
}

/// The terms `a[i][j] * b[j][k]` of entry `(i, k)` of a product of `n`-by-`n` matrices.
pub open spec fn terms(a: Seq<int>, b: Seq<int>, n: int, i: int, k: int) -> spec_fn(int) -> int {
    |j: int| a[i * n + j] * b[j * n + k]
}

/// Entry `(i, k)` of the product of the `n`-by-`n` matrices `a` and `b`, stored row after row.
pub open spec fn entry(a: Seq<int>, b: Seq<int>, n: int, i: int, k: int) -> int {
    sum(terms(a, b, n, i, k), n)
}

/// The product of the `n`-by-`n` matrices `a` and `b`.
pub open spec fn mmul(a: Seq<int>, b: Seq<int>, n: int) -> Seq<int> {
    Seq::new((n * n) as nat, |p: int| entry(a, b, n, p / n, p % n))
}

/// The `n`-by-`n` identity matrix.
pub open spec fn ident(n: int) -> Seq<int> {
    Seq::new((n * n) as nat, |p: int| if p / n == p % n { 1int } else { 0int })
}

/// The `e`-th power of the `n`-by-`n` matrix `a`.
pub open spec fn mpow(a: Seq<int>, n: int, e: nat) -> Seq<int>
    decreases e,
{
    if e == 0 {
        ident(n)
    } else {
        mmul(mpow(a, n, (e - 1) as nat), a, n)
    }
}

/// Every entry reduced modulo `m`.
pub open spec fn mod_all(a: Seq<int>, m: int) -> Seq<int> {
    Seq::new(a.len(), |p: int| a[p] % m)
}

/// The entries as integers.
pub open spec fn ints(a: Seq<u16>) -> Seq<int> {
    Seq::new(a.len(), |p: int| a[p] as int)
}

/// The function `j -> f(j) + g(j)`.
pub open spec fn plus(f: spec_fn(int) -> int, g: spec_fn(int) -> int) -> spec_fn(int) -> int {
    |j: int| f(j) + g(j)
}

/// The function `j -> f(j) * c`.
pub open spec fn times(f: spec_fn(int) -> int, c: int) -> spec_fn(int) -> int {
    |j: int| f(j) * c
}

/// Column `j` of `g`: `l -> g(l, j)`.
pub open spec fn at_col(g: spec_fn(int, int) -> int, j: int) -> spec_fn(int) -> int {
    |l: int| g(l, j)
}

/// Row `l` of `g`: `j -> g(l, j)`.
pub open spec fn at_row(g: spec_fn(int, int) -> int, l: int) -> spec_fn(int) -> int {
    |j: int| g(l, j)
}

/// The sums of the first `rows` entries of each column of `g`.
pub open spec fn col_sums(g: spec_fn(int, int) -> int, rows: int) -> spec_fn(int) -> int {
    |j: int| sum(at_col(g, j), rows)
}

/// The sums of the first `cols` entries of each row of `g`.
pub open spec fn row_sums(g: spec_fn(int, int) -> int, cols: int) -> spec_fn(int) -> int {
    |l: int| sum(at_row(g, l), cols)
}

proof fn lemma_sum_ext(f: spec_fn(int) -> int, g: spec_fn(int) -> int, n: int)
    requires
        forall|j: int| 0 <= j < n ==> #[trigger] f(j) == g(j),
    ensures
        sum(f, n) == sum(g, n),
    decreases n,
{
    if n > 0 {
        lemma_sum_ext(f, g, n - 1);
    }
}

proof fn lemma_sum_add(f: spec_fn(int) -> int, g: spec_fn(int) -> int, n: int)
    ensures
        sum(f, n) + sum(g, n) == sum(plus(f, g), n),
    decreases n,
{
    if n > 0 {
        lemma_sum_add(f, g, n - 1);
    }
}

proof fn lemma_sum_times(f: spec_fn(int) -> int, c: int, n: int)
    ensures
        sum(f, n) * c == sum(times(f, c), n),
    decreases n,
{
    if n > 0 {
        lemma_sum_times(f, c, n - 1);
        assert((sum(f, n - 1) + f(n - 1)) * c == sum(f, n - 1) * c + f(n - 1) * c) by (nonlinear_arith);
    }
}

proof fn lemma_sum_zero(f: spec_fn(int) -> int, n: int)
    requires
        forall|j: int| 0 <= j < n ==> #[trigger] f(j) == 0,
    ensures
        sum(f, n) == 0,
    decreases n,
{
    if n > 0 {
        lemma_sum_zero(f, n - 1);
    }
}

/// A sum whose terms are zero but at `t` is its term at `t`.
proof fn lemma_sum_single(f: spec_fn(int) -> int, n: int, t: int)
    requires
        0 <= t < n,
        forall|j: int| 0 <= j < n && j != t ==> #[trigger] f(j) == 0,
    ensures
        sum(f, n) == f(t),
    decreases n,
{
    if t == n - 1 {
        lemma_sum_zero(f, n - 1);
    } else {
        lemma_sum_single(f, n - 1, t);
    }
}

/// A finite double sum may be taken by rows or by columns.
proof fn lemma_sum_swap(g: spec_fn(int, int) -> int, rows: int, cols: int)
    ensures
        sum(col_sums(g, rows), cols) == sum(row_sums(g, cols), rows),
    decreases cols,
{
    if cols <= 0 {
        lemma_sum_zero(row_sums(g, cols), rows);
    } else {
        lemma_sum_swap(g, rows, cols - 1);
        lemma_sum_add(row_sums(g, cols - 1), at_col(g, cols - 1), rows);
        lemma_sum_ext(plus(row_sums(g, cols - 1), at_col(g, cols - 1)), row_sums(g, cols), rows);
    }
}

/// `p` is entry `(p / n, p % n)`, and entry `(i, k)` is at `i * n + k`.
proof fn lemma_pos(i: int, k: int, n: int)
    requires
        0 <= i < n,
        0 <= k < n,
    ensures
        0 <= i * n + k < n * n,
        (i * n + k) / n == i,
        (i * n + k) % n == k,
{
    lemma_fundamental_div_mod_converse(i * n + k, n, i, k);
    assert(0 <= i * n + k < n * n) by (nonlinear_arith)
        requires
            0 <= i < n,
            0 <= k < n,
    ;
}

proof fn lemma_split(p: int, n: int)
    requires
        0 <= p < n * n,
        n >= 0,
    ensures
        0 <= p / n < n,
        0 <= p % n < n,
        p == (p / n) * n + p % n,
{
    assert(n > 0) by (nonlinear_arith)
        requires
            0 <= p < n * n,
            n >= 0,
    ;
    assert(0 <= p / n < n && 0 <= p % n < n && p == (p / n) * n + p % n) by (nonlinear_arith)
        requires
            0 <= p < n * n,
            n > 0,
    ;
}

/// Matrix products are associative.
proof fn lemma_mmul_assoc(a: Seq<int>, b: Seq<int>, c: Seq<int>, n: int)
    requires
        n >= 0,
    ensures
        mmul(mmul(a, b, n), c, n) == mmul(a, mmul(b, c, n), n),
{
    let lhs = mmul(mmul(a, b, n), c, n);
    let rhs = mmul(a, mmul(b, c, n), n);
    assert forall|p: int| 0 <= p < n * n implies lhs[p] == rhs[p] by {
        lemma_split(p, n);
        let i = p / n;
        let k = p % n;
        let g = |l: int, j: int| a[i * n + l] * b[l * n + j] * c[j * n + k];
        // by columns of g: the left side
        assert forall|j: int| 0 <= j < n implies #[trigger] terms(mmul(a, b, n), c, n, i, k)(j) == col_sums(g, n)(j) by {
            lemma_pos(i, j, n);
            lemma_sum_times(terms(a, b, n, i, j), c[j * n + k], n);
            assert forall|l: int| 0 <= l < n implies #[trigger] times(terms(a, b, n, i, j), c[j * n + k])(l) == at_col(g, j)(l) by {
            }
            lemma_sum_ext(times(terms(a, b, n, i, j), c[j * n + k]), at_col(g, j), n);
        }
        lemma_sum_ext(terms(mmul(a, b, n), c, n, i, k), col_sums(g, n), n);
        // by rows of g: the right side
        assert forall|l: int| 0 <= l < n implies #[trigger] terms(a, mmul(b, c, n), n, i, k)(l) == row_sums(g, n)(l) by {
            lemma_pos(l, k, n);
            lemma_sum_times(terms(b, c, n, l, k), a[i * n + l], n);
            assert forall|j: int| 0 <= j < n implies #[trigger] times(terms(b, c, n, l, k), a[i * n + l])(j) == at_row(g, l)(j) by {
                assert(b[l * n + j] * c[j * n + k] * a[i * n + l] == a[i * n + l] * b[l * n + j] * c[j * n + k]) by (nonlinear_arith);
            }
            lemma_sum_ext(times(terms(b, c, n, l, k), a[i * n + l]), at_row(g, l), n);
            assert(sum(terms(b, c, n, l, k), n) * a[i * n + l] == a[i * n + l] * sum(terms(b, c, n, l, k), n)) by (nonlinear_arith);
        }
        lemma_sum_ext(terms(a, mmul(b, c, n), n, i, k), row_sums(g, n), n);
        lemma_sum_swap(g, n, n);
    }
    assert(lhs =~= rhs);
}

/// The identity is neutral on both sides.
proof fn lemma_mmul_ident(a: Seq<int>, n: int)
    requires
        n >= 0,
        a.len() == n * n,
    ensures
        mmul(ident(n), a, n) == a,
        mmul(a, ident(n), n) == a,
{
    let l = mmul(ident(n), a, n);
    let r = mmul(a, ident(n), n);
    assert forall|p: int| 0 <= p < n * n implies l[p] == a[p] && r[p] == a[p] by {
        lemma_split(p, n);
        let i = p / n;
        let k = p % n;
        assert forall|j: int| 0 <= j < n && j != i implies #[trigger] terms(ident(n), a, n, i, k)(j) == 0 by {
            lemma_pos(i, j, n);
        }
        lemma_pos(i, i, n);
        lemma_sum_single(terms(ident(n), a, n, i, k), n, i);
        assert forall|j: int| 0 <= j < n && j != k implies #[trigger] terms(a, ident(n), n, i, k)(j) == 0 by {
            lemma_pos(j, k, n);
        }
        lemma_pos(k, k, n);
        lemma_sum_single(terms(a, ident(n), n, i, k), n, k);
    }
    assert(l =~= a);
    assert(r =~= a);
}

proof fn lemma_mpow_len(a: Seq<int>, n: int, e: nat)
    ensures
        mpow(a, n, e).len() == (n * n) as nat,
    decreases e,
{
    if e > 0 {
        lemma_mpow_len(a, n, (e - 1) as nat);
    }
}

/// `a^(x + y) == a^x * a^y`.
proof fn lemma_mpow_add(a: Seq<int>, n: int, x: nat, y: nat)
    requires
        n >= 0,
        a.len() == n * n,
    ensures
        mpow(a, n, x + y) == mmul(mpow(a, n, x), mpow(a, n, y), n),
    decreases y,
{
    lemma_mpow_len(a, n, x);
    if y == 0 {
        lemma_mmul_ident(mpow(a, n, x), n);
        assert(x + y == x);
    } else {
        lemma_mpow_add(a, n, x, (y - 1) as nat);
        lemma_mmul_assoc(mpow(a, n, x), mpow(a, n, (y - 1) as nat), a, n);
        assert((x + y - 1) as nat == x + (y - 1) as nat);
    }
}

/// Sums of terms that agree modulo `m` agree modulo `m`.
proof fn lemma_sum_mod(f: spec_fn(int) -> int, g: spec_fn(int) -> int, n: int, m: int)
    requires
        m > 0,
        forall|j: int| 0 <= j < n ==> #[trigger] f(j) % m == g(j) % m,
    ensures
        sum(f, n) % m == sum(g, n) % m,
    decreases n,
{
    if n > 0 {
        lemma_sum_mod(f, g, n - 1, m);
        lemma_add_mod_noop(sum(f, n - 1), f(n - 1), m);
        lemma_add_mod_noop(sum(g, n - 1), g(n - 1), m);
    }
}

/// Reducing the factors does not change the product modulo `m`.
proof fn lemma_mmul_mod(a: Seq<int>, b: Seq<int>, n: int, m: int)
    requires
        n >= 0,
        m > 0,
        a.len() == n * n,
        b.len() == n * n,
    ensures
        mod_all(mmul(mod_all(a, m), mod_all(b, m), n), m) == mod_all(mmul(a, b, n), m),
{
    let l = mod_all(mmul(mod_all(a, m), mod_all(b, m), n), m);
    let r = mod_all(mmul(a, b, n), m);
    assert forall|p: int| 0 <= p < n * n implies l[p] == r[p] by {
        lemma_split(p, n);
        let i = p / n;
        let k = p % n;
        assert forall|j: int| 0 <= j < n implies #[trigger] terms(mod_all(a, m), mod_all(b, m), n, i, k)(j) % m
            == terms(a, b, n, i, k)(j) % m by {
            lemma_pos(i, j, n);
            lemma_pos(j, k, n);
            lemma_mul_mod_noop(a[i * n + j], b[j * n + k], m);
        }
        lemma_sum_mod(terms(mod_all(a, m), mod_all(b, m), n, i, k), terms(a, b, n, i, k), n, m);
    }
    assert(l =~= r);
}

/// Entry `(i, k)` of a product of `n`-by-`n` matrices of `u16` entries, as [`Matrix::mul`]
/// states it, over the first `t` terms.
proof fn lemma_dot_sum(a: Seq<u16>, b: Seq<u16>, n: int, i: int, k: int, t: int)
    requires
        a.len() == n * n,
        b.len() == n * n,
        0 <= i < n,
        0 <= k < n,
        t <= n,
    ensures
        dot(a, b, i, k, n, n, t) == sum(terms(ints(a), ints(b), n, i, k), t),
    decreases t,
{
    if t > 0 {
        lemma_dot_sum(a, b, n, i, k, t - 1);
        lemma_pos(i, t - 1, n);
        lemma_pos(t - 1, k, n);
    }
}

/// Entries below `m` give products whose entries are at most `t * (m - 1)^2`.
proof fn lemma_dot_bound(a: Seq<u16>, b: Seq<u16>, n: int, i: int, k: int, t: int, m: int)
    requires
        a.len() == n * n,
        b.len() == n * n,
        0 <= i < n,
        0 <= k < n,
        0 <= t <= n,
        m >= 1,
        forall|p: int| 0 <= p < n * n ==> #[trigger] a[p] < m,
        forall|p: int| 0 <= p < n * n ==> #[trigger] b[p] < m,
    ensures
        dot(a, b, i, k, n, n, t) <= t * ((m - 1) * (m - 1)),
    decreases t,
{
    if t > 0 {
        lemma_dot_bound(a, b, n, i, k, t - 1, m);
        lemma_pos(i, t - 1, n);
        lemma_pos(t - 1, k, n);
        let x = a[i * n + t - 1] as int;
        let y = b[(t - 1) * n + k] as int;
        assert(x * y <= (m - 1) * (m - 1)) by (nonlinear_arith)
            requires
                0 <= x <= m - 1,
                0 <= y <= m - 1,
        ;
        assert((t - 1) * ((m - 1) * (m - 1)) + (m - 1) * (m - 1) == t * ((m - 1) * (m - 1))) by (nonlinear_arith);
    }
}

/// The law of [`Matrix::pow_mod`]'s loop: the powers of `a` reduced modulo `m` multiply as
/// the exponents add, `(a^x mod m) * (a^y mod m) mod m == a^(x + y) mod m`.
pub proof fn lemma_mpow_mod_add(a: Seq<int>, n: int, m: int, x: nat, y: nat)
    requires
        n >= 0,
        m > 0,
        a.len() == n * n,
    ensures
        mod_all(mmul(mod_all(mpow(a, n, x), m), mod_all(mpow(a, n, y), m), n), m) == mod_all(mpow(a, n, x + y), m),
{
    lemma_mpow_len(a, n, x);
    lemma_mpow_len(a, n, y);
    lemma_mmul_mod(mpow(a, n, x), mpow(a, n, y), n, m);
    lemma_mpow_add(a, n, x, y);
}

impl<const M: usize> Matrix<u16, M, M> {
    /// The `e`-th power of `self`, every entry reduced modulo `m` after each product, by
    /// repeated squaring from the lowest bit of `e`; the identity when `e` is `0`.
    pub fn pow_mod(&self, e: u128, m: u16) -> (r: Self)
        requires
            self.wf(),
            2 <= m,
            M * M <= usize::MAX,
            M * ((m - 1) * (m - 1)) <= u16::MAX,
            forall|p: int| 0 <= p < M * M ==> #[trigger] self@[p] < m,
        ensures
            r.wf(),
            ints(r@) == mod_all(mpow(ints(self@), M as int, e as nat), m as int),
    {
        let ghost n = M as int;
        let ghost a = ints(self@);
        let mut res = Self::new();
        let mut i: usize = 0;
        while i < M
            invariant
                n == M,
                M * M <= usize::MAX,
                res.wf(),
                0 <= i <= M,
                forall|p: int| 0 <= p < n * n ==> #[trigger] res@[p] == (if p / n == p % n && p / n < i { 1u16 } else { 0u16 }),
            decreases M - i,
        {
            proof {
                lemma_pos(i as int, i as int, n);
            }
            res.set((i, i), 1);
            proof {
                assert forall|p: int| 0 <= p < n * n implies #[trigger] res@[p] == (if p / n == p % n && p / n < i + 1 { 1u16 } else { 0u16 }) by {
                    lemma_split(p, n);
                    if p != i * n + i {
                        if p / n == i && p % n == i {
                            assert(p == i * n + i);
                        }
                    }
                }
            }
            i += 1;
        }
        let mut mat = Self::from_vec(self.entries());
        proof {
            lemma_small_mod(1, m as nat);
            lemma_small_mod(0, m as nat);
            assert(mpow(a, n, 0) == ident(n));
            assert forall|p: int| 0 <= p < n * n implies #[trigger] ints(res@)[p] == mod_all(mpow(a, n, 0), m as int)[p] by {
                lemma_split(p, n);
            }
            assert(ints(res@) =~= mod_all(mpow(a, n, 0), m as int));
            lemma_mmul_ident(a, n);
            assert(mpow(a, n, 1) == mmul(mpow(a, n, 0), a, n));
            assert forall|p: int| 0 <= p < n * n implies #[trigger] a[p] % (m as int) == a[p] by {
                lemma_small_mod(self@[p] as nat, m as nat);
            }
            assert(ints(mat@) =~= mod_all(mpow(a, n, 1), m as int));
        }
        let mut k: u128 = e;
        let ghost mut done: nat = 0;
        let ghost mut step: nat = 1;
        while k != 0
            invariant
                n == M,
                a == ints(self@),
                a.len() == n * n,
                2 <= m,
                M * M <= usize::MAX,
                M * ((m - 1) * (m - 1)) <= u16::MAX,
                res.wf(),
                mat.wf(),
                done + step * k == e,
                ints(res@) == mod_all(mpow(a, n, done), m as int),
                ints(mat@) == mod_all(mpow(a, n, step), m as int),
            decreases k,
        {
            proof {
                lemma_reduced_below(res@, a, n, m as int, done);
                lemma_reduced_below(mat@, a, n, m as int, step);
                assert(step * k == (step + step) * (k / 2) + (if k % 2 == 1 { step as int } else { 0int })) by (nonlinear_arith)
                    requires
                        k == 2 * (k / 2) + k % 2,
                        0 <= k % 2 < 2,
                ;
            }
            if k % 2 == 1 {
                proof {
                    lemma_product_fits(res@, mat@, n, m as int);
                }
                let mut prod = res.mul(&mat);
                let ghost before = prod@;
                prod.reduce(m);
                proof {
                    assert forall|i: int, c: int| 0 <= i < n && 0 <= c < n implies #[trigger] prod@[i * n + c]
                        == dot(res@, mat@, i, c, n, n, n) % (m as int) by {
                        lemma_pos(i, c, n);
                        assert(before[i * n + c] == dot(res@, mat@, i, c, n, n, n));
                    }
                    lemma_product_entries(res@, mat@, prod@, n, m as int);
                    lemma_mpow_mod_add(a, n, m as int, done, step);
                }
                res = prod;
                proof {
                    done = done + step;
                }
            }
            proof {
                lemma_product_fits(mat@, mat@, n, m as int);
            }
            let mut sq = mat.mul(&mat);
            let ghost before = sq@;
            sq.reduce(m);
            proof {
                assert forall|i: int, c: int| 0 <= i < n && 0 <= c < n implies #[trigger] sq@[i * n + c]
                    == dot(mat@, mat@, i, c, n, n, n) % (m as int) by {
                    lemma_pos(i, c, n);
                    assert(before[i * n + c] == dot(mat@, mat@, i, c, n, n, n));
                }
                lemma_product_entries(mat@, mat@, sq@, n, m as int);
                lemma_mpow_mod_add(a, n, m as int, step, step);
            }
            mat = sq;
            proof {
                step = step + step;
            }
            k = k / 2;
        }
        res
    }
}

/// The entries of a power reduced modulo `m`, held as `u16`, are below `m`.
proof fn lemma_reduced_below(s: Seq<u16>, a: Seq<int>, n: int, m: int, e: nat)
    requires
        m > 0,
        n >= 0,
        ints(s) == mod_all(mpow(a, n, e), m),
    ensures
        s.len() == n * n,
        forall|p: int| 0 <= p < n * n ==> #[trigger] s[p] < m,
{
    lemma_mpow_len(a, n, e);
    assert(ints(s).len() == s.len());
    assert forall|p: int| 0 <= p < n * n implies #[trigger] s[p] < m by {
        assert(ints(s)[p] == s[p] as int);
        assert(mod_all(mpow(a, n, e), m)[p] == mpow(a, n, e)[p] % m);
    }
}

/// Two matrices with entries below `m` have a product whose entries fit in `u16`.
proof fn lemma_product_fits(x: Seq<u16>, y: Seq<u16>, n: int, m: int)
    requires
        n >= 1 || n == 0,
        m >= 1,
        n * ((m - 1) * (m - 1)) <= u16::MAX,
        x.len() == n * n,
        y.len() == n * n,
        forall|p: int| 0 <= p < n * n ==> #[trigger] x[p] < m,
        forall|p: int| 0 <= p < n * n ==> #[trigger] y[p] < m,
    ensures
        forall|i: int, k: int| 0 <= i < n && 0 <= k < n ==> #[trigger] dot(x, y, i, k, n, n, n) <= u16::MAX,
{
    assert forall|i: int, k: int| 0 <= i < n && 0 <= k < n implies #[trigger] dot(x, y, i, k, n, n, n) <= u16::MAX by {
        lemma_dot_bound(x, y, n, i, k, n, m);
    }
}

/// A product of `x` and `y` as [`Matrix::mul`] gives it, reduced modulo `m`, is the
/// reduced integer product.
proof fn lemma_product_entries(x: Seq<u16>, y: Seq<u16>, z: Seq<u16>, n: int, m: int)
    requires
        n >= 0,
        m > 0,
        x.len() == n * n,
        y.len() == n * n,
        z.len() == n * n,
        forall|i: int, k: int| 0 <= i < n && 0 <= k < n ==> #[trigger] z[i * n + k] == dot(x, y, i, k, n, n, n) % m,
    ensures
        ints(z) == mod_all(mmul(ints(x), ints(y), n), m),
{
    assert forall|p: int| 0 <= p < n * n implies #[trigger] ints(z)[p] == mod_all(mmul(ints(x), ints(y), n), m)[p] by {
        lemma_split(p, n);
        let i = p / n;
        let k = p % n;
        lemma_dot_sum(x, y, n, i, k, n);
        assert(z[i * n + k] == dot(x, y, i, k, n, n, n) % m);
    }
    assert(ints(z) =~= mod_all(mmul(ints(x), ints(y), n), m));
}

} // verus!
