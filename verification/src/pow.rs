//! Raising to the fixed power `3^27` with an addition chain, over any multiplication.
use vstd::prelude::*;
use vstd::arithmetic::div_mod::*;
use vstd::arithmetic::mul::*;
use vstd::arithmetic::power::{lemma_pow1, lemma_pow_adds, lemma_pow_mod_noop, lemma_pow_multiplies};

verus! {

/// A multiplication on the values of type `Item`, with the powers it builds.
pub trait MulMod: Sized {
    type Item: Copy;

    /// The product that `mul` returns.
    spec fn mul_spec(self, a: Self::Item, b: Self::Item) -> Self::Item;

    /// When `mul` may be called.
    spec fn mul_pre(self, a: Self::Item, b: Self::Item) -> bool;

    /// The `k`-th power of `a` under this multiplication.
    spec fn pow_spec(self, a: Self::Item, k: nat) -> Self::Item;

    /// When `a` may be raised to the powers `1..=n`.
    spec fn pow_pre(self, a: Self::Item, n: nat) -> bool;

    /// The values that `mul` keeps to: any two of them may be multiplied, giving another.
    spec fn dom(self, a: Self::Item) -> bool;

    /// Products of values of the domain stay in it.
    proof fn lemma_dom_mul(self, a: Self::Item, b: Self::Item)
        requires
            self.dom(a),
            self.dom(b),
        ensures
            self.mul_pre(a, b),
            self.dom(self.mul_spec(a, b)),
    ;

    /// The first power of `a` is `a`.
    proof fn lemma_pow_one(self, a: Self::Item, n: nat)
        requires
            self.pow_pre(a, n),
        ensures
            self.pow_spec(a, 1) == a,
    ;

    /// Powers of one element multiply by adding exponents.
    proof fn lemma_pow_split(self, a: Self::Item, n: nat, i: nat, j: nat)
        requires
            self.pow_pre(a, n),
            1 <= i,
            1 <= j,
            i + j <= n,
        ensures
            self.mul_pre(self.pow_spec(a, i), self.pow_spec(a, j)),
            self.mul_spec(self.pow_spec(a, i), self.pow_spec(a, j)) == self.pow_spec(a, i + j),
    ;

    /// A power of a power multiplies the exponents.
    proof fn lemma_pow_pow(self, a: Self::Item, n: nat, x: nat, y: nat)
        requires
            self.pow_pre(a, n),
            1 <= x,
            1 <= y,
            x * y <= n,
        ensures
            self.pow_pre(self.pow_spec(a, x), y),
            self.pow_spec(self.pow_spec(a, x), y) == self.pow_spec(a, x * y),
    ;

    fn mul(self, a: Self::Item, b: Self::Item) -> (r: Self::Item)
        requires
            self.mul_pre(a, b),
        ensures
            r == self.mul_spec(a, b),
    ;
}

/// Multiplication modulo the `u64` value itself.
impl MulMod for u64 {
    type Item = u64;

    open spec fn mul_spec(self, a: u64, b: u64) -> u64 {
        ((a * b) % (self as int)) as u64
    }

    open spec fn mul_pre(self, a: u64, b: u64) -> bool {
        self > 0
    }

    open spec fn pow_spec(self, a: u64, k: nat) -> u64 {
        if k == 1 {
            a
        } else {
            (vstd::arithmetic::power::pow(a as int, k) % (self as int)) as u64
        }
    }

    open spec fn pow_pre(self, a: u64, n: nat) -> bool {
        self > 0
    }

    open spec fn dom(self, a: u64) -> bool {
        self > 0
    }

    proof fn lemma_dom_mul(self, a: u64, b: u64) {
    }

    proof fn lemma_pow_one(self, a: u64, n: nat) {
    }

    proof fn lemma_pow_split(self, a: u64, n: nat, i: nat, j: nat) {
        let m = self as int;
        let pi = self.pow_spec(a, i) as int;
        let pj = self.pow_spec(a, j) as int;
        let ai = vstd::arithmetic::power::pow(a as int, i);
        let aj = vstd::arithmetic::power::pow(a as int, j);
        lemma_pow1(a as int);
        lemma_mod_bound(ai, m);
        lemma_mod_bound(aj, m);
        assert(pi % m == ai % m) by {
            if i != 1 {
                lemma_mod_twice(ai, m);
            }
        }
        assert(pj % m == aj % m) by {
            if j != 1 {
                lemma_mod_twice(aj, m);
            }
        }
        lemma_mul_mod_noop(pi, pj, m);
        lemma_mul_mod_noop(ai, aj, m);
        lemma_pow_adds(a as int, i, j);
        lemma_mod_bound(ai * aj, m);
    }

    proof fn lemma_pow_pow(self, a: u64, n: nat, x: nat, y: nat) {
        let m = self as int;
        let ax = vstd::arithmetic::power::pow(a as int, x);
        let b = self.pow_spec(a, x);
        lemma_pow1(a as int);
        lemma_mod_bound(ax, m);
        assert((b as int) % m == ax % m) by {
            if x != 1 {
                lemma_mod_twice(ax, m);
            }
        }
        if y == 1 {
            lemma_mul_basics(x as int);
        } else {
            lemma_pow_mod_noop(b as int, y, m);
            lemma_pow_mod_noop(ax, y, m);
            lemma_pow_multiplies(a as int, x, y);
            assert(x * y != 1) by (nonlinear_arith)
                requires
                    x >= 1,
                    y >= 2,
            ;
            lemma_mod_bound(vstd::arithmetic::power::pow(a as int, x * y), m);
            lemma_mod_bound(vstd::arithmetic::power::pow(b as int, y), m);
        }
    }

    fn mul(self, a: u64, b: u64) -> (r: u64) {
        proof {
            assert(a * b <= u64::MAX * u64::MAX) by (nonlinear_arith)
                requires
                    a <= u64::MAX,
                    b <= u64::MAX,
            ;
            lemma_mod_bound(a * b, self as int);
        }
        ((a as u128 * b as u128) % self as u128) as u64
    }
}

/// Addition of `u64` values, a stand-in multiplication that makes powers easy to read:
/// the `k`-th power of `a` is `k * a`.
impl MulMod for () {
    type Item = u64;

    open spec fn mul_spec(self, a: u64, b: u64) -> u64 {
        (a + b) as u64
    }

    open spec fn mul_pre(self, a: u64, b: u64) -> bool {
        a + b <= u64::MAX
    }

    open spec fn pow_spec(self, a: u64, k: nat) -> u64 {
        (a * k) as u64
    }

    open spec fn pow_pre(self, a: u64, n: nat) -> bool {
        a * n <= u64::MAX
    }

    /// Sums leave every bound but that of zero, which they keep to.
    open spec fn dom(self, a: u64) -> bool {
        a == 0
    }

    proof fn lemma_dom_mul(self, a: u64, b: u64) {
    }

    proof fn lemma_pow_one(self, a: u64, n: nat) {
    }

    proof fn lemma_pow_split(self, a: u64, n: nat, i: nat, j: nat) {
        assert(a * i + a * j == a * (i + j) && a * (i + j) <= a * n && a * i <= a * n && a * j <= a * n)
            by (nonlinear_arith)
            requires
                i + j <= n,
                1 <= i,
                1 <= j,
        ;
    }

    proof fn lemma_pow_pow(self, a: u64, n: nat, x: nat, y: nat) {
        assert(a * x <= a * n && (a * x) * y == a * (x * y) && a * (x * y) <= a * n)
            by (nonlinear_arith)
            requires
                x * y <= n,
                1 <= x,
                1 <= y,
        ;
    }

    fn mul(self, a: u64, b: u64) -> (r: u64) {
        a + b
    }
}

/// The value that [`pow13`] computes: its 25 multiplications, in order.
pub open spec fn chain13<M: MulMod>(m: M, a0: M::Item) -> M::Item {
    let a1 = m.mul_spec(a0, a0);
    let a2 = m.mul_spec(a1, a1);
    let a3 = m.mul_spec(a2, a2);
    let a4 = m.mul_spec(a3, a2);
    let a5 = m.mul_spec(a4, a4);
    let a6 = m.mul_spec(a5, a5);
    let a7 = m.mul_spec(a6, a6);
    let a8 = m.mul_spec(a7, a7);
    let a9 = m.mul_spec(a8, a0);
    let a10 = m.mul_spec(a9, a8);
    let a11 = m.mul_spec(a10, a3);
    let a12 = m.mul_spec(a11, a10);
    let a13 = m.mul_spec(a12, a12);
    let a14 = m.mul_spec(a13, a13);
    let a15 = m.mul_spec(a14, a14);
    let a16 = m.mul_spec(a15, a15);
    let a17 = m.mul_spec(a16, a16);
    let a18 = m.mul_spec(a17, a17);
    let a19 = m.mul_spec(a18, a18);
    let a20 = m.mul_spec(a19, a19);
    let a21 = m.mul_spec(a20, a20);
    let a22 = m.mul_spec(a21, a21);
    let a23 = m.mul_spec(a22, a11);
    let a24 = m.mul_spec(a23, a23);
    let a25 = m.mul_spec(a24, a9);
    a25
}

/// The value that [`pow14`] computes: its 27 multiplications, in order.
pub open spec fn chain14<M: MulMod>(m: M, a0: M::Item) -> M::Item {
    let a1 = m.mul_spec(a0, a0);
    let a2 = m.mul_spec(a1, a0);
    let a3 = m.mul_spec(a2, a2);
    let a4 = m.mul_spec(a3, a3);
    let a5 = m.mul_spec(a4, a4);
    let a6 = m.mul_spec(a5, a4);
    let a7 = m.mul_spec(a6, a6);
    let a8 = m.mul_spec(a7, a7);
    let a9 = m.mul_spec(a8, a8);
    let a10 = m.mul_spec(a9, a9);
    let a11 = m.mul_spec(a10, a2);
    let a12 = m.mul_spec(a11, a10);
    let a13 = m.mul_spec(a12, a5);
    let a14 = m.mul_spec(a13, a12);
    let a15 = m.mul_spec(a14, a14);
    let a16 = m.mul_spec(a15, a15);
    let a17 = m.mul_spec(a16, a16);
    let a18 = m.mul_spec(a17, a17);
    let a19 = m.mul_spec(a18, a18);
    let a20 = m.mul_spec(a19, a19);
    let a21 = m.mul_spec(a20, a20);
    let a22 = m.mul_spec(a21, a21);
    let a23 = m.mul_spec(a22, a22);
    let a24 = m.mul_spec(a23, a23);
    let a25 = m.mul_spec(a24, a13);
    let a26 = m.mul_spec(a25, a25);
    let a27 = m.mul_spec(a26, a11);
    a27
}

/// `a0` raised to `3^13 = 1594323` with an addition chain of 25 multiplications.
pub fn pow13<T: Copy>(a0: T, m: impl MulMod<Item = T> + Copy) -> (r: T)
    requires
        m.pow_pre(a0, 1594323) || m.dom(a0),
    ensures
        m.dom(a0) ==> r == chain13(m, a0),
        m.pow_pre(a0, 1594323) ==> r == m.pow_spec(a0, 1594323),
        m.dom(a0) ==> m.dom(r),
{
    proof {
        if m.pow_pre(a0, 1594323) {
            m.lemma_pow_one(a0, 1594323);
        }
    }
    proof {
        if m.pow_pre(a0, 1594323) {
            m.lemma_pow_split(a0, 1594323, 1, 1);
        }
        if m.dom(a0) {
            m.lemma_dom_mul(a0, a0);
        }
    }
    let a1 = m.mul(a0, a0);
    proof {
        if m.pow_pre(a0, 1594323) {
            m.lemma_pow_split(a0, 1594323, 2, 2);
        }
        if m.dom(a0) {
            m.lemma_dom_mul(a1, a1);
        }
    }
    let a2 = m.mul(a1, a1);
    proof {
        if m.pow_pre(a0, 1594323) {
            m.lemma_pow_split(a0, 1594323, 4, 4);
        }
        if m.dom(a0) {
            m.lemma_dom_mul(a2, a2);
        }
    }
    let a3 = m.mul(a2, a2);
    proof {
        if m.pow_pre(a0, 1594323) {
            m.lemma_pow_split(a0, 1594323, 8, 4);
        }
        if m.dom(a0) {
            m.lemma_dom_mul(a3, a2);
        }
    }
    let a4 = m.mul(a3, a2);
    proof {
        if m.pow_pre(a0, 1594323) {
            m.lemma_pow_split(a0, 1594323, 12, 12);
        }
        if m.dom(a0) {
            m.lemma_dom_mul(a4, a4);
        }
    }
    let a5 = m.mul(a4, a4);
    proof {
        if m.pow_pre(a0, 1594323) {
            m.lemma_pow_split(a0, 1594323, 24, 24);
        }
        if m.dom(a0) {
            m.lemma_dom_mul(a5, a5);
        }
    }
    let a6 = m.mul(a5, a5);
    proof {
        if m.pow_pre(a0, 1594323) {
            m.lemma_pow_split(a0, 1594323, 48, 48);
        }
        if m.dom(a0) {
            m.lemma_dom_mul(a6, a6);
        }
    }
    let a7 = m.mul(a6, a6);
    proof {
        if m.pow_pre(a0, 1594323) {
            m.lemma_pow_split(a0, 1594323, 96, 96);
        }
        if m.dom(a0) {
            m.lemma_dom_mul(a7, a7);
        }
    }
    let a8 = m.mul(a7, a7);
    proof {
        if m.pow_pre(a0, 1594323) {
            m.lemma_pow_split(a0, 1594323, 192, 1);
        }
        if m.dom(a0) {
            m.lemma_dom_mul(a8, a0);
        }
    }
    let a9 = m.mul(a8, a0);
    proof {
        if m.pow_pre(a0, 1594323) {
            m.lemma_pow_split(a0, 1594323, 193, 192);
        }
        if m.dom(a0) {
            m.lemma_dom_mul(a9, a8);
        }
    }
    let a10 = m.mul(a9, a8);
    proof {
        if m.pow_pre(a0, 1594323) {
            m.lemma_pow_split(a0, 1594323, 385, 8);
        }
        if m.dom(a0) {
            m.lemma_dom_mul(a10, a3);
        }
    }
    let a11 = m.mul(a10, a3);
    proof {
        if m.pow_pre(a0, 1594323) {
            m.lemma_pow_split(a0, 1594323, 393, 385);
        }
        if m.dom(a0) {
            m.lemma_dom_mul(a11, a10);
        }
    }
    let a12 = m.mul(a11, a10);
    proof {
        if m.pow_pre(a0, 1594323) {
            m.lemma_pow_split(a0, 1594323, 778, 778);
        }
        if m.dom(a0) {
            m.lemma_dom_mul(a12, a12);
        }
    }
    let a13 = m.mul(a12, a12);
    proof {
        if m.pow_pre(a0, 1594323) {
            m.lemma_pow_split(a0, 1594323, 1556, 1556);
        }
        if m.dom(a0) {
            m.lemma_dom_mul(a13, a13);
        }
    }
    let a14 = m.mul(a13, a13);
    proof {
        if m.pow_pre(a0, 1594323) {
            m.lemma_pow_split(a0, 1594323, 3112, 3112);
        }
        if m.dom(a0) {
            m.lemma_dom_mul(a14, a14);
        }
    }
    let a15 = m.mul(a14, a14);
    proof {
        if m.pow_pre(a0, 1594323) {
            m.lemma_pow_split(a0, 1594323, 6224, 6224);
        }
        if m.dom(a0) {
            m.lemma_dom_mul(a15, a15);
        }
    }
    let a16 = m.mul(a15, a15);
    proof {
        if m.pow_pre(a0, 1594323) {
            m.lemma_pow_split(a0, 1594323, 12448, 12448);
        }
        if m.dom(a0) {
            m.lemma_dom_mul(a16, a16);
        }
    }
    let a17 = m.mul(a16, a16);
    proof {
        if m.pow_pre(a0, 1594323) {
            m.lemma_pow_split(a0, 1594323, 24896, 24896);
        }
        if m.dom(a0) {
            m.lemma_dom_mul(a17, a17);
        }
    }
    let a18 = m.mul(a17, a17);
    proof {
        if m.pow_pre(a0, 1594323) {
            m.lemma_pow_split(a0, 1594323, 49792, 49792);
        }
        if m.dom(a0) {
            m.lemma_dom_mul(a18, a18);
        }
    }
    let a19 = m.mul(a18, a18);
    proof {
        if m.pow_pre(a0, 1594323) {
            m.lemma_pow_split(a0, 1594323, 99584, 99584);
        }
        if m.dom(a0) {
            m.lemma_dom_mul(a19, a19);
        }
    }
    let a20 = m.mul(a19, a19);
    proof {
        if m.pow_pre(a0, 1594323) {
            m.lemma_pow_split(a0, 1594323, 199168, 199168);
        }
        if m.dom(a0) {
            m.lemma_dom_mul(a20, a20);
        }
    }
    let a21 = m.mul(a20, a20);
    proof {
        if m.pow_pre(a0, 1594323) {
            m.lemma_pow_split(a0, 1594323, 398336, 398336);
        }
        if m.dom(a0) {
            m.lemma_dom_mul(a21, a21);
        }
    }
    let a22 = m.mul(a21, a21);
    proof {
        if m.pow_pre(a0, 1594323) {
            m.lemma_pow_split(a0, 1594323, 796672, 393);
        }
        if m.dom(a0) {
            m.lemma_dom_mul(a22, a11);
        }
    }
    let a23 = m.mul(a22, a11);
    proof {
        if m.pow_pre(a0, 1594323) {
            m.lemma_pow_split(a0, 1594323, 797065, 797065);
        }
        if m.dom(a0) {
            m.lemma_dom_mul(a23, a23);
        }
    }
    let a24 = m.mul(a23, a23);
    proof {
        if m.pow_pre(a0, 1594323) {
            m.lemma_pow_split(a0, 1594323, 1594130, 193);
        }
        if m.dom(a0) {
            m.lemma_dom_mul(a24, a9);
        }
    }
    let a25 = m.mul(a24, a9);
    a25
}

/// `a0` raised to `3^14 = 4782969` with an addition chain of 27 multiplications.
pub fn pow14<T: Copy>(a0: T, m: impl MulMod<Item = T> + Copy) -> (r: T)
    requires
        m.pow_pre(a0, 4782969) || m.dom(a0),
    ensures
        m.dom(a0) ==> r == chain14(m, a0),
        m.pow_pre(a0, 4782969) ==> r == m.pow_spec(a0, 4782969),
        m.dom(a0) ==> m.dom(r),
{
    proof {
        if m.pow_pre(a0, 4782969) {
            m.lemma_pow_one(a0, 4782969);
        }
    }
    proof {
        if m.pow_pre(a0, 4782969) {
            m.lemma_pow_split(a0, 4782969, 1, 1);
        }
        if m.dom(a0) {
            m.lemma_dom_mul(a0, a0);
        }
    }
    let a1 = m.mul(a0, a0);
    proof {
        if m.pow_pre(a0, 4782969) {
            m.lemma_pow_split(a0, 4782969, 2, 1);
        }
        if m.dom(a0) {
            m.lemma_dom_mul(a1, a0);
        }
    }
    let a2 = m.mul(a1, a0);
    proof {
        if m.pow_pre(a0, 4782969) {
            m.lemma_pow_split(a0, 4782969, 3, 3);
        }
        if m.dom(a0) {
            m.lemma_dom_mul(a2, a2);
        }
    }
    let a3 = m.mul(a2, a2);
    proof {
        if m.pow_pre(a0, 4782969) {
            m.lemma_pow_split(a0, 4782969, 6, 6);
        }
        if m.dom(a0) {
            m.lemma_dom_mul(a3, a3);
        }
    }
    let a4 = m.mul(a3, a3);
    proof {
        if m.pow_pre(a0, 4782969) {
            m.lemma_pow_split(a0, 4782969, 12, 12);
        }
        if m.dom(a0) {
            m.lemma_dom_mul(a4, a4);
        }
    }
    let a5 = m.mul(a4, a4);
    proof {
        if m.pow_pre(a0, 4782969) {
            m.lemma_pow_split(a0, 4782969, 24, 12);
        }
        if m.dom(a0) {
            m.lemma_dom_mul(a5, a4);
        }
    }
    let a6 = m.mul(a5, a4);
    proof {
        if m.pow_pre(a0, 4782969) {
            m.lemma_pow_split(a0, 4782969, 36, 36);
        }
        if m.dom(a0) {
            m.lemma_dom_mul(a6, a6);
        }
    }
    let a7 = m.mul(a6, a6);
    proof {
        if m.pow_pre(a0, 4782969) {
            m.lemma_pow_split(a0, 4782969, 72, 72);
        }
        if m.dom(a0) {
            m.lemma_dom_mul(a7, a7);
        }
    }
    let a8 = m.mul(a7, a7);
    proof {
        if m.pow_pre(a0, 4782969) {
            m.lemma_pow_split(a0, 4782969, 144, 144);
        }
        if m.dom(a0) {
            m.lemma_dom_mul(a8, a8);
        }
    }
    let a9 = m.mul(a8, a8);
    proof {
        if m.pow_pre(a0, 4782969) {
            m.lemma_pow_split(a0, 4782969, 288, 288);
        }
        if m.dom(a0) {
            m.lemma_dom_mul(a9, a9);
        }
    }
    let a10 = m.mul(a9, a9);
    proof {
        if m.pow_pre(a0, 4782969) {
            m.lemma_pow_split(a0, 4782969, 576, 3);
        }
        if m.dom(a0) {
            m.lemma_dom_mul(a10, a2);
        }
    }
    let a11 = m.mul(a10, a2);
    proof {
        if m.pow_pre(a0, 4782969) {
            m.lemma_pow_split(a0, 4782969, 579, 576);
        }
        if m.dom(a0) {
            m.lemma_dom_mul(a11, a10);
        }
    }
    let a12 = m.mul(a11, a10);
    proof {
        if m.pow_pre(a0, 4782969) {
            m.lemma_pow_split(a0, 4782969, 1155, 24);
        }
        if m.dom(a0) {
            m.lemma_dom_mul(a12, a5);
        }
    }
    let a13 = m.mul(a12, a5);
    proof {
        if m.pow_pre(a0, 4782969) {
            m.lemma_pow_split(a0, 4782969, 1179, 1155);
        }
        if m.dom(a0) {
            m.lemma_dom_mul(a13, a12);
        }
    }
    let a14 = m.mul(a13, a12);
    proof {
        if m.pow_pre(a0, 4782969) {
            m.lemma_pow_split(a0, 4782969, 2334, 2334);
        }
        if m.dom(a0) {
            m.lemma_dom_mul(a14, a14);
        }
    }
    let a15 = m.mul(a14, a14);
    proof {
        if m.pow_pre(a0, 4782969) {
            m.lemma_pow_split(a0, 4782969, 4668, 4668);
        }
        if m.dom(a0) {
            m.lemma_dom_mul(a15, a15);
        }
    }
    let a16 = m.mul(a15, a15);
    proof {
        if m.pow_pre(a0, 4782969) {
            m.lemma_pow_split(a0, 4782969, 9336, 9336);
        }
        if m.dom(a0) {
            m.lemma_dom_mul(a16, a16);
        }
    }
    let a17 = m.mul(a16, a16);
    proof {
        if m.pow_pre(a0, 4782969) {
            m.lemma_pow_split(a0, 4782969, 18672, 18672);
        }
        if m.dom(a0) {
            m.lemma_dom_mul(a17, a17);
        }
    }
    let a18 = m.mul(a17, a17);
    proof {
        if m.pow_pre(a0, 4782969) {
            m.lemma_pow_split(a0, 4782969, 37344, 37344);
        }
        if m.dom(a0) {
            m.lemma_dom_mul(a18, a18);
        }
    }
    let a19 = m.mul(a18, a18);
    proof {
        if m.pow_pre(a0, 4782969) {
            m.lemma_pow_split(a0, 4782969, 74688, 74688);
        }
        if m.dom(a0) {
            m.lemma_dom_mul(a19, a19);
        }
    }
    let a20 = m.mul(a19, a19);
    proof {
        if m.pow_pre(a0, 4782969) {
            m.lemma_pow_split(a0, 4782969, 149376, 149376);
        }
        if m.dom(a0) {
            m.lemma_dom_mul(a20, a20);
        }
    }
    let a21 = m.mul(a20, a20);
    proof {
        if m.pow_pre(a0, 4782969) {
            m.lemma_pow_split(a0, 4782969, 298752, 298752);
        }
        if m.dom(a0) {
            m.lemma_dom_mul(a21, a21);
        }
    }
    let a22 = m.mul(a21, a21);
    proof {
        if m.pow_pre(a0, 4782969) {
            m.lemma_pow_split(a0, 4782969, 597504, 597504);
        }
        if m.dom(a0) {
            m.lemma_dom_mul(a22, a22);
        }
    }
    let a23 = m.mul(a22, a22);
    proof {
        if m.pow_pre(a0, 4782969) {
            m.lemma_pow_split(a0, 4782969, 1195008, 1195008);
        }
        if m.dom(a0) {
            m.lemma_dom_mul(a23, a23);
        }
    }
    let a24 = m.mul(a23, a23);
    proof {
        if m.pow_pre(a0, 4782969) {
            m.lemma_pow_split(a0, 4782969, 2390016, 1179);
        }
        if m.dom(a0) {
            m.lemma_dom_mul(a24, a13);
        }
    }
    let a25 = m.mul(a24, a13);
    proof {
        if m.pow_pre(a0, 4782969) {
            m.lemma_pow_split(a0, 4782969, 2391195, 2391195);
        }
        if m.dom(a0) {
            m.lemma_dom_mul(a25, a25);
        }
    }
    let a26 = m.mul(a25, a25);
    proof {
        if m.pow_pre(a0, 4782969) {
            m.lemma_pow_split(a0, 4782969, 4782390, 579);
        }
        if m.dom(a0) {
            m.lemma_dom_mul(a26, a11);
        }
    }
    let a27 = m.mul(a26, a11);
    a27
}

/// `a0` raised to `3^27 = 7625597484987`: first to `3^14`, then that to `3^13`.
pub fn pow<T: Copy>(a0: T, m: impl MulMod<Item = T> + Copy) -> (r: T)
    requires
        m.pow_pre(a0, 7625597484987) || m.dom(a0),
    ensures
        m.dom(a0) ==> r == chain13(m, chain14(m, a0)),
        m.pow_pre(a0, 7625597484987) ==> r == m.pow_spec(a0, 7625597484987),
        m.dom(a0) ==> m.dom(r),
{
    proof {
        if m.pow_pre(a0, 7625597484987) {
            m.lemma_pow_one(a0, 7625597484987);
            m.lemma_pow_pow(a0, 7625597484987, 1, 4782969);
            m.lemma_pow_pow(a0, 7625597484987, 4782969, 1594323);
        }
    }
    pow13(pow14(a0, m), m)
}

} // verus!
