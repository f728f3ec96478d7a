//! Montgomery multiplication modulo an odd 64-bit modulus, with radix `R = 2^64`.
use vstd::prelude::*;
use vstd::arithmetic::div_mod::*;
use vstd::arithmetic::mul::*;
use vstd::arithmetic::power2::*;
use vstd::arithmetic::power::*;
use crate::pow::MulMod;
use crate::modmath::{
    inv_two_pow, lemma_cancel_inv, lemma_inv_cancel, lemma_inv_two_pow, lemma_newton_step,
    lemma_pow_form_agrees, lemma_pow_form_pow, lemma_pow_form_split, lemma_redc_divisible, pow_form,
};

verus! {

/// The Montgomery radix `R = 2^64`.
pub open spec fn radix() -> int {
    0x1_0000_0000_0000_0000
}

/// The inverse of the radix `R` modulo an odd `m`.
pub open spec fn radix_inv(m: int) -> int {
    inv_two_pow(m, 64)
}

/// Facts about the inverse of the radix: `R * R^-1 == 1 (mod m)`.
pub proof fn lemma_radix_inv(m: int)
    requires
        m > 0,
        m % 2 == 1,
    ensures
        0 <= radix_inv(m) < m,
        (radix() * radix_inv(m)) % m == 1int % m,
{
    lemma_inv_two_pow(m, 64);
    lemma2_to64_rest();
}

/// Computes `n` with `p * n == -1 (mod 2^64)` for an odd `p`, by Newton iteration:
/// each step doubles the number of correct low bits. For an even `p` no such `n` exists,
/// and the result means nothing.
pub fn neg_mod_2pow64_inv(p: u64) -> (r: u64)
    ensures
        p % 2 == 1 ==> (p * r) % radix() == radix() - 1,
{
    let mut neg_inv = 1u64;
    proof {
        if p % 2 == 1 {
            assert((p * 1 + 1) % 2 == 0);
        }
    }
    let ghost prev = neg_inv;
    neg_inv = neg_inv.wrapping_mul(2u64.wrapping_add(p.wrapping_mul(neg_inv)));
    proof {
        if p % 2 == 1 {
            lemma_newton_step(p as int, prev as int, 2, radix(), 2int * 2int);
        }
    }
    let ghost prev = neg_inv;
    neg_inv = neg_inv.wrapping_mul(2u64.wrapping_add(p.wrapping_mul(neg_inv)));
    proof {
        if p % 2 == 1 {
            lemma_newton_step(p as int, prev as int, 4, radix(), 4int * 4int);
        }
    }
    let ghost prev = neg_inv;
    neg_inv = neg_inv.wrapping_mul(2u64.wrapping_add(p.wrapping_mul(neg_inv)));
    proof {
        if p % 2 == 1 {
            lemma_newton_step(p as int, prev as int, 16, radix(), 16int * 16int);
        }
    }
    let ghost prev = neg_inv;
    neg_inv = neg_inv.wrapping_mul(2u64.wrapping_add(p.wrapping_mul(neg_inv)));
    proof {
        if p % 2 == 1 {
            lemma_newton_step(p as int, prev as int, 256, radix(), 256int * 256int);
        }
    }
    let ghost prev = neg_inv;
    neg_inv = neg_inv.wrapping_mul(2u64.wrapping_add(p.wrapping_mul(neg_inv)));
    proof {
        if p % 2 == 1 {
            lemma_newton_step(p as int, prev as int, 65536, radix(), 65536int * 65536int);
        }
    }
    let ghost prev = neg_inv;
    let r = neg_inv.wrapping_mul(2u64.wrapping_add(p.wrapping_mul(neg_inv)));
    proof {
        if p % 2 == 1 {
            lemma_newton_step(p as int, prev as int, 0x1_0000_0000, radix(), radix());
            assert((p * r + 1) % radix() == 0);
            lemma_fundamental_div_mod(p * r + 1, radix());
            lemma_fundamental_div_mod(p * r, radix());
            lemma_mod_bound(p * r, radix());
        }
    }
    r
}

/// `m` is a valid Montgomery modulus for the radix `2^64` and `n` its negated inverse:
/// `m` is odd, below `2^63`, and `m * n == -1 (mod 2^64)`.
pub open spec fn mont_params(m: int, n: int) -> bool {
    &&& m % 2 == 1
    &&& 0 < m < 0x8000_0000_0000_0000
    &&& (m * n) % radix() == radix() - 1
}

/// Montgomery reduction of a product: `a * b * R^-1 mod m`.
pub open spec fn redc_spec(a: int, b: int, m: int) -> int {
    (a * b * radix_inv(m)) % m
}

/// The Montgomery form of `a`: `a * R mod m`.
pub open spec fn to_mont_spec(a: int, m: int) -> int {
    (a * radix()) % m
}

/// The number that a Montgomery form stands for: `a * R^-1 mod m`.
pub open spec fn from_mont_spec(a: int, m: int) -> int {
    (a * radix_inv(m)) % m
}

/// Montgomery reduction: for `a * b < m * 2^64` returns `a * b * 2^-64 mod m`.
/// `m` is the modulus and `n` satisfies `m * n == -1 (mod 2^64)`.
pub fn redc_64(a: u64, b: u64, m: u64, n: u64) -> (r: u64)
    requires
        mont_params(m as int, n as int),
        a * b < m * radix(),
    ensures
        r < m,
        r == redc_spec(a as int, b as int, m as int),
        (r * radix()) % (m as int) == (a * b) % (m as int),
{
    let t = a as u128 * b as u128;
    let k = (t as u64).wrapping_mul(n);
    proof {
        assert((t as u64) == t % 0x1_0000_0000_0000_0000) by (bit_vector);
        assert(k < radix());
        assert(k * m < radix() * m) by (nonlinear_arith)
            requires
                k < radix(),
                m > 0,
        ;
        assert(t + k * m < 2 * m * radix()) by (nonlinear_arith)
            requires
                t == a * b,
                a * b < m * radix(),
                k * m < radix() * m,
        ;
        assert(2 * m * radix() <= 0x1_0000_0000_0000_0000_0000_0000_0000_0000int) by (nonlinear_arith)
            requires
                m < 0x8000_0000_0000_0000,
        ;
    }
    let s: u128 = t + k as u128 * m as u128;
    let res = (s >> 64) as u64;
    proof {
        lemma_redc_divisible(t as int, m as int, n as int, k as int, radix());
        assert(s >> 64 == s / 0x1_0000_0000_0000_0000) by (bit_vector);
        lemma_fundamental_div_mod(s as int, radix());
        assert(s / 0x1_0000_0000_0000_0000 < 2 * m) by (nonlinear_arith)
            requires
                s < 2 * m * 0x1_0000_0000_0000_0000,
        ;
        assert(res == s / 0x1_0000_0000_0000_0000);
        assert(res * radix() == s);
    }
    let r = if res >= m { res - m } else { res };
    proof {
        let c: int = if res >= m { 1 } else { 0 };
        assert(r * radix() == (a * b) + m * (k - c * radix())) by (nonlinear_arith)
            requires
                r == res - c * m,
                res * radix() == t + k * m,
                t == a * b,
        ;
        lemma_mod_multiples_vanish(k - c * radix(), a * b, m as int);
        lemma_radix_inv(m as int);
        lemma_cancel_inv(r as int, a * b, m as int, radix(), radix_inv(m as int));
        lemma_mul_is_associative(a as int, b as int, radix_inv(m as int));
    }
    r
}

/// The Montgomery form `a * 2^64 mod m` of `a`.
pub fn num_to_mont(a: u64, m: u64, n: u64) -> (r: u64)
    requires
        mont_params(m as int, n as int),
    ensures
        r < m,
        r == to_mont_spec(a as int, m as int),
{
    let b = (u128::MAX % m as u128) as u64 + 1;
    proof {
        let rr: int = 0x1_0000_0000_0000_0000_0000_0000_0000_0000int;
        lemma_mod_bound(rr - 1, m as int);
        assert(b <= m);
        assert(a * b < m * radix()) by (nonlinear_arith)
            requires
                a < radix(),
                b <= m,
                m > 0,
        ;
        // b == R^2 (mod m)
        lemma_add_mod_noop(rr - 1, 1, m as int);
        lemma_mod_twice(rr - 1, m as int);
        assert((b as int) % (m as int) == rr % (m as int)) by {
            if m == 1 {
            } else {
                lemma_small_mod(1, m as nat);
                lemma_add_mod_noop((rr - 1) % (m as int), 1, m as int);
            }
        }
    }
    let r = redc_64(a, b, m, n);
    proof {
        let rr: int = 0x1_0000_0000_0000_0000_0000_0000_0000_0000int;
        let mi = m as int;
        // r * R == a * b == a * R * R  (mod m), so r == a * R (mod m)
        lemma_mul_mod_noop_right(a as int, b as int, mi);
        lemma_mul_mod_noop_right(a as int, rr, mi);
        assert(rr == radix() * radix());
        lemma_mul_is_associative(a as int, radix(), radix());
        let x = (a * radix()) % mi;
        lemma_mod_bound(a * radix(), mi);
        lemma_mul_mod_noop_left(a * radix(), radix(), mi);
        assert((x * radix()) % mi == (a * b) % mi);
        assert((r * radix()) % mi == (x * radix()) % mi);
        lemma_radix_inv(mi);
        lemma_cancel_inv(r as int, r * radix(), mi, radix(), radix_inv(mi));
        lemma_cancel_inv(x, r * radix(), mi, radix(), radix_inv(mi));
    }
    r
}

/// The number `a * 2^-64 mod m` that the Montgomery form `a` stands for.
pub fn mont_to_num(a: u64, m: u64, n: u64) -> (r: u64)
    requires
        mont_params(m as int, n as int),
    ensures
        r < m,
        r == from_mont_spec(a as int, m as int),
{
    proof {
        assert(a * 1 < m * radix()) by (nonlinear_arith)
            requires
                a < radix(),
                m >= 1,
        ;
    }
    redc_64(a, 1, m, n)
}

/// Converting to Montgomery form and back gives the number reduced modulo `m`.
pub proof fn lemma_mont_round_trip(a: int, m: int)
    requires
        m > 0,
        m % 2 == 1,
    ensures
        from_mont_spec(to_mont_spec(a, m), m) == a % m,
{
    lemma_mul_mod_noop_left(a * radix(), radix_inv(m), m);
    lemma_radix_inv(m);
    lemma_inv_cancel(a, m, radix(), radix_inv(m));
}

/// The Montgomery product of the forms of `a` and `b` is the form of `a * b`,
/// and it stands for `a * b mod m`.
pub proof fn lemma_redc_of_forms(a: int, b: int, m: int)
    requires
        m > 0,
        m % 2 == 1,
    ensures
        redc_spec(to_mont_spec(a, m), to_mont_spec(b, m), m) == to_mont_spec(a * b, m),
        from_mont_spec(redc_spec(to_mont_spec(a, m), to_mont_spec(b, m), m), m) == (a * b) % m,
{
    let r = radix();
    let i = radix_inv(m);
    let x = to_mont_spec(a, m);
    let y = to_mont_spec(b, m);
    lemma_mul_mod_noop(a * r, b * r, m);
    lemma_mul_mod_noop_left(x * y, i, m);
    lemma_mul_mod_noop_left((a * r) * (b * r), i, m);
    assert((a * r) * (b * r) * i == (a * b * r) * r * i) by (nonlinear_arith);
    lemma_radix_inv(m);
    lemma_inv_cancel(a * b * r, m, r, i);
    lemma_mod_twice(a * b * r, m);
    lemma_mont_round_trip(a * b, m);
}

/// A number in Montgomery form for the modulus of a [`Mul64`].
#[derive(Copy, Clone)]
pub struct Mont64(u64);

impl View for Mont64 {
    type V = u64;

    closed spec fn view(&self) -> u64 {
        self.0
    }
}

/// A modulus prepared for Montgomery multiplication: the modulus and its negated
/// inverse modulo `2^64`.
#[derive(Copy, Clone)]
pub struct Mul64 {
    pub base: u64,
    pub baseinv: u64,
}

impl Mul64 {
    /// The modulus is odd, below `2^63`, and `baseinv` is its negated inverse modulo
    /// `2^64`: what the Montgomery operations need.
    pub open spec fn wf(self) -> bool {
        mont_params(self.base as int, self.baseinv as int)
    }

    /// The modulus, the field `base`.
    pub open spec fn modulus(self) -> int {
        self.base as int
    }

    /// Prepares `base` for Montgomery multiplication. The modulus must be odd for the negated
    /// inverse to exist, and below `2^63` for the Montgomery operations.
    pub fn new(base: u64) -> (r: Self)
        ensures
            r.base == base,
            base % 2 == 1 ==> (base * r.baseinv) % radix() == radix() - 1,
            base % 2 == 1 && base < 0x8000_0000_0000_0000 ==> r.wf(),
    {
        Self { base, baseinv: neg_mod_2pow64_inv(base) }
    }

    /// The Montgomery product `a * b * 2^-64 mod base`.
    pub fn redc(self, a: Mont64, b: Mont64) -> (r: Mont64)
        requires
            self.wf(),
            a@ * b@ < self.modulus() * radix(),
        ensures
            r@ < self.modulus(),
            r@ == redc_spec(a@ as int, b@ as int, self.modulus()),
    {
        Mont64(redc_64(a.0, b.0, self.base, self.baseinv))
    }

    /// The Montgomery form of `a`.
    pub fn num_to_mont(self, a: u64) -> (r: Mont64)
        requires
            self.wf(),
        ensures
            r@ < self.modulus(),
            r@ == to_mont_spec(a as int, self.modulus()),
    {
        Mont64(num_to_mont(a, self.base, self.baseinv))
    }

    /// The number that the Montgomery form `a` stands for.
    pub fn mont_to_num(self, a: Mont64) -> (r: u64)
        requires
            self.wf(),
        ensures
            r < self.modulus(),
            r == from_mont_spec(a@ as int, self.modulus()),
    {
        mont_to_num(a.0, self.base, self.baseinv)
    }
}

/// Montgomery multiplication with a [`Mul64`]; the powers are Montgomery forms of powers.
impl MulMod for Mul64 {
    type Item = Mont64;

    closed spec fn mul_spec(self, a: Mont64, b: Mont64) -> Mont64 {
        Mont64(redc_spec(a.0 as int, b.0 as int, self.base as int) as u64)
    }

    closed spec fn mul_pre(self, a: Mont64, b: Mont64) -> bool {
        self.wf() && a.0 < self.base && b.0 < self.base
    }

    closed spec fn pow_spec(self, a: Mont64, k: nat) -> Mont64 {
        Mont64(pow_form(a.0 as int, k, self.base as int, radix_inv(self.base as int)) as u64)
    }

    closed spec fn pow_pre(self, a: Mont64, n: nat) -> bool {
        self.wf() && a.0 < self.base
    }

    closed spec fn dom(self, a: Mont64) -> bool {
        self.wf() && a.0 < self.base
    }

    proof fn lemma_dom_mul(self, a: Mont64, b: Mont64) {
        lemma_mod_bound(a.0 as int * b.0 as int * radix_inv(self.base as int), self.base as int);
    }

    proof fn lemma_pow_one(self, a: Mont64, n: nat) {
        lemma_pow1(a.0 as int);
        lemma_pow0(radix_inv(self.base as int));
        lemma_small_mod(a.0 as nat, self.base as nat);
    }

    proof fn lemma_pow_split(self, a: Mont64, n: nat, i: nat, j: nat) {
        let m = self.base as int;
        lemma_mod_bound(pow(a.0 as int, i) * pow(radix_inv(m), (i - 1) as nat), m);
        lemma_mod_bound(pow(a.0 as int, j) * pow(radix_inv(m), (j - 1) as nat), m);
        lemma_pow_form_split(a.0 as int, m, radix_inv(m), i, j);
        lemma_mod_bound(pow(a.0 as int, i + j) * pow(radix_inv(m), (i + j - 1) as nat), m);
    }

    proof fn lemma_pow_pow(self, a: Mont64, n: nat, x: nat, y: nat) {
        let m = self.base as int;
        lemma_mod_bound(pow(a.0 as int, x) * pow(radix_inv(m), (x - 1) as nat), m);
        lemma_pow_form_pow(a.0 as int, m, radix_inv(m), x, y);
        assert(x * y >= 1) by (nonlinear_arith)
            requires
                x >= 1,
                y >= 1,
        ;
        lemma_mod_bound(pow(a.0 as int, x * y) * pow(radix_inv(m), (x * y - 1) as nat), m);
        lemma_mod_bound(
            pow(pow_form(a.0 as int, x, m, radix_inv(m)), y) * pow(radix_inv(m), (y - 1) as nat),
            m,
        );
    }

    fn mul(self, a: Mont64, b: Mont64) -> (r: Mont64) {
        proof {
            assert(a.0 * b.0 < self.base * radix()) by (nonlinear_arith)
                requires
                    a.0 < self.base,
                    b.0 < self.base,
                    self.base < radix(),
            ;
        }
        self.redc(a, b)
    }
}

/// A Montgomery form below the modulus of a well-formed [`Mul64`] may be multiplied and
/// raised to any power.
pub proof fn lemma_mul64_dom(mm: Mul64, x: Mont64)
    requires
        mm.wf(),
        x@ < mm.modulus(),
    ensures
        mm.dom(x),
        forall|n: nat| #[trigger] mm.pow_pre(x, n),
{
}

/// Raising a Montgomery form to a power and converting back gives the power modulo `m`:
/// Montgomery powers agree with plain modular powers.
pub proof fn lemma_mont_pow_agrees(mm: Mul64, x: Mont64, a: u64, k: nat)
    requires
        mm.wf(),
        x@ == to_mont_spec(a as int, mm.modulus()),
        k >= 1,
    ensures
        from_mont_spec(mm.pow_spec(x, k)@ as int, mm.modulus()) == pow(a as int, k) % mm.modulus(),
        k >= 2 ==> from_mont_spec(mm.pow_spec(x, k)@ as int, mm.modulus()) == (mm.modulus() as u64).pow_spec(
            a,
            k,
        ),
{
    let m = mm.base as int;
    lemma_radix_inv(m);
    lemma_pow_form_agrees(a as int, m, radix(), radix_inv(m), k);
    lemma_mod_bound(pow(a as int, k), m);
    lemma_mod_twice(pow(a as int, k), m);
}

} // verus!
