//! Eight Montgomery multiplications side by side, one per lane, each lane with its own
//! odd modulus below `2^52` and radix `2^52`, built from the 52-bit multiply-add lane
//! operations: `lo52(x * y) + plus` and `hi52(x * y) + plus`.
use vstd::prelude::*;
use vstd::arithmetic::div_mod::*;
use vstd::arithmetic::mul::*;
use vstd::arithmetic::power2::*;
use vstd::arithmetic::power::*;
use crate::modmath::{
    inv_two_pow, lemma_cancel_inv, lemma_inv_two_pow, lemma_newton_step, lemma_pow_form_agrees,
    lemma_pow_form_pow, lemma_pow_form_split, lemma_redc_divisible, pow_form,
};
use crate::pow::{chain13, chain14, MulMod};
use crate::mont::{from_mont_spec, lemma_mont_pow_agrees, to_mont_spec, Mont64, Mul64};

verus! {

/// The lane radix `2^52`.
pub open spec fn r52() -> int {
    0x10_0000_0000_0000
}

/// The inverse of `2^52` modulo an odd `m`.
pub open spec fn r52_inv(m: int) -> int {
    inv_two_pow(m, 52)
}

proof fn lemma_r52_inv(m: int)
    requires
        m > 0,
        m % 2 == 1,
    ensures
        0 <= r52_inv(m) < m,
        (r52() * r52_inv(m)) % m == 1int % m,
{
    lemma_inv_two_pow(m, 52);
    lemma2_to64_rest();
}

/// `plus + lo52(lo52(x) * lo52(y))`, wrapping at `2^64`.
pub open spec fn madd52lo_spec(plus: u64, x: u64, y: u64) -> u64 {
    ((plus + (((x as int) % r52()) * ((y as int) % r52())) % r52()) % 0x1_0000_0000_0000_0000int) as u64
}

/// `plus + hi52(lo52(x) * lo52(y))`, wrapping at `2^64`.
pub open spec fn madd52hi_spec(plus: u64, x: u64, y: u64) -> u64 {
    ((plus + (((x as int) % r52()) * ((y as int) % r52())) / r52()) % 0x1_0000_0000_0000_0000int) as u64
}

/// What one lane of the reduction gives for `a` and `b` modulo `m`. With
/// `t = lo52(a) * lo52(b)`: when `t` is not a multiple of `2^52` it is the Montgomery
/// product `t * 2^-52 mod m`; when it is, the carry out of the low half is taken to be 1
/// regardless, and the result is `t / 2^52 + 1`, less `m` if that reaches `m`.
pub open spec fn redc52_spec(a: int, b: int, m: int) -> int {
    let t = ((a as int) % r52()) * ((b as int) % r52());
    if (t as int) % r52() != 0 {
        (t * r52_inv(m)) % m
    } else {
        let h = t / r52() + 1;
        if h >= m {
            h - m
        } else {
            h
        }
    }
}

/// Lane `m` is a Montgomery modulus for the radix `2^52` with negated inverse `n`.
pub open spec fn mont52_params(m: int, n: int) -> bool {
    &&& m % 2 == 1
    &&& 0 < m < r52()
    &&& 0 <= n < r52()
    &&& (m * n) % r52() == r52() - 1
}

fn madd52lo(plus: u64, x: u64, y: u64) -> (r: u64)
    ensures
        r == madd52lo_spec(plus, x, y),
{
    let xl = x & 0xF_FFFF_FFFF_FFFF;
    let yl = y & 0xF_FFFF_FFFF_FFFF;
    proof {
        assert(xl == x % 0x10_0000_0000_0000) by (bit_vector)
            requires
                xl == x & 0xF_FFFF_FFFF_FFFF,
        ;
        assert(yl == y % 0x10_0000_0000_0000) by (bit_vector)
            requires
                yl == y & 0xF_FFFF_FFFF_FFFF,
        ;
        assert(xl * yl < 0x100_0000_0000_0000_0000_0000_0000) by (nonlinear_arith)
            requires
                xl < 0x10_0000_0000_0000,
                yl < 0x10_0000_0000_0000,
        ;
    }
    let t: u128 = xl as u128 * yl as u128;
    let lo = (t as u64) & 0xF_FFFF_FFFF_FFFF;
    proof {
        assert(lo == t % 0x10_0000_0000_0000) by (bit_vector)
            requires
                lo == (t as u64) & 0xF_FFFF_FFFF_FFFF,
        ;
    }
    plus.wrapping_add(lo)
}

fn madd52hi(plus: u64, x: u64, y: u64) -> (r: u64)
    ensures
        r == madd52hi_spec(plus, x, y),
{
    let xl = x & 0xF_FFFF_FFFF_FFFF;
    let yl = y & 0xF_FFFF_FFFF_FFFF;
    proof {
        assert(xl == x % 0x10_0000_0000_0000) by (bit_vector)
            requires
                xl == x & 0xF_FFFF_FFFF_FFFF,
        ;
        assert(yl == y % 0x10_0000_0000_0000) by (bit_vector)
            requires
                yl == y & 0xF_FFFF_FFFF_FFFF,
        ;
        assert(xl * yl < 0x100_0000_0000_0000_0000_0000_0000) by (nonlinear_arith)
            requires
                xl < 0x10_0000_0000_0000,
                yl < 0x10_0000_0000_0000,
        ;
    }
    let t: u128 = xl as u128 * yl as u128;
    let hi = (t >> 52) as u64;
    proof {
        assert(hi == t / 0x10_0000_0000_0000) by (bit_vector)
            requires
                hi == (t >> 52) as u64,
                t < 0x100_0000_0000_0000_0000_0000_0000,
        ;
    }
    plus.wrapping_add(hi)
}

/// One Newton step in a lane: `x -> x * (2 + p * x) mod 2^52`, through the lane operations.
proof fn lemma_newton52_lane(p: u64, x: u64, d: int, g: int)
    requires
        x < r52(),
        d > 0,
        g > 0,
        r52() % g == 0,
        (d * d) % g == 0,
        (((p as int) % r52()) * x + 1) % d == 0,
    ensures
        madd52lo_spec(0, x, madd52lo_spec(2, p, x)) < r52(),
        (((p as int) % r52()) * madd52lo_spec(0, x, madd52lo_spec(2, p, x)) + 1) % g == 0,
{
    let r = r52();
    let pp = (p as int) % r;
    let w = madd52lo_spec(2, p, x);
    lemma_small_mod(x as nat, r as nat);
    lemma_mod_bound(pp * x, r);
    lemma_small_mod((2 + (pp * x) % r) as nat, 0x1_0000_0000_0000_0000nat);
    assert(w == 2 + (pp * x) % r);
    let y = madd52lo_spec(0, x, w);
    lemma_mod_bound((x as int) * ((w as int) % r), r);
    lemma_small_mod((((x as int) * ((w as int) % r)) % r) as nat, 0x1_0000_0000_0000_0000nat);
    assert(y == (x * ((2 + (pp * x) % r) % r)) % r);
    lemma_newton_step(pp, x as int, d, r, g);
}

/// One lane of the reduction, through the lane operations.
proof fn lemma_redc52_lane(a: u64, b: u64, m: u64, n: u64)
    requires
        mont52_params(m as int, n as int),
        ((a as int) % r52()) * ((b as int) % r52()) < m * r52(),
    ensures
        ({
            let tlo = madd52lo_spec(0, a, b);
            let thi = madd52hi_spec(1, a, b);
            let k = madd52lo_spec(0, tlo, n);
            let res = madd52hi_spec(thi, k, m);
            let out = if res >= m { (res - m) as u64 } else { res };
            &&& out == redc52_spec(a as int, b as int, m as int)
            &&& out < m
        }),
{
    let r = r52();
    let big = 0x1_0000_0000_0000_0000int;
    let x = (a as int) % r;
    let y = (b as int) % r;
    let t = x * y;
    lemma_mod_bound(a as int, r);
    lemma_mod_bound(b as int, r);
    lemma_mod_bound(t, r);
    let lo = t % r;
    let hi = t / r;
    lemma_fundamental_div_mod(t, r);
    assert(hi < m) by (nonlinear_arith)
        requires
            t == r * hi + lo,
            0 <= lo,
            t < m * r,
            r > 0,
    ;
    assert(hi >= 0) by (nonlinear_arith)
        requires
            t == r * hi + lo,
            lo < r,
            t >= 0,
            r > 0,
    ;
    let tlo = madd52lo_spec(0, a, b);
    lemma_small_mod(lo as nat, big as nat);
    assert(tlo == lo);
    let thi = madd52hi_spec(1, a, b);
    lemma_small_mod((1 + hi) as nat, big as nat);
    assert(thi == 1 + hi);
    let k = madd52lo_spec(0, tlo, n);
    lemma_small_mod(lo as nat, r as nat);
    lemma_small_mod(n as nat, r as nat);
    lemma_mod_bound(lo * n, r);
    lemma_small_mod(((lo * n) % r) as nat, big as nat);
    assert(k == (lo * n) % r);
    lemma_small_mod(k as nat, r as nat);
    lemma_small_mod(m as nat, r as nat);
    assert(k * m < r * m) by (nonlinear_arith)
        requires
            k < r,
            m > 0,
    ;
    let q = (k * m) / r;
    let w = (k * m) % r;
    lemma_fundamental_div_mod(k * m, r);
    lemma_mod_bound(k * m, r);
    assert(q < m) by (nonlinear_arith)
        requires
            k * m == r * q + w,
            0 <= w,
            k * m < r * m,
            r > 0,
    ;
    assert(q >= 0) by (nonlinear_arith)
        requires
            k * m == r * q + w,
            w < r,
            k * m >= 0,
            r > 0,
    ;
    let res = madd52hi_spec(thi, k, m);
    lemma_small_mod((thi + q) as nat, big as nat);
    assert(res == 1 + hi + q);
    if lo == 0 {
        lemma_small_mod(0, r as nat);
        assert(lo * n == 0) by (nonlinear_arith)
            requires
                lo == 0,
        ;
        assert(k == 0);
        assert(q == 0);
    } else {
        // t + k * m is a multiple of 2^52, so the low halves sum to exactly 2^52
        lemma_redc_divisible(t, m as int, n as int, k as int, r);
        assert(t + k * m == r * (hi + q) + (lo + w));
        lemma_mod_multiples_vanish(hi + q, lo + w, r);
        assert((lo + w) % r == 0);
        assert(lo + w == r) by {
            if lo + w != r {
                lemma_small_mod((lo + w) as nat, r as nat);
            }
        }
        assert(res * r == t + k * m);
        let c: int = if res >= m { 1 } else { 0 };
        let out = res - c * m;
        assert(out * r == t + m * (k - c * r)) by (nonlinear_arith)
            requires
                out == res - c * m,
                res * r == t + k * m,
        ;
        lemma_mod_multiples_vanish(k - c * r, t, m as int);
        lemma_r52_inv(m as int);
        assert(0 <= out < m) by (nonlinear_arith)
            requires
                res * r == t + k * m,
                t < m * r,
                k * m < r * m,
                out == res - c * m,
                c == (if res >= m { 1int } else { 0int }),
                r > 0,
        ;
        lemma_cancel_inv(out, t, m as int, r, r52_inv(m as int));
    }
}

/// Eight 64-bit lanes.
#[derive(Copy, Clone)]
pub struct Base(pub [u64; 8]);

/// The lane-wise reduction.
pub open spec fn redc52_lanes(a: Base, b: Base, m: Base) -> Base {
    Base([redc52_spec(a.0[0] as int, b.0[0] as int, m.0[0] as int) as u64, redc52_spec(a.0[1] as int, b.0[1] as int, m.0[1] as int) as u64, redc52_spec(a.0[2] as int, b.0[2] as int, m.0[2] as int) as u64, redc52_spec(a.0[3] as int, b.0[3] as int, m.0[3] as int) as u64, redc52_spec(a.0[4] as int, b.0[4] as int, m.0[4] as int) as u64, redc52_spec(a.0[5] as int, b.0[5] as int, m.0[5] as int) as u64, redc52_spec(a.0[6] as int, b.0[6] as int, m.0[6] as int) as u64, redc52_spec(a.0[7] as int, b.0[7] as int, m.0[7] as int) as u64])
}

/// Lane-wise Montgomery forms of powers.
pub open spec fn pow_form_lanes(a: Base, k: nat, m: Base) -> Base {
    Base([pow_form(a.0[0] as int, k, m.0[0] as int, r52_inv(m.0[0] as int)) as u64, pow_form(a.0[1] as int, k, m.0[1] as int, r52_inv(m.0[1] as int)) as u64, pow_form(a.0[2] as int, k, m.0[2] as int, r52_inv(m.0[2] as int)) as u64, pow_form(a.0[3] as int, k, m.0[3] as int, r52_inv(m.0[3] as int)) as u64, pow_form(a.0[4] as int, k, m.0[4] as int, r52_inv(m.0[4] as int)) as u64, pow_form(a.0[5] as int, k, m.0[5] as int, r52_inv(m.0[5] as int)) as u64, pow_form(a.0[6] as int, k, m.0[6] as int, r52_inv(m.0[6] as int)) as u64, pow_form(a.0[7] as int, k, m.0[7] as int, r52_inv(m.0[7] as int)) as u64])
}

impl Base {
    fn zero() -> (r: Self)
        ensures
            forall|i: int| 0 <= i < 8 ==> r.0[i] == 0,
    {
        Self([0u64, 0, 0, 0, 0, 0, 0, 0])
    }

    fn one() -> (r: Self)
        ensures
            forall|i: int| 0 <= i < 8 ==> r.0[i] == 1,
    {
        Self([1u64, 1, 1, 1, 1, 1, 1, 1])
    }

    fn two() -> (r: Self)
        ensures
            forall|i: int| 0 <= i < 8 ==> r.0[i] == 2,
    {
        Self([2u64, 2, 2, 2, 2, 2, 2, 2])
    }

    /// All lanes hold `a`.
    pub fn new_broadcast(a: u64) -> (r: Self)
        ensures
            forall|i: int| 0 <= i < 8 ==> r.0[i] == a,
    {
        Self::new([a, a, a, a, a, a, a, a])
    }

    pub fn new(arr: [u64; 8]) -> (r: Self)
        ensures
            r.0 == arr,
    {
        Self(arr)
    }

    /// Lane-wise `plus + lo52(self * rhs)`.
    fn mullop(self, rhs: Self, plus: Self) -> (r: Self)
        ensures
            forall|i: int| 0 <= i < 8 ==> r.0[i] == madd52lo_spec(plus.0[i], self.0[i], rhs.0[i]),
    {
        let mut out = [0u64; 8];
        let mut i: usize = 0;
        while i < 8
            invariant
                0 <= i <= 8,
                forall|j: int| 0 <= j < i ==> out[j] == madd52lo_spec(plus.0[j], self.0[j], rhs.0[j]),
            decreases 8 - i,
        {
            out[i] = madd52lo(plus.0[i], self.0[i], rhs.0[i]);
            i += 1;
        }
        Self(out)
    }

    /// Lane-wise `plus + hi52(self * rhs)`.
    fn mulhip(self, rhs: Self, plus: Self) -> (r: Self)
        ensures
            forall|i: int| 0 <= i < 8 ==> r.0[i] == madd52hi_spec(plus.0[i], self.0[i], rhs.0[i]),
    {
        let mut out = [0u64; 8];
        let mut i: usize = 0;
        while i < 8
            invariant
                0 <= i <= 8,
                forall|j: int| 0 <= j < i ==> out[j] == madd52hi_spec(plus.0[j], self.0[j], rhs.0[j]),
            decreases 8 - i,
        {
            out[i] = madd52hi(plus.0[i], self.0[i], rhs.0[i]);
            i += 1;
        }
        Self(out)
    }

    /// Lane-wise `lo52(self * rhs)`.
    fn mullo(self, rhs: Self) -> (r: Self)
        ensures
            forall|i: int| 0 <= i < 8 ==> r.0[i] == madd52lo_spec(0, self.0[i], rhs.0[i]),
    {
        self.mullop(rhs, Self::zero())
    }

    /// Lane-wise `self >= rhs`.
    fn ge(self, rhs: Self) -> (r: [bool; 8])
        ensures
            forall|i: int| 0 <= i < 8 ==> r[i] == (self.0[i] >= rhs.0[i]),
    {
        let mut out = [false; 8];
        let mut i: usize = 0;
        while i < 8
            invariant
                0 <= i <= 8,
                forall|j: int| 0 <= j < i ==> out[j] == (self.0[j] >= rhs.0[j]),
            decreases 8 - i,
        {
            out[i] = self.0[i] >= rhs.0[i];
            i += 1;
        }
        out
    }

    /// Lane-wise `self - rhs` (wrapping) where `mask` is set, `self` elsewhere.
    fn mask_sub(self, rhs: Self, mask: [bool; 8]) -> (r: Self)
        ensures
            forall|i: int|
                0 <= i < 8 ==> r.0[i] == (if mask[i] {
                    vstd::wrapping::u64_specs::wrapping_sub(self.0[i], rhs.0[i])
                } else {
                    self.0[i]
                }),
    {
        let mut out = [0u64; 8];
        let mut i: usize = 0;
        while i < 8
            invariant
                0 <= i <= 8,
                forall|j: int|
                    0 <= j < i ==> out[j] == (if mask[j] {
                        vstd::wrapping::u64_specs::wrapping_sub(self.0[j], rhs.0[j])
                    } else {
                        self.0[j]
                    }),
            decreases 8 - i,
        {
            out[i] = if mask[i] { self.0[i].wrapping_sub(rhs.0[i]) } else { self.0[i] };
            i += 1;
        }
        Self(out)
    }

    /// Lane-wise `self - rhs` where `self >= rhs`, `self` elsewhere.
    fn sub_gt(self, rhs: Self) -> (r: Self)
        ensures
            forall|i: int|
                0 <= i < 8 ==> r.0[i] == (if self.0[i] >= rhs.0[i] {
                    (self.0[i] - rhs.0[i]) as u64
                } else {
                    self.0[i]
                }),
    {
        self.mask_sub(rhs, self.ge(rhs))
    }

    /// One lane-wise Newton step `x -> x * (2 + self * x) mod 2^52` towards the negated
    /// inverse: if `d` divides every error `self * x + 1`, then `g` divides the new ones.
    fn newton_step(self, x: Self, two: Self, Ghost(d): Ghost<int>, Ghost(g): Ghost<int>) -> (r: Self)
        requires
            forall|i: int| 0 <= i < 8 ==> two.0[i] == 2,
            forall|i: int|
                0 <= i < 8 ==> x.0[i] < r52() && (self.0[i] % 2 == 1 ==> (((self.0[i] as int)
                    % r52()) * x.0[i] + 1) % d == 0),
            d > 0,
            g > 0,
            r52() % g == 0,
            (d * d) % g == 0,
        ensures
            forall|i: int|
                0 <= i < 8 ==> r.0[i] < r52() && (self.0[i] % 2 == 1 ==> (((self.0[i] as int)
                    % r52()) * r.0[i] + 1) % g == 0),
    {
        let r = x.mullo(self.mullop(x, two));
        proof {
            assert forall|i: int| 0 <= i < 8 implies r.0[i] < r52() && (self.0[i] % 2 == 1 ==> (((
            self.0[i] as int) % r52()) * r.0[i] + 1) % g == 0) by {
                if self.0[i] % 2 == 1 {
                    lemma_newton52_lane(self.0[i], x.0[i], d, g);
                } else {
                    lemma_mod_bound((x.0[i] as int) * ((madd52lo_spec(2, self.0[i], x.0[i]) as int) % r52()), r52());
                    lemma_small_mod((((x.0[i] as int) * ((madd52lo_spec(2, self.0[i], x.0[i]) as int) % r52())) % r52()) as nat, 0x1_0000_0000_0000_0000nat);
                }
            }
        }
        r
    }

    /// Lane-wise negated inverse modulo `2^52` of odd lanes, by Newton iteration; an even
    /// lane has none, and its result is only below `2^52`.
    fn m52_neg_inv(self) -> (r: Self)
        ensures
            forall|i: int|
                0 <= i < 8 ==> r.0[i] < r52() && (self.0[i] % 2 == 1 ==> (((self.0[i] as int)
                    % r52()) * r.0[i]) % r52() == r52() - 1),
    {
        let two = Self::two();
        let mut neg_inv = Self::one();
        proof {
            assert forall|i: int| 0 <= i < 8 implies neg_inv.0[i] < r52() && (self.0[i] % 2 == 1 ==> (((
            self.0[i] as int) % r52()) * neg_inv.0[i] + 1) % 2 == 0) by {
                if self.0[i] % 2 == 1 {
                    lemma_mod_bound(self.0[i] as int, r52());
                    assert(((self.0[i] as int) % r52()) % 2 == 1) by {
                        lemma_mod_mod(self.0[i] as int, 2, r52() / 2);
                    }
                }
            }
        }
        neg_inv = self.newton_step(neg_inv, two, Ghost(2int), Ghost(4int));
        neg_inv = self.newton_step(neg_inv, two, Ghost(4int), Ghost(16int));
        neg_inv = self.newton_step(neg_inv, two, Ghost(16int), Ghost(256int));
        neg_inv = self.newton_step(neg_inv, two, Ghost(256int), Ghost(65536int));
        neg_inv = self.newton_step(neg_inv, two, Ghost(65536int), Ghost(0x1_0000_0000int));
        neg_inv = self.newton_step(neg_inv, two, Ghost(0x1_0000_0000int), Ghost(r52()));
        proof {
            assert forall|i: int| 0 <= i < 8 implies neg_inv.0[i] < r52() && (self.0[i] % 2 == 1 ==> (((
            self.0[i] as int) % r52()) * neg_inv.0[i]) % r52() == r52() - 1) by {
                let e = ((self.0[i] as int) % r52()) * neg_inv.0[i];
                lemma_fundamental_div_mod(e + 1, r52());
                lemma_fundamental_div_mod(e, r52());
                lemma_mod_bound(e, r52());
                lemma_mod_bound(self.0[i] as int, r52());
                assert(e >= 0) by (nonlinear_arith)
                    requires
                        (self.0[i] as int) % r52() >= 0,
                        neg_inv.0[i] >= 0,
                        e == ((self.0[i] as int) % r52()) * neg_inv.0[i],
                ;
            }
        }
        neg_inv
    }

    /// Lane-wise reduction `a * b * 2^-52 mod m`, as [`redc52_spec`] describes.
    fn redc(a: Self, b: Self, m: Self, n: Self) -> (r: Self)
        requires
            forall|i: int|
                0 <= i < 8 ==> mont52_params(m.0[i] as int, n.0[i] as int) && ((a.0[i] as int) % r52()) * (
                (b.0[i] as int) % r52()) < m.0[i] * r52(),
        ensures
            r == redc52_lanes(a, b, m),
            forall|i: int| 0 <= i < 8 ==> r.0[i] < m.0[i],
    {
        let t_52lo = a.mullo(b);
        let t_52hi_p1 = a.mulhip(b, Self::one());
        let k = t_52lo.mullo(n);
        let res = k.mulhip(m, t_52hi_p1);
        let r = res.sub_gt(m);
        proof {
            assert forall|i: int| 0 <= i < 8 implies r.0[i] == redc52_spec(
                a.0[i] as int,
                b.0[i] as int,
                m.0[i] as int,
            ) && r.0[i] < m.0[i] by {
                lemma_redc52_lane(a.0[i], b.0[i], m.0[i], n.0[i]);
            }
            assert(r.0 =~= redc52_lanes(a, b, m).0);
        }
        r
    }

    /// Lane-wise Montgomery forms `lo52(a) * 2^52 mod m`, through a reduction by `2^104 mod m`.
    pub(crate) fn num_to_mont(a: [u64; 8], m: Self, n: Self) -> (r: Self)
        requires
            forall|i: int| 0 <= i < 8 ==> mont52_params(m.0[i] as int, n.0[i] as int),
        ensures
            forall|i: int|
                0 <= i < 8 ==> {
                    &&& r.0[i] < m.0[i]
                    &&& r.0[i] == redc52_spec(
                        a[i] as int,
                        (r52() * r52()) % (m.0[i] as int),
                        m.0[i] as int,
                    )
                    &&& (((a[i] as int) % r52()) * ((r52() * r52()) % (m.0[i] as int))) % r52() != 0
                        ==> r.0[i] == (((a[i] as int) % r52()) * r52()) % (m.0[i] as int)
                },
    {
        let mut bs = [0u64; 8];
        let mut i: usize = 0;
        while i < 8
            invariant
                0 <= i <= 8,
                forall|j: int| 0 <= j < 8 ==> mont52_params(m.0[j] as int, n.0[j] as int),
                forall|j: int| 0 <= j < i ==> bs[j] == (r52() * r52()) % (m.0[j] as int),
            decreases 8 - i,
        {
            proof {
                lemma_mod_bound(r52() * r52(), m.0[i as int] as int);
            }
            bs[i] = ((1u128 << 104) % m.0[i] as u128) as u64;
            proof {
                assert((1u128 << 104) == 0x100_0000_0000_0000_0000_0000_0000) by (bit_vector);
            }
            i += 1;
        }
        let b = Self(bs);
        proof {
            assert forall|j: int| 0 <= j < 8 implies ((a[j] as int) % r52()) * ((b.0[j] as int) % r52()) < m.0[j]
                * r52() by {
                lemma_mod_bound(a[j] as int, r52());
                lemma_mod_bound(r52() * r52(), m.0[j] as int);
                lemma_small_mod(b.0[j] as nat, r52() as nat);
                assert(((a[j] as int) % r52()) * b.0[j] < m.0[j] * r52()) by (nonlinear_arith)
                    requires
                        0 <= (a[j] as int) % r52() < r52(),
                        b.0[j] < m.0[j],
                ;
            }
        }
        let r = Self::redc(Self(a), b, m, n);
        proof {
            assert forall|j: int| 0 <= j < 8 implies ({
                &&& r.0[j] < m.0[j]
                &&& r.0[j] == redc52_spec(
                    a[j] as int,
                    (r52() * r52()) % (m.0[j] as int),
                    m.0[j] as int,
                )
                &&& (((a[j] as int) % r52()) * ((r52() * r52()) % (m.0[j] as int))) % r52() != 0
                    ==> r.0[j] == (((a[j] as int) % r52()) * r52()) % (m.0[j] as int)
            }) by {
                let mj = m.0[j] as int;
                let bj = (r52() * r52()) % mj;
                lemma_mod_bound(r52() * r52(), mj);
                lemma_small_mod(bj as nat, r52() as nat);
                let x = (a[j] as int) % r52();
                if (x * bj) % r52() != 0 {
                    // x * (R^2 mod m) * R^-1 == x * R  (mod m)
                    lemma_r52_inv(mj);
                    lemma_mul_mod_noop_right(x, r52() * r52(), mj);
                    lemma_mul_mod_noop_left(x * bj, r52_inv(mj), mj);
                    lemma_mul_mod_noop_left(x * (r52() * r52()), r52_inv(mj), mj);
                    lemma_mul_is_associative(x, r52(), r52());
                    lemma_inv_cancel_r52(x * r52(), mj);
                }
            }
        }
        r
    }

    /// Lane-wise numbers that Montgomery forms stand for: a reduction by 1.
    pub(crate) fn mont_to_num(a: Self, m: Self, n: Self) -> (r: [u64; 8])
        requires
            forall|i: int| 0 <= i < 8 ==> mont52_params(m.0[i] as int, n.0[i] as int),
        ensures
            forall|i: int|
                0 <= i < 8 ==> {
                    &&& r[i] < m.0[i]
                    &&& r[i] == redc52_spec(a.0[i] as int, 1, m.0[i] as int)
                    &&& (a.0[i] as int) % r52() != 0 ==> r[i] == (((a.0[i] as int) % r52()) * r52_inv(
                        m.0[i] as int,
                    )) % (m.0[i] as int)
                },
    {
        let one = Self::one();
        proof {
            assert forall|j: int| 0 <= j < 8 implies ((a.0[j] as int) % r52()) * ((one.0[j] as int) % r52()) < m.0[j]
                * r52() by {
                lemma_mod_bound(a.0[j] as int, r52());
                lemma_small_mod(1, r52() as nat);
                assert(((a.0[j] as int) % r52()) * 1 < m.0[j] * r52()) by (nonlinear_arith)
                    requires
                        0 <= (a.0[j] as int) % r52() < r52(),
                        m.0[j] >= 1,
                ;
            }
        }
        let r = Self::redc(a, one, m, n);
        proof {
            assert forall|j: int| 0 <= j < 8 implies r.0[j] == redc52_spec(a.0[j] as int, 1, m.0[j] as int) by {
                lemma_small_mod(1, r52() as nat);
            }
        }
        r.0
    }
}

/// The lane reduction of `a` by `2^104 mod m` is the Montgomery form `lo52(a) * 2^52 mod m`
/// when the product it reduces is not a multiple of `2^52`.
pub proof fn lemma_form_exact(a: int, m: int)
    requires
        m % 2 == 1,
        0 < m < r52(),
        0 <= a,
        ((a % r52()) * ((r52() * r52()) % m)) % r52() != 0,
    ensures
        redc52_spec(a, (r52() * r52()) % m, m) == ((a % r52()) * r52()) % m,
{
    let bj = (r52() * r52()) % m;
    lemma_mod_bound(r52() * r52(), m);
    lemma_small_mod(bj as nat, r52() as nat);
    let x = a % r52();
    lemma_r52_inv(m);
    lemma_mul_mod_noop_right(x, r52() * r52(), m);
    lemma_mul_mod_noop_left(x * bj, r52_inv(m), m);
    lemma_mul_mod_noop_left(x * (r52() * r52()), r52_inv(m), m);
    lemma_mul_is_associative(x, r52(), r52());
    lemma_inv_cancel_r52(x * r52(), m);
}

/// One lane of the round trip: the Montgomery form of a residue `0 < a < m`, reduced back,
/// is `a` again, where the reduction into the form is exact.
proof fn lemma_lane_round_trip(a: int, m: int)
    requires
        m % 2 == 1,
        0 < m < r52(),
        0 < a < m,
        ((a % r52()) * ((r52() * r52()) % m)) % r52() != 0,
    ensures
        redc52_spec(redc52_spec(a, (r52() * r52()) % m, m), 1, m) == a,
{
    lemma_form_exact(a, m);
    lemma_small_mod(a as nat, r52() as nat);
    let f = (a * r52()) % m;
    assert(redc52_spec(a, (r52() * r52()) % m, m) == f);
    lemma_mod_bound(a * r52(), m);
    lemma_small_mod(f as nat, r52() as nat);
    lemma_small_mod(1, r52() as nat);
    lemma_r52_inv(m);
    lemma_inv_cancel_r52(a, m);
    lemma_small_mod(a as nat, m as nat);
    lemma_mul_mod_noop_left(a * r52(), r52_inv(m), m);
    assert(f != 0) by {
        if f == 0 {
            assert((0 * r52_inv(m)) % m == 0) by {
                lemma_small_mod(0, m as nat);
            }
        }
    }
    assert(f * 1 == f);
    assert((f % r52()) * (1int % r52()) == f);
}

/// Reading back a Montgomery form gives the number that was put in: in each lane with
/// `0 < a[i] < m[i]` where the reduction into the form is exact (its product is no multiple
/// of `2^52`), [`Mul52::mont_to_num`] of what [`Mul52::num_to_mont`] gives is `a[i]`.
pub proof fn lemma_round_trip(mm: Mul52, a: [u64; 8], r: Base)
    requires
        mm.wf(),
        forall|i: int| 0 <= i < 8 ==> 0 < #[trigger] a[i] < mm.modulus().0[i],
        forall|i: int| 0 <= i < 8 ==> (((#[trigger] a[i] as int) % r52()) * ((r52() * r52()) % (mm.modulus().0[i] as int))) % r52() != 0,
        forall|i: int| 0 <= i < 8 ==> #[trigger] r.0[i] == redc52_spec(
            a[i] as int,
            (r52() * r52()) % (mm.modulus().0[i] as int),
            mm.modulus().0[i] as int,
        ),
    ensures
        forall|i: int| 0 <= i < 8 ==> redc52_spec(#[trigger] r.0[i] as int, 1, mm.modulus().0[i] as int) == a[i],
{
    assert forall|i: int| 0 <= i < 8 implies redc52_spec(#[trigger] r.0[i] as int, 1, mm.modulus().0[i] as int) == a[i] by {
        assert(mont52_params(mm.base.0[i] as int, mm.baseinv.0[i] as int));
        lemma_lane_round_trip(a[i] as int, mm.modulus().0[i] as int);
    }
}

/// The lanes of the lane-wise power forms are below the lane moduli.
pub proof fn lemma_pow_form_lanes_below(a: Base, k: nat, m: Base, i: int)
    requires
        0 <= i < 8,
        m.0[i] > 0,
        k >= 1,
    ensures
        0 <= pow_form_lanes(a, k, m).0[i] < m.0[i],
        pow_form_lanes(a, k, m).0[i] == pow_form(a.0[i] as int, k, m.0[i] as int, r52_inv(m.0[i] as int)),
{
    let mi = m.0[i] as int;
    lemma_mod_bound(pow(a.0[i] as int, k) * pow(r52_inv(mi), (k - 1) as nat), mi);
    if i == 0 {} else if i == 1 {} else if i == 2 {} else if i == 3 {}
    else if i == 4 {} else if i == 5 {} else if i == 6 {} else {}
}

/// `x * R * R^-1 == x (mod m)` for the lane radix.
proof fn lemma_inv_cancel_r52(x: int, m: int)
    requires
        m > 0,
        m % 2 == 1,
    ensures
        (x * r52() * r52_inv(m)) % m == x % m,
{
    lemma_r52_inv(m);
    crate::modmath::lemma_inv_cancel(x, m, r52(), r52_inv(m));
}

/// In one lane, no Montgomery product of two of the first `n` powers of `a` has a
/// product `t` that is a multiple of `2^52`: the reductions along the powers are exact.
pub open spec fn lane_powers_exact(a: int, m: int, n: nat) -> bool {
    forall|j: nat, k: nat|
        #![trigger pow_form(a, j, m, r52_inv(m)), pow_form(a, k, m, r52_inv(m))]
        1 <= j && 1 <= k && j + k <= n ==> (pow_form(a, j, m, r52_inv(m)) * pow_form(
            a,
            k,
            m,
            r52_inv(m),
        )) % r52() != 0
}

/// Eight moduli prepared for lane-wise Montgomery multiplication: the moduli and their
/// negated inverses modulo `2^52`.
#[derive(Copy, Clone)]
pub struct Mul52 {
    pub base: Base,
    pub baseinv: Base,
}

impl Mul52 {
    /// Every lane modulus is odd and below `2^52`, with its negated inverse modulo `2^52`:
    /// what the lane-wise Montgomery operations need.
    pub open spec fn wf(self) -> bool {
        forall|i: int| 0 <= i < 8 ==> mont52_params(self.base.0[i] as int, self.baseinv.0[i] as int)
    }

    /// The lane moduli, the field `base`.
    pub open spec fn modulus(self) -> Base {
        self.base
    }

    /// Prepares eight lane moduli. A lane must be odd for its negated inverse modulo `2^52`
    /// to exist, and below `2^52` for the lane operations.
    pub fn new(base: Base) -> (r: Self)
        ensures
            r.base == base,
            forall|i: int|
                0 <= i < 8 ==> r.baseinv.0[i] < r52() && (base.0[i] % 2 == 1 ==> (((base.0[i] as int)
                    % r52()) * r.baseinv.0[i]) % r52() == r52() - 1),
            (forall|i: int| 0 <= i < 8 ==> base.0[i] % 2 == 1 && base.0[i] < r52()) ==> r.wf(),
    {
        let baseinv = Base::m52_neg_inv(base);
        proof {
            if forall|i: int| 0 <= i < 8 ==> base.0[i] % 2 == 1 && base.0[i] < r52() {
                assert forall|i: int| 0 <= i < 8 implies mont52_params(base.0[i] as int, baseinv.0[i] as int) by {
                    lemma_small_mod(base.0[i] as nat, r52() as nat);
                }
            }
        }
        Self { base, baseinv }
    }

    /// The numbers that the lane-wise Montgomery forms `a` stand for.
    pub fn mont_to_num(self, a: Base) -> (r: [u64; 8])
        requires
            self.wf(),
        ensures
            forall|i: int|
                0 <= i < 8 ==> {
                    &&& r[i] < self.modulus().0[i]
                    &&& r[i] == redc52_spec(a.0[i] as int, 1, self.modulus().0[i] as int)
                    &&& (a.0[i] as int) % r52() != 0 ==> r[i] == (((a.0[i] as int) % r52()) * r52_inv(
                        self.modulus().0[i] as int,
                    )) % (self.modulus().0[i] as int)
                },
    {
        Base::mont_to_num(a, self.base, self.baseinv)
    }

    /// Forms below the lane moduli are values that the multiplication keeps to.
    pub proof fn lemma_dom(self, x: Base)
        requires
            self.wf(),
            forall|i: int| 0 <= i < 8 ==> x.0[i] < self.modulus().0[i],
        ensures
            self.dom(x),
    {
    }

    /// Forms below the lane moduli whose reductions are exact along the first `n` powers in
    /// every lane may be raised to the powers `1..=n`.
    pub proof fn lemma_pow_pre(self, x: Base, n: nat)
        requires
            self.wf(),
            forall|i: int| 0 <= i < 8 ==> x.0[i] < self.modulus().0[i],
            forall|i: int| 0 <= i < 8 ==> lane_powers_exact(x.0[i] as int, self.modulus().0[i] as int, n),
        ensures
            self.pow_pre(x, n),
    {
    }

    /// The powers are the lane-wise power forms modulo the lane moduli.
    pub proof fn lemma_pow_spec(self, x: Base, k: nat)
        ensures
            self.pow_spec(x, k) == pow_form_lanes(x, k, self.modulus()),
    {
    }

    /// The lane-wise Montgomery forms of `a`.
    pub fn num_to_mont(self, a: [u64; 8]) -> (r: Base)
        requires
            self.wf(),
        ensures
            forall|i: int|
                0 <= i < 8 ==> {
                    &&& r.0[i] < self.modulus().0[i]
                    &&& r.0[i] == redc52_spec(
                        a[i] as int,
                        (r52() * r52()) % (self.modulus().0[i] as int),
                        self.modulus().0[i] as int,
                    )
                    &&& (((a[i] as int) % r52()) * ((r52() * r52()) % (self.modulus().0[i] as int)))
                        % r52() != 0 ==> r.0[i] == (((a[i] as int) % r52()) * r52()) % (
                    self.modulus().0[i] as int)
                },
    {
        Base::num_to_mont(a, self.base, self.baseinv)
    }
}

/// A lane reduction of two residues stays below the modulus.
proof fn lemma_redc52_below(a: int, b: int, m: int)
    requires
        0 <= a < m,
        0 <= b < m,
        m < r52(),
    ensures
        0 <= redc52_spec(a, b, m) < m,
{
    lemma_small_mod(a as nat, r52() as nat);
    lemma_small_mod(b as nat, r52() as nat);
    let t = a * b;
    if t % r52() != 0 {
        lemma_mod_bound(t * r52_inv(m), m);
    } else {
        assert(t < m * r52()) by (nonlinear_arith)
            requires
                0 <= a < m,
                0 <= b < m,
                m < r52(),
                t == a * b,
        ;
        assert(0 <= t);
        lemma_div_by_multiple_is_strongly_ordered(t, m * r52(), m, r52());
        assert(t / r52() < m) by {
            lemma_div_by_multiple(m, r52());
        }
        lemma_div_pos_is_pos(t, r52());
    }
}

/// Lane-wise Montgomery multiplication with a [`Mul52`]; the powers are lane-wise
/// Montgomery forms of powers, as long as the reductions along them are exact.
impl MulMod for Mul52 {
    type Item = Base;

    closed spec fn mul_spec(self, a: Base, b: Base) -> Base {
        redc52_lanes(a, b, self.base)
    }

    closed spec fn mul_pre(self, a: Base, b: Base) -> bool {
        &&& self.wf()
        &&& forall|i: int| 0 <= i < 8 ==> a.0[i] < self.base.0[i] && b.0[i] < self.base.0[i]
    }

    closed spec fn pow_spec(self, a: Base, k: nat) -> Base {
        pow_form_lanes(a, k, self.base)
    }

    closed spec fn dom(self, a: Base) -> bool {
        &&& self.wf()
        &&& forall|i: int| 0 <= i < 8 ==> a.0[i] < self.base.0[i]
    }

    proof fn lemma_dom_mul(self, a: Base, b: Base) {
        assert forall|i: int| 0 <= i < 8 implies 0 <= #[trigger] redc52_spec(a.0[i] as int, b.0[i] as int, self.base.0[i] as int) < self.base.0[i] by {
            lemma_redc52_below(a.0[i] as int, b.0[i] as int, self.base.0[i] as int);
        }
        let r = redc52_lanes(a, b, self.base);
        assert forall|i: int| 0 <= i < 8 implies r.0[i] < self.base.0[i] by {
            assert(r.0[i] == redc52_spec(a.0[i] as int, b.0[i] as int, self.base.0[i] as int) as u64);
        }
    }

    closed spec fn pow_pre(self, a: Base, n: nat) -> bool {
        &&& self.wf()
        &&& forall|i: int| 0 <= i < 8 ==> a.0[i] < self.base.0[i]
        &&& forall|i: int|
            0 <= i < 8 ==> lane_powers_exact(a.0[i] as int, self.base.0[i] as int, n)
    }

    proof fn lemma_pow_one(self, a: Base, n: nat) {
        assert forall|i: int| 0 <= i < 8 implies pow_form(
            a.0[i] as int,
            1,
            self.base.0[i] as int,
            r52_inv(self.base.0[i] as int),
        ) == a.0[i] by {
            lemma_pow1(a.0[i] as int);
            lemma_pow0(r52_inv(self.base.0[i] as int));
            lemma_small_mod(a.0[i] as nat, self.base.0[i] as nat);
        }
        assert(pow_form_lanes(a, 1, self.base).0 =~= a.0);
    }

    proof fn lemma_pow_split(self, a: Base, n: nat, i: nat, j: nat) {
        let pi = pow_form_lanes(a, i, self.base);
        let pj = pow_form_lanes(a, j, self.base);
        assert forall|l: int| 0 <= l < 8 implies pi.0[l] < self.base.0[l] && pj.0[l] < self.base.0[l]
            && redc52_spec(pi.0[l] as int, pj.0[l] as int, self.base.0[l] as int) == pow_form(
            a.0[l] as int,
            i + j,
            self.base.0[l] as int,
            r52_inv(self.base.0[l] as int),
        ) by {
            let m = self.base.0[l] as int;
            let v = r52_inv(m);
            let fi = pow_form(a.0[l] as int, i, m, v);
            let fj = pow_form(a.0[l] as int, j, m, v);
            lemma_mod_bound(pow(a.0[l] as int, i) * pow(v, (i - 1) as nat), m);
            lemma_mod_bound(pow(a.0[l] as int, j) * pow(v, (j - 1) as nat), m);
            assert(pi.0[l] == fi);
            assert(pj.0[l] == fj);
            lemma_small_mod(fi as nat, r52() as nat);
            lemma_small_mod(fj as nat, r52() as nat);
            assert(lane_powers_exact(a.0[l] as int, m, n));
            assert((fi * fj) % r52() != 0);
            lemma_pow_form_split(a.0[l] as int, m, v, i, j);
        }
        assert forall|l: int| 0 <= l < 8 implies #[trigger] self.mul_spec(pi, pj).0[l]
            == self.pow_spec(a, i + j).0[l] by {
            let m = self.base.0[l] as int;
            lemma_mod_bound(
                pow(a.0[l] as int, i + j) * pow(r52_inv(m), (i + j - 1) as nat),
                m,
            );
        }
        assert(self.mul_spec(pi, pj).0 =~= self.pow_spec(a, i + j).0);
    }

    proof fn lemma_pow_pow(self, a: Base, n: nat, x: nat, y: nat) {
        let px = pow_form_lanes(a, x, self.base);
        assert forall|l: int| 0 <= l < 8 implies px.0[l] < self.base.0[l] && px.0[l] == pow_form(
            a.0[l] as int,
            x,
            self.base.0[l] as int,
            r52_inv(self.base.0[l] as int),
        ) by {
            let m = self.base.0[l] as int;
            lemma_mod_bound(pow(a.0[l] as int, x) * pow(r52_inv(m), (x - 1) as nat), m);
        }
        assert forall|l: int| 0 <= l < 8 implies lane_powers_exact(
            px.0[l] as int,
            self.base.0[l] as int,
            y,
        ) by {
            let m = self.base.0[l] as int;
            let v = r52_inv(m);
            let al = a.0[l] as int;
            assert forall|j: nat, k: nat| 1 <= j && 1 <= k && j + k <= y implies (pow_form(
                px.0[l] as int,
                j,
                m,
                v,
            ) * pow_form(px.0[l] as int, k, m, v)) % r52() != 0 by {
                lemma_pow_form_pow(al, m, v, x, j);
                lemma_pow_form_pow(al, m, v, x, k);
                assert(x * j >= 1 && x * k >= 1 && x * j + x * k <= n) by (nonlinear_arith)
                    requires
                        x >= 1,
                        j >= 1,
                        k >= 1,
                        j + k <= y,
                        x * y <= n,
                ;
                assert(lane_powers_exact(al, m, n));
                assert((pow_form(al, x * j, m, v) * pow_form(al, x * k, m, v)) % r52() != 0);
            }
        }
        assert forall|l: int| 0 <= l < 8 implies #[trigger] self.pow_spec(px, y).0[l]
            == self.pow_spec(a, x * y).0[l] by {
            let m = self.base.0[l] as int;
            lemma_pow_form_pow(a.0[l] as int, m, r52_inv(m), x, y);
        }
        assert(self.pow_spec(px, y).0 =~= self.pow_spec(a, x * y).0);
    }

    fn mul(self, a: Base, b: Base) -> (r: Base) {
        proof {
            assert forall|i: int| 0 <= i < 8 implies ((a.0[i] as int) % r52()) * ((b.0[i] as int)
                % r52()) < self.base.0[i] * r52() by {
                lemma_small_mod(a.0[i] as nat, r52() as nat);
                lemma_small_mod(b.0[i] as nat, r52() as nat);
                assert(a.0[i] * b.0[i] < self.base.0[i] * r52()) by (nonlinear_arith)
                    requires
                        a.0[i] < self.base.0[i],
                        b.0[i] < self.base.0[i],
                        self.base.0[i] < r52(),
                ;
            }
        }
        Base::redc(a, b, self.base, self.baseinv)
    }
}

/// The lanes that the power chain of [`crate::pow::pow`] computes from the forms `x`,
/// modulo the lanes of `base`.
pub closed spec fn lanes_pow(base: Base, x: Base) -> Base {
    let mm = Mul52 { base, baseinv: base };
    chain13(mm, chain14(mm, x))
}

/// What the power chain computes depends on the moduli alone.
pub proof fn lemma_lanes_pow(mm: Mul52, x: Base)
    ensures
        chain13(mm, chain14(mm, x)) == lanes_pow(mm.modulus(), x),
{
    let m2 = Mul52 { base: mm.base, baseinv: mm.base };
    assert forall|a: Base, b: Base| #[trigger] mm.mul_spec(a, b) == m2.mul_spec(a, b) by {
    }
}

/// Lane-wise Montgomery powers agree with plain modular powers: converting the `k`-th power
/// of the form of `a` back (multiplying by `2^-52`) gives `lo52(a)^k mod m`.
pub proof fn lemma_mont52_pow_agrees(mm: Mul52, x: Base, a: [u64; 8], k: nat)
    requires
        mm.wf(),
        forall|i: int|
            0 <= i < 8 ==> x.0[i] == (((a[i] as int) % r52()) * r52()) % (mm.modulus().0[i] as int),
        k >= 1,
    ensures
        forall|i: int|
            0 <= i < 8 ==> (mm.pow_spec(x, k).0[i] * r52_inv(mm.modulus().0[i] as int)) % (
            mm.modulus().0[i] as int) == pow((a[i] as int) % r52(), k) % (mm.modulus().0[i] as int),
{
    assert forall|i: int| 0 <= i < 8 implies (mm.pow_spec(x, k).0[i] * r52_inv(
        mm.modulus().0[i] as int,
    )) % (mm.modulus().0[i] as int) == pow((a[i] as int) % r52(), k) % (
    mm.modulus().0[i] as int) by {
        let m = mm.base.0[i] as int;
        lemma_r52_inv(m);
        lemma_mod_bound(
            pow(x.0[i] as int, k) * pow(r52_inv(m), (k - 1) as nat),
            m,
        );
        lemma_pow_form_agrees((a[i] as int) % r52(), m, r52(), r52_inv(m), k);
    }
}

/// Lane `l` of a lane-wise Montgomery power stands for the same number as the 64-bit
/// Montgomery power of the same value modulo the same modulus: both stand for
/// `a[l]^k mod m`. Read back by the lane reduction with 1, as [`Mul52::mont_to_num`] does,
/// the lane gives that number whenever it is not 0.
pub proof fn lemma_lane_agrees_with_mul64(
    mm: Mul52,
    x: Base,
    a: [u64; 8],
    k: nat,
    l: int,
    m64: Mul64,
    y: Mont64,
)
    requires
        mm.wf(),
        m64.wf(),
        0 <= l < 8,
        m64.base == mm.base.0[l],
        a[l] < r52(),
        forall|i: int|
            0 <= i < 8 ==> x.0[i] == (((a[i] as int) % r52()) * r52()) % (mm.modulus().0[i] as int),
        y@ == to_mont_spec(a[l] as int, m64.modulus()),
        k >= 1,
    ensures
        (mm.pow_spec(x, k).0[l] * r52_inv(mm.modulus().0[l] as int)) % (mm.modulus().0[l] as int)
            == from_mont_spec(m64.pow_spec(y, k)@ as int, m64.modulus()),
        from_mont_spec(m64.pow_spec(y, k)@ as int, m64.modulus()) != 0 ==> redc52_spec(
            mm.pow_spec(x, k).0[l] as int,
            1,
            mm.modulus().0[l] as int,
        ) == from_mont_spec(m64.pow_spec(y, k)@ as int, m64.modulus()),
{
    let m = mm.base.0[l] as int;
    lemma_mont52_pow_agrees(mm, x, a, k);
    lemma_mont_pow_agrees(m64, y, a[l], k);
    lemma_small_mod(a[l] as nat, r52() as nat);
    let v = mm.pow_spec(x, k).0[l];
    let e = pow(x.0[l] as int, k) * pow(r52_inv(m), (k - 1) as nat);
    lemma_mod_bound(e, m);
    assert(v as int == e % m) by {
        if l == 0 {} else if l == 1 {} else if l == 2 {} else if l == 3 {}
        else if l == 4 {} else if l == 5 {} else if l == 6 {} else {}
    }
    lemma_small_mod(v as nat, r52() as nat);
    lemma_small_mod(1, r52() as nat);
    if (v as int * r52_inv(m)) % m != 0 {
        assert(v != 0) by {
            if v == 0 {
                lemma_mul_basics(r52_inv(m));
                assert((v as int) * r52_inv(m) == 0);
                lemma_small_mod(0, m as nat);
            }
        }
        assert((v as int * 1) % r52() == v as int);
    }
}

} // verus!
