//! Montgomery multiplication modulo a 64-bit odd number on 32-bit limbs, as a GPU thread
//! does it: the product's low half only feeds the quotient, and the carry out of the low
//! halves is taken to be one.
use vstd::prelude::*;
use vstd::arithmetic::div_mod::*;
use vstd::arithmetic::power::{lemma_pow1, lemma_pow_multiplies, pow};
use crate::mont::{
    from_mont_spec, lemma_mont_round_trip, lemma_redc_of_forms, neg_mod_2pow64_inv, radix, radix_inv, to_mont_spec,
};
use crate::modmath::lemma_redc_divisible;

verus! {

/// `2^32`.
pub open spec fn limb() -> int {
    0x1_0000_0000
}

/// The value of two limbs, least significant first.
pub open spec fn val2(lo: u32, hi: u32) -> int {
    lo + hi * limb()
}

/// The value of four limbs, least significant first.
pub open spec fn val4(r: [u32; 4]) -> int {
    r[0] + r[1] * limb() + r[2] * (limb() * limb()) + r[3] * (limb() * limb() * limb())
}

/// The sum `a + b + 1` wrapped to 64 bits, less `m` (wrapped) when its high limb is above
/// `2^31`.
pub open spec fn addsub_spec(a: int, b: int, m: int) -> int {
    let s = (a + b + 1) % radix();
    if s / limb() <= 0x8000_0000 {
        s
    } else {
        (s - m) % radix()
    }
}

/// The limb Montgomery product of `a` and `b` modulo `m` with negated inverse `n`: the
/// quotient `k = lo64(a * b) * n mod 2^64`, then `hi64(k * m) + hi64(a * b) + 1`, reduced as
/// [`addsub_spec`] does.
pub open spec fn limb_mont_spec(a: int, b: int, m: int, n: int) -> int {
    let t = a * b;
    let k = ((t % radix()) * n) % radix();
    addsub_spec((k * m) / radix(), t / radix(), m)
}

/// The two limbs of `x`.
fn unpack(x: u64) -> (r: [u32; 2])
    ensures
        val2(r[0], r[1]) == x,
{
    let lo = (x & 0xffff_ffff) as u32;
    let hi = (x >> 32u64) as u32;
    proof {
        assert(x == (x & 0xffff_ffff) + (x >> 32u64) * 0x1_0000_0000) by (bit_vector);
        assert((x & 0xffff_ffff) < 0x1_0000_0000) by (bit_vector);
        assert((x >> 32u64) < 0x1_0000_0000) by (bit_vector);
    }
    [lo, hi]
}

/// The number of two limbs.
fn pack(r: [u32; 2]) -> (x: u64)
    ensures
        x == val2(r[0], r[1]),
{
    r[0] as u64 + r[1] as u64 * 0x1_0000_0000
}

/// The full 128-bit product of two 64-bit numbers given as limbs.
pub fn mul64_wide(x0: u32, x1: u32, y0: u32, y1: u32) -> (r: [u32; 4])
    ensures
        val4(r) == val2(x0, x1) * val2(y0, y1),
{
    let x = pack([x0, x1]);
    let y = pack([y0, y1]);
    proof {
        assert(x * y <= 0xffff_ffff_ffff_ffff * 0xffff_ffff_ffff_ffff) by (nonlinear_arith)
            requires
                x <= 0xffff_ffff_ffff_ffff,
                y <= 0xffff_ffff_ffff_ffff,
        ;
    }
    let p = x as u128 * y as u128;
    let r0 = (p & 0xffff_ffff) as u32;
    let r1 = ((p >> 32u128) & 0xffff_ffff) as u32;
    let r2 = ((p >> 64u128) & 0xffff_ffff) as u32;
    let r3 = (p >> 96u128) as u32;
    proof {
        assert(p == (p & 0xffff_ffff) + ((p >> 32u128) & 0xffff_ffff) * 0x1_0000_0000 + ((p >> 64u128) & 0xffff_ffff)
            * 0x1_0000_0000_0000_0000 + (p >> 96u128) * 0x1_0000_0000_0000_0000_0000_0000) by (bit_vector)
            requires
                p <= 0xffff_ffff_ffff_fffe_0000_0000_0000_0001,
        ;
        assert((p >> 96u128) < 0x1_0000_0000) by (bit_vector)
            requires
                p <= 0xffff_ffff_ffff_fffe_0000_0000_0000_0001,
        ;
        assert((p & 0xffff_ffff) < 0x1_0000_0000) by (bit_vector);
        assert(((p >> 32u128) & 0xffff_ffff) < 0x1_0000_0000) by (bit_vector);
        assert(((p >> 64u128) & 0xffff_ffff) < 0x1_0000_0000) by (bit_vector);
        assert(r0 == (p & 0xffff_ffff));
        assert(r1 == ((p >> 32u128) & 0xffff_ffff));
        assert(r2 == ((p >> 64u128) & 0xffff_ffff));
        assert(r3 == (p >> 96u128));
        assert(limb() * limb() == 0x1_0000_0000_0000_0000);
        assert(limb() * limb() * limb() == 0x1_0000_0000_0000_0000_0000_0000);
    }
    [r0, r1, r2, r3]
}

/// The low 64 bits of the product of two 64-bit numbers given as limbs.
pub fn mul64_lo(x0: u32, x1: u32, y0: u32, y1: u32) -> (r: [u32; 2])
    ensures
        val2(r[0], r[1]) == (val2(x0, x1) * val2(y0, y1)) % radix(),
{
    let x = pack([x0, x1]);
    let y = pack([y0, y1]);
    let p = x.wrapping_mul(y);
    proof {
        assert(p == (x * y) % 0x1_0000_0000_0000_0000) by {
            vstd::arithmetic::mul::lemma_mul_nonnegative(x as int, y as int);
        }
    }
    unpack(p)
}

/// The high 64 bits of the product of two 64-bit numbers given as limbs.
pub fn mul64_hi(x0: u32, x1: u32, y0: u32, y1: u32) -> (r: [u32; 2])
    ensures
        val2(r[0], r[1]) == (val2(x0, x1) * val2(y0, y1)) / radix(),
{
    let x = pack([x0, x1]);
    let y = pack([y0, y1]);
    proof {
        assert(x * y <= 0xffff_ffff_ffff_ffff * 0xffff_ffff_ffff_ffff) by (nonlinear_arith)
            requires
                x <= 0xffff_ffff_ffff_ffff,
                y <= 0xffff_ffff_ffff_ffff,
        ;
        assert((x * y) / 0x1_0000_0000_0000_0000 <= 0xffff_ffff_ffff_ffff) by (nonlinear_arith)
            requires
                x * y <= 0xffff_ffff_ffff_ffff * 0xffff_ffff_ffff_ffff,
                x * y >= 0,
        ;
    }
    let h = ((x as u128 * y as u128) / 0x1_0000_0000_0000_0000u128) as u64;
    unpack(h)
}

/// `a + b + 1` on two-limb numbers, wrapped to 64 bits, less `m` (wrapped) when the high
/// limb of the sum is above `2^31`.
pub fn addsub(a0: u32, a1: u32, b0: u32, b1: u32, m0: u32, m1: u32) -> (r: [u32; 2])
    ensures
        val2(r[0], r[1]) == addsub_spec(val2(a0, a1), val2(b0, b1), val2(m0, m1)),
{
    let a = pack([a0, a1]);
    let b = pack([b0, b1]);
    let m = pack([m0, m1]);
    let s = a.wrapping_add(b).wrapping_add(1);
    proof {
        assert(s == (a + b + 1) % 0x1_0000_0000_0000_0000);
    }
    let hi = s >> 32u64;
    proof {
        assert(hi == s / 0x1_0000_0000) by (bit_vector)
            requires
                hi == s >> 32u64,
        ;
    }
    let out = if hi <= 0x8000_0000 { s } else { s.wrapping_sub(m) };
    unpack(out)
}

/// The limb Montgomery product of `a` and `b` modulo `m` with negated inverse `n`.
pub fn mont_mul(a0: u32, a1: u32, b0: u32, b1: u32, m0: u32, m1: u32, n0: u32, n1: u32) -> (r: [u32; 2])
    ensures
        val2(r[0], r[1]) == limb_mont_spec(val2(a0, a1), val2(b0, b1), val2(m0, m1), val2(n0, n1)),
{
    let t = mul64_wide(a0, a1, b0, b1);
    let k = mul64_lo(t[0], t[1], n0, n1);
    let h = mul64_hi(k[0], k[1], m0, m1);
    proof {
        let tt = val2(a0, a1) * val2(b0, b1);
        lemma_val4_split(t);
        assert(val2(t[0], t[1]) == tt % radix());
        assert(val2(t[2], t[3]) == tt / radix());
    }
    addsub(h[0], h[1], t[2], t[3], m0, m1)
}

proof fn lemma_val4_split(t: [u32; 4])
    ensures
        val2(t[0], t[1]) == val4(t) % radix(),
        val2(t[2], t[3]) == val4(t) / radix(),
{
    let lo = val2(t[0], t[1]);
    let hi = val2(t[2], t[3]);
    assert(0 <= lo < radix()) by (nonlinear_arith)
        requires
            lo == t[0] + t[1] * 0x1_0000_0000,
            0 <= t[0] < 0x1_0000_0000,
            0 <= t[1] < 0x1_0000_0000,
    ;
    assert(val4(t) == lo + hi * radix()) by (nonlinear_arith)
        requires
            lo == t[0] + t[1] * 0x1_0000_0000,
            hi == t[2] + t[3] * 0x1_0000_0000,
    ;
    assert(hi >= 0) by (nonlinear_arith)
        requires
            hi == t[2] + t[3] * 0x1_0000_0000,
            t[2] >= 0,
            t[3] >= 0,
    ;
    lemma_fundamental_div_mod_converse(val4(t), radix(), hi, lo);
}

/// The remainder that the GPU search looks for.
pub const GPU_REM: u64 = 2;

/// `n < 2^64` is a negated inverse of `m` modulo `2^64`: `m * n = -1`.
pub open spec fn is_neg_inv64(m: int, n: int) -> bool {
    0 <= n < radix() && (m * n) % radix() == radix() - 1
}

/// The negated inverse of an odd `m` modulo `2^64`.
pub open spec fn neg_inv64(m: int) -> int {
    choose|n: int| #[trigger] is_neg_inv64(m, n)
}

/// There is one negated inverse modulo `2^64`.
pub proof fn lemma_neg_inv64(m: int, n: int)
    requires
        m > 0,
        0 <= n < radix(),
        (m * n) % radix() == radix() - 1,
    ensures
        neg_inv64(m) == n,
{
    assert(is_neg_inv64(m, n));
    let c = neg_inv64(m);
    assert(is_neg_inv64(m, c));
    let r = radix();
    lemma_fundamental_div_mod(m * c, r);
    lemma_fundamental_div_mod(m * n, r);
    let a = (m * c) / r + 1;
    let b = (m * n) / r + 1;
    assert(m * c + 1 == r * a);
    assert(m * n + 1 == r * b);
    assert(c - n == r * (c * b - n * a)) by (nonlinear_arith)
        requires
            m * c + 1 == r * a,
            m * n + 1 == r * b,
    ;
    if c != n {
        assert(c * b - n * a != 0);
        assert(r * (c * b - n * a) >= r || r * (c * b - n * a) <= -r) by (nonlinear_arith)
            requires
                c * b - n * a != 0,
                r > 0,
        ;
    }
}

/// The start `R mod base` that a GPU thread derives from `aux`: `-(aux * base) mod 2^64`.
pub open spec fn gpu_start(base: int, aux: int) -> int {
    (radix() - aux * base) % radix()
}

/// `k` rounds of cubing `x` with limb Montgomery products.
pub open spec fn cube_rounds(x: int, m: int, n: int, k: nat) -> int
    decreases k,
{
    if k == 0 {
        x
    } else {
        let y = cube_rounds(x, m, n, (k - 1) as nat);
        limb_mont_spec(y, limb_mont_spec(y, y, m, n), m, n)
    }
}

/// The number that a GPU thread compares with `base - GPU_REM`: the form of `3` from the
/// start `r` and `3 * r`, cubed 27 times, converted back. Where every limb product along
/// the way is exact it is congruent to `3^(3^27)` modulo `base` ([`lemma_gpu_value`]).
pub open spec fn gpu_value(base: int, aux: int) -> int {
    let n = neg_inv64(base);
    let r = gpu_start(base, aux);
    let x = limb_mont_spec(r, 3 * r, base, n);
    limb_mont_spec(cube_rounds(x, base, n, 27), 1, base, n)
}

/// Whether `base` passes the GPU thread's test: `1` when the value of the power chain is
/// `base - GPU_REM`, else `0`.
pub fn mont_pows(base: u64, aux: u64) -> (r: u32)
    requires
        base % 2 == 1,
        aux * base <= u64::MAX,
        3 * gpu_start(base as int, aux as int) <= u64::MAX,
    ensures
        r == (if gpu_value(base as int, aux as int) + GPU_REM == base { 1u32 } else { 0u32 }),
{
    let start = 0u64.wrapping_sub(aux * base);
    proof {
        assert(start == gpu_start(base as int, aux as int));
    }
    let rsq = start * 3;
    let ibase = neg_mod_2pow64_inv(base);
    proof {
        lemma_neg_inv64(base as int, ibase as int);
    }
    let rr = unpack(start);
    let rs = unpack(rsq);
    let bb = unpack(base);
    let ib = unpack(ibase);
    let mut x = mont_mul(rr[0], rr[1], rs[0], rs[1], bb[0], bb[1], ib[0], ib[1]);
    let ghost n = ibase as int;
    let ghost x0 = val2(x[0], x[1]);
    let mut cntr: u32 = 0;
    while cntr < 27
        invariant
            cntr <= 27,
            val2(bb[0], bb[1]) == base,
            val2(ib[0], ib[1]) == n,
            val2(x[0], x[1]) == cube_rounds(x0, base as int, n, cntr as nat),
        decreases 27 - cntr,
    {
        let sq = mont_mul(x[0], x[1], x[0], x[1], bb[0], bb[1], ib[0], ib[1]);
        x = mont_mul(x[0], x[1], sq[0], sq[1], bb[0], bb[1], ib[0], ib[1]);
        cntr += 1;
    }
    let y = mont_mul(x[0], x[1], 1, 0, bb[0], bb[1], ib[0], ib[1]);
    let v = pack(y);
    if v as u128 + GPU_REM as u128 == base as u128 {
        1
    } else {
        0
    }
}

/// The limb Montgomery product agrees modulo `m` with the Montgomery product
/// `a * b * 2^-64`, when the low half of `a * b` is not zero (the carry out of the low
/// halves is then one) and the exact sum fits below `2^64`.
pub proof fn lemma_limb_mont_congruent(a: int, b: int, m: int, n: int)
    requires
        m % 2 == 1,
        0 < m < 0x8000_0000_0000_0000,
        0 <= n < radix(),
        (m * n) % radix() == radix() - 1,
        0 <= a,
        0 <= b,
        a * b < m * radix(),
        (a * b) % radix() != 0,
    ensures
        limb_mont_spec(a, b, m, n) % m == (a * b * radix_inv(m)) % m,
{
    let r = radix();
    let t = a * b;
    let k = ((t % r) * n) % r;
    lemma_mod_bound(t % r * n, r);
    lemma_redc_divisible(t, m, n, k, r);
    let lo = t % r;
    let hi = t / r;
    lemma_fundamental_div_mod(t, r);
    let q = (k * m) / r;
    let w = (k * m) % r;
    lemma_fundamental_div_mod(k * m, r);
    lemma_mod_bound(k * m, r);
    assert(0 <= k * m) by (nonlinear_arith)
        requires
            0 <= k,
            0 < m,
    ;
    // the low halves sum to exactly r, so the exact quotient is hi + q + 1
    assert(t + k * m == r * (hi + q) + (lo + w)) by (nonlinear_arith)
        requires
            t == r * hi + lo,
            k * m == r * q + w,
    ;
    lemma_mod_multiples_vanish(hi + q, lo + w, r);
    assert((lo + w) % r == 0);
    assert(lo + w == r) by {
        assert(0 < lo < r);
        assert(0 <= w < r);
        if lo + w != r {
            lemma_small_mod((lo + w) as nat, r as nat);
        }
    }
    let e = hi + q + 1;
    assert(t + k * m == r * e) by (nonlinear_arith)
        requires
            t + k * m == r * (hi + q) + (lo + w),
            lo + w == r,
            e == hi + q + 1,
    ;
    // e < 2m < 2^64, so the wrapped sum is e itself
    assert(k * m < r * m) by (nonlinear_arith)
        requires
            0 <= k < r,
            m > 0,
    ;
    assert(e < 2 * m) by (nonlinear_arith)
        requires
            r * e == t + k * m,
            t < m * r,
            k * m < r * m,
            r > 0,
    ;
    assert(hi >= 0 && q >= 0) by (nonlinear_arith)
        requires
            t == r * hi + lo,
            lo < r,
            t >= 0,
            k * m == r * q + w,
            w < r,
            k * m >= 0,
            r > 0,
    ;
    lemma_small_mod(e as nat, r as nat);
    let s = e;
    let out = limb_mont_spec(a, b, m, n);
    if s / limb() <= 0x8000_0000 {
        assert(out == e);
    } else {
        assert(e >= m) by (nonlinear_arith)
            requires
                e / 0x1_0000_0000 > 0x8000_0000,
                m < 0x8000_0000_0000_0000,
        ;
        lemma_small_mod((e - m) as nat, r as nat);
        assert(out == e - m);
        lemma_mod_sub_multiples_vanish(e, m);
    }
    // e * r == t (mod m), so e == t * r^-1 (mod m)
    crate::mont::lemma_radix_inv(m);
    assert((e * r) % m == t % m) by {
        lemma_mod_multiples_basic(k, m);
        assert(e * r == t + k * m) by (nonlinear_arith)
            requires
                r * e == t + k * m,
        ;
        lemma_mod_multiples_vanish(k, t, m);
    }
    lemma_mul_mod_noop_left(e * r, radix_inv(m), m);
    lemma_mul_mod_noop_left(t, radix_inv(m), m);
    crate::modmath::lemma_inv_cancel(e, m, r, radix_inv(m));
}

/// The limb Montgomery product of `a` and `b` modulo `m` is exact: the product is below
/// `m * 2^64` and its low half is not zero.
pub open spec fn limb_exact(a: int, b: int, m: int) -> bool {
    0 <= a && 0 <= b && a * b < m * radix() && (a * b) % radix() != 0
}

/// Every limb Montgomery product of the first `k` rounds of cubing `x` is exact.
pub open spec fn cube_exact(x: int, m: int, n: int, k: nat) -> bool
    decreases k,
{
    if k == 0 {
        true
    } else {
        let y = cube_rounds(x, m, n, (k - 1) as nat);
        &&& cube_exact(x, m, n, (k - 1) as nat)
        &&& limb_exact(y, y, m)
        &&& limb_exact(y, limb_mont_spec(y, y, m, n), m)
    }
}

/// Every limb Montgomery product of a GPU thread's power chain is exact.
pub open spec fn gpu_exact(base: int, aux: int) -> bool {
    let n = neg_inv64(base);
    let r = gpu_start(base, aux);
    let x = limb_mont_spec(r, 3 * r, base, n);
    &&& limb_exact(r, 3 * r, base)
    &&& cube_exact(x, base, n, 27)
    &&& limb_exact(cube_rounds(x, base, n, 27), 1, base)
}

proof fn lemma_redc_congr(y: int, z: int, yy: int, zz: int, m: int)
    requires
        m > 0,
        y % m == yy % m,
        z % m == zz % m,
    ensures
        (y * z * radix_inv(m)) % m == (yy * zz * radix_inv(m)) % m,
{
    lemma_mul_mod_noop(y, z, m);
    lemma_mul_mod_noop(yy, zz, m);
    lemma_mul_mod_noop_left(y * z, radix_inv(m), m);
    lemma_mul_mod_noop_left(yy * zz, radix_inv(m), m);
}

/// An exact limb product of the forms of `a` and `b` is congruent to the form of `a * b`.
proof fn lemma_limb_form(y: int, z: int, a: int, b: int, m: int, n: int)
    requires
        m % 2 == 1,
        0 < m < 0x8000_0000_0000_0000,
        0 <= n < radix(),
        (m * n) % radix() == radix() - 1,
        limb_exact(y, z, m),
        y % m == to_mont_spec(a, m),
        z % m == to_mont_spec(b, m),
    ensures
        limb_mont_spec(y, z, m, n) % m == to_mont_spec(a * b, m),
{
    lemma_limb_mont_congruent(y, z, m, n);
    lemma_mod_bound(a * radix(), m);
    lemma_mod_bound(b * radix(), m);
    lemma_mod_twice(a * radix(), m);
    lemma_mod_twice(b * radix(), m);
    lemma_redc_congr(y, z, to_mont_spec(a, m), to_mont_spec(b, m), m);
    lemma_redc_of_forms(a, b, m);
}

/// Where its products are exact, `k` rounds of cubing the form of `a` give a number
/// congruent to the form of `a^(3^k)`.
proof fn lemma_cube_rounds(x: int, a: int, m: int, n: int, k: nat)
    requires
        m % 2 == 1,
        0 < m < 0x8000_0000_0000_0000,
        0 <= n < radix(),
        (m * n) % radix() == radix() - 1,
        x % m == to_mont_spec(a, m),
        cube_exact(x, m, n, k),
    ensures
        cube_rounds(x, m, n, k) % m == to_mont_spec(pow(a, pow(3, k) as nat), m),
    decreases k,
{
    if k == 0 {
        vstd::arithmetic::power::lemma_pow0(3);
        lemma_pow1(a);
    } else {
        let j = (k - 1) as nat;
        lemma_cube_rounds(x, a, m, n, j);
        let y = cube_rounds(x, m, n, j);
        let b = pow(a, pow(3, j) as nat);
        lemma_limb_form(y, y, b, b, m, n);
        lemma_limb_form(y, limb_mont_spec(y, y, m, n), b, b * b, m, n);
        vstd::arithmetic::power::lemma_pow_positive(3, j);
        lemma_pow_multiplies(a, pow(3, j) as nat, 3);
        assert(pow(b, 3) == b * (b * b)) by {
            reveal(pow);
            lemma_pow1(b);
            assert(pow(b, 2) == b * pow(b, 1));
            assert(pow(b, 3) == b * pow(b, 2));
        }
        assert(pow(3, k) == 3 * pow(3, j)) by {
            reveal(pow);
        }
        assert(pow(3, j) as nat * 3 == pow(3, k));
    }
}

/// Where every limb product of a GPU thread's power chain is exact, the number it compares
/// with `base - GPU_REM` is congruent to `3^(3^27)` modulo `base`.
pub proof fn lemma_gpu_value(base: int, aux: int, n: int)
    requires
        base % 2 == 1,
        0 < base < 0x8000_0000_0000_0000,
        1 <= aux,
        aux * base < radix(),
        0 <= n < radix(),
        (base * n) % radix() == radix() - 1,
        gpu_exact(base, aux),
    ensures
        gpu_value(base, aux) % base == pow(3, pow(3, 27) as nat) % base,
{
    lemma_neg_inv64(base, n);
    let r = gpu_start(base, aux);
    let rr = radix();
    // r == R - aux * base, the form of 1
    lemma_small_mod((rr - aux * base) as nat, rr as nat);
    assert(r == rr - aux * base);
    lemma_mod_multiples_vanish(-aux, rr, base);
    assert(r % base == to_mont_spec(1, base)) by {
        assert(base * (-aux) == -(aux * base)) by (nonlinear_arith);
        assert(base * (-aux) + rr == r);
    }
    assert((3 * r) % base == to_mont_spec(3, base)) by {
        lemma_mul_mod_noop_right(3, r, base);
        lemma_mul_mod_noop_right(3, rr, base);
        assert(3 * rr == 3 * radix());
    }
    let x = limb_mont_spec(r, 3 * r, base, n);
    lemma_limb_form(r, 3 * r, 1, 3, base, n);
    assert(x % base == to_mont_spec(3, base));
    lemma_cube_rounds(x, 3, base, n, 27);
    let y = cube_rounds(x, base, n, 27);
    let p = pow(3, pow(3, 27) as nat);
    vstd::arithmetic::power::lemma_pow_positive(3, 27);
    lemma_limb_mont_congruent(y, 1, base, n);
    // y * 1 * R^-1 == from_mont(form of p) == p  (mod base)
    lemma_mod_bound(p * radix(), base);
    lemma_mod_twice(p * radix(), base);
    lemma_redc_congr(y, 1, to_mont_spec(p, base), 1, base);
    assert(to_mont_spec(p, base) * 1 * radix_inv(base) == to_mont_spec(p, base) * radix_inv(base));
    lemma_mont_round_trip(p, base);
    assert(gpu_value(base, aux) == limb_mont_spec(y, 1, base, n));
}

} // verus!
