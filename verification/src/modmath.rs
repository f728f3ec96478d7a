//! Modular arithmetic facts shared by the Montgomery multipliers: inverses of powers
//! of two, Newton iteration for negated inverses, and powers of Montgomery forms.
use vstd::prelude::*;
use vstd::arithmetic::div_mod::*;
use vstd::arithmetic::mul::*;
use vstd::arithmetic::power2::*;
use vstd::arithmetic::power::*;

verus! {

/// The inverse of `2^k` modulo an odd `m`, built from the inverse of 2, which is `(m + 1) / 2`.
pub open spec fn inv_two_pow(m: int, k: nat) -> int
    decreases k,
{
    if k == 0 {
        1int % m
    } else {
        (inv_two_pow(m, (k - 1) as nat) * ((m + 1) / 2)) % m
    }
}

/// `2^k * inv_two_pow(m, k) == 1 (mod m)`.
pub proof fn lemma_inv_two_pow(m: int, k: nat)
    requires
        m > 0,
        m % 2 == 1,
    ensures
        0 <= inv_two_pow(m, k) < m,
        (pow2(k) * inv_two_pow(m, k)) % m == 1int % m,
    decreases k,
{
    if k == 0 {
        lemma2_to64();
        lemma_mod_bound(1, m);
        assert(pow2(0) * inv_two_pow(m, 0) == 1int % m);
        lemma_mod_twice(1, m);
    } else {
        let k1 = (k - 1) as nat;
        lemma_inv_two_pow(m, k1);
        lemma_pow2_unfold(k);
        let x = pow2(k1) as int;
        let y = inv_two_pow(m, k1);
        let h = (m + 1) / 2;
        assert(2 * h == m + 1);
        lemma_mod_bound(y * h, m);
        lemma_mul_mod_noop_right(2 * x, y * h, m);
        assert((2 * x) * (y * h) == (x * y) * (2 * h)) by (nonlinear_arith);
        assert((x * y) * (m + 1) == m * (x * y) + x * y) by (nonlinear_arith);
        lemma_mod_multiples_vanish(x * y, x * y, m);
    }
}

/// One Newton step `x -> x * (2 + p * x) (mod r)` squares the error `p * x + 1`:
/// if `d` divides it before, every `g` that divides both `r` and `d * d` divides it after.
pub proof fn lemma_newton_step(p: int, x: int, d: int, r: int, g: int)
    requires
        d > 0,
        r > 0,
        g > 0,
        p >= 0,
        x >= 0,
        r % g == 0,
        (d * d) % g == 0,
        (p * x + 1) % d == 0,
    ensures
        (p * ((x * ((2 + (p * x) % r) % r)) % r) + 1) % g == 0,
{
    let w1 = (p * x) % r;
    let w2 = (2 + w1) % r;
    let y = (x * w2) % r;
    assert(w2 == (2 + p * x) % r) by {
        lemma_add_mod_noop(2, p * x, r);
        lemma_add_mod_noop(2, w1, r);
        lemma_mod_twice(p * x, r);
    }
    lemma_mul_mod_noop_right(x, 2 + p * x, r);
    assert(y == (x * (2 + p * x)) % r);
    lemma_mul_mod_noop_right(p, x * (2 + p * x), r);
    assert(p * (x * (2 + p * x)) + 1 == (p * x + 1) * (p * x + 1)) by (nonlinear_arith);
    lemma_add_mod_noop(p * y, 1, r);
    lemma_add_mod_noop(p * (x * (2 + p * x)), 1, r);
    assert((p * y + 1) % r == ((p * x + 1) * (p * x + 1)) % r);
    // both sides agree modulo g, which divides r
    let q = r / g;
    lemma_fundamental_div_mod(r, g);
    assert(q > 0) by (nonlinear_arith)
        requires
            r == g * q + 0,
            r > 0,
            g > 0,
    ;
    lemma_mod_mod(p * y + 1, g, q);
    lemma_mod_mod((p * x + 1) * (p * x + 1), g, q);
    assert(g * q == r);
    // (p x + 1)^2 is a multiple of d * d, hence of g
    let c = (p * x + 1) / d;
    lemma_fundamental_div_mod(p * x + 1, d);
    let dd = (d * d) / g;
    lemma_fundamental_div_mod(d * d, g);
    assert((p * x + 1) * (p * x + 1) == (c * c * dd) * g) by (nonlinear_arith)
        requires
            p * x + 1 == d * c + 0,
            d * d == g * dd + 0,
    ;
    lemma_mod_multiples_basic(c * c * dd, g);
}

/// The sum `t + k * m`, where `k == (t mod r) * n mod r` and `m * n == -1 (mod r)`,
/// is a multiple of `r`.
pub proof fn lemma_redc_divisible(t: int, m: int, n: int, k: int, r: int)
    requires
        r > 0,
        t >= 0,
        m > 0,
        n >= 0,
        (m * n) % r == r - 1,
        k == ((t % r) * n) % r,
    ensures
        (t + k * m) % r == 0,
{
    let lo = t % r;
    let q = t / r;
    lemma_fundamental_div_mod(t, r);
    let q2 = (lo * n) / r;
    lemma_fundamental_div_mod(lo * n, r);
    let q3 = (m * n) / r;
    lemma_fundamental_div_mod(m * n, r);
    assert(t + k * m == r * (q + lo * q3 + lo - q2 * m)) by (nonlinear_arith)
        requires
            t == r * q + lo,
            lo * n == r * q2 + k,
            m * n == r * q3 + (r - 1),
    ;
    lemma_mul_is_commutative(r, q + lo * q3 + lo - q2 * m);
    lemma_mod_multiples_basic(q + lo * q3 + lo - q2 * m, r);
}

/// `x * r * v == x (mod m)` when `v` is an inverse of `r`.
pub proof fn lemma_inv_cancel(x: int, m: int, r: int, v: int)
    requires
        m > 0,
        (r * v) % m == 1int % m,
    ensures
        (x * r * v) % m == x % m,
{
    lemma_mul_is_associative(x, r, v);
    lemma_mul_mod_noop_right(x, r * v, m);
    lemma_mul_mod_noop_right(x, 1, m);
}

/// A residue `x < m` with `x * r == t (mod m)` is `t * v mod m`, for an inverse `v` of `r`.
pub proof fn lemma_cancel_inv(x: int, t: int, m: int, r: int, v: int)
    requires
        m > 0,
        (r * v) % m == 1int % m,
        0 <= x < m,
        (x * r) % m == t % m,
    ensures
        x == (t * v) % m,
{
    lemma_mul_mod_noop_left(t, v, m);
    lemma_mul_mod_noop_left(x * r, v, m);
    lemma_inv_cancel(x, m, r, v);
    lemma_small_mod(x as nat, m as nat);
}

/// `r^k * v^k == 1 (mod m)` for an inverse `v` of `r`.
pub proof fn lemma_pow_inv_cancel(m: int, k: nat, r: int, v: int)
    requires
        m > 0,
        (r * v) % m == 1int % m,
    ensures
        (pow(r, k) * pow(v, k)) % m == 1int % m,
{
    lemma_pow_distributes(r, v, k);
    lemma_pow_mod_noop(r * v, k, m);
    lemma_pow_mod_noop(1, k, m);
    lemma1_pow(k);
}

/// The Montgomery form of the `k`-th power of the number that `x` stands for,
/// where `v` inverts the radix: `x^k * v^(k-1) mod m`.
pub open spec fn pow_form(x: int, k: nat, m: int, v: int) -> int {
    if k == 0 {
        1int % m
    } else {
        (pow(x, k) * pow(v, (k - 1) as nat)) % m
    }
}

/// The Montgomery product of two power forms is the form of the summed power.
pub proof fn lemma_pow_form_split(x: int, m: int, v: int, i: nat, j: nat)
    requires
        m > 0,
        1 <= i,
        1 <= j,
    ensures
        (pow_form(x, i, m, v) * pow_form(x, j, m, v) * v) % m == pow_form(x, i + j, m, v),
{
    let ai = pow(x, i);
    let aj = pow(x, j);
    let vi = pow(v, (i - 1) as nat);
    let vj = pow(v, (j - 1) as nat);
    let pi = ai * vi;
    let pj = aj * vj;
    lemma_mul_mod_noop_left(pi, (pj % m) * v, m);
    lemma_mul_is_associative(pi % m, pj % m, v);
    lemma_mul_is_associative(pi, pj % m, v);
    lemma_mul_is_commutative(pj % m, v);
    lemma_mul_is_associative(pi, v, pj % m);
    lemma_mul_mod_noop_right(pi * v, pj, m);
    assert(pi * v * pj == (ai * aj) * (vi * vj * v)) by (nonlinear_arith)
        requires
            pi == ai * vi,
            pj == aj * vj,
    ;
    lemma_pow_adds(x, i, j);
    lemma_pow_adds(v, (i - 1) as nat, (j - 1) as nat);
    lemma_pow1(v);
    lemma_pow_adds(v, (i + j - 2) as nat, 1);
}

/// A power form of a power form is the form of the multiplied power.
pub proof fn lemma_pow_form_pow(x: int, m: int, v: int, a: nat, b: nat)
    requires
        m > 0,
        1 <= a,
        1 <= b,
    ensures
        pow_form(pow_form(x, a, m, v), b, m, v) == pow_form(x, a * b, m, v),
{
    let p = pow(x, a) * pow(v, (a - 1) as nat);
    lemma_mul_mod_noop_left(pow(p % m, b), pow(v, (b - 1) as nat), m);
    lemma_pow_mod_noop(p, b, m);
    lemma_mul_mod_noop_left(pow(p, b), pow(v, (b - 1) as nat), m);
    lemma_pow_distributes(pow(x, a), pow(v, (a - 1) as nat), b);
    lemma_pow_multiplies(x, a, b);
    lemma_pow_multiplies(v, (a - 1) as nat, b);
    assert((a - 1) * b + (b - 1) == a * b - 1 && a * b >= 1) by (nonlinear_arith)
        requires
            a >= 1,
            b >= 1,
    ;
    lemma_pow_adds(v, ((a - 1) * b) as nat, (b - 1) as nat);
    lemma_mul_is_associative(pow(x, a * b), pow(v, ((a - 1) * b) as nat), pow(v, (b - 1) as nat));
}

/// Converting the power form of the form `x * r` back gives the plain power:
/// `pow_form(x * r mod m, k) * v == x^k (mod m)`.
pub proof fn lemma_pow_form_agrees(x: int, m: int, r: int, v: int, k: nat)
    requires
        m > 0,
        (r * v) % m == 1int % m,
        k >= 1,
    ensures
        (pow_form((x * r) % m, k, m, v) * v) % m == pow(x, k) % m,
{
    let xa = (x * r) % m;
    let k1 = (k - 1) as nat;
    let pa = pow(x, k);
    lemma_pow_mod_noop(x * r, k, m);
    lemma_pow_distributes(x, r, k);
    lemma_mul_mod_noop_left(pow(xa, k), pow(v, k1), m);
    lemma_mul_mod_noop_left(pa * pow(r, k), pow(v, k1), m);
    lemma_pow1(r);
    lemma_pow_adds(r, 1, k1);
    assert(pa * pow(r, k) * pow(v, k1) == (pa * r) * (pow(r, k1) * pow(v, k1))) by (nonlinear_arith)
        requires
            pow(r, k) == r * pow(r, k1),
    ;
    lemma_pow_inv_cancel(m, k1, r, v);
    lemma_mul_mod_noop_right(pa * r, pow(r, k1) * pow(v, k1), m);
    lemma_mul_mod_noop_right(pa * r, 1, m);
    let big = pow_form(xa, k, m, v);
    lemma_mod_bound(pow(xa, k) * pow(v, k1), m);
    assert(big % m == (pa * r) % m) by {
        lemma_mod_twice(pow(xa, k) * pow(v, k1), m);
    }
    lemma_mul_mod_noop_left(big, v, m);
    lemma_mul_mod_noop_left(pa * r, v, m);
    lemma_inv_cancel(pa, m, r, v);
}

} // verus!
