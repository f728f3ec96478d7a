//! Prime sieves: Euler's linear sieve, and a segmented sieve that finds the primes of
//! a block from the primes up to the square root of its end, the blocks sieved in parallel.
use vstd::prelude::*;
use vstd::arithmetic::div_mod::*;
use vstd::arithmetic::mul::*;
use rayon::iter::{IntoParallelRefIterator, ParallelIterator};

verus! {

/// `p` is prime.
pub open spec fn prime(p: int) -> bool {
    &&& p >= 2
    &&& forall|d: int| 2 <= d < p ==> #[trigger] (p % d) != 0
}

/// The smallest divisor of `c` that is at least `d`, looking no further than `c`.
pub open spec fn least_divisor_from(c: int, d: int) -> int
    decreases c - d,
{
    if d >= c {
        c
    } else if c % d == 0 {
        d
    } else {
        least_divisor_from(c, d + 1)
    }
}

/// The smallest prime factor of `c >= 2`.
pub open spec fn spf(c: int) -> int {
    least_divisor_from(c, 2)
}

proof fn lemma_least_divisor_from(c: int, d: int)
    requires
        2 <= d <= c,
    ensures
        d <= least_divisor_from(c, d) <= c,
        c % least_divisor_from(c, d) == 0,
        forall|e: int| d <= e < least_divisor_from(c, d) ==> #[trigger] (c % e) != 0,
    decreases c - d,
{
    if d >= c {
        lemma_mod_self_0(c);
    } else if c % d == 0 {
    } else {
        lemma_least_divisor_from(c, d + 1);
    }
}

/// The smallest prime factor divides `c`, no smaller number from 2 on does, and it is prime.
pub proof fn lemma_spf(c: int)
    requires
        c >= 2,
    ensures
        2 <= spf(c) <= c,
        c % spf(c) == 0,
        forall|e: int| 2 <= e < spf(c) ==> #[trigger] (c % e) != 0,
        prime(spf(c)),
        prime(c) <==> spf(c) == c,
{
    lemma_least_divisor_from(c, 2);
    let s = spf(c);
    assert forall|d: int| 2 <= d < s implies #[trigger] (s % d) != 0 by {
        if s % d == 0 {
            lemma_mod_divides_transitive(c, s, d);
            assert(c % d == 0);
        }
    }
    if prime(c) && s != c {
        assert(c % s != 0);
    }
}

/// If `d` divides `b` and `b` divides `a`, then `d` divides `a`.
proof fn lemma_mod_divides_transitive(a: int, b: int, d: int)
    requires
        a > 0,
        b > 0,
        d > 0,
        a % b == 0,
        b % d == 0,
    ensures
        a % d == 0,
{
    lemma_fundamental_div_mod(a, b);
    lemma_fundamental_div_mod(b, d);
    let q1 = a / b;
    let q2 = b / d;
    assert(a == d * (q2 * q1)) by (nonlinear_arith)
        requires
            a == b * q1 + 0,
            b == d * q2 + 0,
    ;
    lemma_mul_is_commutative(d, q2 * q1);
    lemma_mod_multiples_basic(q2 * q1, d);
}

/// A divisor of `c` from 2 on is at least the smallest prime factor.
proof fn lemma_spf_minimal(c: int, e: int)
    requires
        c >= 2,
        2 <= e,
        c % e == 0,
    ensures
        spf(c) <= e,
{
    lemma_spf(c);
    if e < spf(c) {
        assert(c % e != 0);
    }
}

/// `s` is strictly increasing.
pub open spec fn strictly_increasing(s: Seq<usize>) -> bool {
    forall|i: int, j: int| 0 <= i < j < s.len() ==> s[i] < s[j]
}

/// `s` lists exactly the primes up to `n`, in increasing order.
pub open spec fn primes_upto(s: Seq<usize>, n: int) -> bool {
    &&& strictly_increasing(s)
    &&& forall|k: int| 0 <= k < s.len() ==> prime(s[k] as int) && s[k] <= n
    &&& forall|p: int| 0 <= p <= n && prime(p) ==> s.contains(p as usize)
}

/// All primes up to `n`, by Euler's linear sieve: each composite is crossed out once,
/// as `i * p` for its smallest prime factor `p`.
pub fn euler_sieve(n: usize) -> (r: Vec<usize>)
    requires
        n < usize::MAX,
    ensures
        primes_upto(r@, n as int),
{
    let mut is_prime = vec![true; n + 1];
    let mut primes: Vec<usize> = Vec::new();
    let mut i: usize = 2;
    proof {
        assert forall|c: int| 2 <= c <= n && !prime(c) implies #[trigger] (c / spf(c)) >= 2 by {
            lemma_spf(c);
            let s = spf(c);
            lemma_fundamental_div_mod(c, s);
            assert(c / s >= 2) by (nonlinear_arith)
                requires
                    c == s * (c / s) + 0,
                    s < c,
                    s >= 2,
            ;
        }
    }
    while i <= n
        invariant
            2 <= i,
            i <= n + 1 || i == 2,
            n < usize::MAX,
            is_prime.len() == n + 1,
            primes_upto(primes@, i - 1),
            forall|c: int| 2 <= c <= n && !is_prime[c] ==> !prime(c),
            forall|c: int|
                2 <= c <= n && !prime(c) && #[trigger] (c / spf(c)) < i ==> !is_prime[c],
        decreases n + 1 - i,
    {
        proof {
            lemma_spf(i as int);
            if !prime(i as int) {
                let s = spf(i as int);
                lemma_fundamental_div_mod(i as int, s);
                assert((i as int) / s < i) by (nonlinear_arith)
                    requires
                        i == s * ((i as int) / s) + 0,
                        s >= 2,
                        i >= 2,
                ;
            }
        }
        if is_prime[i] {
            let ghost before = primes@;
            primes.push(i);
            proof {
                assert forall|p: int| 0 <= p <= i && prime(p) implies primes@.contains(
                    p as usize,
                ) by {
                    if p < i {
                        let k = choose|k: int| 0 <= k < before.len() && before[k] == p as usize;
                        assert(primes@[k] == p as usize);
                    } else {
                        assert(primes@[before.len() as int] == i);
                    }
                }
            }
        } else {
            proof {
                assert forall|p: int| 0 <= p <= i && prime(p) implies primes@.contains(
                    p as usize,
                ) by {
                    if p == i {
                        assert(!prime(i as int));
                    }
                }
            }
        }
        // cross out i * p for the primes p up to the smallest prime factor of i
        let mut j: usize = 0;
        proof {
            lemma_spf(i as int);
            assert(primes@.contains(spf(i as int) as usize));
        }
        while j < primes.len()
            invariant
                2 <= i <= n,
                n < usize::MAX,
                is_prime.len() == n + 1,
                primes_upto(primes@, i as int),
                0 <= j <= primes.len(),
                exists|k: int| j <= k < primes.len() && primes@[k] == spf(i as int),
                (i as int) % spf(i as int) == 0,
                forall|k: int| 0 <= k < j ==> (i as int) % (primes@[k] as int) != 0,
                forall|k: int| 0 <= k < j ==> (i * primes@[k]) <= n && !is_prime[i * primes@[k]],
                forall|c: int| 2 <= c <= n && !is_prime[c] ==> !prime(c),
                forall|c: int|
                    2 <= c <= n && !prime(c) && #[trigger] (c / spf(c)) < i ==> !is_prime[c],
            ensures
                forall|p: int|
                    prime(p) && p <= spf(i as int) && i * p <= n ==> !is_prime[i * p],
                forall|c: int| 2 <= c <= n && !is_prime[c] ==> !prime(c),
                forall|c: int|
                    2 <= c <= n && !prime(c) && #[trigger] (c / spf(c)) < i ==> !is_prime[c],
            decreases primes.len() - j,
        {
            let p = primes[j];
            proof {
                assert(prime(p as int));
            }
            if p > n / i {
                proof {
                    assert forall|q: int|
                        prime(q) && q <= spf(i as int) && i * q <= n implies !is_prime[i * q] by {
                        lemma_spf(i as int);
                        assert(primes@.contains(q as usize));
                        let k = choose|k: int| 0 <= k < primes.len() && primes@[k] == q as usize;
                        lemma_fundamental_div_mod(n as int, i as int);
                        assert(q < p) by (nonlinear_arith)
                            requires
                                i * q <= n,
                                p > n / i,
                                n == i * (n / i) + n % i,
                                n % i < i,
                                i > 0,
                        ;
                        if k >= j {
                            if k > j {
                                assert(primes@[j as int] < primes@[k]);
                            }
                        }
                    }
                }
                break;
            }
            proof {
                lemma_fundamental_div_mod(n as int, i as int);
                assert(i * p <= n) by (nonlinear_arith)
                    requires
                        p <= n / i,
                        n == i * (n / i) + n % i,
                        n % i >= 0,
                        i > 0,
                ;
            }
            let m = i * p;
            is_prime.set(m, false);
            proof {
                assert((m as int) % (p as int) == 0) by {
                    lemma_mul_is_commutative(i as int, p as int);
                    lemma_mod_multiples_basic(i as int, p as int);
                }
                assert(p < m) by (nonlinear_arith)
                    requires
                        m == i * p,
                        i >= 2,
                        p >= 2,
                ;
                assert(!prime(m as int));
            }
            if i % p == 0 {
                proof {
                    assert forall|q: int|
                        prime(q) && q <= spf(i as int) && i * q <= n implies !is_prime[i * q] by {
                        lemma_spf(i as int);
                        lemma_spf_minimal(i as int, p as int);
                        // p == spf(i): every smaller prime is among primes[..j] and does not divide i
                        assert(primes@.contains(spf(i as int) as usize));
                        let ks = choose|k: int|
                            0 <= k < primes.len() && primes@[k] == spf(i as int) as usize;
                        if ks < j {
                            assert((i as int) % (primes@[ks] as int) != 0);
                        }
                        if ks > j {
                            assert(primes@[j as int] < primes@[ks]);
                        }
                        assert(primes@.contains(q as usize));
                        let k = choose|k: int| 0 <= k < primes.len() && primes@[k] == q as usize;
                        if k > j {
                            assert(primes@[j as int] < primes@[k]);
                        }
                    }
                }
                break;
            }
            proof {
                let k = choose|k: int| j <= k < primes.len() && primes@[k] == spf(i as int);
                assert(k != j);
            }
            j += 1;
        }
        proof {
            assert forall|c: int|
                2 <= c <= n && !prime(c) && #[trigger] (c / spf(c)) < i + 1 implies !is_prime[c] by {
                if c / spf(c) == i {
                    lemma_spf(c);
                    let s = spf(c);
                    lemma_fundamental_div_mod(c, s);
                    assert(c == i * s) by {
                        lemma_mul_is_commutative(s, i as int);
                    }
                    // spf(c) <= spf(i), since spf(i) divides i and hence c
                    lemma_spf(i as int);
                    assert(c % (i as int) == 0) by {
                        lemma_mod_multiples_basic(s, i as int);
                    }
                    lemma_mod_divides_transitive(c, i as int, spf(i as int));
                    lemma_spf_minimal(c, spf(i as int));
                }
            }
        }
        i += 1;
    }
    primes
}

/// Some prime of `small` with square at most `x` divides `x`: the segmented sieve crosses `x` out.
pub open spec fn crossed(x: int, small: Seq<usize>) -> bool {
    exists|k: int|
        0 <= k < small.len() && #[trigger] small[k] * small[k] <= x && x % (small[k] as int) == 0
}

/// The integer square root of `x`: the floor of its square root.
pub(crate) fn isqrt(x: usize) -> (r: usize)
    ensures
        r * r <= x < (r + 1) * (r + 1),
{
    let r = crate::pythag::isqrt64(x as u64);
    proof {
        assert(r <= x) by (nonlinear_arith)
            requires
                r * r <= x,
        ;
    }
    r as usize
}

/// The numbers of `low..=high` that no prime `p` of `small` crosses out, where `p` crosses
/// out its multiples from `p * p` on.
pub fn sieve_segment(low: usize, high: usize, small: &Vec<usize>) -> (r: Vec<usize>)
    requires
        low <= high < usize::MAX,
        forall|k: int| 0 <= k < small.len() ==> 2 <= #[trigger] small[k] && small[k] * small[k] <= usize::MAX && high + small[k] <= usize::MAX,
    ensures
        strictly_increasing(r@),
        forall|k: int| 0 <= k < r.len() ==> low <= #[trigger] r[k] <= high && !crossed(r[k] as int, small@),
        forall|x: int| low <= x <= high && !crossed(x, small@) ==> r@.contains(x as usize),
{
    let segment_size = high - low + 1;
    let mut sieve = vec![true; segment_size];
    let mut j: usize = 0;
    while j < small.len()
        invariant
            low <= high,
            segment_size == high - low + 1,
            sieve.len() == segment_size,
            0 <= j <= small.len(),
            forall|k: int| 0 <= k < small.len() ==> 2 <= #[trigger] small[k] && small[k] * small[k] <= usize::MAX && high + small[k] <= usize::MAX,
            forall|x: int| low <= x <= high && !sieve[x - low] ==> crossed(x, small@),
            forall|x: int, k: int|
                low <= x <= high && 0 <= k < j && small[k] * small[k] <= x && x % (small[k] as int) == 0
                    ==> !#[trigger] sieve[x - low] && #[trigger] small[k] > 0,
        decreases small.len() - j,
    {
        let p = small[j];
        let rem = low % p;
        let first_multiple = if rem == 0 { low } else { low + (p - rem) };
        let start = if first_multiple > p * p { first_multiple } else { p * p };
        proof {
            lemma_mod_multiples_basic(p as int, p as int);
            lemma_fundamental_div_mod(low as int, p as int);
            assert((first_multiple as int) % (p as int) == 0) by {
                if rem != 0 {
                    assert(first_multiple == p * ((low as int) / (p as int)) + p);
                    lemma_mod_multiples_vanish((low as int) / (p as int), p as int, p as int);
                    lemma_mod_self_0(p as int);
                    lemma_mul_is_commutative(p as int, (low as int) / (p as int) + 1);
                    assert(first_multiple == ((low as int) / (p as int) + 1) * p) by (nonlinear_arith)
                        requires
                            first_multiple == p * ((low as int) / (p as int)) + p,
                    ;
                    lemma_mod_multiples_basic((low as int) / (p as int) + 1, p as int);
                } else {
                }
            }
            // every multiple of p in low..=high is at least first_multiple
            assert forall|x: int| low <= x && #[trigger] (x % (p as int)) == 0 implies first_multiple <= x by {
                if x < first_multiple {
                    lemma_fundamental_div_mod(x, p as int);
                    assert(false) by (nonlinear_arith)
                        requires
                            x == p * (x / (p as int)) + 0,
                            low == p * ((low as int) / (p as int)) + rem,
                            first_multiple == (if rem == 0 { low as int } else { low + (p - rem) }),
                            low <= x < first_multiple,
                            0 <= rem < p,
                    ;
                }
            }
        }
        if start <= high {
            let mut multiple = start;
            while multiple <= high
                invariant
                    low <= start <= multiple,
                    start <= high,
                    high + p <= usize::MAX,
                    p >= 2,
                    multiple <= high + p,
                    sieve.len() == high - low + 1,
                    (multiple as int) % (p as int) == 0,
                    (start as int) % (p as int) == 0,
                    start >= p * p,
                    forall|x: int| low <= x <= high && !sieve[x - low] ==> crossed(x, small@),
                    forall|x: int|
                        start <= x < multiple && x % (p as int) == 0 ==> !#[trigger] sieve[x - low],
                    forall|x: int, k: int|
                        low <= x <= high && 0 <= k < j && small[k] * small[k] <= x && x % (small[k] as int) == 0
                            ==> !#[trigger] sieve[x - low] && #[trigger] small[k] > 0,
                    p == small[j as int],
                    0 <= j < small.len(),
                decreases high + p - multiple,
            {
                sieve.set(multiple - low, false);
                proof {
                    assert(crossed(multiple as int, small@)) by {
                        assert(small@[j as int] * small@[j as int] <= multiple);
                    }
                    assert forall|x: int|
                        start <= x < multiple + p && x % (p as int) == 0 implies !#[trigger] sieve[x - low] by {
                        if x > multiple {
                            lemma_fundamental_div_mod(x, p as int);
                            lemma_fundamental_div_mod(multiple as int, p as int);
                            assert(false) by (nonlinear_arith)
                                requires
                                    x == p * (x / (p as int)) + 0,
                                    multiple == p * ((multiple as int) / (p as int)) + 0,
                                    multiple < x < multiple + p,
                                    p > 0,
                            ;
                        }
                    }
                    lemma_mod_multiples_vanish(1, multiple as int, p as int);
                }
                multiple = multiple + p;
            }
            proof {
                assert forall|x: int, k: int|
                    low <= x <= high && 0 <= k < j + 1 && small[k] * small[k] <= x && x % (small[k] as int) == 0
                        implies !#[trigger] sieve[x - low] && #[trigger] small[k] > 0 by {
                    if k == j {
                        assert(first_multiple <= x);
                    }
                }
            }
        } else {
            proof {
                assert forall|x: int, k: int|
                    low <= x <= high && 0 <= k < j + 1 && small[k] * small[k] <= x && x % (small[k] as int) == 0
                        implies !#[trigger] sieve[x - low] && #[trigger] small[k] > 0 by {
                    if k == j {
                        assert(first_multiple <= x);
                    }
                }
            }
        }
        j += 1;
    }
    let mut r: Vec<usize> = Vec::new();
    let mut i: usize = 0;
    while i < segment_size
        invariant
            low <= high,
            segment_size == high - low + 1,
            sieve.len() == segment_size,
            0 <= i <= segment_size,
            forall|x: int| low <= x <= high && !sieve[x - low] ==> crossed(x, small@),
            forall|x: int, k: int|
                low <= x <= high && 0 <= k < small.len() && small[k] * small[k] <= x && x % (small[k] as int) == 0
                    ==> !#[trigger] sieve[x - low] && #[trigger] small[k] > 0,
            strictly_increasing(r@),
            forall|k: int| 0 <= k < r.len() ==> low <= #[trigger] r[k] < low + i && sieve[r[k] - low],
            forall|x: int| low <= x < low + i && sieve[x - low] ==> #[trigger] r@.contains(x as usize),
        decreases segment_size - i,
    {
        if sieve[i] {
            let ghost before = r@;
            r.push(low + i);
            proof {
                assert forall|x: int| low <= x < low + i + 1 && sieve[x - low] implies #[trigger] r@.contains(x as usize) by {
                    if x < low + i {
                        assert(before.contains(x as usize));
                        let k = choose|k: int| 0 <= k < before.len() && before[k] == x as usize;
                        assert(r@[k] == x as usize);
                    } else {
                        assert(r@[before.len() as int] == x as usize);
                    }
                }
            }
        }
        i += 1;
    }
    proof {
        assert forall|k: int| 0 <= k < r.len() implies low <= #[trigger] r[k] <= high && !crossed(r[k] as int, small@) by {
            if crossed(r[k] as int, small@) {
                let kk = choose|kk: int|
                    0 <= kk < small@.len() && #[trigger] small@[kk] * small@[kk] <= r[k] as int && (r[k] as int) % (small@[kk] as int) == 0;
                assert(!sieve[r[k] - low]);
            }
        }
        assert forall|x: int| low <= x <= high && !crossed(x, small@) implies #[trigger] r@.contains(x as usize) by {
            assert(sieve[x - low]);
        }
    }
    r
}

/// With `small` the primes up to `s`, and `s` at least the square root of `high`,
/// the numbers of `low..=high` (from 2 on) that the segmented sieve keeps are its primes.
pub proof fn lemma_segment_keeps_primes(x: int, small: Seq<usize>, s: int, high: int)
    requires
        primes_upto(small, s),
        s >= 0,
        2 <= x <= high <= usize::MAX,
        high < (s + 1) * (s + 1),
    ensures
        !crossed(x, small) <==> prime(x),
{
    lemma_spf(x);
    if prime(x) {
        if crossed(x, small) {
            let k = choose|k: int|
                0 <= k < small.len() && #[trigger] small[k] * small[k] <= x && x % (small[k] as int) == 0;
            let p = small[k] as int;
            assert(prime(p));
            if p < x {
                assert(x % p != 0);
            }
            assert(p * p > x) by (nonlinear_arith)
                requires
                    p >= x,
                    x >= 2,
            ;
        }
    } else {
        let p = spf(x);
        lemma_fundamental_div_mod(x, p);
        assert(p * p <= x) by {
            // x == p * q with q >= p, since q divides x and so q >= spf(x)
            let q = x / p;
            assert(q >= 2) by (nonlinear_arith)
                requires
                    x == p * q + 0,
                    p < x,
                    p >= 2,
            ;
            assert(x % q == 0) by {
                lemma_mul_is_commutative(p, q);
                lemma_mod_multiples_basic(p, q);
            }
            lemma_spf_minimal(x, q);
            assert(p * p <= p * q) by (nonlinear_arith)
                requires
                    p <= q,
                    p >= 0,
            ;
        }
        assert(p <= s) by (nonlinear_arith)
            requires
                p * p <= x,
                x <= high,
                high < (s + 1) * (s + 1),
                p >= 0,
                s >= -1,
        ;
        assert(small.contains(p as usize));
        let k = choose|k: int| 0 <= k < small.len() && small[k] == p as usize;
        assert(small[k] as int == p);
        assert(small[k] * small[k] <= x && x % (small[k] as int) == 0);
    }
}

/// `blocks` cut `start..=end` into consecutive blocks of `size` numbers, the last one
/// possibly shorter; none when `start > end`.
pub open spec fn blocks_cover(blocks: Seq<(usize, usize)>, start: int, end: int, size: int) -> bool {
    &&& start > end ==> blocks.len() == 0
    &&& start <= end ==> {
        &&& blocks.len() >= 1
        &&& blocks[0].0 == start
        &&& blocks.last().1 == end
    }
    &&& forall|k: int|
        0 <= k < blocks.len() ==> {
            &&& start <= #[trigger] blocks[k].0 <= blocks[k].1 <= end
            &&& blocks[k].1 == (if blocks[k].0 + size - 1 <= end {
                blocks[k].0 + size - 1
            } else {
                end
            })
        }
    &&& forall|k: int| 1 <= k < blocks.len() ==> #[trigger] blocks[k].0 == blocks[k - 1].1 + 1
}

/// The plan of the segmented sieve up to `limit`: `s = isqrt(limit) + 1`, the primes up
/// to `s`, and the blocks of `s` numbers that cover `s + 1..=limit`.
pub fn sieve_plan(limit: usize) -> (r: (usize, Vec<usize>, Vec<(usize, usize)>))
    requires
        limit <= usize::MAX / 2,
    ensures
        r.0 >= 1,
        (r.0 - 1) * (r.0 - 1) <= limit < r.0 * r.0,
        primes_upto(r.1@, r.0 as int),
        blocks_cover(r.2@, r.0 + 1, limit as int, r.0 as int),
{
    let root = isqrt(limit);
    proof {
        assert(root <= limit) by (nonlinear_arith)
            requires
                root * root <= limit,
        ;
    }
    let sqrt_limit = root + 1;
    proof {
        assert(sqrt_limit <= limit + 1) by (nonlinear_arith)
            requires
                (sqrt_limit - 1) * (sqrt_limit - 1) <= limit,
                sqrt_limit >= 1,
        ;
    }
    let small_primes = euler_sieve(sqrt_limit);
    let block_size = sqrt_limit;
    let start = sqrt_limit + 1;
    let end = limit;
    let mut blocks: Vec<(usize, usize)> = Vec::new();
    if start > end {
        return (sqrt_limit, small_primes, blocks);
    }
    let mut low = start;
    while low <= end
        invariant
            start <= low <= end + block_size,
            block_size >= 1,
            start == block_size + 1,
            end <= usize::MAX / 2,
            start <= end,
            block_size <= end + 1,
            blocks.len() == 0 ==> low == start,
            blocks.len() > 0 ==> blocks@.last().1 + 1 == low && blocks@[0].0 == start,
            forall|k: int|
                0 <= k < blocks.len() ==> {
                    &&& start <= #[trigger] blocks@[k].0 <= blocks@[k].1 <= end
                    &&& blocks@[k].1 == (if blocks@[k].0 + block_size - 1 <= end {
                        blocks@[k].0 + block_size - 1
                    } else {
                        end as int
                    })
                },
            forall|k: int| 1 <= k < blocks.len() ==> #[trigger] blocks@[k].0 == blocks@[k - 1].1 + 1,
            low <= end + 1,
        ensures
            low == end + 1,
            blocks.len() > 0,
            blocks@.last().1 + 1 == low,
            blocks@[0].0 == start,
            forall|k: int|
                0 <= k < blocks.len() ==> {
                    &&& start <= #[trigger] blocks@[k].0 <= blocks@[k].1 <= end
                    &&& blocks@[k].1 == (if blocks@[k].0 + block_size - 1 <= end {
                        blocks@[k].0 + block_size - 1
                    } else {
                        end as int
                    })
                },
            forall|k: int| 1 <= k < blocks.len() ==> #[trigger] blocks@[k].0 == blocks@[k - 1].1 + 1,
        decreases end + block_size - low,
    {
        let high = if low + block_size - 1 <= end { low + block_size - 1 } else { end };
        let ghost before = blocks@;
        blocks.push((low, high));
        proof {
            assert forall|k: int| 1 <= k < blocks.len() implies #[trigger] blocks@[k].0 == blocks@[k - 1].1 + 1 by {
                if k < before.len() {
                    assert(before[k].0 == before[k - 1].1 + 1);
                }
            }
        }
        low = high + 1;
        if high == end {
            break;
        }
    }
    (sqrt_limit, small_primes, blocks)
}

/// What [`sieve_segment`] gives back for the block `low..=high`: the numbers of the block
/// that no prime of `small` crosses out, in increasing order.
pub open spec fn segment_ok(r: Seq<usize>, low: int, high: int, small: Seq<usize>) -> bool {
    &&& strictly_increasing(r)
    &&& forall|k: int| 0 <= k < r.len() ==> low <= #[trigger] r[k] <= high && !crossed(r[k] as int, small)
    &&& forall|x: int| low <= x <= high && !crossed(x, small) ==> r.contains(x as usize)
}

/// What [`sieve_segment`] asks of a block and of the primes that cross out.
pub open spec fn segment_args_ok(low: int, high: int, small: Seq<usize>) -> bool {
    &&& low <= high < usize::MAX
    &&& forall|k: int| 0 <= k < small.len() ==> 2 <= #[trigger] small[k] && small[k] * small[k] <= usize::MAX && high + small[k] <= usize::MAX
}

/// Sieves every block, the blocks spread over rayon's thread pool (`par_iter`, `map`,
/// `collect`). The contract claims that rayon hands back one result per block, in the
/// order of the blocks, as its documentation shows for an indexed parallel iterator; each
/// result is then what the verified [`sieve_segment`] ensures.
#[verifier::external_body]
fn sieve_blocks(blocks: &Vec<(usize, usize)>, small: &Vec<usize>) -> (r: Vec<Vec<usize>>)
    requires
        forall|k: int| 0 <= k < blocks.len() ==> segment_args_ok(#[trigger] blocks[k].0 as int, blocks[k].1 as int, small@),
    ensures
        r.len() == blocks.len(),
        forall|k: int| 0 <= k < blocks.len() ==> segment_ok(#[trigger] r[k]@, blocks[k].0 as int, blocks[k].1 as int, small@),
{
    blocks.par_iter().map(|&(low, high)| sieve_segment(low, high, small)).collect()
}

/// All primes up to `limit` by the segmented sieve, the blocks sieved in parallel; when
/// `limit` is 1 the primes up to the square-root bound 2 are returned, that is `[2]`.
pub fn parallel_sieve(limit: usize) -> (r: Vec<usize>)
    requires
        limit <= usize::MAX / 2,
    ensures
        primes_upto(r@, if limit == 1 { 2 } else { limit as int }),
{
    let (sqrt_limit, small_primes, blocks) = sieve_plan(limit);
    proof {
        if limit >= 2 {
            assert(sqrt_limit <= limit) by (nonlinear_arith)
                requires
                    (sqrt_limit - 1) * (sqrt_limit - 1) <= limit,
                    limit < sqrt_limit * sqrt_limit,
                    limit >= 2,
                    sqrt_limit >= 1,
            ;
        }
        if limit == 0 {
            assert(sqrt_limit == 1) by (nonlinear_arith)
                requires
                    limit < sqrt_limit * sqrt_limit,
                    (sqrt_limit - 1) * (sqrt_limit - 1) <= limit,
                    limit == 0,
                    sqrt_limit >= 1,
            ;
        }
        if limit == 1 {
            assert(sqrt_limit == 2) by (nonlinear_arith)
                requires
                    limit < sqrt_limit * sqrt_limit,
                    (sqrt_limit - 1) * (sqrt_limit - 1) <= limit,
                    limit == 1,
                    sqrt_limit >= 1,
            ;
        }
    }
    let mut r = small_primes.clone();
    proof {
        assert(r@ =~= small_primes@);
        assert forall|k: int| 0 <= k < blocks.len() implies segment_args_ok(#[trigger] blocks@[k].0 as int, blocks@[k].1 as int, small_primes@) by {
            let high = blocks@[k].1;
            assert(blocks_cover(blocks@, sqrt_limit + 1, limit as int, sqrt_limit as int));
            assert(sqrt_limit + 1 <= blocks@[k].0 <= high <= limit);
            assert forall|j: int| 0 <= j < small_primes.len() implies 2 <= #[trigger] small_primes@[j]
                && small_primes@[j] * small_primes@[j] <= usize::MAX && high + small_primes@[j]
                <= usize::MAX by {
                assert(prime(small_primes@[j] as int));
                assert(small_primes@[j] <= sqrt_limit);
                assert(small_primes@[j] * small_primes@[j] <= sqrt_limit * sqrt_limit) by (nonlinear_arith)
                    requires
                        small_primes@[j] <= sqrt_limit,
                ;
                assert(sqrt_limit * sqrt_limit <= usize::MAX) by (nonlinear_arith)
                    requires
                        (sqrt_limit - 1) * (sqrt_limit - 1) <= limit,
                        limit <= usize::MAX / 2,
                        sqrt_limit >= 1,
                        sqrt_limit <= limit + 1,
                ;
            }
        }
    }
    let segments = sieve_blocks(&blocks, &small_primes);
    let mut b: usize = 0;
    while b < blocks.len()
        invariant
            0 <= b <= blocks.len(),
            limit <= usize::MAX / 2,
            sqrt_limit >= 1,
            (sqrt_limit - 1) * (sqrt_limit - 1) <= limit < sqrt_limit * sqrt_limit,
            primes_upto(small_primes@, sqrt_limit as int),
            blocks_cover(blocks@, sqrt_limit + 1, limit as int, sqrt_limit as int),
            segments.len() == blocks.len(),
            forall|k: int| 0 <= k < blocks.len() ==> segment_ok(#[trigger] segments@[k]@, blocks@[k].0 as int, blocks@[k].1 as int, small_primes@),
            primes_upto(r@, if b == 0 { sqrt_limit as int } else { blocks@[b - 1].1 as int }),
        decreases blocks.len() - b,
    {
        let (low, high) = blocks[b];
        proof {
            assert(low <= high <= limit);
            if b > 0 {
                assert(blocks@[b as int].0 == blocks@[b - 1].1 + 1);
            }
            assert(segment_ok(segments@[b as int]@, low as int, high as int, small_primes@));
        }
        let mut seg = segments[b].clone();
        let ghost before = r@;
        let ghost segv = seg@;
        proof {
            assert(segv == segments@[b as int]@);
        }
        r.append(&mut seg);
        proof {
            let prev: int = if b == 0 { sqrt_limit as int } else { blocks@[b - 1].1 as int };
            assert(low == prev + 1);
            assert(high < (sqrt_limit + 1) * (sqrt_limit + 1)) by (nonlinear_arith)
                requires
                    high <= limit,
                    limit < sqrt_limit * sqrt_limit,
                    sqrt_limit >= 1,
            ;
            assert forall|k: int| 0 <= k < segv.len() implies prime(segv[k] as int) by {
                lemma_segment_keeps_primes(segv[k] as int, small_primes@, sqrt_limit as int, high as int);
            }
            assert forall|i: int, j: int| 0 <= i < j < r@.len() implies r@[i] < r@[j] by {
                if j >= before.len() && i < before.len() {
                    assert(before[i] <= prev);
                    assert(segv[j - before.len()] >= low);
                }
            }
            assert forall|p: int| 0 <= p <= high && prime(p) implies r@.contains(p as usize) by {
                if p <= prev {
                    let k = choose|k: int| 0 <= k < before.len() && before[k] == p as usize;
                    assert(r@[k] == p as usize);
                } else {
                    lemma_segment_keeps_primes(p, small_primes@, sqrt_limit as int, high as int);
                    assert(segv.contains(p as usize));
                    let k = choose|k: int| 0 <= k < segv.len() && segv[k] == p as usize;
                    assert(r@[before.len() + k] == p as usize);
                }
            }
        }
        b += 1;
    }
    proof {
        if blocks.len() > 0 {
            assert(blocks@[blocks.len() - 1].1 == limit);
        }
    }
    r
}

} // verus!
