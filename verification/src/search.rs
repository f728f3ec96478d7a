//! The search for numbers `y` with `3^(3^27) = y - 4 (mod y)`: the candidates of a block
//! are the offsets that no small prime divides, and they are tested eight at a time with
//! the lane-wise Montgomery powers of [`crate::s52`].
use vstd::prelude::*;
use crate::pow::{chain13, chain14, pow, MulMod};
use crate::s52::{
    lane_powers_exact, lanes_pow, lemma_form_exact, lemma_lanes_pow, lemma_mont52_pow_agrees,
    lemma_pow_form_lanes_below, pow_form_lanes, r52, r52_inv, redc52_spec, Base, Mul52,
};
use vstd::arithmetic::power::pow as power;

verus! {

/// The remainder that the search looks for: `3^(3^27) + REM = y (mod y)`.
pub const REM: u64 = 4;

/// The sieve of [`coprime_offsets`] crosses out `j`: `p` divides it and `j` is below the
/// last multiple of `p` under `block`.
pub open spec fn crossed_by(j: int, p: int, block: int) -> bool {
    j % p == 0 && j < (block / p) * p
}

/// Some prime of `primes` crosses out `j`.
pub open spec fn crossed_out(j: int, primes: Seq<u64>, block: int) -> bool {
    exists|k: int| 0 <= k < primes.len() && #[trigger] crossed_by(j, primes[k] as int, block)
}

/// The offsets `plus + j`, `j` in `0..block`, that no prime of `primes` crosses out, in
/// increasing order; with `block` the product of the primes, the numbers of the block that
/// are coprime to all of them.
pub fn coprime_offsets(primes: &Vec<u64>, block: u64, plus: u64) -> (r: Vec<u64>)
    requires
        forall|k: int| 0 <= k < primes.len() ==> primes[k] >= 1,
        block <= usize::MAX,
        plus + block <= u64::MAX,
    ensures
        forall|t: int|
            0 <= t < r.len() ==> plus <= #[trigger] r@[t] < plus + block && !crossed_out(r@[t] - plus, primes@, block as int),
        forall|j: int| 0 <= j < block && !crossed_out(j, primes@, block as int) ==> r@.contains((plus + j) as u64),
        forall|a: int, b: int| 0 <= a < b < r.len() ==> r@[a] < r@[b],
{
    let n = block as usize;
    let mut marks: Vec<bool> = Vec::new();
    while marks.len() < n
        invariant
            marks.len() <= n,
            forall|j: int| 0 <= j < marks.len() ==> marks@[j],
        decreases n - marks.len(),
    {
        marks.push(true);
    }
    let mut k: usize = 0;
    while k < primes.len()
        invariant
            n == block,
            marks.len() == n,
            0 <= k <= primes.len(),
            forall|q: int| 0 <= q < primes.len() ==> primes[q] >= 1,
            forall|j: int| 0 <= j < n ==> (#[trigger] marks@[j] <==> !exists|q: int| 0 <= q < k && #[trigger] crossed_by(j, primes[q] as int, block as int)),
        decreases primes.len() - k,
    {
        let p = primes[k];
        let lim = block / p;
        let mut i: u64 = 0;
        proof {
            assert(lim * p <= block) by (nonlinear_arith)
                requires
                    lim == block / p,
                    p >= 1,
            {
                vstd::arithmetic::div_mod::lemma_fundamental_div_mod(block as int, p as int);
            }
        }
        while i < lim
            invariant
                n == block,
                marks.len() == n,
                0 <= k < primes.len(),
                p == primes[k as int],
                p >= 1,
                lim == block / p,
                lim * p <= block,
                0 <= i <= lim,
                forall|j: int| 0 <= j < n ==> (#[trigger] marks@[j] <==> !(exists|q: int| 0 <= q < k && #[trigger] crossed_by(j, primes[q] as int, block as int))
                    && !exists|e: int| 0 <= e < i && j == #[trigger] (e * p)),
            decreases lim - i,
        {
            proof {
                assert(i * p < lim * p) by (nonlinear_arith)
                    requires
                        i < lim,
                        p >= 1,
                ;
            }
            let pos = (i * p) as usize;
            marks.set(pos, false);
            proof {
                assert forall|j: int| 0 <= j < n implies (#[trigger] marks@[j] <==> !(exists|q: int| 0 <= q < k && #[trigger] crossed_by(j, primes[q] as int, block as int))
                    && !exists|e: int| 0 <= e < i + 1 && j == #[trigger] (e * p)) by {
                    if j == i * p {
                        assert(j == i * p);
                    }
                }
            }
            i += 1;
        }
        proof {
            assert forall|j: int| 0 <= j < n implies (#[trigger] marks@[j] <==> !exists|q: int| 0 <= q < k + 1 && #[trigger] crossed_by(j, primes[q] as int, block as int)) by {
                if crossed_by(j, p as int, block as int) {
                    let e = j / p as int;
                    vstd::arithmetic::div_mod::lemma_fundamental_div_mod(j, p as int);
                    assert(j == e * p) by (nonlinear_arith)
                        requires
                            j == p * (j / p as int) + j % (p as int),
                            j % (p as int) == 0,
                            e == j / p as int,
                    ;
                    assert(e < lim) by (nonlinear_arith)
                        requires
                            j == e * p,
                            j < lim * p,
                            p >= 1,
                    ;
                    assert(0 <= e) by (nonlinear_arith)
                        requires
                            j == e * p,
                            j >= 0,
                            p >= 1,
                    ;
                }
                if exists|e: int| 0 <= e < lim && j == #[trigger] (e * p) {
                    let e = choose|e: int| 0 <= e < lim && j == #[trigger] (e * p);
                    vstd::arithmetic::div_mod::lemma_mod_multiples_basic(e, p as int);
                    assert(j < lim * p) by (nonlinear_arith)
                        requires
                            j == e * p,
                            e < lim,
                            p >= 1,
                    ;
                    assert(crossed_by(j, primes[k as int] as int, block as int));
                }
            }
        }
        k += 1;
    }
    let mut r: Vec<u64> = Vec::new();
    let mut j: usize = 0;
    while j < n
        invariant
            n == block,
            plus + block <= u64::MAX,
            marks.len() == n,
            0 <= j <= n,
            forall|x: int| 0 <= x < n ==> (#[trigger] marks@[x] <==> !crossed_out(x, primes@, block as int)),
            forall|t: int| 0 <= t < r.len() ==> plus <= #[trigger] r@[t] < plus + j && !crossed_out(r@[t] - plus, primes@, block as int),
            forall|x: int| 0 <= x < j && !crossed_out(x, primes@, block as int) ==> r@.contains((plus + x) as u64),
            forall|a: int, b: int| 0 <= a < b < r.len() ==> r@[a] < r@[b],
        decreases n - j,
    {
        let ghost before = r@;
        if marks[j] {
            r.push(plus + j as u64);
        }
        proof {
            assert forall|x: int| 0 <= x < j + 1 && !crossed_out(x, primes@, block as int) implies r@.contains((plus + x) as u64) by {
                if x < j {
                    let t = choose|t: int| 0 <= t < before.len() && before[t] == (plus + x) as u64;
                    assert(r@[t] == (plus + x) as u64);
                } else {
                    assert(r@[r.len() - 1] == (plus + x) as u64);
                }
            }
        }
        j += 1;
    }
    r
}

/// The eight candidates of chunk `c`: `idx[8c..8c+8]` moved by `offset`.
pub open spec fn chunk_lanes(idx: Seq<u64>, offset: u64, c: int) -> [u64; 8] {
    [
        (idx[8 * c] + offset) as u64,
        (idx[8 * c + 1] + offset) as u64,
        (idx[8 * c + 2] + offset) as u64,
        (idx[8 * c + 3] + offset) as u64,
        (idx[8 * c + 4] + offset) as u64,
        (idx[8 * c + 5] + offset) as u64,
        (idx[8 * c + 6] + offset) as u64,
        (idx[8 * c + 7] + offset) as u64,
    ]
}

/// The lane-wise Montgomery forms of `3` modulo the lanes of `m`.
pub open spec fn three_forms(m: [u64; 8]) -> Base {
    Base([
        redc52_spec(3, (r52() * r52()) % (m[0] as int), m[0] as int) as u64,
        redc52_spec(3, (r52() * r52()) % (m[1] as int), m[1] as int) as u64,
        redc52_spec(3, (r52() * r52()) % (m[2] as int), m[2] as int) as u64,
        redc52_spec(3, (r52() * r52()) % (m[3] as int), m[3] as int) as u64,
        redc52_spec(3, (r52() * r52()) % (m[4] as int), m[4] as int) as u64,
        redc52_spec(3, (r52() * r52()) % (m[5] as int), m[5] as int) as u64,
        redc52_spec(3, (r52() * r52()) % (m[6] as int), m[6] as int) as u64,
        redc52_spec(3, (r52() * r52()) % (m[7] as int), m[7] as int) as u64,
    ])
}

/// The number that lane `i` of the power chain stands for: the chain from the forms of
/// `3`, converted back. Where the reductions along the chain are exact it is
/// `3^(3^27) mod m[i]` (see [`chunk_law`], which [`block_hits`] states of every chunk).
pub open spec fn lane_value(m: [u64; 8], i: int) -> int {
    redc52_spec(lanes_pow(Base(m), three_forms(m)).0[i] as int, 1, m[i] as int)
}

/// The exponent `3^27` of the power chain.
pub open spec fn chain_exp() -> nat {
    7625597484987
}

/// In every lane of `m` the form of `3` is the exact Montgomery form `3 * 2^52 mod m[i]`
/// and the reductions along its powers up to `3^27` are exact.
pub open spec fn lanes_exact(m: [u64; 8]) -> bool {
    forall|i: int|
        0 <= i < 8 ==> (3 * ((r52() * r52()) % (m[i] as int))) % r52() != 0 && lane_powers_exact(
            three_forms(m).0[i] as int,
            m[i] as int,
            chain_exp(),
        )
}

/// Where the reductions of every lane of `m` are exact, each lane's value is
/// `3^(3^27) mod m[l]`, unless that is 0.
#[verifier::opaque]
pub open spec fn chunk_law(m: [u64; 8]) -> bool {
    lanes_exact(m) ==> forall|l: int|
        0 <= l < 8 && power(3, chain_exp()) % (m[l] as int) != 0 ==> #[trigger] lane_value(m, l)
            == power(3, chain_exp()) % (m[l] as int)
}

/// The candidates among the first `n` lanes of `m` that the test finds.
pub open spec fn lane_hits(m: [u64; 8], n: int) -> Seq<u64>
    decreases n,
{
    if n <= 0 {
        Seq::empty()
    } else {
        lane_hits(m, n - 1) + (if lane_value(m, n - 1) + REM == m[n - 1] { seq![m[n - 1]] } else { Seq::empty() })
    }
}

/// The candidates of the first `c` chunks that the test finds, in order.
pub open spec fn hits_upto(idx: Seq<u64>, offset: u64, c: int) -> Seq<u64>
    decreases c,
{
    if c <= 0 {
        Seq::empty()
    } else {
        hits_upto(idx, offset, c - 1) + lane_hits(chunk_lanes(idx, offset, c - 1), 8)
    }
}

proof fn lemma_three_forms(lanes: [u64; 8])
    requires
        forall|i: int| 0 <= i < 8 ==> lanes[i] % 2 == 1 && 0 < lanes[i] < r52(),
        forall|i: int| 0 <= i < 8 ==> (3 * ((r52() * r52()) % (lanes[i] as int))) % r52() != 0,
    ensures
        forall|i: int| 0 <= i < 8 ==> three_forms(lanes).0[i] == ((3int % r52()) * r52()) % (lanes[i] as int),
{
    vstd::arithmetic::div_mod::lemma_small_mod(3, r52() as nat);
    assert forall|i: int| 0 <= i < 8 implies three_forms(lanes).0[i] == ((3int % r52()) * r52()) % (lanes[i] as int) by {
        lemma_form_exact(3, lanes[i] as int);
        vstd::arithmetic::div_mod::lemma_mod_bound((3int % r52()) * r52(), lanes[i] as int);
        assert(three_forms(lanes).0[i] == redc52_spec(3, (r52() * r52()) % (lanes[i] as int), lanes[i] as int) as u64) by {
            if i == 0 {} else if i == 1 {} else if i == 2 {} else if i == 3 {}
            else if i == 4 {} else if i == 5 {} else if i == 6 {} else {}
        }
    }
}

proof fn lemma_lane_value_at(lanes: [u64; 8], l: int)
    requires
        0 <= l < 8,
        0 < lanes[l] < r52(),
        0 <= lanes_pow(Base(lanes), three_forms(lanes)).0[l] < lanes[l],
        (lanes_pow(Base(lanes), three_forms(lanes)).0[l] * r52_inv(lanes[l] as int)) % (lanes[l] as int)
            == power(3, chain_exp()) % (lanes[l] as int),
        power(3, chain_exp()) % (lanes[l] as int) != 0,
    ensures
        lane_value(lanes, l) == power(3, chain_exp()) % (lanes[l] as int),
{
    let m = lanes[l] as int;
    let v = lanes_pow(Base(lanes), three_forms(lanes)).0[l];
    assert(v != 0) by {
        if v == 0 {
            vstd::arithmetic::mul::lemma_mul_basics(r52_inv(m));
            assert((v as int) * r52_inv(m) == 0);
            vstd::arithmetic::div_mod::lemma_small_mod(0, m as nat);
        }
    }
    vstd::arithmetic::div_mod::lemma_small_mod(v as nat, r52() as nat);
    vstd::arithmetic::div_mod::lemma_small_mod(1, r52() as nat);
    assert((v as int * 1) % r52() == v as int);
}

/// Where the reductions are exact, the value of each lane of the power chain is
/// `3^(3^27) mod m`, unless that is 0.
proof fn lemma_lane_law(mont: Mul52, lanes: [u64; 8], p: Base)
    requires
        mont.wf(),
        mont.modulus().0 == lanes,
        p == lanes_pow(Base(lanes), three_forms(lanes)),
        mont.pow_pre(three_forms(lanes), chain_exp()) ==> p == mont.pow_spec(three_forms(lanes), chain_exp()),
    ensures
        chunk_law(lanes),
{
    reveal(chunk_law);
    let x = three_forms(lanes);
    assert(Base(lanes) == mont.modulus());
    if lanes_exact(lanes) {
        let a = [3u64, 3, 3, 3, 3, 3, 3, 3];
        lemma_three_forms(lanes);
        assert forall|i: int| 0 <= i < 8 implies x.0[i] == (((a[i] as int) % r52()) * r52()) % (mont.modulus().0[i] as int) by {
            assert(a[i] == 3);
        }
        mont.lemma_pow_pre(x, chain_exp());
        lemma_mont52_pow_agrees(mont, x, a, chain_exp());
        assert forall|l: int| 0 <= l < 8 && power(3, chain_exp()) % (lanes[l] as int) != 0 implies #[trigger] lane_value(lanes, l)
            == power(3, chain_exp()) % (lanes[l] as int) by {
            assert(a[l] == 3);
            mont.lemma_pow_spec(x, chain_exp());
            lemma_pow_form_lanes_below(x, chain_exp(), Base(lanes), l);
            lemma_lane_value_at(lanes, l);
        }
    }
}

/// The candidates of one chunk that the test finds, in lane order.
fn chunk_hits(lanes: [u64; 8]) -> (r: Vec<u64>)
    requires
        forall|l: int| 0 <= l < 8 ==> lanes[l] % 2 == 1 && REM <= lanes[l] < r52(),
    ensures
        r@ == lane_hits(lanes, 8),
        chunk_law(lanes),
{
    let mont = Mul52::new(Base::new(lanes));
    let x = mont.num_to_mont([3u64, 3, 3, 3, 3, 3, 3, 3]);
    proof {
        let t = three_forms(lanes);
        assert(x.0[0] == t.0[0]);
        assert(x.0[1] == t.0[1]);
        assert(x.0[2] == t.0[2]);
        assert(x.0[3] == t.0[3]);
        assert(x.0[4] == t.0[4]);
        assert(x.0[5] == t.0[5]);
        assert(x.0[6] == t.0[6]);
        assert(x.0[7] == t.0[7]);
        assert(x.0@ =~= t.0@);
        assert(x.0 =~= t.0);
        assert(x == t);
        mont.lemma_dom(x);
    }
    let p = pow(x, mont);
    proof {
        lemma_lanes_pow(mont, x);
        lemma_lane_law(mont, lanes, p);
    }
    let v = mont.mont_to_num(p);
    let mut r: Vec<u64> = Vec::new();
    let mut i: usize = 0;
    while i < 8
        invariant
            0 <= i <= 8,
            forall|l: int| 0 <= l < 8 ==> lanes[l] < r52(),
            forall|l: int| 0 <= l < 8 ==> #[trigger] v[l] < lanes[l] && v[l] == lane_value(lanes, l),
            r@ == lane_hits(lanes, i as int),
        decreases 8 - i,
    {
        proof {
            assert(v[i as int] < lanes[i as int] < r52());
        }
        if v[i] + REM == lanes[i] {
            r.push(lanes[i]);
        }
        proof {
            assert(r@ =~= lane_hits(lanes, i + 1));
        }
        i += 1;
    }
    r
}

/// The candidates `idx[k] + offset`, taken eight at a time, whose lane of the power chain
/// stands for `candidate - REM`: in a chunk whose reductions are exact, those with
/// `3^(3^27) = candidate - REM (mod candidate)`.
#[verifier::rlimit(30)]
pub fn block_hits(idx: &Vec<u64>, offset: u64) -> (r: Vec<u64>)
    requires
        idx.len() % 8 == 0,
        forall|k: int|
            0 <= k < idx.len() ==> (#[trigger] idx[k] + offset) % 2 == 1 && REM <= idx[k] + offset < r52(),
    ensures
        r@ == hits_upto(idx@, offset, (idx.len() / 8) as int),
        forall|c: int| 0 <= c < idx.len() / 8 ==> #[trigger] chunk_law(chunk_lanes(idx@, offset, c)),
{
    let mut r: Vec<u64> = Vec::new();
    let mut c: usize = 0;
    let chunks = idx.len() / 8;
    while c < chunks
        invariant
            chunks == idx.len() / 8,
            idx.len() % 8 == 0,
            forall|k: int|
                0 <= k < idx.len() ==> (#[trigger] idx[k] + offset) % 2 == 1 && REM <= idx[k] + offset < r52(),
            0 <= c <= chunks,
            r@ == hits_upto(idx@, offset, c as int),
            forall|c2: int| 0 <= c2 < c ==> #[trigger] chunk_law(chunk_lanes(idx@, offset, c2)),
        decreases chunks - c,
    {
        let b = 8 * c;
        let lanes: [u64; 8] = [
            idx[b] + offset,
            idx[b + 1] + offset,
            idx[b + 2] + offset,
            idx[b + 3] + offset,
            idx[b + 4] + offset,
            idx[b + 5] + offset,
            idx[b + 6] + offset,
            idx[b + 7] + offset,
        ];
        proof {
            assert(lanes == chunk_lanes(idx@, offset, c as int));
        }
        let mut found = chunk_hits(lanes);
        proof {
            assert(r@ + found@ == hits_upto(idx@, offset, c + 1));
            assert forall|c2: int| 0 <= c2 < c + 1 implies #[trigger] chunk_law(chunk_lanes(idx@, offset, c2)) by {
                if c2 == c {
                    assert(chunk_law(lanes));
                }
            }
        }
        r.append(&mut found);
        c += 1;
    }
    r
}

} // verus!
