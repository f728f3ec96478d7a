//! Pythagorean triples, for the Boolean Pythagorean triples problem: colour `1..=to` with two
//! colours so that no triple `a² + b² = c²` is of one colour.
use vstd::prelude::*;
use crate::satmul::IntSet;
use crate::cnf::{clause_holds, lit_holds};

verus! {

/// `(a, b, c)` is a Pythagorean triple with `1 <= a <= b`.
pub open spec fn triple(a: int, b: int, c: int) -> bool {
    1 <= a <= b && a * a + b * b == c * c
}

/// `(a, b)` comes before `(a2, b2)`, by `c` and then by `a`, for triples laid out `[a, b, c]`.
pub open spec fn triple_before(p: [i32; 3], q: [i32; 3]) -> bool {
    p[2] < q[2] || (p[2] == q[2] && p[0] < q[0])
}

/// The integer square root of `x`.
pub(crate) fn isqrt64(x: u64) -> (r: u64)
    ensures
        r * r <= x < (r + 1) * (r + 1),
{
    let mut lo: u64 = 0;
    let mut hi: u64 = 0x1_0000_0000;
    proof {
        assert(x < hi * hi) by (nonlinear_arith)
            requires
                hi == 0x1_0000_0000,
                x <= u64::MAX,
        ;
    }
    while hi - lo > 1
        invariant
            lo < hi <= 0x1_0000_0000,
            lo * lo <= x < hi * hi,
        decreases hi - lo,
    {
        let mid = lo + (hi - lo) / 2;
        proof {
            assert(mid * mid <= 0xffff_ffff * 0xffff_ffff) by (nonlinear_arith)
                requires
                    mid < 0x1_0000_0000,
            ;
        }
        if mid * mid <= x {
            lo = mid;
        } else {
            hi = mid;
        }
    }
    proof {
        assert(hi == lo + 1);
    }
    lo
}

proof fn lemma_square_mono(a: int, b: int)
    requires
        0 <= a <= b,
    ensures
        a * a <= b * b,
{
    assert(a * a <= b * b) by (nonlinear_arith)
        requires
            0 <= a <= b,
    ;
}

/// Appends the triples `[a, b, c]` of hypotenuse `c`, by increasing `a`.
fn push_triples(c: i32, target: &mut Vec<[i32; 3]>)
    ensures
        final(target)@.len() >= old(target)@.len(),
        final(target)@.subrange(0, old(target)@.len() as int) == old(target)@,
        forall|t: int|
            old(target)@.len() <= t < final(target)@.len() ==> (#[trigger] final(target)@[t])[2] == c && triple(
                final(target)@[t][0] as int,
                final(target)@[t][1] as int,
                c as int,
            ),
        forall|a: int, b: int|
            triple(a, b, c as int) ==> exists|t: int|
                old(target)@.len() <= t < final(target)@.len() && #[trigger] final(target)@[t] == [a as i32, b as i32, c],
        forall|s: int, t: int|
            old(target)@.len() <= s < t < final(target)@.len() ==> final(target)@[s][0] < final(target)@[t][0],
{
    let m: u64 = if c < 0 { (-(c as i64)) as u64 } else { c as u64 };
    proof {
        assert(m * m <= 0x8000_0000 * 0x8000_0000) by (nonlinear_arith)
            requires
                0 <= m <= 0x8000_0000,
        ;
        assert(m * m == c * c) by (nonlinear_arith)
            requires
                m == c || m == -c,
        ;
    }
    let csq: u64 = m * m;
    let top = isqrt64(csq / 2);
    let ghost start = target@;
    proof {
        assert(top * top <= m * m) by (nonlinear_arith)
            requires
                top * top <= csq / 2,
                csq == m * m,
        ;
        assert(top < 0x8000_0000) by (nonlinear_arith)
            requires
                top * top <= csq / 2,
                csq <= 0x8000_0000 * 0x8000_0000,
        {
            if top >= 0x8000_0000 {
                lemma_square_mono(0x8000_0000, top as int);
            }
        }
        if top > m {
            lemma_square_mono(m as int + 1, top as int);
            assert((m + 1) * (m + 1) > m * m) by (nonlinear_arith)
                requires
                    m >= 0,
            ;
        }
    }
    let mut a: u64 = 1;
    while a <= top
        invariant
            csq == c * c,
            csq == m * m,
            m <= 0x8000_0000,
            csq <= 0x8000_0000 * 0x8000_0000,
            top * top <= csq / 2 < (top + 1) * (top + 1),
            top <= m,
            top < 0x8000_0000,
            1 <= a <= top + 1,
            target@.len() >= start.len(),
            target@.subrange(0, start.len() as int) == start,
            forall|t: int|
                start.len() <= t < target@.len() ==> (#[trigger] target@[t])[2] == c && triple(
                    target@[t][0] as int,
                    target@[t][1] as int,
                    c as int,
                ) && target@[t][0] < a,
            forall|x: int, y: int|
                triple(x, y, c as int) && x < a ==> exists|t: int|
                    start.len() <= t < target@.len() && #[trigger] target@[t] == [x as i32, y as i32, c],
            forall|s: int, t: int| start.len() <= s < t < target@.len() ==> target@[s][0] < target@[t][0],
        decreases top + 1 - a,
    {
        proof {
            lemma_square_mono(a as int, top as int);
        }
        let bsq = csq - a * a;
        let b = isqrt64(bsq);
        let ghost before = target@;
        if b * b == bsq {
            proof {
                assert(a * a <= b * b) by (nonlinear_arith)
                    requires
                        a * a <= csq / 2,
                        b * b == csq - a * a,
                ;
                if a > b {
                    lemma_square_mono(b as int + 1, a as int);
                }
                assert(b <= m) by (nonlinear_arith)
                    requires
                        b * b <= m * m,
                        b >= 0,
                        m >= 0,
                {
                    if b > m {
                        assert(b * b > m * m) by (nonlinear_arith)
                            requires
                                b > m,
                                m >= 0,
                        ;
                    }
                }
            }
            proof {
                assert(b < 0x8000_0000) by (nonlinear_arith)
                    requires
                        b * b == csq - a * a,
                        a >= 1,
                        csq <= 0x8000_0000 * 0x8000_0000,
                {
                    if b >= 0x8000_0000 {
                        lemma_square_mono(0x8000_0000, b as int);
                    }
                }
            }
            target.push([a as i32, b as i32, c]);
            proof {
                assert(target@.subrange(0, start.len() as int) =~= before.subrange(0, start.len() as int));
            }
        }
        proof {
            assert forall|x: int, y: int| triple(x, y, c as int) && x < a + 1 implies exists|t: int|
                start.len() <= t < target@.len() && #[trigger] target@[t] == [x as i32, y as i32, c] by {
                if x < a {
                    let t = choose|t: int| start.len() <= t < before.len() && #[trigger] before[t] == [x as i32, y as i32, c];
                    assert(target@[t] == before[t]);
                } else {
                    assert(y * y == bsq);
                    assert(y == b) by (nonlinear_arith)
                        requires
                            y >= 0,
                            b >= 0,
                            b * b <= y * y < (b + 1) * (b + 1),
                    {
                        if y < b {
                            assert(y * y < b * b) by (nonlinear_arith)
                                requires
                                    0 <= y < b,
                            ;
                        }
                        if y > b {
                            assert(y * y >= (b + 1) * (b + 1)) by (nonlinear_arith)
                                requires
                                    0 <= b < y,
                            ;
                        }
                    }
                    assert(target@[before.len() as int] == [x as i32, y as i32, c]);
                }
            }
            assert forall|t: int| start.len() <= t < target@.len() implies (#[trigger] target@[t])[2] == c && triple(
                target@[t][0] as int,
                target@[t][1] as int,
                c as int,
            ) && target@[t][0] < a + 1 by {
                if t < before.len() {
                    assert(target@[t] == before[t]);
                }
            }
            assert forall|s: int, t: int| start.len() <= s < t < target@.len() implies target@[s][0] < target@[t][0] by {
                if t < before.len() {
                    assert(target@[t] == before[t] && target@[s] == before[s]);
                } else {
                    assert(target@[s] == before[s]);
                }
            }
        }
        a += 1;
    }
    proof {
        assert forall|x: int, y: int| triple(x, y, c as int) implies exists|t: int|
            start.len() <= t < target@.len() && #[trigger] target@[t] == [x as i32, y as i32, c] by {
            assert(2 * (x * x) <= x * x + y * y) by (nonlinear_arith)
                requires
                    1 <= x <= y,
            ;
            assert(x * x + y * y == csq);
            assert(x * x <= csq / 2);
            if x > top {
                lemma_square_mono(top as int + 1, x);
            }
            assert(x < top + 1);
        }
    }
}

/// Appends the triples `(a, b, c)` of hypotenuse `c`, `1 <= a <= b`, by increasing `a`.
pub fn shanggao(c: i32, target: &mut Vec<(i32, i32, i32)>)
    ensures
        final(target)@.len() >= old(target)@.len(),
        final(target)@.subrange(0, old(target)@.len() as int) == old(target)@,
        forall|t: int|
            old(target)@.len() <= t < final(target)@.len() ==> (#[trigger] final(target)@[t]).2 == c && triple(
                final(target)@[t].0 as int,
                final(target)@[t].1 as int,
                c as int,
            ),
        forall|a: int, b: int|
            triple(a, b, c as int) ==> exists|t: int|
                old(target)@.len() <= t < final(target)@.len() && #[trigger] final(target)@[t] == (a as i32, b as i32, c),
        forall|s: int, t: int|
            old(target)@.len() <= s < t < final(target)@.len() ==> final(target)@[s].0 < final(target)@[t].0,
{
    let mut found: Vec<[i32; 3]> = Vec::new();
    push_triples(c, &mut found);
    proof {
        assert(found@.subrange(0, 0) =~= Seq::<[i32; 3]>::empty());
    }
    let ghost start = target@;
    let mut k: usize = 0;
    while k < found.len()
        invariant
            target@.len() == start.len() + k,
            0 <= k <= found.len(),
            target@.subrange(0, start.len() as int) == start,
            forall|t: int| 0 <= t < found.len() ==> (#[trigger] found@[t])[2] == c && triple(found@[t][0] as int, found@[t][1] as int, c as int),
            forall|s: int, t: int| 0 <= s < t < found.len() ==> found@[s][0] < found@[t][0],
            forall|t: int| 0 <= t < k ==> #[trigger] target@[start.len() + t] == (found@[t][0], found@[t][1], found@[t][2]),
        decreases found.len() - k,
    {
        let e = found[k];
        let ghost before = target@;
        target.push((e[0], e[1], e[2]));
        proof {
            assert(target@.subrange(0, start.len() as int) =~= before.subrange(0, start.len() as int));
        }
        k += 1;
    }
    proof {
        assert forall|t: int| start.len() <= t < target@.len() implies (#[trigger] target@[t]).2 == c && triple(
            target@[t].0 as int,
            target@[t].1 as int,
            c as int,
        ) by {
            assert(target@[start.len() + (t - start.len())] == (found@[t - start.len()][0], found@[t - start.len()][1], found@[t - start.len()][2]));
        }
        assert forall|a: int, b: int| triple(a, b, c as int) implies exists|t: int|
            start.len() <= t < target@.len() && #[trigger] target@[t] == (a as i32, b as i32, c) by {
            let u = choose|u: int| 0 <= u < found@.len() && #[trigger] found@[u] == [a as i32, b as i32, c];
            assert(target@[start.len() + u] == (a as i32, b as i32, c));
        }
        assert forall|s: int, t: int| start.len() <= s < t < target@.len() implies target@[s].0 < target@[t].0 by {
            assert(target@[start.len() + (s - start.len())] == (found@[s - start.len()][0], found@[s - start.len()][1], found@[s - start.len()][2]));
            assert(target@[start.len() + (t - start.len())] == (found@[t - start.len()][0], found@[t - start.len()][1], found@[t - start.len()][2]));
        }
    }
}

/// Appends the triples `[a, b, c]` of hypotenuse `c`, `1 <= a <= b`, by increasing `a`.
pub fn shanggao_simplified(c: i32, target: &mut Vec<[i32; 3]>)
    ensures
        final(target)@.len() >= old(target)@.len(),
        final(target)@.subrange(0, old(target)@.len() as int) == old(target)@,
        forall|t: int|
            old(target)@.len() <= t < final(target)@.len() ==> (#[trigger] final(target)@[t])[2] == c && triple(
                final(target)@[t][0] as int,
                final(target)@[t][1] as int,
                c as int,
            ),
        forall|a: int, b: int|
            triple(a, b, c as int) ==> exists|t: int|
                old(target)@.len() <= t < final(target)@.len() && #[trigger] final(target)@[t] == [a as i32, b as i32, c],
        forall|s: int, t: int|
            old(target)@.len() <= s < t < final(target)@.len() ==> final(target)@[s][0] < final(target)@[t][0],
{
    push_triples(c, target);
}

/// `x` is an entry of one of the triples.
pub open spec fn appears(triples: Seq<[i32; 3]>, x: int) -> bool {
    exists|t: int, m: int| 0 <= t < triples.len() && 0 <= m < 3 && #[trigger] triples[t][m] == x
}

/// The triples `[a, b, c]` with `5 <= c <= to`, by `c` and then by `a`.
pub fn pythagorean_triples(to: i32) -> (r: Vec<[i32; 3]>)
    ensures
        forall|t: int| 0 <= t < r.len() ==> 5 <= (#[trigger] r@[t])[2] <= to && triple(r@[t][0] as int, r@[t][1] as int, r@[t][2] as int),
        forall|a: int, b: int, c: int| triple(a, b, c) && 5 <= c <= to ==> exists|t: int| 0 <= t < r.len() && #[trigger] r@[t] == [a as i32, b as i32, c as i32],
        forall|s: int, t: int| 0 <= s < t < r.len() ==> triple_before(r@[s], r@[t]),
{
    let mut r: Vec<[i32; 3]> = Vec::new();
    if to < 5 {
        return r;
    }
    let mut c: i64 = 5;
    while c <= to as i64
        invariant
            5 <= c <= to + 1,
            to >= 5,
            forall|t: int| 0 <= t < r.len() ==> 5 <= (#[trigger] r@[t])[2] < c && triple(r@[t][0] as int, r@[t][1] as int, r@[t][2] as int),
            forall|a: int, b: int, cc: int| triple(a, b, cc) && 5 <= cc < c ==> exists|t: int| 0 <= t < r.len() && #[trigger] r@[t] == [a as i32, b as i32, cc as i32],
            forall|s: int, t: int| 0 <= s < t < r.len() ==> triple_before(r@[s], r@[t]),
        decreases to + 1 - c,
    {
        let ghost before = r@;
        push_triples(c as i32, &mut r);
        proof {
            assert((c as i32) as int == c);
            assert forall|t: int| 0 <= t < r.len() implies 5 <= (#[trigger] r@[t])[2] < c + 1 && triple(r@[t][0] as int, r@[t][1] as int, r@[t][2] as int) by {
                if t < before.len() {
                    assert(r@.subrange(0, before.len() as int)[t] == before[t]);
                    assert(r@[t] == before[t]);
                    assert(5 <= before[t][2] < c);
                } else {
                    assert(r@[t][2] == c as i32);
                    assert(triple(r@[t][0] as int, r@[t][1] as int, (c as i32) as int));
                }
            }
            assert forall|a: int, b: int, cc: int| triple(a, b, cc) && 5 <= cc < c + 1 implies exists|t: int| 0 <= t < r.len() && #[trigger] r@[t] == [a as i32, b as i32, cc as i32] by {
                if cc < c {
                    let t = choose|t: int| 0 <= t < before.len() && #[trigger] before[t] == [a as i32, b as i32, cc as i32];
                    assert(r@.subrange(0, before.len() as int)[t] == before[t]);
                }
            }
            assert forall|s: int, t: int| 0 <= s < t < r.len() implies triple_before(r@[s], r@[t]) by {
                if t < before.len() {
                    assert(r@.subrange(0, before.len() as int)[t] == before[t]);
                    assert(r@.subrange(0, before.len() as int)[s] == before[s]);
                } else if s < before.len() {
                    assert(r@.subrange(0, before.len() as int)[s] == before[s]);
                }
            }
        }
        c += 1;
    }
    r
}

/// The numbers of `1..=to` that are in no triple, in increasing order.
pub fn lonely_numbers(to: i32, triples: &Vec<[i32; 3]>) -> (r: Vec<i32>)
    requires
        to < i32::MAX,
    ensures
        forall|k: int| 0 <= k < r.len() ==> 1 <= #[trigger] r@[k] <= to && !appears(triples@, r@[k] as int),
        forall|x: int| 1 <= x <= to && !appears(triples@, x) ==> r@.contains(x as i32),
        forall|a: int, b: int| 0 <= a < b < r.len() ==> r@[a] < r@[b],
{
    let mut r: Vec<i32> = Vec::new();
    if to < 1 {
        return r;
    }
    let mut present: Vec<bool> = Vec::new();
    let n = to as usize + 1;
    while present.len() < n
        invariant
            present.len() <= n,
            forall|x: int| 0 <= x < present.len() ==> !present@[x],
        decreases n - present.len(),
    {
        present.push(false);
    }
    let mut t: usize = 0;
    while t < triples.len()
        invariant
            n == to + 1,
            present.len() == n,
            0 <= t <= triples.len(),
            forall|x: int| 1 <= x <= to ==> (#[trigger] present@[x] <==> exists|u: int, m: int| 0 <= u < t && 0 <= m < 3 && #[trigger] triples@[u][m] == x),
        decreases triples.len() - t,
    {
        let mut m: usize = 0;
        while m < 3
            invariant
                n == to + 1,
                present.len() == n,
                0 <= t < triples.len(),
                0 <= m <= 3,
                forall|x: int| 1 <= x <= to ==> (#[trigger] present@[x] <==> (exists|u: int, mm: int| 0 <= u < t && 0 <= mm < 3 && #[trigger] triples@[u][mm] == x)
                    || exists|mm: int| 0 <= mm < m && #[trigger] triples@[t as int][mm] == x),
            decreases 3 - m,
        {
            let v = triples[t][m];
            if 1 <= v && v <= to {
                present.set(v as usize, true);
            }
            m += 1;
        }
        proof {
            assert forall|x: int| 1 <= x <= to implies (#[trigger] present@[x] <==> exists|u: int, mm: int| 0 <= u < t + 1 && 0 <= mm < 3 && #[trigger] triples@[u][mm] == x) by {
                if exists|u: int, mm: int| 0 <= u < t + 1 && 0 <= mm < 3 && #[trigger] triples@[u][mm] == x {
                    let (u, mm) = choose|u: int, mm: int| 0 <= u < t + 1 && 0 <= mm < 3 && #[trigger] triples@[u][mm] == x;
                    if u == t {
                        assert(triples@[t as int][mm] == x);
                    }
                }
            }
        }
        t += 1;
    }
    let mut x: i32 = 1;
    while x <= to
        invariant
            to < i32::MAX,
            n == to + 1,
            present.len() == n,
            1 <= x <= to + 1,
            forall|y: int| 1 <= y <= to ==> (#[trigger] present@[y] <==> appears(triples@, y)),
            forall|k: int| 0 <= k < r.len() ==> 1 <= #[trigger] r@[k] < x && !appears(triples@, r@[k] as int),
            forall|y: int| 1 <= y < x && !appears(triples@, y) ==> r@.contains(y as i32),
            forall|a: int, b: int| 0 <= a < b < r.len() ==> r@[a] < r@[b],
        decreases to + 1 - x,
    {
        let ghost before = r@;
        if !present[x as usize] {
            r.push(x);
        }
        proof {
            assert forall|y: int| 1 <= y < x + 1 && !appears(triples@, y) implies r@.contains(y as i32) by {
                if y < x {
                    let k = choose|k: int| 0 <= k < before.len() && before[k] == y as i32;
                    assert(r@[k] == y as i32);
                } else {
                    assert(r@[r.len() - 1] == y as i32);
                }
            }
        }
        x += 1;
    }
    r
}

/// The distinct entries of the triples together with `0`, in increasing order, and each
/// triple with its entries replaced by their places in that list.
pub fn rank_triples(triples: &Vec<[i32; 3]>) -> (r: (Vec<i32>, Vec<[usize; 3]>))
    ensures
        forall|i: int, j: int| 0 <= i < j < r.0.len() ==> r.0@[i] < r.0@[j],
        forall|v: int| (#[trigger] r.0@.contains(v as i32) && i32::MIN <= v <= i32::MAX) <==> (v == 0 || appears(triples@, v)),
        r.1.len() == triples.len(),
        forall|t: int, m: int| 0 <= t < triples.len() && 0 <= m < 3 ==> (#[trigger] r.1@[t][m]) < r.0.len() && r.0@[r.1@[t][m] as int] == triples@[t][m],
{
    let mut set = IntSet::new();
    set.insert(0);
    proof {
        let p = choose|p: int| 0 <= p <= 0 && set.listing() == Seq::<i32>::empty().insert(p, 0);
        assert(set.listing() =~= seq![0i32]);
        assert forall|v: i32| #[trigger] set.listing().contains(v) <==> v == 0 by {
            if v == 0 {
                assert(set.listing()[0] == v);
            }
        }
    }
    let mut t: usize = 0;
    while t < triples.len()
        invariant
            set.wf(),
            0 <= t <= triples.len(),
            forall|v: i32| #[trigger] set.listing().contains(v) <==> (v == 0 || exists|u: int, m: int| 0 <= u < t && 0 <= m < 3 && #[trigger] triples@[u][m] == v),
        decreases triples.len() - t,
    {
        let mut m: usize = 0;
        while m < 3
            invariant
                set.wf(),
                0 <= t < triples.len(),
                0 <= m <= 3,
                forall|v: i32| #[trigger] set.listing().contains(v) <==> (v == 0 || (exists|u: int, mm: int| 0 <= u < t && 0 <= mm < 3 && #[trigger] triples@[u][mm] == v)
                    || exists|mm: int| 0 <= mm < m && #[trigger] triples@[t as int][mm] == v),
            decreases 3 - m,
        {
            let ghost before = set.listing();
            set.insert(triples[t][m]);
            proof {
                let x = triples@[t as int][m as int];
                if !before.contains(x) {
                    let p = choose|p: int| 0 <= p <= before.len() && set.listing() == before.insert(p, x);
                    assert forall|v: i32| #[trigger] set.listing().contains(v) <==> (before.contains(v) || v == x) by {
                        if set.listing().contains(v) {
                            let k = choose|k: int| 0 <= k < set.listing().len() && set.listing()[k] == v;
                            if k < p {
                                assert(before[k] == v);
                            } else if k > p {
                                assert(before[k - 1] == v);
                            }
                        }
                        if before.contains(v) {
                            let k = choose|k: int| 0 <= k < before.len() && before[k] == v;
                            if k < p {
                                assert(set.listing()[k] == v);
                            } else {
                                assert(set.listing()[k + 1] == v);
                            }
                        }
                        if v == x {
                            assert(set.listing()[p] == v);
                        }
                    }
                }
            }
            m += 1;
        }
        proof {
            assert forall|v: i32| #[trigger] set.listing().contains(v) <==> (v == 0 || exists|u: int, mm: int| 0 <= u < t + 1 && 0 <= mm < 3 && #[trigger] triples@[u][mm] == v) by {
                if exists|u: int, mm: int| 0 <= u < t + 1 && 0 <= mm < 3 && #[trigger] triples@[u][mm] == v {
                    let (u, mm) = choose|u: int, mm: int| 0 <= u < t + 1 && 0 <= mm < 3 && #[trigger] triples@[u][mm] == v;
                    if u == t {
                        assert(triples@[t as int][mm] == v);
                    }
                }
            }
        }
        t += 1;
    }
    proof {
        set.lemma_increasing();
    }
    let mut list: Vec<i32> = Vec::new();
    let mut k: usize = 0;
    while k < set.len()
        invariant
            set.wf(),
            0 <= k <= set.listing().len(),
            list@ == set.listing().subrange(0, k as int),
        decreases set.listing().len() - k,
    {
        list.push(set.item(k));
        proof {
            assert(list@ =~= set.listing().subrange(0, k + 1));
        }
        k += 1;
    }
    proof {
        assert(list@ =~= set.listing());
    }
    let mut ranked: Vec<[usize; 3]> = Vec::new();
    let mut t: usize = 0;
    while t < triples.len()
        invariant
            list@ == set.listing(),
            forall|i: int, j: int| 0 <= i < j < list.len() ==> list@[i] < list@[j],
            forall|v: i32| #[trigger] list@.contains(v) <==> (v == 0 || appears(triples@, v as int)),
            0 <= t <= triples.len(),
            ranked.len() == t,
            forall|u: int, m: int| 0 <= u < t && 0 <= m < 3 ==> (#[trigger] ranked@[u][m]) < list.len() && list@[ranked@[u][m] as int] == triples@[u][m],
        decreases triples.len() - t,
    {
        let e = triples[t];
        proof {
            assert forall|m: int| 0 <= m < 3 implies list@.contains(#[trigger] e[m]) by {
                assert(triples@[t as int][m] == e[m]);
                assert(appears(triples@, e[m] as int));
            }
        }
        let i0 = position(&list, e[0]);
        let i1 = position(&list, e[1]);
        let i2 = position(&list, e[2]);
        ranked.push([i0, i1, i2]);
        t += 1;
    }
    (list, ranked)
}

/// The place of `x` in the increasing list `list`, which holds it.
fn position(list: &Vec<i32>, x: i32) -> (r: usize)
    requires
        forall|i: int, j: int| 0 <= i < j < list.len() ==> list@[i] < list@[j],
        list@.contains(x),
    ensures
        r < list.len(),
        list@[r as int] == x,
{
    let mut lo: usize = 0;
    let mut hi: usize = list.len();
    while lo + 1 < hi
        invariant
            forall|i: int, j: int| 0 <= i < j < list.len() ==> list@[i] < list@[j],
            0 <= lo < hi <= list.len(),
            exists|k: int| lo <= k < hi && list@[k] == x,
        decreases hi - lo,
    {
        let mid = lo + (hi - lo) / 2;
        if list[mid] <= x {
            lo = mid;
        } else {
            hi = mid;
        }
    }
    lo
}

/// The triples `[a, b, c]` with `5 <= c <= to`, each once, by `c` and then by `a`: what
/// [`pythagorean_triples`] returns.
pub open spec fn triple_listing(ts: Seq<[i32; 3]>, to: int) -> bool {
    &&& forall|t: int| 0 <= t < ts.len() ==> 5 <= (#[trigger] ts[t])[2] <= to && triple(ts[t][0] as int, ts[t][1] as int, ts[t][2] as int)
    &&& forall|a: int, b: int, c: int| triple(a, b, c) && 5 <= c <= to ==> exists|t: int| 0 <= t < ts.len() && #[trigger] ts[t] == [a as i32, b as i32, c as i32]
    &&& forall|s: int, t: int| 0 <= s < t < ts.len() ==> triple_before(ts[s], ts[t])
}

/// The numbers of `1..=to` in no triple, in increasing order: what [`lonely_numbers`]
/// returns.
pub open spec fn lonely_listing(xs: Seq<i32>, ts: Seq<[i32; 3]>, to: int) -> bool {
    &&& forall|k: int| 0 <= k < xs.len() ==> 1 <= #[trigger] xs[k] <= to && !appears(ts, xs[k] as int)
    &&& forall|x: int| 1 <= x <= to && !appears(ts, x) ==> xs.contains(x as i32)
    &&& forall|a: int, b: int| 0 <= a < b < xs.len() ==> xs[a] < xs[b]
}

/// The unit clauses `[x]`.
pub open spec fn unit_clauses(xs: Seq<i32>) -> Seq<Seq<int>> {
    Seq::new(xs.len(), |k: int| seq![xs[k] as int])
}

/// For each triple of variables, the clause that one of them is true, then the clause that
/// one of them is false.
pub open spec fn triple_clauses(ts: Seq<Seq<int>>) -> Seq<Seq<int>> {
    Seq::new(2 * ts.len(), |k: int| if k % 2 == 0 { ts[k / 2] } else { negated(ts[k / 2]) })
}

/// The negations of the literals.
pub open spec fn negated(c: Seq<int>) -> Seq<int> {
    c.map_values(|x: int| -x)
}

/// The triples as sequences of integers.
pub open spec fn triple_ints(ts: Seq<[i32; 3]>) -> Seq<Seq<int>> {
    Seq::new(ts.len(), |t: int| seq![ts[t][0] as int, ts[t][1] as int, ts[t][2] as int])
}

/// The ranked triples as sequences of integers.
pub open spec fn rank_ints(ts: Seq<[usize; 3]>) -> Seq<Seq<int>> {
    Seq::new(ts.len(), |t: int| seq![ts[t][0] as int, ts[t][1] as int, ts[t][2] as int])
}

/// The clauses, each as a sequence of integers.
pub open spec fn clause_ints(lines: Seq<Vec<i64>>) -> Seq<Seq<int>> {
    Seq::new(lines.len(), |k: int| lines[k]@.map_values(|x: i64| x as int))
}

/// The CNF of the two-colouring of `1..=to` in which no Pythagorean triple is of one
/// colour: the triples, the numbers in none of them, the header's counts and the clauses.
pub struct TripleCnf {
    pub triples: Vec<[i32; 3]>,
    pub lonely: Vec<i32>,
    pub vars: i32,
    pub clauses: i128,
    pub lines: Vec<Vec<i64>>,
}

/// Appends the unit clause `[x]` for each `x`.
fn push_units(lines: &mut Vec<Vec<i64>>, xs: &Vec<i32>)
    ensures
        clause_ints(final(lines)@) == clause_ints(old(lines)@) + unit_clauses(xs@),
{
    let ghost start = clause_ints(lines@);
    let mut k: usize = 0;
    while k < xs.len()
        invariant
            0 <= k <= xs.len(),
            clause_ints(lines@) == start + unit_clauses(xs@.subrange(0, k as int)),
        decreases xs.len() - k,
    {
        let ghost before = lines@;
        lines.push(vec![xs[k] as i64]);
        proof {
            let l = vec_view_one(xs[k as int] as i64);
            assert(clause_ints(lines@) =~= start + unit_clauses(xs@.subrange(0, k + 1))) by {
                assert(lines@[lines@.len() - 1]@.map_values(|x: i64| x as int) =~= seq![xs[k as int] as int]);
                assert forall|j: int| 0 <= j < before.len() implies #[trigger] lines@[j] == before[j] by {}
                assert(clause_ints(lines@) =~= clause_ints(before).push(seq![xs[k as int] as int]));
            }
        }
        k += 1;
    }
    proof {
        assert(xs@.subrange(0, xs.len() as int) =~= xs@);
    }
}

/// The one-element sequence, as a view.
spec fn vec_view_one(x: i64) -> Seq<i64> {
    seq![x]
}

/// Appends, for each triple `[a, b, c]` of `ts`, the clauses `[a, b, c]` and `[-a, -b, -c]`.
fn push_triples_clauses(lines: &mut Vec<Vec<i64>>, ts: &Vec<[i64; 3]>)
    requires
        forall|t: int, m: int| 0 <= t < ts.len() && 0 <= m < 3 ==> #[trigger] ts@[t][m] > i64::MIN,
    ensures
        clause_ints(final(lines)@) == clause_ints(old(lines)@) + triple_clauses(
            Seq::new(ts.len() as nat, |t: int| seq![ts@[t][0] as int, ts@[t][1] as int, ts@[t][2] as int]),
        ),
{
    let ghost start = clause_ints(lines@);
    let ghost tv = Seq::new(ts.len() as nat, |t: int| seq![ts@[t][0] as int, ts@[t][1] as int, ts@[t][2] as int]);
    let mut k: usize = 0;
    while k < ts.len()
        invariant
            0 <= k <= ts.len(),
            tv == Seq::new(ts.len() as nat, |t: int| seq![ts@[t][0] as int, ts@[t][1] as int, ts@[t][2] as int]),
            forall|t: int, m: int| 0 <= t < ts.len() && 0 <= m < 3 ==> #[trigger] ts@[t][m] > i64::MIN,
            clause_ints(lines@) == start + triple_clauses(tv.subrange(0, k as int)),
        decreases ts.len() - k,
    {
        let e = ts[k];
        assert(e[0] > i64::MIN && e[1] > i64::MIN && e[2] > i64::MIN) by {
            assert(ts@[k as int][0] > i64::MIN);
            assert(ts@[k as int][1] > i64::MIN);
            assert(ts@[k as int][2] > i64::MIN);
        }
        let ghost before = lines@;
        lines.push(vec![e[0], e[1], e[2]]);
        let ghost mid = lines@;
        let (n0, n1, n2) = (-e[0], -e[1], -e[2]);
        lines.push(vec![n0, n1, n2]);
        proof {
            let pos = seq![e[0] as int, e[1] as int, e[2] as int];
            let neg = negated(pos);
            assert(lines@[lines@.len() - 2]@.map_values(|x: i64| x as int) =~= pos);
            assert(lines@[lines@.len() - 1]@.map_values(|x: i64| x as int) =~= neg);
            assert(clause_ints(lines@) =~= clause_ints(before).push(pos).push(neg)) by {
                assert forall|j: int| 0 <= j < before.len() implies #[trigger] lines@[j] == before[j] by {}
            }
            assert(tv[k as int] == pos);
            assert(triple_clauses(tv.subrange(0, k + 1)) =~= triple_clauses(tv.subrange(0, k as int)).push(pos).push(neg)) by {
                let a = triple_clauses(tv.subrange(0, k + 1));
                let b = triple_clauses(tv.subrange(0, k as int)).push(pos).push(neg);
                assert forall|j: int| 0 <= j < a.len() implies a[j] == b[j] by {
                    if j < 2 * k {
                        assert(tv.subrange(0, k + 1)[j / 2] == tv.subrange(0, k as int)[j / 2]);
                    }
                }
            }
        }
        k += 1;
    }
    proof {
        assert(tv.subrange(0, ts.len() as int) =~= tv);
    }
}

/// A strictly increasing list of `i32` values has at most `2^32` entries.
proof fn lemma_increasing_len(s: Seq<i32>)
    requires
        forall|i: int, j: int| 0 <= i < j < s.len() ==> s[i] < s[j],
    ensures
        s.len() <= 0x1_0000_0000,
{
    if s.len() > 0x1_0000_0000 {
        lemma_increasing_from(s, 0x1_0000_0000);
    }
}

proof fn lemma_increasing_from(s: Seq<i32>, k: int)
    requires
        forall|i: int, j: int| 0 <= i < j < s.len() ==> s[i] < s[j],
        0 <= k < s.len(),
    ensures
        s[k] >= i32::MIN + k,
    decreases k,
{
    if k > 0 {
        lemma_increasing_from(s, k - 1);
        assert(s[k - 1] < s[k]);
    }
}

/// The CNF on the numbers themselves: variable `x` is the colour of `x`. A number in no
/// triple is set true; each triple `[a, b, c]` of [`pythagorean_triples`] gives the clauses
/// `[a, b, c]` and `[-a, -b, -c]`. The header counts `to` variables and the clauses.
pub fn full_cnf(to: i32) -> (r: TripleCnf)
    requires
        to < i32::MAX,
    ensures
        triple_listing(r.triples@, to as int),
        lonely_listing(r.lonely@, r.triples@, to as int),
        r.vars == to,
        r.clauses == 2 * r.triples.len() + r.lonely.len(),
        clause_ints(r.lines@) == unit_clauses(r.lonely@) + triple_clauses(triple_ints(r.triples@)),
        forall|v: spec_fn(int) -> bool| #[trigger] all_hold(v, clause_ints(r.lines@)) <==> two_colouring(v, to as int),
{
    let triples = pythagorean_triples(to);
    let lonely = lonely_numbers(to, &triples);
    let mut wide: Vec<[i64; 3]> = Vec::new();
    let mut t: usize = 0;
    while t < triples.len()
        invariant
            0 <= t <= triples.len(),
            wide.len() == t,
            forall|u: int, m: int| 0 <= u < t && 0 <= m < 3 ==> #[trigger] wide@[u][m] == triples@[u][m] as i64,
        decreases triples.len() - t,
    {
        let e = triples[t];
        wide.push([e[0] as i64, e[1] as i64, e[2] as i64]);
        t += 1;
    }
    let mut lines: Vec<Vec<i64>> = Vec::new();
    proof {
        assert(clause_ints(lines@) =~= Seq::<Seq<int>>::empty());
    }
    push_units(&mut lines, &lonely);
    push_triples_clauses(&mut lines, &wide);
    proof {
        assert(Seq::new(wide.len() as nat, |u: int| seq![wide@[u][0] as int, wide@[u][1] as int, wide@[u][2] as int]) =~= triple_ints(triples@));
        assert(unit_clauses(lonely@) + triple_clauses(triple_ints(triples@)) =~= clause_ints(lines@));
        lemma_full_models(to as int, triples@, lonely@, clause_ints(lines@));
        assert(clause_ints(lines@).len() == lines@.len());
        assert(lines.len() == lonely.len() + 2 * triples.len());
    }
    let clauses = lines.len() as i128;
    TripleCnf { triples, lonely, vars: to, clauses, lines }
}

/// The CNF with each number of a triple replaced by its rank among the numbers that occur in
/// triples, from 1 up (rank 0 is that of 0): each triple gives the clauses of its ranks.
/// The numbers in no triple still get their unit clauses on their own numbers. The header
/// counts `to` variables and `2 * triples + to - ranks` clauses, `ranks` counting 0 and the
/// numbers in triples, which is one less than the clauses.
pub fn ranked_cnf(to: i32) -> (r: (TripleCnf, Vec<i32>, Vec<[usize; 3]>))
    requires
        to < i32::MAX,
    ensures
        triple_listing(r.0.triples@, to as int),
        lonely_listing(r.0.lonely@, r.0.triples@, to as int),
        forall|i: int, j: int| 0 <= i < j < r.1.len() ==> r.1@[i] < r.1@[j],
        forall|v: int| (#[trigger] r.1@.contains(v as i32) && i32::MIN <= v <= i32::MAX) <==> (v == 0 || appears(r.0.triples@, v)),
        r.2.len() == r.0.triples.len(),
        forall|t: int, m: int| 0 <= t < r.0.triples.len() && 0 <= m < 3 ==> (#[trigger] r.2@[t][m]) < r.1.len() && r.1@[r.2@[t][m] as int] == r.0.triples@[t][m],
        r.0.vars == to,
        r.0.clauses == 2 * r.0.triples.len() + to - r.1.len(),
        clause_ints(r.0.lines@) == unit_clauses(r.0.lonely@) + triple_clauses(rank_ints(r.2@)),
{
    let triples = pythagorean_triples(to);
    let lonely = lonely_numbers(to, &triples);
    let (values, ranked) = rank_triples(&triples);
    proof {
        lemma_increasing_len(values@);
    }
    let mut wide: Vec<[i64; 3]> = Vec::new();
    let mut t: usize = 0;
    while t < ranked.len()
        invariant
            0 <= t <= ranked.len(),
            ranked.len() == triples.len(),
            values.len() <= 0x1_0000_0000,
            forall|u: int, m: int| 0 <= u < triples.len() && 0 <= m < 3 ==> (#[trigger] ranked@[u][m]) < values.len(),
            wide.len() == t,
            forall|u: int, m: int| 0 <= u < t && 0 <= m < 3 ==> #[trigger] wide@[u][m] == ranked@[u][m] as i64 && wide@[u][m] >= 0,
        decreases ranked.len() - t,
    {
        let e = ranked[t];
        assert(e[0] < values.len() && e[1] < values.len() && e[2] < values.len()) by {
            assert(ranked@[t as int][0] < values.len());
            assert(ranked@[t as int][1] < values.len());
            assert(ranked@[t as int][2] < values.len());
        }
        wide.push([e[0] as i64, e[1] as i64, e[2] as i64]);
        t += 1;
    }
    let mut lines: Vec<Vec<i64>> = Vec::new();
    proof {
        assert(clause_ints(lines@) =~= Seq::<Seq<int>>::empty());
    }
    push_units(&mut lines, &lonely);
    push_triples_clauses(&mut lines, &wide);
    proof {
        assert(Seq::new(wide.len() as nat, |u: int| seq![wide@[u][0] as int, wide@[u][1] as int, wide@[u][2] as int]) =~= rank_ints(ranked@));
        assert(unit_clauses(lonely@) + triple_clauses(rank_ints(ranked@)) =~= clause_ints(lines@));
    }
    let clauses = 2 * (triples.len() as i128) + to as i128 - values.len() as i128;
    (TripleCnf { triples, lonely, vars: to, clauses, lines }, values, ranked)
}

/// Every clause holds under `v`.
pub open spec fn all_hold(v: spec_fn(int) -> bool, cs: Seq<Seq<int>>) -> bool {
    forall|k: int| 0 <= k < cs.len() ==> #[trigger] clause_holds(v, cs[k])
}

/// `v` colours `1..=to` in two colours (true and false) with every number in no triple
/// true and no triple of one colour.
pub open spec fn two_colouring(v: spec_fn(int) -> bool, to: int) -> bool {
    &&& forall|x: int| 1 <= x <= to && !in_some_triple(x, to) ==> #[trigger] v(x)
    &&& forall|a: int, b: int, c: int| triple(a, b, c) && 5 <= c <= to ==> !(v(a) == v(b) && v(b) == v(c))
}

/// `x` is an entry of a triple `[a, b, c]` with `5 <= c <= to`.
pub open spec fn in_some_triple(x: int, to: int) -> bool {
    exists|a: int, b: int, c: int| triple(a, b, c) && 5 <= c <= to && #[trigger] on_triple(x, a, b, c)
}

/// `x` is one of `a`, `b`, `c`.
pub open spec fn on_triple(x: int, a: int, b: int, c: int) -> bool {
    x == a || x == b || x == c
}

/// A number of `1..=to` is in a listed triple exactly when it is an entry of a triple.
proof fn lemma_appears_iff(to: int, ts: Seq<[i32; 3]>, x: int)
    requires
        triple_listing(ts, to),
        to < i32::MAX,
        1 <= x <= to,
    ensures
        appears(ts, x) <==> in_some_triple(x, to),
{
    if appears(ts, x) {
        let (t, m) = choose|t: int, m: int| 0 <= t < ts.len() && 0 <= m < 3 && #[trigger] ts[t][m] == x;
        assert(on_triple(x, ts[t][0] as int, ts[t][1] as int, ts[t][2] as int));
    }
    if in_some_triple(x, to) {
        let (a, b, c) = choose|a: int, b: int, c: int| triple(a, b, c) && 5 <= c <= to && #[trigger] on_triple(x, a, b, c);
        let t = choose|t: int| 0 <= t < ts.len() && #[trigger] ts[t] == [a as i32, b as i32, c as i32];
        lemma_triple_range(a, b, c, to);
        if x == a {
            assert(ts[t][0] == x);
        } else if x == b {
            assert(ts[t][1] == x);
        } else {
            assert(ts[t][2] == x);
        }
    }
}

/// A model of the clauses is such a colouring.
proof fn lemma_full_sound(v: spec_fn(int) -> bool, to: int, ts: Seq<[i32; 3]>, lonely: Seq<i32>, cs: Seq<Seq<int>>)
    requires
        triple_listing(ts, to),
        lonely_listing(lonely, ts, to),
        to < i32::MAX,
        cs == unit_clauses(lonely) + triple_clauses(triple_ints(ts)),
        all_hold(v, cs),
    ensures
        two_colouring(v, to),
{
    let us = unit_clauses(lonely);
    let tc = triple_clauses(triple_ints(ts));
    assert forall|x: int| 1 <= x <= to && !in_some_triple(x, to) implies #[trigger] v(x) by {
        lemma_appears_iff(to, ts, x);
        assert(lonely.contains(x as i32));
        let k = choose|k: int| 0 <= k < lonely.len() && lonely[k] == x as i32;
        assert(cs[k] == us[k]);
        assert(clause_holds(v, cs[k]));
        assert(us[k] =~= seq![x]);
    }
    assert forall|a: int, b: int, c: int| triple(a, b, c) && 5 <= c <= to implies !(v(a) == v(b) && v(b) == v(c)) by {
        let t = choose|t: int| 0 <= t < ts.len() && #[trigger] ts[t] == [a as i32, b as i32, c as i32];
        lemma_triple_range(a, b, c, to);
        let p = seq![a, b, c];
        let n = negated(p);
        assert(triple_ints(ts)[t] =~= p);
        assert(cs[lonely.len() + 2 * t] == tc[2 * t]);
        assert(cs[lonely.len() + 2 * t + 1] == tc[2 * t + 1]);
        assert(clause_holds(v, cs[lonely.len() + 2 * t]));
        assert(clause_holds(v, cs[lonely.len() + 2 * t + 1]));
        if v(a) == v(b) && v(b) == v(c) {
            let q1 = choose|q: int| 0 <= q < p.len() && lit_holds(v, #[trigger] p[q]);
            let q2 = choose|q: int| 0 <= q < n.len() && lit_holds(v, #[trigger] n[q]);
            assert(p[q1] == a || p[q1] == b || p[q1] == c);
            assert(n[q2] == -p[q2]);
        }
    }
}

/// Such a colouring is a model of the clauses.
proof fn lemma_full_complete(v: spec_fn(int) -> bool, to: int, ts: Seq<[i32; 3]>, lonely: Seq<i32>, cs: Seq<Seq<int>>)
    requires
        triple_listing(ts, to),
        lonely_listing(lonely, ts, to),
        to < i32::MAX,
        cs == unit_clauses(lonely) + triple_clauses(triple_ints(ts)),
        two_colouring(v, to),
    ensures
        all_hold(v, cs),
{
    let tc = triple_clauses(triple_ints(ts));
    assert forall|k: int| 0 <= k < cs.len() implies #[trigger] clause_holds(v, cs[k]) by {
        if k < lonely.len() {
            let x = lonely[k] as int;
            assert(cs[k] =~= seq![x]);
            lemma_appears_iff(to, ts, x);
            assert(v(x));
            assert(lit_holds(v, cs[k][0]));
        } else {
            let j = k - lonely.len();
            let t = j / 2;
            assert(cs[k] == tc[j]);
            let (a, b, c) = (ts[t][0] as int, ts[t][1] as int, ts[t][2] as int);
            assert(triple(a, b, c) && 5 <= c <= to);
            lemma_triple_range(a, b, c, to);
            let p = seq![a, b, c];
            let n = negated(p);
            assert(triple_ints(ts)[t] =~= p);
            if j % 2 == 0 {
                assert(tc[j] == p);
                if v(a) {
                    assert(lit_holds(v, p[0]));
                } else if v(b) {
                    assert(lit_holds(v, p[1]));
                } else {
                    assert(lit_holds(v, p[2]));
                }
            } else {
                assert(tc[j] == n);
                if !v(a) {
                    assert(lit_holds(v, n[0]));
                } else if !v(b) {
                    assert(lit_holds(v, n[1]));
                } else {
                    assert(lit_holds(v, n[2]));
                }
            }
        }
    }
}

/// The models of the CNF of [`full_cnf`] are the two-colourings of `1..=to` with no triple
/// of one colour and every number in no triple true.
pub proof fn lemma_full_models(to: int, ts: Seq<[i32; 3]>, lonely: Seq<i32>, cs: Seq<Seq<int>>)
    requires
        triple_listing(ts, to),
        lonely_listing(lonely, ts, to),
        to < i32::MAX,
        cs == unit_clauses(lonely) + triple_clauses(triple_ints(ts)),
    ensures
        forall|v: spec_fn(int) -> bool| #[trigger] all_hold(v, cs) <==> two_colouring(v, to),
{
    assert forall|v: spec_fn(int) -> bool| #[trigger] all_hold(v, cs) <==> two_colouring(v, to) by {
        if all_hold(v, cs) {
            lemma_full_sound(v, to, ts, lonely, cs);
        }
        if two_colouring(v, to) {
            lemma_full_complete(v, to, ts, lonely, cs);
        }
    }
}

/// The entries of a triple are positive and below `2^31`.
proof fn lemma_triple_range(a: int, b: int, c: int, to: int)
    requires
        triple(a, b, c),
        5 <= c <= to,
        to < i32::MAX,
    ensures
        1 <= a <= b < c,
{
    if b >= c {
        assert(b * b >= c * c) by (nonlinear_arith)
            requires
                b >= c,
                c >= 5,
        ;
        assert(a * a >= 1) by (nonlinear_arith)
            requires
                a >= 1,
        ;
    }
}

} // verus!
